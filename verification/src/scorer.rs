//! The language-model scorer: a deterministic, context-conditioned cost.
//!
//! The ranking contract of the engine only needs the scorer to be a pure
//! function of its loaded weights, the left context and the path, with lower
//! cost meaning higher plausibility. The concrete formula here is a simple
//! class-transition table: each lattice edge from a word class `prev` to an
//! entry adds the entry's base cost plus a weight picked from the table by
//! the class pair. The left context contributes the class seeding the first
//! transition.

use vstd::prelude::*;

use crate::dictionary::DictionaryEntry;
use crate::errors::EngineError;

verus! {

/// Upper bound on the cost a single lattice edge can contribute: a base cost
/// and a transition weight, each at most `u32::MAX`.
pub const STEP_COST_BOUND: u64 = 0x2_0000_0000;

/// The class an empty left context seeds the search with.
pub const NEUTRAL_CONTEXT_CLASS: u32 = 0;

/// The word class a left context conditions the first transition with:
/// neutral for an empty context, else derived from its final character.
pub open spec fn spec_context_class(ctx: Seq<char>) -> u32 {
    if ctx.len() == 0 {
        NEUTRAL_CONTEXT_CLASS
    } else {
        ctx.last() as u32
    }
}

/// Runtime computation matching `spec_context_class`.
pub fn context_class(ctx: &str) -> (r: u32)
    ensures
        r == spec_context_class(ctx@),
{
    let n = ctx.unicode_len();
    if n == 0 {
        NEUTRAL_CONTEXT_CLASS
    } else {
        ctx.get_char(n - 1) as u32
    }
}

/// A loaded, immutable scorer. Read-only after loading, so it may be shared
/// freely across sessions.
pub struct Scorer {
    class_weights: Vec<u32>,
}

impl Scorer {
    /// The loaded transition weight table.
    pub closed spec fn weights_view(&self) -> Seq<u32> {
        self.class_weights@
    }

    /// A loaded scorer has a non-empty weight table.
    pub open spec fn wf(&self) -> bool {
        self.weights_view().len() >= 1
    }

    /// Loads a scorer from its weight table; an empty table is structurally
    /// invalid weight data.
    pub fn new(class_weights: Vec<u32>) -> (r: Result<Scorer, EngineError>)
        ensures
            class_weights@.len() >= 1 ==> (r matches Ok(s) && s.weights_view() == class_weights@),
            class_weights@.len() == 0 ==> (r matches Err(e) && e == EngineError::WeightLoadError),
    {
        if class_weights.len() == 0 {
            Err(EngineError::WeightLoadError)
        } else {
            Ok(Scorer { class_weights })
        }
    }

    /// The weight the table assigns to an edge from class `prev` to class
    /// `next`.
    pub open spec fn trans_weight(&self, prev: u32, next: u32) -> int {
        if self.weights_view().len() == 0 {
            0
        } else {
            self.weights_view()[(prev + next) % (self.weights_view().len() as int)] as int
        }
    }

    /// The cost one lattice edge contributes: the entry's base cost plus the
    /// context-conditioned transition weight.
    pub open spec fn step_cost(&self, prev: u32, e: DictionaryEntry) -> int {
        e.cost as int + self.trans_weight(prev, e.word_class)
    }

    /// Every edge cost is non-negative and below `STEP_COST_BOUND`.
    pub proof fn lemma_step_cost_bound(&self, prev: u32, e: DictionaryEntry)
        ensures
            0 <= self.step_cost(prev, e) < STEP_COST_BOUND,
    {
    }

    /// Runtime computation matching `step_cost`.
    pub fn step_cost_exec(&self, prev: u32, e: &DictionaryEntry) -> (r: u64)
        ensures
            r as int == self.step_cost(prev, *e),
    {
        let n = self.class_weights.len();
        let w: u32 = if n == 0 {
            0
        } else {
            let idx = ((prev as u64 + e.word_class as u64) % (n as u64)) as usize;
            self.class_weights[idx]
        };
        e.cost as u64 + w as u64
    }
}

} // verus!
