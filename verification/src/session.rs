//! The conversion session: owns the request lifecycle over a composing
//! buffer, ranks candidates against a loaded dictionary and scorer, and
//! supersedes any outstanding search when a new request or a
//! stop-composition arrives.
//!
//! Cancellation is modelled with a generation counter: every new request
//! and every stop-composition advances the session's generation, and only a
//! search begun at the session's current generation may have its result
//! delivered. A superseded search can therefore never be observed.

use vstd::prelude::*;

use crate::composing::ComposingText;
use crate::dictionary::{Dictionary, DictionaryEntry};
use crate::lattice::{
    lemma_paths_from_exhausted, lemma_ranked_paths_props, path_bounded, ranked_paths, raw_view,
    raw_views, search_ranked, sorted_by_rank, PathInfo, MAX_CANDIDATES, MAX_COMPOSING_LEN,
};
use crate::scorer::Scorer;

verus! {

/// One conversion candidate: the rendered surface text and how many
/// phonetic units of the buffer, counted from position 0, it consumes.
#[derive(Debug, Clone, PartialEq)]
pub struct Candidate {
    pub text: String,
    pub corresponding_count: i32,
}

/// The candidate list renders the path list: same length, and element by
/// element the same surface text and covered-unit count.
pub open spec fn candidates_match_paths(cands: Seq<Candidate>, paths: Seq<PathInfo>) -> bool {
    &&& cands.len() == paths.len()
    &&& forall|k: int| 0 <= k < cands.len() ==> (#[trigger] cands[k]).text@ == paths[k].surface
        && cands[k].corresponding_count as int == paths[k].end
}

/// A kana-kanji conversion session.
///
/// Holds the generation counter of the in-flight search; the composing
/// buffer is owned by the caller and passed into each operation, and the
/// dictionary and scorer are shared, read-only resources.
pub struct KanaKanjiConverter {
    generation: u64,
}

impl KanaKanjiConverter {
    /// The generation of the most recent request; a search is only
    /// deliverable while its generation is current.
    pub closed spec fn current_generation(&self) -> u64 {
        self.generation
    }

    /// A search begun at `search_generation` may still deliver its result.
    pub open spec fn is_current_search(&self, search_generation: u64) -> bool {
        search_generation == self.current_generation()
    }

    /// Creates a fresh session with no search outstanding.
    pub fn new() -> (r: KanaKanjiConverter)
        ensures
            r.current_generation() == 0,
    {
        KanaKanjiConverter { generation: 0 }
    }

    /// The generation a search issued now would run at; exposed so an
    /// embedding that runs searches elsewhere can recheck deliverability.
    pub fn search_generation(&self) -> (r: u64)
        ensures
            r == self.current_generation(),
    {
        self.generation
    }

    /// Whether a search begun at `search_generation` is still current.
    pub fn search_is_current(&self, search_generation: u64) -> (r: bool)
        ensures
            r == self.is_current_search(search_generation),
    {
        search_generation == self.generation
    }

    /// Produces the ranked conversion candidates for the current buffer and
    /// left context: every lattice path over the dictionary, ranked
    /// best-first (lower cost, then more coverage, then lexicographically
    /// smaller surface), cut to `MAX_CANDIDATES`. Any outstanding search is
    /// superseded first, so only this request's results are observable. An
    /// empty buffer yields an empty list.
    pub fn request_candidates(
        &mut self,
        composing_text: &ComposingText,
        context: &str,
        dictionary: &Dictionary,
        scorer: &Scorer,
    ) -> (r: Vec<Candidate>)
        requires
            old(self).current_generation() < u64::MAX,
            composing_text.units_view().len() <= MAX_COMPOSING_LEN,
        ensures
            final(self).current_generation() == old(self).current_generation() + 1,
            forall|g: u64| old(self).is_current_search(g) ==> !final(self).is_current_search(g),
            candidates_match_paths(
                r@,
                ranked_paths(
                    dictionary.entries_view(),
                    *scorer,
                    composing_text.units_view(),
                    context@,
                ),
            ),
            sorted_by_rank(
                ranked_paths(
                    dictionary.entries_view(),
                    *scorer,
                    composing_text.units_view(),
                    context@,
                ),
            ),
            r@.len() <= MAX_CANDIDATES,
            forall|k: int| 0 <= k < r@.len() ==> 1 <= (#[trigger] r@[k]).corresponding_count
                && r@[k].corresponding_count <= composing_text.units_view().len(),
            composing_text.units_view().len() == 0 ==> r@.len() == 0,
    {
        self.generation = self.generation + 1;
        let ghost dseq = dictionary.entries_view();
        let ghost bseq = composing_text.units_view();
        let ghost cseq = context@;
        let raw = search_ranked(dictionary, scorer, composing_text, context);
        let ghost rp = ranked_paths(dseq, *scorer, bseq, cseq);
        proof {
            lemma_ranked_paths_props(dseq, *scorer, bseq, cseq);
            if bseq.len() == 0 {
                lemma_paths_from_exhausted(
                    dseq,
                    *scorer,
                    bseq,
                    crate::scorer::spec_context_class(cseq),
                    0,
                );
            }
        }
        let m: usize = raw.len();
        let mut out: Vec<Candidate> = Vec::new();
        let mut i: usize = 0;
        while i < m
            invariant
                i <= m,
                m == raw@.len(),
                raw_views(raw@) == rp,
                forall|k: int| 0 <= k < rp.len() ==> path_bounded(
                    #[trigger] rp[k],
                    0,
                    bseq.len() as int,
                ),
                bseq.len() <= MAX_COMPOSING_LEN,
                out@.len() == i,
                forall|k: int| 0 <= k < i ==> (#[trigger] out@[k]).text@ == rp[k].surface
                    && out@[k].corresponding_count as int == rp[k].end,
            decreases m - i,
        {
            proof {
                assert(raw_views(raw@)[i as int] == raw_view(raw@[i as int]));
                assert(path_bounded(rp[i as int], 0, bseq.len() as int));
            }
            let cc: i32 = raw[i].end as i32;
            out.push(Candidate { text: raw[i].surface.clone(), corresponding_count: cc });
            i = i + 1;
        }
        out
    }

    /// Ends the composition: empties the buffer, returns the cursor to 0,
    /// and supersedes any outstanding search, whose result can then never
    /// be delivered.
    pub fn stop_composition(&mut self, composing_text: &mut ComposingText)
        requires
            old(self).current_generation() < u64::MAX,
        ensures
            final(composing_text).wf(),
            final(composing_text).units_view() == Seq::<char>::empty(),
            final(composing_text).cursor_at() == 0,
            final(self).current_generation() == old(self).current_generation() + 1,
            forall|g: u64| old(self).is_current_search(g) ==> !final(self).is_current_search(g),
    {
        self.generation = self.generation + 1;
        composing_text.reset();
    }
}

/// A superseded search stays cancelled: once the session has moved to a
/// later generation, a search begun at an earlier one can never again be
/// current, so its result is never observable.
pub proof fn lemma_superseded_search_never_delivered(session: KanaKanjiConverter, g: u64)
    requires
        g < session.current_generation(),
    ensures
        !session.is_current_search(g),
{
}

/// Conversion is deterministic: for one dictionary, scorer, buffer and left
/// context, any two candidate lists that render the ranked paths agree
/// element by element, in surface text and in covered-unit count.
pub proof fn lemma_request_candidates_deterministic(
    r1: Seq<Candidate>,
    r2: Seq<Candidate>,
    dict: Seq<DictionaryEntry>,
    sc: Scorer,
    buf: Seq<char>,
    ctx: Seq<char>,
)
    requires
        candidates_match_paths(r1, ranked_paths(dict, sc, buf, ctx)),
        candidates_match_paths(r2, ranked_paths(dict, sc, buf, ctx)),
    ensures
        r1.len() == r2.len(),
        forall|k: int| 0 <= k < r1.len() ==> (#[trigger] r1[k]).text@ == r2[k].text@
            && r1[k].corresponding_count == r2[k].corresponding_count,
{
}

} // verus!
