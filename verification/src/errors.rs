//! Errors surfaced by the conversion engine.

use vstd::prelude::*;

verus! {

/// Why an engine operation was rejected.
///
/// Ranked candidate requests themselves cannot fail once their resources are
/// loaded: the search is verified to produce only well-formed candidates, so
/// no "internal fault" variant is needed.
#[derive(Debug, Clone, Copy, PartialEq, Eq, Structural)]
pub enum EngineError {
    /// An edit carried symbols outside the phonetic input set; the buffer is
    /// left unchanged.
    InvalidInput,
    /// The dictionary data failed its structural checks at load time.
    DictionaryLoadError,
    /// The scorer weight data failed its structural checks at load time.
    WeightLoadError,
}

} // verus!
