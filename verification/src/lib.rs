//! A kana-kanji conversion engine: a cursor-addressable phonetic composing
//! buffer, a dictionary of readings with surface forms, a deterministic
//! context-sensitive scorer, and a lattice search that turns the current
//! buffer into a ranked list of conversion candidates.

pub mod composing;
pub mod dictionary;
pub mod errors;
pub mod lattice;
pub mod phonetic;
pub mod scorer;
pub mod session;

pub use composing::ComposingText;
pub use dictionary::{Dictionary, DictionaryEntry};
pub use errors::EngineError;
pub use scorer::Scorer;
pub use session::{Candidate, KanaKanjiConverter};
