//! The phonetic symbol set accepted in composing buffers and dictionary keys:
//! romaji input letters (lowercase ASCII) and the hiragana block.

use vstd::prelude::*;

verus! {

/// A phonetic input unit: a lowercase ASCII letter (romaji keystroke) or a
/// character of the hiragana block.
pub open spec fn is_phonetic_unit(c: char) -> bool {
    (97 <= c as u32 && c as u32 <= 122) || (0x3041 <= c as u32 && c as u32 <= 0x309F)
}

/// Every character of the sequence is a phonetic unit.
pub open spec fn all_phonetic(s: Seq<char>) -> bool {
    forall|i: int| 0 <= i < s.len() ==> is_phonetic_unit(#[trigger] s[i])
}

/// Runtime check matching `is_phonetic_unit`.
pub fn check_phonetic_unit(c: char) -> (r: bool)
    ensures
        r == is_phonetic_unit(c),
{
    let u = c as u32;
    (97 <= u && u <= 122) || (0x3041 <= u && u <= 0x309F)
}

} // verus!
