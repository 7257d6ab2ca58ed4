//! The composing buffer: the phonetic text currently being edited, with a
//! cursor marking the insertion point. Edits are point insertions and
//! clamped deletions; deleting past either end removes only what is there.

use vstd::prelude::*;

use crate::errors::EngineError;
use crate::phonetic::{all_phonetic, check_phonetic_unit};

verus! {

/// How many units a deletion actually removes: the requested count, clamped
/// to what is available in the requested direction.
pub open spec fn clamp_count(count: int, avail: int) -> int {
    if count <= avail {
        count
    } else {
        avail
    }
}

/// The mutable phonetic input sequence and its cursor.
///
/// Invariant (`wf`): the cursor is always a valid insertion point,
/// `0 <= cursor <= length`.
pub struct ComposingText {
    units: Vec<char>,
    cursor: usize,
}

impl ComposingText {
    /// The phonetic units currently in the buffer.
    pub closed spec fn units_view(&self) -> Seq<char> {
        self.units@
    }

    /// The cursor position, as an insertion point into `units_view()`.
    pub closed spec fn cursor_at(&self) -> int {
        self.cursor as int
    }

    /// Well-formedness: the cursor lies within the buffer.
    pub open spec fn wf(&self) -> bool {
        0 <= self.cursor_at() <= self.units_view().len()
    }

    /// Creates an empty buffer with the cursor at the start.
    pub fn new() -> (r: ComposingText)
        ensures
            r.wf(),
            r.units_view() == Seq::<char>::empty(),
            r.cursor_at() == 0,
    {
        ComposingText { units: Vec::new(), cursor: 0 }
    }

    /// Number of phonetic units in the buffer.
    pub fn len(&self) -> (r: usize)
        ensures
            r == self.units_view().len(),
    {
        self.units.len()
    }

    /// Current cursor position.
    pub fn cursor_position(&self) -> (r: usize)
        ensures
            r == self.cursor_at(),
    {
        self.cursor
    }

    /// The unit at a given position.
    pub fn unit_at(&self, i: usize) -> (r: char)
        requires
            i < self.units_view().len(),
        ensures
            r == self.units_view()[i as int],
    {
        self.units[i]
    }

    /// Inserts `text` at the cursor; the cursor advances to the end of the
    /// inserted text. Input containing any symbol outside the phonetic set is
    /// rejected whole: the buffer and cursor are left unchanged.
    pub fn insert_at_cursor_position(&mut self, text: &str) -> (r: Result<(), EngineError>)
        requires
            old(self).wf(),
        ensures
            final(self).wf(),
            all_phonetic(text@) ==> {
                &&& r == Ok::<(), EngineError>(())
                &&& final(self).units_view() == old(self).units_view().subrange(
                    0,
                    old(self).cursor_at(),
                ) + text@ + old(self).units_view().skip(old(self).cursor_at())
                &&& final(self).cursor_at() == old(self).cursor_at() + text@.len()
            },
            !all_phonetic(text@) ==> {
                &&& r == Err::<(), EngineError>(EngineError::InvalidInput)
                &&& *final(self) == *old(self)
            },
    {
        let tlen = text.unicode_len();
        let mut i: usize = 0;
        while i < tlen
            invariant
                i <= tlen,
                tlen == text@.len(),
                old(self).wf(),
                *self == *old(self),
                forall|j: int| 0 <= j < i ==> crate::phonetic::is_phonetic_unit(#[trigger] text@[j]),
            decreases tlen - i,
        {
            if !check_phonetic_unit(text.get_char(i)) {
                return Err(EngineError::InvalidInput);
            }
            i = i + 1;
        }
        assert(all_phonetic(text@));
        let ghost orig = *self;
        let mut i: usize = 0;
        while i < tlen
            invariant
                i <= tlen,
                tlen == text@.len(),
                orig.wf(),
                self.cursor == orig.cursor,
                self.units@ =~= orig.units@.subrange(0, orig.cursor as int)
                    + text@.subrange(0, i as int) + orig.units@.skip(orig.cursor as int),
            decreases tlen - i,
        {
            assert(self.cursor + i <= self.units.len());
            self.units.insert(self.cursor + i, text.get_char(i));
            proof {
                assert(self.units@ =~= orig.units@.subrange(0, orig.cursor as int)
                    + text@.subrange(0, i + 1 as int) + orig.units@.skip(orig.cursor as int));
            }
            i = i + 1;
        }
        proof {
            assert(text@.subrange(0, tlen as int) =~= text@);
            assert(self.units@ =~= orig.units@.subrange(0, orig.cursor as int) + text@
                + orig.units@.skip(orig.cursor as int));
        }
        let l = self.units.len();
        assert(self.cursor + tlen <= l);
        self.cursor = self.cursor + tlen;
        Ok(())
    }

    /// Removes up to `count` units starting at the cursor; the cursor does
    /// not move. If fewer units remain forward of the cursor, only those are
    /// removed.
    pub fn delete_forward_from_cursor_position(&mut self, count: i32)
        requires
            old(self).wf(),
            count >= 0,
        ensures
            final(self).wf(),
            final(self).cursor_at() == old(self).cursor_at(),
            final(self).units_view() == old(self).units_view().subrange(
                0,
                old(self).cursor_at(),
            ) + old(self).units_view().skip(
                old(self).cursor_at() + clamp_count(
                    count as int,
                    old(self).units_view().len() - old(self).cursor_at(),
                ),
            ),
    {
        let avail = self.units.len() - self.cursor;
        let requested = count as usize;
        let n = if requested < avail {
            requested
        } else {
            avail
        };
        let ghost orig = *self;
        let mut k: usize = 0;
        while k < n
            invariant
                k <= n,
                orig.wf(),
                n == clamp_count(count as int, orig.units@.len() - orig.cursor as int),
                self.cursor == orig.cursor,
                self.units@ =~= orig.units@.subrange(0, orig.cursor as int)
                    + orig.units@.skip(orig.cursor + k),
            decreases n - k,
        {
            assert(self.cursor < self.units.len());
            self.units.remove(self.cursor);
            proof {
                assert(self.units@ =~= orig.units@.subrange(0, orig.cursor as int)
                    + orig.units@.skip(orig.cursor + k + 1));
            }
            k = k + 1;
        }
        proof {
            assert(self.units@ =~= orig.units@.subrange(0, orig.cursor as int)
                + orig.units@.skip(orig.cursor + n));
        }
    }

    /// Removes up to `count` units ending at the cursor; the cursor shifts
    /// backward by the number actually removed. If fewer units lie before the
    /// cursor, only those are removed.
    pub fn delete_backward_from_cursor_position(&mut self, count: i32)
        requires
            old(self).wf(),
            count >= 0,
        ensures
            final(self).wf(),
            final(self).cursor_at() == old(self).cursor_at() - clamp_count(
                count as int,
                old(self).cursor_at(),
            ),
            final(self).units_view() == old(self).units_view().subrange(
                0,
                old(self).cursor_at() - clamp_count(count as int, old(self).cursor_at()),
            ) + old(self).units_view().skip(old(self).cursor_at()),
    {
        let requested = count as usize;
        let n = if requested < self.cursor {
            requested
        } else {
            self.cursor
        };
        let ghost orig = *self;
        let mut k: usize = 0;
        while k < n
            invariant
                k <= n,
                orig.wf(),
                n == clamp_count(count as int, orig.cursor as int),
                n <= orig.cursor,
                self.cursor == orig.cursor - k,
                self.units@ =~= orig.units@.subrange(0, orig.cursor - k)
                    + orig.units@.skip(orig.cursor as int),
            decreases n - k,
        {
            self.cursor = self.cursor - 1;
            assert(self.cursor < self.units.len());
            self.units.remove(self.cursor);
            proof {
                assert(self.units@ =~= orig.units@.subrange(0, orig.cursor - (k + 1))
                    + orig.units@.skip(orig.cursor as int));
            }
            k = k + 1;
        }
    }

    /// Empties the buffer and returns the cursor to 0.
    pub fn reset(&mut self)
        ensures
            final(self).wf(),
            final(self).units_view() == Seq::<char>::empty(),
            final(self).cursor_at() == 0,
    {
        self.units.clear();
        self.cursor = 0;
    }
}

} // verus!
