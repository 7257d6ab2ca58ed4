//! The dictionary: an immutable collection of entries mapping a phonetic
//! reading to a surface form with a base cost and a word-class tag. Loading
//! validates every entry's reading (non-empty, phonetic symbols only);
//! invalid data is rejected whole.

use vstd::prelude::*;

use crate::errors::EngineError;
use crate::phonetic::{all_phonetic, check_phonetic_unit};

verus! {

/// One dictionary entry: a phonetic reading, the surface form it renders to,
/// a base cost (lower = more likely), and an opaque word-class tag consumed
/// by the scorer.
#[derive(Debug)]
pub struct DictionaryEntry {
    pub key: String,
    pub surface: String,
    pub cost: u32,
    pub word_class: u32,
}

impl Clone for DictionaryEntry {
    fn clone(&self) -> (r: DictionaryEntry)
        ensures
            r == *self,
    {
        DictionaryEntry {
            key: self.key.clone(),
            surface: self.surface.clone(),
            cost: self.cost,
            word_class: self.word_class,
        }
    }
}

/// Structural validity of one entry: the reading is non-empty and holds only
/// phonetic symbols.
pub open spec fn entry_wf(e: DictionaryEntry) -> bool {
    e.key@.len() >= 1 && all_phonetic(e.key@)
}

/// Structural validity of a whole entry list.
pub open spec fn all_entries_wf(entries: Seq<DictionaryEntry>) -> bool {
    forall|i: int| 0 <= i < entries.len() ==> entry_wf(#[trigger] entries[i])
}

/// The entries whose reading is exactly `reading`, in dictionary order.
pub open spec fn spec_lookup(entries: Seq<DictionaryEntry>, reading: Seq<char>) -> Seq<
    DictionaryEntry,
>
    decreases entries.len(),
{
    if entries.len() == 0 {
        Seq::empty()
    } else {
        let rest = spec_lookup(entries.drop_first(), reading);
        if entries[0].key@ == reading {
            seq![entries[0]] + rest
        } else {
            rest
        }
    }
}

/// Runtime check matching `entry_wf`.
pub fn check_entry(e: &DictionaryEntry) -> (r: bool)
    ensures
        r == entry_wf(*e),
{
    let klen = e.key.as_str().unicode_len();
    if klen == 0 {
        return false;
    }
    let mut i: usize = 0;
    while i < klen
        invariant
            i <= klen,
            klen == e.key@.len(),
            forall|j: int| 0 <= j < i ==> crate::phonetic::is_phonetic_unit(#[trigger] e.key@[j]),
        decreases klen - i,
    {
        if !check_phonetic_unit(e.key.as_str().get_char(i)) {
            return false;
        }
        i = i + 1;
    }
    true
}

/// An immutable, validated dictionary. Read-only after loading, so it may be
/// shared freely across sessions.
pub struct Dictionary {
    entries: Vec<DictionaryEntry>,
}

impl Dictionary {
    /// The entries, in load order.
    pub closed spec fn entries_view(&self) -> Seq<DictionaryEntry> {
        self.entries@
    }

    /// Every entry of a loaded dictionary passed its structural checks.
    pub open spec fn wf(&self) -> bool {
        all_entries_wf(self.entries_view())
    }

    /// Loads a dictionary from its entry list, running the structural checks;
    /// any invalid entry rejects the whole load.
    pub fn new(entries: Vec<DictionaryEntry>) -> (r: Result<Dictionary, EngineError>)
        ensures
            all_entries_wf(entries@) ==> (r matches Ok(d) && d.entries_view() == entries@),
            !all_entries_wf(entries@) ==> (r matches Err(e) && e == EngineError::DictionaryLoadError),
    {
        let n = entries.len();
        let mut i: usize = 0;
        while i < n
            invariant
                i <= n,
                n == entries@.len(),
                forall|j: int| 0 <= j < i ==> entry_wf(#[trigger] entries@[j]),
            decreases n - i,
        {
            if !check_entry(&entries[i]) {
                return Err(EngineError::DictionaryLoadError);
            }
            i = i + 1;
        }
        Ok(Dictionary { entries })
    }

    /// Number of entries.
    pub fn entry_count(&self) -> (r: usize)
        ensures
            r == self.entries_view().len(),
    {
        self.entries.len()
    }

    /// The entry at a given index.
    pub fn entry_at(&self, i: usize) -> (r: &DictionaryEntry)
        requires
            i < self.entries_view().len(),
        ensures
            *r == self.entries_view()[i as int],
    {
        &self.entries[i]
    }

    /// All entries whose reading is exactly `reading`, in dictionary order
    /// (the homophone candidates for that reading).
    pub fn lookup(&self, reading: &str) -> (r: Vec<DictionaryEntry>)
        ensures
            r@ == spec_lookup(self.entries_view(), reading@),
    {
        let reading_owned = reading.to_owned();
        let mut out: Vec<DictionaryEntry> = Vec::new();
        let n = self.entries.len();
        proof {
            assert(self.entries@.skip(0) =~= self.entries@);
            assert(out@ + spec_lookup(self.entries@, reading@) =~= spec_lookup(
                self.entries@,
                reading@,
            ));
        }
        let mut i: usize = 0;
        while i < n
            invariant
                i <= n,
                n == self.entries@.len(),
                spec_lookup(self.entries@, reading@) =~= out@ + spec_lookup(
                    self.entries@.skip(i as int),
                    reading@,
                ),
                reading_owned@ == reading@,
            decreases n - i,
        {
            proof {
                assert(self.entries@.skip(i as int).drop_first() =~= self.entries@.skip(i + 1));
                assert(self.entries@.skip(i as int)[0] == self.entries@[i as int]);
            }
            if self.entries[i].key.eq(&reading_owned) {
                out.push(self.entries[i].clone());
            }
            i = i + 1;
        }
        proof {
            assert(spec_lookup(self.entries@.skip(n as int), reading@) =~= Seq::<
                DictionaryEntry,
            >::empty());
            assert(out@ =~= out@ + Seq::<DictionaryEntry>::empty());
        }
        out
    }
}

} // verus!
