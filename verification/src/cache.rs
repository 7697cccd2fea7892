//! The word-relationship cache: one entry per discovered word, holding the
//! scored words related to it.
//!
//! An entry is created exactly once; creating it again is a defined error and
//! changes nothing, which is what prevents a word from being counted as newly
//! solved twice.  Only the consolidated graph-building path may write an
//! existing entry back, and then only as the union of the old records and the
//! fresh outcomes, old records winning, sorted by descending score.

use vstd::prelude::*;

verus! {

use crate::error::EngineError;
use crate::records::merge_outcomes;
use crate::records::sorted_desc;
use crate::records::unique_words;
use crate::word_record::BatchOutcome;
use crate::word_record::CemantixWord;
use crate::words_getter::WordGetter;

/// One cache entry: a discovered word and its scored related words.
pub struct CacheEntry {
    pub word: String,
    pub records: Vec<CemantixWord>,
}

/// Whether the cache holds an entry for the word `w`.
pub open spec fn cache_contains(entries: Seq<CacheEntry>, w: Seq<char>) -> bool {
    exists|i: int| 0 <= i < entries.len() && entries[i].word@ == w
}

/// Whether the cache is well formed: one entry per word, and no entry holds
/// two records for the same word.
pub open spec fn cache_wf(entries: Seq<CacheEntry>) -> bool {
    &&& forall|i: int, j: int|
        0 <= i < j < entries.len() ==> entries[i].word@ != entries[j].word@
    &&& forall|i: int| 0 <= i < entries.len() ==> unique_words(#[trigger] entries[i].records@)
}

/// The store of per-word relationship caches.
pub struct CacheStore {
    pub entries: Vec<CacheEntry>,
}

impl CacheStore {
    pub open spec fn wf(&self) -> bool {
        cache_wf(self.entries@)
    }

    pub open spec fn contains_spec(&self, w: Seq<char>) -> bool {
        cache_contains(self.entries@, w)
    }

    pub fn new() -> (r: Self)
        ensures
            r.wf(),
            r.entries@ == Seq::<CacheEntry>::empty(),
    {
        Self { entries: Vec::new() }
    }

    /// Whether an entry for `word` already stands.
    pub fn contains(&self, word: &String) -> (r: bool)
        ensures
            r == self.contains_spec(word@),
    {
        let mut i: usize = 0;
        while i < self.entries.len()
            invariant
                i <= self.entries@.len(),
                forall|k: int| 0 <= k < i ==> self.entries@[k].word@ != word@,
            decreases self.entries@.len() - i,
        {
            if self.entries[i].word == *word {
                return true;
            }
            i += 1;
        }
        false
    }

    /// The index of the entry for `word`, if one stands.
    fn find_index(&self, word: &String) -> (r: Option<usize>)
        ensures
            r matches Some(i) ==> i < self.entries@.len() && self.entries@[i as int].word@
                == word@,
            r is None ==> !self.contains_spec(word@),
    {
        let mut i: usize = 0;
        while i < self.entries.len()
            invariant
                i <= self.entries@.len(),
                forall|k: int| 0 <= k < i ==> self.entries@[k].word@ != word@,
            decreases self.entries@.len() - i,
        {
            if self.entries[i].word == *word {
                return Some(i);
            }
            i += 1;
        }
        None
    }

    /// Creates the entry for `word`.  An entry that already stands is never
    /// overwritten: the call then fails and every entry keeps its content.
    pub fn create(&mut self, word: String, records: Vec<CemantixWord>) -> (r: Result<
        (),
        EngineError,
    >)
        requires
            old(self).wf(),
            unique_words(records@),
        ensures
            final(self).wf(),
            old(self).contains_spec(word@) ==> r == Result::<(), EngineError>::Err(
                EngineError::CacheAlreadyExists,
            ) && final(self).entries@ == old(self).entries@,
            !old(self).contains_spec(word@) ==> r is Ok && final(self).entries@ == old(
                self,
            ).entries@.push(CacheEntry { word, records }),
    {
        if self.contains(&word) {
            return Err(EngineError::CacheAlreadyExists);
        }
        self.entries.push(CacheEntry { word, records });
        Ok(())
    }

    /// The records cached for `word`, if an entry stands.
    pub fn load(&self, word: &String) -> (r: Option<Vec<CemantixWord>>)
        ensures
            (r is Some) == self.contains_spec(word@),
            r matches Some(v) ==> exists|i: int|
                0 <= i < self.entries@.len() && (#[trigger] self.entries@[i]).word@ == word@
                    && v@ =~= self.entries@[i].records@,
    {
        let idx = match self.find_index(word) {
            Some(i) => i,
            None => {
                return None;
            },
        };
        let entry_records = &self.entries[idx].records;
        let mut out: Vec<CemantixWord> = Vec::new();
        let mut k: usize = 0;
        while k < entry_records.len()
            invariant
                k <= entry_records@.len(),
                out@ =~= entry_records@.take(k as int),
            decreases entry_records@.len() - k,
        {
            out.push(entry_records[k].clone_record());
            k += 1;
        }
        proof {
            assert(entry_records@.take(entry_records@.len() as int) =~= entry_records@);
        }
        Some(out)
    }

    /// All cached words, in store order, except those given.
    pub fn list_discovered_words(&self, except: &Vec<String>) -> (r: Vec<String>)
        ensures
            r@ == crate::words_getter::spec_retain_except(
                self.entries@.map_values(|e: CacheEntry| e.word),
                except@,
            ),
    {
        let mut all: Vec<String> = Vec::new();
        let mut i: usize = 0;
        while i < self.entries.len()
            invariant
                i <= self.entries@.len(),
                all@ =~= self.entries@.take(i as int).map_values(|e: CacheEntry| e.word),
            decreases self.entries@.len() - i,
        {
            all.push(self.entries[i].word.clone());
            proof {
                assert(all@ =~= self.entries@.take(i + 1).map_values(|e: CacheEntry| e.word));
            }
            i += 1;
        }
        proof {
            assert(self.entries@.take(self.entries@.len() as int) =~= self.entries@);
        }
        WordGetter::get_all_found_words_except(all, except)
    }

    /// Writes the entry for `word` back as the union of its records and the
    /// fresh outcomes: records already cached win and are never rescored,
    /// newly scored words join, and the result is sorted by descending
    /// score.  A word without an entry cannot be written back.
    pub fn merge_and_persist(&mut self, word: &String, fresh: &Vec<BatchOutcome>) -> (r: Result<
        (),
        EngineError,
    >)
        requires
            old(self).wf(),
        ensures
            final(self).wf(),
            !old(self).contains_spec(word@) ==> r == Result::<(), EngineError>::Err(
                EngineError::CacheMissing,
            ) && final(self).entries@ == old(self).entries@,
            old(self).contains_spec(word@) ==> {
                &&& r is Ok
                &&& final(self).entries@.len() == old(self).entries@.len()
                &&& forall|j: int|
                    0 <= j < old(self).entries@.len() && old(self).entries@[j].word@ != word@
                        ==> final(self).entries@[j] == old(self).entries@[j]
                &&& forall|j: int|
                    0 <= j < old(self).entries@.len() && (#[trigger] old(
                        self,
                    ).entries@[j]).word@ == word@ ==> {
                        &&& final(self).entries@[j].word == old(self).entries@[j].word
                        &&& sorted_desc(final(self).entries@[j].records@)
                        &&& unique_words(final(self).entries@[j].records@)
                        &&& final(self).entries@[j].records@.to_multiset() == merge_outcomes(
                            old(self).entries@[j].records@,
                            fresh@,
                        ).to_multiset()
                    }
            },
    {
        let idx = match self.find_index(word) {
            Some(i) => i,
            None => {
                return Err(EngineError::CacheMissing);
            },
        };
        let ghost entries0 = self.entries@;
        let mut e = self.entries.remove(idx);
        proof {
            crate::records::lemma_merge_outcomes_props(e.records@, fresh@);
        }
        crate::records::extend_with_outcomes(&mut e.records, fresh);
        crate::records::sort_records_desc(&mut e.records);
        self.entries.insert(idx, e);
        proof {
            assert(self.entries@ =~= entries0.update(
                idx as int,
                self.entries@[idx as int],
            ));
        }
        Ok(())
    }
}

/// Creating a cache entry protects it: the store then holds the word, so by
/// `create`'s contract any further creation for that word fails with the
/// already-exists error and leaves every entry, and so the stored content,
/// untouched.
pub proof fn lemma_cache_create_protects(entries: Seq<CacheEntry>, e: CacheEntry)
    ensures
        cache_contains(entries.push(e), e.word@),
{
    assert(entries.push(e)[entries.len() as int].word@ == e.word@);
}

} // verus!
