//! Persisting a solved word's nearby words.
//!
//! The oracle's nearby payload must be non-empty, and the per-word cache is
//! created exactly once: a cache that already stands fails the step and keeps
//! its content, so a word is never counted as newly solved twice.

use vstd::prelude::*;

verus! {

use crate::cache::CacheEntry;
use crate::cache::CacheStore;
use crate::error::EngineError;
use crate::records::unique_words;
use crate::word_record::CemantixWord;

/// The options of one nearby command.
pub struct Nearby {
    pub word: String,
}

impl Nearby {
    pub fn new(word: String) -> (r: Self)
        ensures
            r.word == word,
    {
        Self { word }
    }

    /// Persists the oracle's nearby words for this word.  An empty payload
    /// is a hard failure; a cache that already stands is never overwritten —
    /// the step fails and every stored record keeps its content, byte for
    /// byte.
    pub fn generate_nearby_word(&self, records: Vec<CemantixWord>, cache: &mut CacheStore) -> (r:
        Result<(), EngineError>)
        requires
            old(cache).wf(),
            unique_words(records@),
        ensures
            final(cache).wf(),
            records@.len() == 0 ==> r == Result::<(), EngineError>::Err(
                EngineError::EmptyNearbyPayload,
            ) && final(cache).entries@ == old(cache).entries@,
            records@.len() > 0 && old(cache).contains_spec(self.word@) ==> r == Result::<
                (),
                EngineError,
            >::Err(EngineError::CacheAlreadyExists) && final(cache).entries@
                == old(cache).entries@,
            records@.len() > 0 && !old(cache).contains_spec(self.word@) ==> r is Ok
                && final(cache).entries@ == old(cache).entries@.push(
                (CacheEntry { word: self.word, records }),
            ),
    {
        if records.len() == 0 {
            return Err(EngineError::EmptyNearbyPayload);
        }
        cache.create(self.word.clone(), records)
    }
}

} // verus!
