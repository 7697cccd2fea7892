//! Batch solving engine for a daily word-guessing game.
//!
//! The library holds the verified core: the batch dispatcher, the solve and
//! graph orchestration decisions, the word-relationship cache and the history
//! store. Network and file input/output live outside the library and hand it
//! plain values.

use vstd::prelude::*;

pub mod cache;
pub mod client;
pub mod dispatch;
pub mod error;
pub mod extend;
pub mod graph;
pub mod history;
pub mod nearby;
pub mod options;
pub mod records;
pub mod remove_useless_words;
pub mod solve;
pub mod word_record;
pub mod words_getter;

verus! {

/// The score a perfect match earns, in thousandths.
pub const PERFECT_SCORE: i64 = 1000;

/// Caps a requested batch size at the largest size the oracle tolerates.
pub fn cap_batch_size(requested: usize) -> (capped: usize)
    ensures
        capped == if requested > 200 { 200usize } else { requested },
{
    if requested > 200 {
        200
    } else {
        requested
    }
}

} // verus!
