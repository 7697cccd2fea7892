//! The solve orchestrator's decisions: whether today's puzzle is already
//! solved, and the whole dispatch pass that finds the day's word.
//!
//! The surrounding program reads the candidate file and the history file,
//! queries the oracle, and hands the plain values over; what it must do with
//! the outcome — record history, extend the candidate file, fetch nearby
//! words — it decides through the verified functions of the history and
//! cache modules.

use vstd::prelude::*;

verus! {

use crate::dispatch::chunk_seq;
use crate::dispatch::num_chunks;
use crate::dispatch::paired_outcomes;
use crate::dispatch::run_solve_batches;
use crate::dispatch::solve_batch_done;
use crate::dispatch::solve_fold;
use crate::dispatch::DataThread;
use crate::history::Date;
use crate::history::HistoryEntry;
use crate::history::HistoryStore;

/// The options of one solve command.
pub struct Solve {
    pub source_filename: String,
    pub starting_index: u32,
    pub batch_size: usize,
    pub graph: bool,
}

/// Whether today's puzzle is already solved: the history's last entry
/// carries today's date.
pub open spec fn spec_already_solved(entries: Seq<HistoryEntry>, today: Date) -> bool {
    entries.len() > 0 && entries.last().date == today
}

/// Whether the history says today's word is already found: the check that
/// ends a solve run before any query is made.
pub fn word_already_found_today(history: &HistoryStore, today: Date) -> (r: bool)
    ensures
        r == spec_already_solved(history.entries@, today),
{
    match history.last() {
        Some(e) => e.date == today,
        None => false,
    }
}

impl Solve {
    /// Finds the day's word over the candidate list whose oracle answers are
    /// given word by word.  When the history's last entry already carries
    /// today's date the run is an idempotent no-op: nothing is dispatched,
    /// the state does not move, and no query is owed.  Otherwise the list is
    /// dispatched in chunks of the batch size exactly as the batch run says.
    pub fn solve_cemantix(
        &self,
        state: &mut DataThread,
        history: &HistoryStore,
        today: Date,
        words: Vec<String>,
        scores: &Vec<Option<i64>>,
    ) -> (invocations: usize)
        requires
            self.batch_size >= 1,
            scores@.len() == words@.len(),
            old(state).nb_tested_words + words@.len() <= usize::MAX,
        ensures
            spec_already_solved(history.entries@, today) ==> invocations == 0 && *final(state)
                == *old(state),
            !spec_already_solved(history.entries@, today) ==> ({
                let o = paired_outcomes(words@, scores@);
                let n = words@.len() as int;
                let b = self.batch_size as int;
                &&& invocations <= num_chunks(n, b)
                &&& final(state).nb_tested_words == old(state).nb_tested_words + (
                if invocations * b <= n {
                    invocations * b
                } else {
                    n
                })
                &&& forall|j: int|
                    0 <= j < invocations - 1 ==> !solve_batch_done(chunk_seq(o, b, j))
                &&& invocations < num_chunks(n, b) ==> invocations >= 1 && solve_batch_done(
                    chunk_seq(o, b, invocations - 1),
                )
                &&& final(state).word@ == solve_fold(
                    old(state).word@,
                    old(state).score,
                    o,
                    b,
                    invocations as int,
                ).0
                &&& final(state).score == solve_fold(
                    old(state).word@,
                    old(state).score,
                    o,
                    b,
                    invocations as int,
                ).1
                &&& final(state).words_data == old(state).words_data
                &&& final(state).filename == old(state).filename
                &&& (forall|j: int|
                    0 <= j < num_chunks(n, b) ==> !solve_batch_done(chunk_seq(o, b, j)))
                    ==> invocations == num_chunks(n, b) && final(state).nb_tested_words == old(
                    state,
                ).nb_tested_words + n
            }),
    {
        if word_already_found_today(history, today) {
            return 0;
        }
        run_solve_batches(state, words, scores, self.batch_size)
    }
}

/// Once a solve run has recorded today's word, the run is sealed: whatever
/// history stood before, after the entry for today is appended the history's
/// last entry carries today's date, so a second solve run on the same day
/// dispatches nothing and performs no query.
pub proof fn lemma_solve_twice_dispatches_nothing(
    entries: Seq<HistoryEntry>,
    word: String,
    today: Date,
)
    ensures
        spec_already_solved(entries.push(HistoryEntry { word, date: today }), today),
{
}

} // verus!
