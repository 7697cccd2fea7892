//! The graph orchestrator's decisions: the precondition that today's word is
//! known, the reduced candidate set that avoids re-querying scored words, and
//! the accumulation pass that merges every scored outcome.
//!
//! Graph mode never stops early: it exhausts its candidate set, then the
//! consolidated record collection is persisted through the cache.

use vstd::prelude::*;

verus! {

use crate::dispatch::num_chunks;
use crate::dispatch::paired_outcomes;
use crate::dispatch::DataThread;
use crate::dispatch::Dispatcher;
use crate::error::EngineError;
use crate::history::Date;
use crate::history::HistoryEntry;
use crate::history::HistoryStore;
use crate::records::extend_with_outcomes;
use crate::records::lemma_merge_outcomes_concat;
use crate::records::merge_outcomes;
use crate::records::seq_contains_word;
use crate::solve::spec_already_solved;
use crate::word_record::BatchOutcome;
use crate::word_record::CemantixWord;
use crate::words_getter::seq_contains_str;

/// The options of one graph command.
pub struct Graph {
    pub batch_size: usize,
}

impl Graph {
    pub fn new(batch_size: usize) -> (r: Self)
        ensures
            r.batch_size == batch_size,
    {
        Self { batch_size }
    }
}

/// The word of the day, read off the history: its last entry, provided that
/// entry carries today's date.  Without one the graph pass cannot run.
pub fn word_of_the_day(history: &HistoryStore, today: Date) -> (r: Result<String, EngineError>)
    ensures
        (r is Ok) == spec_already_solved(history.entries@, today),
        r matches Ok(w) ==> w@ == history.entries@.last().word@,
        r is Err ==> r == Result::<String, EngineError>::Err(EngineError::MissingWordOfDay),
{
    match history.last() {
        Some(e) => {
            if e.date == today {
                Ok(e.word.clone())
            } else {
                Err(EngineError::MissingWordOfDay)
            }
        },
        None => Err(EngineError::MissingWordOfDay),
    }
}

/// One step of candidate planning: keep a word not yet planned, not already
/// scored in the record collection.
pub open spec fn plan_step(
    acc: Seq<String>,
    records: Seq<CemantixWord>,
    w: String,
) -> Seq<String> {
    if !seq_contains_str(acc, w@) && !seq_contains_word(records, w@) {
        acc.push(w)
    } else {
        acc
    }
}

/// The candidates of one cache's word list, folded onto `acc`.
pub open spec fn plan_fold(
    acc: Seq<String>,
    records: Seq<CemantixWord>,
    ws: Seq<String>,
) -> Seq<String>
    decreases ws.len(),
{
    if ws.len() == 0 {
        acc
    } else {
        plan_fold(plan_step(acc, records, ws[0]), records, ws.drop_first())
    }
}

/// The candidates of a sequence of word lists, folded in order.
pub open spec fn plan_fold_lists(
    acc: Seq<String>,
    records: Seq<CemantixWord>,
    lists: Seq<Vec<String>>,
) -> Seq<String>
    decreases lists.len(),
{
    if lists.len() == 0 {
        acc
    } else {
        plan_fold_lists(plan_fold(acc, records, lists[0]@), records, lists.drop_first())
    }
}

proof fn lemma_plan_fold_push(
    acc: Seq<String>,
    records: Seq<CemantixWord>,
    ws: Seq<String>,
    w: String,
)
    ensures
        plan_fold(acc, records, ws.push(w)) == plan_step(plan_fold(acc, records, ws), records, w),
    decreases ws.len(),
{
    if ws.len() == 0 {
        assert(ws.push(w).drop_first() =~= ws);
        assert(ws.push(w)[0] == w);
        assert(plan_fold(acc, records, ws.push(w)) == plan_fold(
            plan_step(acc, records, w),
            records,
            ws,
        ));
        assert(plan_fold(plan_step(acc, records, w), records, ws) == plan_step(acc, records, w));
        assert(plan_fold(acc, records, ws) == acc);
    } else {
        assert(ws.push(w)[0] == ws[0]);
        assert(ws.push(w).drop_first() =~= ws.drop_first().push(w));
        assert(plan_fold(acc, records, ws.push(w)) == plan_fold(
            plan_step(acc, records, ws[0]),
            records,
            ws.drop_first().push(w),
        ));
        lemma_plan_fold_push(plan_step(acc, records, ws[0]), records, ws.drop_first(), w);
        assert(plan_fold(acc, records, ws) == plan_fold(
            plan_step(acc, records, ws[0]),
            records,
            ws.drop_first(),
        ));
    }
}

proof fn lemma_plan_fold_lists_push(
    acc: Seq<String>,
    records: Seq<CemantixWord>,
    lists: Seq<Vec<String>>,
    l: Vec<String>,
)
    ensures
        plan_fold_lists(acc, records, lists.push(l)) == plan_fold(
            plan_fold_lists(acc, records, lists),
            records,
            l@,
        ),
    decreases lists.len(),
{
    if lists.len() == 0 {
        assert(lists.push(l).drop_first() =~= lists);
        assert(lists.push(l)[0] == l);
        assert(plan_fold_lists(acc, records, lists.push(l)) == plan_fold_lists(
            plan_fold(acc, records, l@),
            records,
            lists,
        ));
        assert(plan_fold_lists(plan_fold(acc, records, l@), records, lists) == plan_fold(
            acc,
            records,
            l@,
        ));
        assert(plan_fold_lists(acc, records, lists) == acc);
    } else {
        assert(lists.push(l)[0] == lists[0]);
        assert(lists.push(l).drop_first() =~= lists.drop_first().push(l));
        assert(plan_fold_lists(acc, records, lists.push(l)) == plan_fold_lists(
            plan_fold(acc, records, lists[0]@),
            records,
            lists.drop_first().push(l),
        ));
        lemma_plan_fold_lists_push(
            plan_fold(acc, records, lists[0]@),
            records,
            lists.drop_first(),
            l,
        );
        assert(plan_fold_lists(acc, records, lists) == plan_fold_lists(
            plan_fold(acc, records, lists[0]@),
            records,
            lists.drop_first(),
        ));
    }
}

/// The words still needing a score: the union of every given word list, one
/// occurrence each in first-seen order, minus every word the record
/// collection already scores.  Querying these and none other is what spares
/// the oracle.
pub fn plan_graph_candidates(word_lists: &Vec<Vec<String>>, records: &Vec<CemantixWord>) -> (r:
    Vec<String>)
    ensures
        r@ == plan_fold_lists(Seq::<String>::empty(), records@, word_lists@),
{
    let mut out: Vec<String> = Vec::new();
    let mut li: usize = 0;
    while li < word_lists.len()
        invariant
            li <= word_lists@.len(),
            out@ == plan_fold_lists(Seq::<String>::empty(), records@, word_lists@.take(li as int)),
        decreases word_lists@.len() - li,
    {
        let list = &word_lists[li];
        let mut wi: usize = 0;
        while wi < list.len()
            invariant
                wi <= list@.len(),
                li < word_lists@.len(),
                list@ == word_lists@[li as int]@,
                out@ == plan_fold(
                    plan_fold_lists(Seq::<String>::empty(), records@, word_lists@.take(li as int)),
                    records@,
                    list@.take(wi as int),
                ),
            decreases list@.len() - wi,
        {
            proof {
                assert(list@.take(wi + 1) =~= list@.take(wi as int).push(list@[wi as int]));
                lemma_plan_fold_push(
                    plan_fold_lists(Seq::<String>::empty(), records@, word_lists@.take(li as int)),
                    records@,
                    list@.take(wi as int),
                    list@[wi as int],
                );
            }
            let w = &list[wi];
            if !crate::words_getter::list_contains(&out, w) && !crate::records::contains_word(
                records,
                w,
            ) {
                out.push(w.clone());
            }
            wi += 1;
        }
        proof {
            assert(list@.take(list@.len() as int) =~= list@);
            assert(word_lists@.take(li + 1) =~= word_lists@.take(li as int).push(
                word_lists@[li as int],
            ));
            lemma_plan_fold_lists_push(
                Seq::<String>::empty(),
                records@,
                word_lists@.take(li as int),
                word_lists@[li as int],
            );
        }
        li += 1;
    }
    proof {
        assert(word_lists@.take(word_lists@.len() as int) =~= word_lists@);
    }
    out
}

/// Folds one batch's outcomes into the shared record collection: every scored
/// outcome joins unless its word is already scored — an already-scored word
/// is never rescored.  Graph mode never signals completion.
pub fn process_graph_batch(state: &mut DataThread, outcomes: &Vec<BatchOutcome>) -> (done: bool)
    ensures
        done == false,
        final(state).words_data@ == merge_outcomes(old(state).words_data@, outcomes@),
        final(state).word == old(state).word,
        final(state).score == old(state).score,
        final(state).filename == old(state).filename,
        final(state).nb_tested_words == old(state).nb_tested_words,
{
    extend_with_outcomes(&mut state.words_data, outcomes);
    false
}

/// Runs a whole graph pass over a candidate list whose oracle answer for each
/// word is given alongside it.  Every chunk is dispatched — graph mode never
/// stops early — and the record collection ends as the one-pass merge of all
/// outcomes: already-scored words kept as they were, newly scored words
/// appended in first-seen order.
pub fn run_graph_batches(
    state: &mut DataThread,
    words: Vec<String>,
    scores: &Vec<Option<i64>>,
    batch_size: usize,
) -> (invocations: usize)
    requires
        batch_size >= 1,
        scores@.len() == words@.len(),
    ensures
        invocations == num_chunks(words@.len() as int, batch_size as int),
        final(state).words_data@ == merge_outcomes(
            old(state).words_data@,
            paired_outcomes(words@, scores@),
        ),
        final(state).word == old(state).word,
        final(state).score == old(state).score,
        final(state).filename == old(state).filename,
        final(state).nb_tested_words == old(state).nb_tested_words,
{
    let ghost o = paired_outcomes(words@, scores@);
    let ghost n = words@.len() as int;
    let ghost b = batch_size as int;
    let ghost data0 = old(state).words_data@;
    let words_len = words.len();
    let mut disp = Dispatcher::new(words, batch_size);
    let mut invocations: usize = 0;
    let mut start: usize = 0;
    while start < words_len
        invariant
            disp.wf(),
            disp.batch_size == batch_size,
            batch_size >= 1,
            b == batch_size as int,
            n == disp.words@.len(),
            n == words_len,
            scores@.len() == n,
            o == paired_outcomes(disp.words@, scores@),
            start == disp.next_index,
            !disp.stopped,
            invocations <= n,
            invocations + num_chunks(n - start, b) == num_chunks(n, b),
            start as int == if invocations * b <= n {
                invocations * b
            } else {
                n as int
            },
            state.words_data@ == merge_outcomes(data0, o.take(start as int)),
            state.word == old(state).word,
            state.score == old(state).score,
            state.filename == old(state).filename,
            state.nb_tested_words == old(state).nb_tested_words,
        decreases n - start,
    {
        let ghost start0 = start as int;
        let ghost inv0 = invocations as int;
        proof {
            assert(invocations * b == start0);
        }
        let chunk_opt = disp.next_chunk();
        let chunk = chunk_opt.unwrap();
        let clen = chunk.len();
        proof {
            assert(o.len() == n);
            assert(chunk@ == disp.words@.subrange(start0, start0 + clen));
            assert forall|k: int| 0 <= k < clen implies #[trigger] chunk@[k] == o[start0
                + k].word && o[start0 + k].score == scores@[start0 + k] by {
                assert(chunk@[k] == disp.words@[start0 + k]);
            }
        }
        let mut outs: Vec<BatchOutcome> = Vec::new();
        let mut t: usize = 0;
        while t < clen
            invariant
                t <= clen,
                clen == chunk@.len(),
                start0 + clen <= n,
                n == scores@.len(),
                n == o.len(),
                n <= usize::MAX,
                start == start0,
                start0 >= 0,
                forall|k: int| 0 <= k < clen ==> #[trigger] chunk@[k] == o[start0 + k].word
                    && o[start0 + k].score == scores@[start0 + k],
                outs@.len() == t,
                forall|k: int| 0 <= k < t ==> outs@[k] == o[start0 + k],
            decreases clen - t,
        {
            let sc = scores[start + t];
            outs.push(BatchOutcome::new(chunk[t].clone(), sc));
            t += 1;
        }
        proof {
            assert(outs@ =~= o.subrange(start0, start0 + clen));
        }
        let d = process_graph_batch(state, &outs);
        disp.record_done(d);
        proof {
            assert(inv0 <= inv0 * b) by (nonlinear_arith)
                requires
                    b >= 1,
                    inv0 >= 0,
            ;
        }
        invocations += 1;
        start = disp.position();
        proof {
            assert(o.take(start as int) =~= o.take(start0) + o.subrange(start0, start as int));
            lemma_merge_outcomes_concat(data0, o.take(start0), o.subrange(start0, start as int));
            assert(invocations * b == inv0 * b + b) by (nonlinear_arith)
                requires
                    invocations as int == inv0 + 1,
            ;
        }
    }
    proof {
        assert(start == n);
        assert(num_chunks(0, b) == 0);
        assert(o.take(n) =~= o);
    }
    invocations
}

} // verus!
