//! The batch dispatcher and the shared solve state.
//!
//! A word list is cut into consecutive chunks of the batch size (the final
//! chunk may be shorter).  Each chunk's outcomes are folded into the shared
//! state exactly once; a perfect score stops the run before any further chunk
//! is handed out.  Within a batch, ties for the maximum score go to the
//! outcome seen first in input order.

use vstd::prelude::*;

verus! {

use crate::word_record::BatchOutcome;
use crate::word_record::CemantixWord;
use crate::PERFECT_SCORE;
use vstd::string::StringExecFns;

/// Whether some outcome of the batch carries a score.
pub open spec fn has_scored(s: Seq<BatchOutcome>) -> bool {
    exists|i: int| 0 <= i < s.len() && s[i].score is Some
}

/// The greatest score any outcome of the batch carries; meaningful only when
/// one does.
pub open spec fn batch_max_score(s: Seq<BatchOutcome>) -> i64
    decreases s.len(),
{
    if s.len() == 0 {
        i64::MIN
    } else {
        let prev = batch_max_score(s.drop_last());
        match s.last().score {
            Some(v) => if !has_scored(s.drop_last()) || v > prev {
                v
            } else {
                prev
            },
            None => prev,
        }
    }
}

/// The index of the first outcome that reaches the batch's maximum score:
/// ties for the maximum go to the outcome seen first in input order.
pub open spec fn first_max_index(s: Seq<BatchOutcome>) -> int
    decreases s.len(),
{
    if s.len() == 0 {
        0
    } else {
        if s.last().score is Some && (!has_scored(s.drop_last()) || s.last().score->0
            > batch_max_score(s.drop_last())) {
            s.len() - 1
        } else {
            first_max_index(s.drop_last())
        }
    }
}

/// Whether a batch's outcomes end the run: some outcome scored, and the
/// maximum is the perfect score.
pub open spec fn solve_batch_done(s: Seq<BatchOutcome>) -> bool {
    has_scored(s) && batch_max_score(s) == PERFECT_SCORE
}

/// The best word and score after one batch is folded into the pair held so
/// far: a perfect maximum always takes over, a strictly greater maximum takes
/// over, anything else leaves the pair alone.
pub open spec fn solve_batch_update(w: Seq<char>, sc: i64, s: Seq<BatchOutcome>) -> (Seq<char>, i64) {
    if has_scored(s) {
        let m = batch_max_score(s);
        if m == PERFECT_SCORE || m > sc {
            (s[first_max_index(s)].word@, m)
        } else {
            (w, sc)
        }
    } else {
        (w, sc)
    }
}

/// How many chunks of size `b` a list of `n` words is cut into: the least
/// number of chunks of at most `b` words that cover all `n`.
pub open spec fn num_chunks(n: int, b: int) -> int
    decreases n,
{
    if n <= 0 || b < 1 {
        0
    } else if n <= b {
        1
    } else {
        1 + num_chunks(n - b, b)
    }
}

/// The chunk count is the ceiling of `n` over `b`.
pub proof fn lemma_num_chunks_is_ceil(n: int, b: int)
    requires
        n >= 0,
        b >= 1,
    ensures
        num_chunks(n, b) == (n + b - 1) / b,
    decreases n,
{
    if n == 0 {
        vstd::arithmetic::div_mod::lemma_basic_div(b - 1, b);
    } else if n <= b {
        vstd::arithmetic::div_mod::lemma_basic_div(n - 1, b);
        vstd::arithmetic::div_mod::lemma_hoist_over_denominator(n - 1, 1, b as nat);
        assert(n - 1 + 1 * b == n + b - 1);
    } else {
        lemma_num_chunks_is_ceil(n - b, b);
        vstd::arithmetic::div_mod::lemma_hoist_over_denominator(n - b + b - 1, 1, b as nat);
        assert(n - b + b - 1 + 1 * b == n + b - 1);
    }
}

/// The outcomes of one run, word by word: the word at each position paired
/// with the score the oracle would hand back for it.
pub open spec fn paired_outcomes(words: Seq<String>, scores: Seq<Option<i64>>) -> Seq<
    BatchOutcome,
> {
    Seq::new(words.len(), |i: int| (BatchOutcome { word: words[i], score: scores[i] }))
}

/// Chunk `k` of the outcome list, with chunks of size `b`: the final chunk
/// may be shorter.
pub open spec fn chunk_seq(o: Seq<BatchOutcome>, b: int, k: int) -> Seq<BatchOutcome> {
    o.subrange(
        k * b,
        if k * b + b <= o.len() {
            k * b + b
        } else {
            o.len() as int
        },
    )
}

/// The best word and score after the first `k` chunks are folded, in order,
/// into the starting pair.
pub open spec fn solve_fold(
    w: Seq<char>,
    sc: i64,
    o: Seq<BatchOutcome>,
    b: int,
    k: int,
) -> (Seq<char>, i64)
    decreases k,
{
    if k <= 0 {
        (w, sc)
    } else {
        let prev = solve_fold(w, sc, o, b, k - 1);
        solve_batch_update(prev.0, prev.1, chunk_seq(o, b, k - 1))
    }
}

/// The shared accumulator of one orchestrator run: the best word and score so
/// far, the records gathered for the day's word, and how many words were
/// tested.
pub struct DataThread {
    pub word: String,
    pub score: i64,
    pub filename: String,
    pub words_data: Vec<CemantixWord>,
    pub nb_tested_words: usize,
}

impl DataThread {
    pub fn new(
        word: String,
        score: i64,
        words_data: Vec<CemantixWord>,
        nb_tested_words: usize,
        words_fcontainer: String,
    ) -> (r: Self)
        ensures
            r.word == word,
            r.score == score,
            r.words_data == words_data,
            r.nb_tested_words == nb_tested_words,
            r.filename@ == words_fcontainer@ + word@,
    {
        let filename = words_fcontainer.concat(word.as_str());
        Self { filename, word, score, words_data, nb_tested_words }
    }
}

impl Default for DataThread {
    fn default() -> (r: Self)
        ensures
            r.word@ == Seq::<char>::empty(),
            r.score == 0,
            r.filename@ == Seq::<char>::empty(),
            r.words_data@ == Seq::<CemantixWord>::empty(),
            r.nb_tested_words == 0,
    {
        Self {
            word: String::new(),
            score: 0,
            filename: String::new(),
            words_data: Vec::new(),
            nb_tested_words: 0,
        }
    }
}

/// Folds one batch's outcomes into the shared state, exactly once per batch.
///
/// The tested-word count grows by the batch's size whatever the outcomes.
/// Among the scored outcomes the maximum is taken, ties going to the outcome
/// seen first; a perfect maximum becomes the best word and ends the run, a
/// maximum strictly above the best score so far becomes the best word, and a
/// lower or equal maximum is discarded.
pub fn process_solve_batch(state: &mut DataThread, outcomes: &Vec<BatchOutcome>) -> (done: bool)
    requires
        old(state).nb_tested_words + outcomes@.len() <= usize::MAX,
    ensures
        done == solve_batch_done(outcomes@),
        final(state).word@ == solve_batch_update(old(state).word@, old(state).score, outcomes@).0,
        final(state).score == solve_batch_update(old(state).word@, old(state).score, outcomes@).1,
        final(state).nb_tested_words == old(state).nb_tested_words + outcomes@.len(),
        final(state).words_data == old(state).words_data,
        final(state).filename == old(state).filename,
{
    let n = outcomes.len();
    state.nb_tested_words = state.nb_tested_words + n;
    let mut winner: usize = 0;
    let mut found = false;
    let mut best_val: i64 = 0;
    let mut i: usize = 0;
    while i < n
        invariant
            i <= n,
            n == outcomes@.len(),
            found == has_scored(outcomes@.take(i as int)),
            found ==> winner < i && winner == first_max_index(outcomes@.take(i as int)) && best_val
                == batch_max_score(outcomes@.take(i as int)) && outcomes@[winner as int].score
                == Some(best_val),
        decreases n - i,
    {
        proof {
            assert(outcomes@.take(i + 1).drop_last() =~= outcomes@.take(i as int));
            assert(outcomes@.take(i + 1).last() == outcomes@[i as int]);
        }
        match outcomes[i].score {
            Some(v) => {
                if !found || v > best_val {
                    winner = i;
                    best_val = v;
                    found = true;
                }
            },
            None => {},
        }
        i += 1;
    }
    proof {
        assert(outcomes@.take(n as int) =~= outcomes@);
    }
    if found {
        if best_val == PERFECT_SCORE {
            state.score = best_val;
            state.word = outcomes[winner].word.clone();
            true
        } else if best_val > state.score {
            state.score = best_val;
            state.word = outcomes[winner].word.clone();
            false
        } else {
            false
        }
    } else {
        false
    }
}

/// Hands out a word list in consecutive chunks of the batch size and stops as
/// soon as it is told a batch signalled completion.
pub struct Dispatcher {
    pub words: Vec<String>,
    pub batch_size: usize,
    pub next_index: usize,
    pub stopped: bool,
}

impl Dispatcher {
    pub open spec fn wf(&self) -> bool {
        &&& self.batch_size >= 1
        &&& self.next_index <= self.words@.len()
    }

    pub fn new(words: Vec<String>, batch_size: usize) -> (r: Self)
        requires
            batch_size >= 1,
        ensures
            r.wf(),
            r.words == words,
            r.batch_size == batch_size,
            r.next_index == 0,
            !r.stopped,
    {
        Self { words, batch_size, next_index: 0, stopped: false }
    }

    /// How many words have been handed out so far.
    pub fn position(&self) -> (r: usize)
        ensures
            r == self.next_index,
    {
        self.next_index
    }

    /// The next chunk of words, in input order, or nothing once the list is
    /// exhausted or a batch signalled completion: after that, no further
    /// chunk is ever handed out.
    pub fn next_chunk(&mut self) -> (chunk: Option<Vec<String>>)
        requires
            old(self).wf(),
        ensures
            final(self).wf(),
            final(self).words == old(self).words,
            final(self).batch_size == old(self).batch_size,
            final(self).stopped == old(self).stopped,
            old(self).stopped || old(self).next_index == old(self).words@.len() ==> chunk is None
                && final(self).next_index == old(self).next_index,
            !old(self).stopped && old(self).next_index < old(self).words@.len() ==> {
                let end = if old(self).words@.len() - old(self).next_index
                    > old(self).batch_size {
                    old(self).next_index + old(self).batch_size
                } else {
                    old(self).words@.len() as int
                };
                &&& chunk is Some
                &&& chunk->0@ == old(self).words@.subrange(old(self).next_index as int, end)
                &&& final(self).next_index == end
            },
    {
        if self.stopped || self.next_index == self.words.len() {
            return None;
        }
        let start = self.next_index;
        let end = if self.words.len() - start > self.batch_size {
            start + self.batch_size
        } else {
            self.words.len()
        };
        let mut chunk: Vec<String> = Vec::new();
        let mut i = start;
        while i < end
            invariant
                start <= i <= end <= self.words@.len(),
                chunk@.len() == i - start,
                forall|k: int| 0 <= k < chunk@.len() ==> chunk@[k] == self.words@[start + k],
            decreases end - i,
        {
            chunk.push(self.words[i].clone());
            i += 1;
        }
        self.next_index = end;
        proof {
            assert(chunk@ =~= self.words@.subrange(start as int, end as int));
        }
        Some(chunk)
    }

    /// Records whether the batch just handed back signalled completion; once
    /// it has, the dispatcher stays stopped.
    pub fn record_done(&mut self, done: bool)
        ensures
            final(self).stopped == (old(self).stopped || done),
            final(self).words == old(self).words,
            final(self).batch_size == old(self).batch_size,
            final(self).next_index == old(self).next_index,
    {
        if done {
            self.stopped = true;
        }
    }
}

/// The greatest scored outcome of `s`, bounded below by `floor`.
pub open spec fn max_scored(s: Seq<BatchOutcome>, floor: i64) -> i64
    decreases s.len(),
{
    if s.len() == 0 {
        floor
    } else {
        let prev = max_scored(s.drop_last(), floor);
        match s.last().score {
            Some(v) => if v > prev {
                v
            } else {
                prev
            },
            None => prev,
        }
    }
}

proof fn lemma_max_scored_concat(s1: Seq<BatchOutcome>, s2: Seq<BatchOutcome>, floor: i64)
    ensures
        max_scored(s1 + s2, floor) == max_scored(s2, max_scored(s1, floor)),
    decreases s2.len(),
{
    if s2.len() == 0 {
        assert(s1 + s2 =~= s1);
    } else {
        assert((s1 + s2).drop_last() =~= s1 + s2.drop_last());
        assert((s1 + s2).last() == s2.last());
        lemma_max_scored_concat(s1, s2.drop_last(), floor);
    }
}

proof fn lemma_max_scored_is_batch_update(s: Seq<BatchOutcome>, floor: i64)
    ensures
        max_scored(s, floor) == if has_scored(s) && batch_max_score(s) > floor {
            batch_max_score(s)
        } else {
            floor
        },
    decreases s.len(),
{
    if s.len() > 0 {
        lemma_max_scored_is_batch_update(s.drop_last(), floor);
        if s.last().score is Some {
            assert(s[s.len() - 1].score is Some);
            assert(has_scored(s));
        }
        if has_scored(s.drop_last()) {
            let i = choose|i: int|
                0 <= i < s.drop_last().len() && (#[trigger] s.drop_last()[i]).score is Some;
            assert(s[i] == s.drop_last()[i]);
            assert(has_scored(s));
        }
        if has_scored(s) && s.last().score is None {
            let i = choose|i: int| 0 <= i < s.len() && (#[trigger] s[i]).score is Some;
            assert(s.drop_last()[i] == s[i]);
            assert(has_scored(s.drop_last()));
        }
    }
}

/// Every scored outcome stays at or below the running maximum, which never
/// falls below its floor.
proof fn lemma_max_scored_props(s: Seq<BatchOutcome>, floor: i64)
    ensures
        max_scored(s, floor) >= floor,
        forall|j: int|
            0 <= j < s.len() && (#[trigger] s[j]).score is Some ==> s[j].score->0 <= max_scored(
                s,
                floor,
            ),
    decreases s.len(),
{
    if s.len() > 0 {
        lemma_max_scored_props(s.drop_last(), floor);
        assert forall|j: int|
            0 <= j < s.len() && (#[trigger] s[j]).score is Some implies s[j].score->0
            <= max_scored(s, floor) by {
            if j < s.len() - 1 {
                assert(s[j] == s.drop_last()[j]);
            } else {
                assert(s[j] == s.last());
            }
        }
    }
}

/// The index of the first outcome whose score is exactly `v`, or the length.
pub open spec fn first_attaining(s: Seq<BatchOutcome>, v: i64) -> int
    decreases s.len(),
{
    if s.len() == 0 {
        0
    } else if s[0].score == Some(v) {
        0
    } else {
        1 + first_attaining(s.drop_first(), v)
    }
}

proof fn lemma_first_attaining_props(s: Seq<BatchOutcome>, v: i64)
    ensures
        0 <= first_attaining(s, v) <= s.len(),
        forall|j: int| 0 <= j < first_attaining(s, v) ==> (#[trigger] s[j]).score != Some(v),
        first_attaining(s, v) < s.len() ==> s[first_attaining(s, v)].score == Some(v),
        (exists|j: int| 0 <= j < s.len() && (#[trigger] s[j]).score == Some(v))
            ==> first_attaining(s, v) < s.len(),
    decreases s.len(),
{
    if s.len() > 0 && s[0].score != Some(v) {
        lemma_first_attaining_props(s.drop_first(), v);
        let fa = first_attaining(s, v);
        assert forall|j: int| 0 <= j < fa implies (#[trigger] s[j]).score != Some(v) by {
            if j >= 1 {
                assert(s[j] == s.drop_first()[j - 1]);
            }
        }
        if fa < s.len() {
            assert(s[fa] == s.drop_first()[fa - 1]);
        }
        if exists|j: int| 0 <= j < s.len() && (#[trigger] s[j]).score == Some(v) {
            let j = choose|j: int| 0 <= j < s.len() && (#[trigger] s[j]).score == Some(v);
            assert(s.drop_first()[j - 1] == s[j]);
        }
    }
}

proof fn lemma_first_attaining_concat(s1: Seq<BatchOutcome>, s2: Seq<BatchOutcome>, v: i64)
    ensures
        (exists|j: int| 0 <= j < s1.len() && (#[trigger] s1[j]).score == Some(v))
            ==> first_attaining(s1 + s2, v) == first_attaining(s1, v),
        !(exists|j: int| 0 <= j < s1.len() && (#[trigger] s1[j]).score == Some(v))
            ==> first_attaining(s1 + s2, v) == s1.len() + first_attaining(s2, v),
    decreases s1.len(),
{
    if s1.len() == 0 {
        assert(s1 + s2 =~= s2);
    } else {
        assert((s1 + s2)[0] == s1[0]);
        if s1[0].score == Some(v) {
        } else {
            assert((s1 + s2).drop_first() =~= s1.drop_first() + s2);
            lemma_first_attaining_concat(s1.drop_first(), s2, v);
            if exists|j: int| 0 <= j < s1.len() && (#[trigger] s1[j]).score == Some(v) {
                let j = choose|j: int| 0 <= j < s1.len() && (#[trigger] s1[j]).score == Some(v);
                assert(s1.drop_first()[j - 1] == s1[j]);
                assert(exists|j: int|
                    0 <= j < s1.drop_first().len() && (#[trigger] s1.drop_first()[j]).score
                        == Some(v));
            } else {
                assert forall|j: int|
                    0 <= j < s1.drop_first().len() implies (#[trigger] s1.drop_first()[j]).score
                    != Some(v) by {
                    assert(s1.drop_first()[j] == s1[j + 1]);
                }
            }
        }
    }
}

/// The first-maximum index carries the batch maximum, nothing before it
/// reaches the maximum, and nothing in the batch exceeds it.
proof fn lemma_batch_max_props(s: Seq<BatchOutcome>)
    requires
        has_scored(s),
    ensures
        0 <= first_max_index(s) < s.len(),
        s[first_max_index(s)].score == Some(batch_max_score(s)),
        forall|j: int|
            0 <= j < s.len() && (#[trigger] s[j]).score is Some ==> s[j].score->0
                <= batch_max_score(s),
        forall|j: int|
            0 <= j < first_max_index(s) && (#[trigger] s[j]).score is Some ==> s[j].score->0
                < batch_max_score(s),
    decreases s.len(),
{
    let dl = s.drop_last();
    if has_scored(dl) {
        lemma_batch_max_props(dl);
        assert(forall|j: int| 0 <= j < s.len() - 1 ==> s[j] == #[trigger] dl[j]);
        assert(s[s.len() - 1] == s.last());
        assert forall|j: int|
            0 <= j < s.len() && (#[trigger] s[j]).score is Some implies s[j].score->0
            <= batch_max_score(s) by {
            if j < s.len() - 1 {
                assert(s[j] == dl[j]);
                assert(dl[j].score->0 <= batch_max_score(dl));
            }
        }
        assert forall|j: int|
            0 <= j < first_max_index(s) && (#[trigger] s[j]).score is Some implies s[j].score->0
            < batch_max_score(s) by {
            if j < s.len() - 1 {
                assert(s[j] == dl[j]);
                assert(dl[j].score->0 <= batch_max_score(dl));
                if j < first_max_index(dl) {
                    assert(dl[j].score->0 < batch_max_score(dl));
                }
            }
        }
    } else {
        assert forall|j: int| 0 <= j < s.len() - 1 implies !((#[trigger] s[j]).score is Some) by {
            if s[j].score is Some {
                assert(dl[j] == s[j]);
                assert(has_scored(dl));
            }
        }
        assert(s[s.len() - 1] == s.last());
        assert(s.last().score is Some) by {
            let j = choose|j: int| 0 <= j < s.len() && (#[trigger] s[j]).score is Some;
            if j < s.len() - 1 {
                assert(!(s[j].score is Some));
            }
        }
    }
}

/// With no early stop, the best word the run ends with is the word of the
/// first outcome to attain the run's greatest score, whenever some outcome
/// improved on the starting score: ties for the maximum go to the earliest.
pub proof fn lemma_run_best_word_is_first_to_attain(
    w: Seq<char>,
    sc: i64,
    o: Seq<BatchOutcome>,
    b: int,
)
    requires
        b >= 1,
        forall|j: int|
            0 <= j < num_chunks(o.len() as int, b) ==> !solve_batch_done(chunk_seq(o, b, j)),
        max_scored(o, sc) > sc,
    ensures
        first_attaining(o, max_scored(o, sc)) < o.len(),
        solve_fold(w, sc, o, b, num_chunks(o.len() as int, b)).0 == o[first_attaining(
            o,
            max_scored(o, sc),
        )].word@,
{
    let n = o.len() as int;
    let k = num_chunks(n, b);
    lemma_num_chunks_nonneg(n, b);
    lemma_fold_word_tracks_first(w, sc, o, b, k);
    assert(k * b >= n) by {
        if k * b < n {
            lemma_num_chunks_covers(n, b);
        }
    }
    assert(o.take(n) =~= o);
}

proof fn lemma_fold_word_tracks_first(w: Seq<char>, sc: i64, o: Seq<BatchOutcome>, b: int, k: int)
    requires
        b >= 1,
        0 <= k <= num_chunks(o.len() as int, b),
        forall|j: int| 0 <= j < k ==> !solve_batch_done(chunk_seq(o, b, j)),
    ensures
        ({
            let end = if k * b <= o.len() {
                k * b
            } else {
                o.len() as int
            };
            let pre = o.take(end);
            let gm = max_scored(pre, sc);
            &&& gm > sc ==> first_attaining(pre, gm) < pre.len() && solve_fold(w, sc, o, b, k).0
                == pre[first_attaining(pre, gm)].word@
            &&& gm == sc ==> solve_fold(w, sc, o, b, k).0 == w
            &&& gm >= sc
        }),
    decreases k,
{
    let n = o.len() as int;
    if k == 0 {
        assert(o.take(0) =~= Seq::<BatchOutcome>::empty());
        assert(k * b == 0) by (nonlinear_arith)
            requires
                k == 0,
        ;
    } else {
        lemma_fold_word_tracks_first(w, sc, o, b, k - 1);
        lemma_fold_tracks_max(w, sc, o, b, k - 1);
        lemma_chunk_start_in_range(n, b, k - 1);
        assert((k - 1) * b == k * b - b) by (nonlinear_arith);
        let start = (k - 1) * b;
        let end = if k * b <= n {
            k * b
        } else {
            n
        };
        let pre0 = o.take(start);
        let chunk = chunk_seq(o, b, k - 1);
        let pre = o.take(end);
        assert(pre =~= pre0 + chunk);
        let pm = max_scored(pre0, sc);
        let gm = max_scored(pre, sc);
        lemma_max_scored_concat(pre0, chunk, sc);
        lemma_max_scored_is_batch_update(chunk, pm);
        lemma_max_scored_props(pre0, sc);
        let prev = solve_fold(w, sc, o, b, k - 1);
        assert(solve_fold(w, sc, o, b, k) == solve_batch_update(prev.0, prev.1, chunk));
        assert(prev.1 == pm);
        assert(!solve_batch_done(chunk));
        if has_scored(chunk) && batch_max_score(chunk) > pm {
            let m = batch_max_score(chunk);
            assert(gm == m && m > sc);
            lemma_batch_max_props(chunk);
            let fmi = first_max_index(chunk);
            // nothing in the earlier prefix reaches the new maximum
            assert forall|j: int|
                0 <= j < pre0.len() implies (#[trigger] pre0[j]).score != Some(m) by {
                if pre0[j].score is Some {
                    assert(pre0[j].score->0 <= pm);
                }
            }
            lemma_first_attaining_concat(pre0, chunk, m);
            assert(first_attaining(pre, m) == start + first_attaining(chunk, m));
            // within the chunk, the first attainment is the first maximum
            lemma_first_attaining_props(chunk, m);
            let fa = first_attaining(chunk, m);
            assert(fa < chunk.len()) by {
                assert(chunk[fmi].score == Some(m));
            }
            assert(fa == fmi) by {
                if fa < fmi {
                    assert(chunk[fa].score is Some && chunk[fa].score->0 < m);
                } else if fmi < fa {
                    assert(chunk[fmi].score != Some(m));
                }
            }
            assert(pre[start + fmi] == chunk[fmi]);
            assert(solve_fold(w, sc, o, b, k).0 == chunk[fmi].word@);
        } else {
            assert(gm == pm);
            assert(solve_fold(w, sc, o, b, k).0 == prev.0);
            if pm > sc {
                lemma_first_attaining_props(pre0, pm);
                let fa0 = first_attaining(pre0, pm);
                assert(fa0 < pre0.len() && pre0[fa0].score == Some(pm)) by {
                    lemma_max_attained(pre0, sc);
                }
                lemma_first_attaining_concat(pre0, chunk, pm);
                assert(first_attaining(pre, pm) == fa0);
                assert(pre[fa0] == pre0[fa0]);
            }
        }
    }
}

/// A running maximum above its floor is attained by some outcome.
proof fn lemma_max_attained(s: Seq<BatchOutcome>, floor: i64)
    requires
        max_scored(s, floor) > floor,
    ensures
        exists|j: int|
            0 <= j < s.len() && (#[trigger] s[j]).score == Some(max_scored(s, floor)),
    decreases s.len(),
{
    if s.len() > 0 {
        let m = max_scored(s, floor);
        if s.last().score == Some(m) {
            assert(s[s.len() - 1].score == Some(m));
        } else {
            assert(max_scored(s.drop_last(), floor) == m);
            lemma_max_attained(s.drop_last(), floor);
            let j = choose|j: int|
                0 <= j < s.drop_last().len() && (#[trigger] s.drop_last()[j]).score == Some(m);
            assert(s[j] == s.drop_last()[j]);
        }
    }
}

/// A chunk's start lies inside the list.
proof fn lemma_chunk_start_in_range(n: int, b: int, j: int)
    requires
        b >= 1,
        n >= 0,
        0 <= j < num_chunks(n, b),
    ensures
        j * b < n,
    decreases j,
{
    if j == 0 {
    } else {
        lemma_chunk_start_in_range(n - b, b, j - 1);
        assert(j * b == (j - 1) * b + b) by (nonlinear_arith);
    }
}

proof fn lemma_fold_tracks_max(w: Seq<char>, sc: i64, o: Seq<BatchOutcome>, b: int, k: int)
    requires
        b >= 1,
        0 <= k <= num_chunks(o.len() as int, b),
        forall|j: int| 0 <= j < k ==> !solve_batch_done(chunk_seq(o, b, j)),
    ensures
        solve_fold(w, sc, o, b, k).1 == max_scored(
            o.take(
                if k * b <= o.len() {
                    k * b
                } else {
                    o.len() as int
                },
            ),
            sc,
        ),
    decreases k,
{
    let n = o.len() as int;
    if k == 0 {
        assert(o.take(0) =~= Seq::<BatchOutcome>::empty());
        assert(solve_fold(w, sc, o, b, 0).1 == sc);
        assert(max_scored(o.take(0), sc) == sc);
        assert(k * b == 0) by (nonlinear_arith)
            requires
                k == 0,
        ;
    } else {
        lemma_fold_tracks_max(w, sc, o, b, k - 1);
        lemma_chunk_start_in_range(n, b, k - 1);
        assert((k - 1) * b == k * b - b) by (nonlinear_arith);
        let start = (k - 1) * b;
        let end = if k * b <= n {
            k * b
        } else {
            n
        };
        let pre = o.take(start);
        let chunk = chunk_seq(o, b, k - 1);
        assert(o.take(end) =~= pre + chunk);
        lemma_max_scored_concat(pre, chunk, sc);
        lemma_max_scored_is_batch_update(chunk, max_scored(pre, sc));
        let prev = solve_fold(w, sc, o, b, k - 1);
        assert(solve_fold(w, sc, o, b, k) == solve_batch_update(prev.0, prev.1, chunk));
        assert(!solve_batch_done(chunk));
        assert(prev.1 == max_scored(pre, sc));
    }
}

/// With no early stop over the whole list, the best score a run ends with is
/// the greatest scored outcome of the list, bounded below by the score the
/// run began with: the shared best is exactly the highest score observed.
pub proof fn lemma_run_best_score_is_the_maximum(
    w: Seq<char>,
    sc: i64,
    o: Seq<BatchOutcome>,
    b: int,
)
    requires
        b >= 1,
        forall|j: int|
            0 <= j < num_chunks(o.len() as int, b) ==> !solve_batch_done(chunk_seq(o, b, j)),
    ensures
        solve_fold(w, sc, o, b, num_chunks(o.len() as int, b)).1 == max_scored(o, sc),
{
    let n = o.len() as int;
    let k = num_chunks(n, b);
    lemma_num_chunks_nonneg(n, b);
    lemma_fold_tracks_max(w, sc, o, b, k);
    assert(k * b >= n) by {
        if k * b < n {
            lemma_num_chunks_covers(n, b);
        }
    }
    assert(o.take(n) =~= o);
}

/// The chunks cover the whole list: the last chunk ends at or past the end.
proof fn lemma_num_chunks_covers(n: int, b: int)
    requires
        b >= 1,
        n >= 0,
    ensures
        num_chunks(n, b) * b >= n,
    decreases n,
{
    if n > b {
        lemma_num_chunks_covers(n - b, b);
        assert(num_chunks(n, b) * b == num_chunks(n - b, b) * b + b) by (nonlinear_arith)
            requires
                num_chunks(n, b) == 1 + num_chunks(n - b, b),
        ;
    }
}

/// A chunk count is never negative.
proof fn lemma_num_chunks_nonneg(n: int, b: int)
    ensures
        num_chunks(n, b) >= 0,
    decreases n,
{
    if !(n <= 0 || b < 1 || n <= b) {
        lemma_num_chunks_nonneg(n - b, b);
    }
}

/// Runs a whole solve pass over a word list whose oracle answer for each word
/// is given alongside it.  Chunks of the batch size are dispatched strictly
/// in input order and each chunk's outcomes are folded into the state exactly
/// once; after a chunk signals completion no further chunk is dispatched.
/// Without an early stop, every word is tested and the callback is invoked
/// once per chunk.
pub fn run_solve_batches(
    state: &mut DataThread,
    words: Vec<String>,
    scores: &Vec<Option<i64>>,
    batch_size: usize,
) -> (invocations: usize)
    requires
        batch_size >= 1,
        scores@.len() == words@.len(),
        old(state).nb_tested_words + words@.len() <= usize::MAX,
    ensures
        ({
            let o = paired_outcomes(words@, scores@);
            let n = words@.len() as int;
            let b = batch_size as int;
            &&& invocations <= num_chunks(n, b)
            &&& final(state).nb_tested_words == old(state).nb_tested_words + (
            if invocations * b <= n {
                invocations * b
            } else {
                n
            })
            &&& forall|j: int| 0 <= j < invocations - 1 ==> !solve_batch_done(chunk_seq(o, b, j))
            &&& invocations < num_chunks(n, b) ==> invocations >= 1 && solve_batch_done(
                chunk_seq(o, b, invocations - 1),
            )
            &&& final(state).word@ == solve_fold(
                old(state).word@,
                old(state).score,
                o,
                b,
                invocations as int,
            ).0
            &&& final(state).score == solve_fold(
                old(state).word@,
                old(state).score,
                o,
                b,
                invocations as int,
            ).1
            &&& final(state).words_data == old(state).words_data
            &&& final(state).filename == old(state).filename
            &&& (forall|j: int|
                0 <= j < num_chunks(n, b) ==> !solve_batch_done(chunk_seq(o, b, j)))
                ==> invocations == num_chunks(n, b) && final(state).nb_tested_words == old(
                state,
            ).nb_tested_words + n
        }),
{
    let ghost w0 = old(state).word@;
    let ghost s0 = old(state).score;
    let ghost nb0 = old(state).nb_tested_words as int;
    let ghost o = paired_outcomes(words@, scores@);
    let ghost n = words@.len() as int;
    let ghost b = batch_size as int;
    let words_len = words.len();
    let mut disp = Dispatcher::new(words, batch_size);
    let mut invocations: usize = 0;
    let mut done = false;
    let mut start: usize = 0;
    proof {
        lemma_num_chunks_nonneg(n, b);
    }
    while !done && start < words_len
        invariant
            disp.wf(),
            disp.batch_size == batch_size,
            batch_size >= 1,
            b == batch_size as int,
            n == disp.words@.len(),
            n == words_len,
            scores@.len() == n,
            o == paired_outcomes(disp.words@, scores@),
            start == disp.next_index,
            disp.stopped == done,
            start == if invocations * b <= n {
                invocations * b
            } else {
                n as int
            },
            invocations <= n,
            invocations + num_chunks(n - start, b) == num_chunks(n, b),
            !done ==> forall|j: int|
                0 <= j < invocations ==> !solve_batch_done(chunk_seq(o, b, j)),
            done ==> invocations >= 1 && solve_batch_done(chunk_seq(o, b, invocations - 1))
                && forall|j: int|
                0 <= j < invocations - 1 ==> !solve_batch_done(chunk_seq(o, b, j)),
            state.word@ == solve_fold(w0, s0, o, b, invocations as int).0,
            state.score == solve_fold(w0, s0, o, b, invocations as int).1,
            state.nb_tested_words == nb0 + start,
            state.words_data == old(state).words_data,
            state.filename == old(state).filename,
            nb0 + n <= usize::MAX,
        decreases n - start,
    {
        let ghost start0 = start as int;
        let ghost inv0 = invocations as int;
        proof {
            assert(invocations * b == start0);
        }
        let chunk_opt = disp.next_chunk();
        let chunk = chunk_opt.unwrap();
        let clen = chunk.len();
        proof {
            assert(o.len() == n);
            assert(chunk@ == disp.words@.subrange(start0, start0 + clen));
            assert forall|k: int| 0 <= k < clen implies #[trigger] chunk@[k] == o[start0
                + k].word && o[start0 + k].score == scores@[start0 + k] by {
                assert(chunk@[k] == disp.words@[start0 + k]);
            }
        }
        let mut outs: Vec<BatchOutcome> = Vec::new();
        let mut t: usize = 0;
        while t < clen
            invariant
                t <= clen,
                clen == chunk@.len(),
                start0 + clen <= n,
                n == scores@.len(),
                n == o.len(),
                n <= usize::MAX,
                start == start0,
                start0 >= 0,
                forall|k: int| 0 <= k < clen ==> #[trigger] chunk@[k] == o[start0 + k].word
                    && o[start0 + k].score == scores@[start0 + k],
                outs@.len() == t,
                forall|k: int| 0 <= k < t ==> outs@[k] == o[start0 + k],
            decreases clen - t,
        {
            let sc = scores[start + t];
            outs.push(BatchOutcome::new(chunk[t].clone(), sc));
            t += 1;
        }
        proof {
            assert(outs@ =~= chunk_seq(o, b, inv0));
        }
        let d = process_solve_batch(state, &outs);
        disp.record_done(d);
        done = d;
        proof {
            assert(inv0 <= inv0 * b) by (nonlinear_arith)
                requires
                    b >= 1,
                    inv0 >= 0,
            ;
        }
        invocations += 1;
        start = disp.position();
        proof {
            assert(invocations as int == inv0 + 1);
            assert(solve_fold(w0, s0, o, b, inv0 + 1) == solve_batch_update(
                solve_fold(w0, s0, o, b, inv0).0,
                solve_fold(w0, s0, o, b, inv0).1,
                chunk_seq(o, b, inv0),
            ));
            assert(invocations * b == inv0 * b + b) by (nonlinear_arith)
                requires
                    invocations as int == inv0 + 1,
            ;
            lemma_num_chunks_nonneg(n - start as int, b);
        }
    }
    proof {
        lemma_num_chunks_nonneg(n - start as int, b);
        if !done {
            assert(start == n);
            assert(num_chunks(0, b) == 0);
        }
    }
    invocations
}

} // verus!
