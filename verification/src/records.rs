//! Collections of scored word records, deduplicated by word.
//!
//! A record collection never holds two entries for the same word.  Merging
//! fresh batch outcomes into a collection keeps the entries already present
//! (an already-cached word is never rescored) and appends a record for every
//! newly scored word; persisting sorts by descending score.

use vstd::prelude::*;

verus! {

use crate::word_record::BatchOutcome;
use crate::word_record::CemantixWord;

broadcast use vstd::seq_lib::group_to_multiset_ensures, vstd::multiset::group_multiset_axioms;

/// Whether some record in `s` carries the word `w`.
pub open spec fn seq_contains_word(s: Seq<CemantixWord>, w: Seq<char>) -> bool {
    exists|i: int| 0 <= i < s.len() && s[i].word@ == w
}

/// Whether no two records in `s` carry the same word.
pub open spec fn unique_words(s: Seq<CemantixWord>) -> bool {
    forall|i: int, j: int| 0 <= i < j < s.len() ==> s[i].word@ != s[j].word@
}

/// Whether `s` is sorted by descending score.
pub open spec fn sorted_desc(s: Seq<CemantixWord>) -> bool {
    forall|i: int, j: int| 0 <= i <= j < s.len() ==> s[i].score >= s[j].score
}

/// One merge step: append a record for the outcome unless it carries no score
/// or its word is already present (the present entry wins).
pub open spec fn merge_step(acc: Seq<CemantixWord>, o: BatchOutcome) -> Seq<CemantixWord> {
    if o.score is Some && !seq_contains_word(acc, o.word@) {
        acc.push(CemantixWord { word: o.word, rank: 0, score: o.score->0 })
    } else {
        acc
    }
}

/// The union of `acc` and the scored outcomes of `fresh`, keyed by word:
/// entries of `acc` win, newly scored words are appended in first-seen order.
pub open spec fn merge_outcomes(acc: Seq<CemantixWord>, fresh: Seq<BatchOutcome>) -> Seq<
    CemantixWord,
>
    decreases fresh.len(),
{
    if fresh.len() == 0 {
        acc
    } else {
        merge_outcomes(merge_step(acc, fresh[0]), fresh.drop_first())
    }
}

proof fn lemma_merge_outcomes_push(acc: Seq<CemantixWord>, s: Seq<BatchOutcome>, o: BatchOutcome)
    ensures
        merge_outcomes(acc, s.push(o)) == merge_step(merge_outcomes(acc, s), o),
    decreases s.len(),
{
    if s.len() == 0 {
        assert(s.push(o).drop_first() =~= s);
        assert(s.push(o)[0] == o);
        assert(merge_outcomes(acc, s.push(o)) == merge_outcomes(merge_step(acc, o), s));
        assert(merge_outcomes(merge_step(acc, o), s) == merge_step(acc, o));
        assert(merge_outcomes(acc, s) == acc);
    } else {
        assert(s.push(o)[0] == s[0]);
        assert(s.push(o).drop_first() =~= s.drop_first().push(o));
        assert(merge_outcomes(acc, s.push(o)) == merge_outcomes(
            merge_step(acc, s[0]),
            s.drop_first().push(o),
        ));
        lemma_merge_outcomes_push(merge_step(acc, s[0]), s.drop_first(), o);
        assert(merge_outcomes(acc, s) == merge_outcomes(merge_step(acc, s[0]), s.drop_first()));
    }
}

/// Merging one outcome list after another is merging their concatenation:
/// batch-by-batch accumulation loses nothing against one pass over the whole.
pub proof fn lemma_merge_outcomes_concat(
    acc: Seq<CemantixWord>,
    s1: Seq<BatchOutcome>,
    s2: Seq<BatchOutcome>,
)
    ensures
        merge_outcomes(acc, s1 + s2) == merge_outcomes(merge_outcomes(acc, s1), s2),
    decreases s1.len(),
{
    if s1.len() == 0 {
        assert(s1 + s2 =~= s2);
    } else {
        assert((s1 + s2)[0] == s1[0]);
        assert((s1 + s2).drop_first() =~= s1.drop_first() + s2);
        lemma_merge_outcomes_concat(merge_step(acc, s1[0]), s1.drop_first(), s2);
    }
}

/// Merging never disturbs what is already there and never duplicates a word:
/// the old collection is a prefix of the new one, and word uniqueness is kept.
pub proof fn lemma_merge_outcomes_props(acc: Seq<CemantixWord>, fresh: Seq<BatchOutcome>)
    requires
        unique_words(acc),
    ensures
        unique_words(merge_outcomes(acc, fresh)),
        acc.is_prefix_of(merge_outcomes(acc, fresh)),
        forall|w: Seq<char>|
            seq_contains_word(acc, w) ==> #[trigger] seq_contains_word(
                merge_outcomes(acc, fresh),
                w,
            ),
    decreases fresh.len(),
{
    if fresh.len() > 0 {
        let acc2 = merge_step(acc, fresh[0]);
        assert(unique_words(acc2)) by {
            if fresh[0].score is Some && !seq_contains_word(acc, fresh[0].word@) {
                assert(forall|i: int|
                    0 <= i < acc.len() ==> #[trigger] acc2[i].word@ == acc[i].word@);
            }
        }
        lemma_merge_outcomes_props(acc2, fresh.drop_first());
        assert(acc.is_prefix_of(acc2));
        assert(acc.is_prefix_of(merge_outcomes(acc, fresh)));
    }
}

/// Whether some record in `records` carries the word `w`.
pub fn contains_word(records: &Vec<CemantixWord>, w: &String) -> (r: bool)
    ensures
        r == seq_contains_word(records@, w@),
{
    let mut i: usize = 0;
    while i < records.len()
        invariant
            i <= records@.len(),
            forall|k: int| 0 <= k < i ==> records@[k].word@ != w@,
        decreases records@.len() - i,
    {
        if records[i].word == *w {
            return true;
        }
        i += 1;
    }
    false
}

/// Extends `records` with every scored outcome of `fresh` whose word it does
/// not already hold; entries already present win, newly scored words are
/// appended in first-seen order with rank zero.
pub fn extend_with_outcomes(records: &mut Vec<CemantixWord>, fresh: &Vec<BatchOutcome>)
    ensures
        final(records)@ == merge_outcomes(old(records)@, fresh@),
{
    let ghost orig = records@;
    let mut i: usize = 0;
    while i < fresh.len()
        invariant
            i <= fresh@.len(),
            records@ == merge_outcomes(orig, fresh@.take(i as int)),
        decreases fresh@.len() - i,
    {
        let o = &fresh[i];
        match o.score {
            Some(s) => {
                if !contains_word(records, &o.word) {
                    records.push(CemantixWord { word: o.word.clone(), rank: 0, score: s });
                }
            },
            None => {},
        }
        proof {
            assert(fresh@.take(i + 1) =~= fresh@.take(i as int).push(fresh@[i as int]));
            lemma_merge_outcomes_push(orig, fresh@.take(i as int), fresh@[i as int]);
        }
        i += 1;
    }
    proof {
        assert(fresh@.take(fresh@.len() as int) =~= fresh@);
    }
}

/// Sorts the records by descending score.  The result holds exactly the same
/// records, and a collection without repeated words stays that way.
pub fn sort_records_desc(records: &mut Vec<CemantixWord>)
    ensures
        sorted_desc(final(records)@),
        final(records)@.to_multiset() == old(records)@.to_multiset(),
        final(records)@.len() == old(records)@.len(),
        unique_words(old(records)@) ==> unique_words(final(records)@),
{
    let ghost orig = records@;
    let mut rest: Vec<CemantixWord> = Vec::new();
    core::mem::swap(records, &mut rest);
    while rest.len() > 0
        invariant
            sorted_desc(records@),
            records@.to_multiset().add(rest@.to_multiset()) =~= orig.to_multiset(),
            records@.len() + rest@.len() == orig.len(),
            forall|i: int, j: int|
                0 <= i < records@.len() && 0 <= j < rest@.len() ==> records@[i].score
                    >= rest@[j].score,
            unique_words(orig) ==> unique_words(records@),
            unique_words(orig) ==> unique_words(rest@),
            unique_words(orig) ==> (forall|i: int, j: int|
                0 <= i < records@.len() && 0 <= j < rest@.len() ==> records@[i].word@
                    != rest@[j].word@),
        decreases rest@.len(),
    {
        let mut max_idx: usize = 0;
        let mut k: usize = 1;
        while k < rest.len()
            invariant
                max_idx < k <= rest@.len(),
                rest@.len() > 0,
                forall|j: int| 0 <= j < k ==> rest@[max_idx as int].score >= rest@[j].score,
            decreases rest@.len() - k,
        {
            if rest[k].score > rest[max_idx].score {
                max_idx = k;
            }
            k += 1;
        }
        let ghost rest_before = rest@;
        let picked = rest.remove(max_idx);
        records.push(picked);
        proof {
            assert(rest_before.remove(max_idx as int).to_multiset() =~= rest_before.to_multiset()
                .remove(rest_before[max_idx as int]));
            assert(records@.to_multiset().add(rest@.to_multiset()) =~= orig.to_multiset());
            if unique_words(orig) {
                assert(forall|i: int|
                    0 <= i < rest@.len() ==> #[trigger] rest@[i].word@ == if i < max_idx {
                        rest_before[i].word@
                    } else {
                        rest_before[i + 1].word@
                    });
            }
        }
    }
    proof {
        assert(records@.to_multiset() =~= orig.to_multiset());
    }
}

} // verus!
