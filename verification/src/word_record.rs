//! The record of one scored word.
//!
//! Scores are held in thousandths of the oracle's unit, so that the ordering
//! the oracle's similarity values induce is a total order over plain integers.
//! Equality is defined on the word alone; ordering is defined on the score
//! alone and never implies equality.

use vstd::prelude::*;

verus! {

use core::cmp::Ordering;
use vstd::std_specs::cmp::PartialEqSpec;
use vstd::std_specs::cmp::PartialOrdSpec;

/// One word the oracle scored, with its rank and its score in thousandths.
#[derive(Debug)]
pub struct CemantixWord {
    pub word: String,
    pub rank: isize,
    pub score: i64,
}

/// What one dispatched word came back as: its score in thousandths, or
/// nothing when the oracle did not recognise it or the query failed.
pub struct BatchOutcome {
    pub word: String,
    pub score: Option<i64>,
}

impl BatchOutcome {
    pub fn new(word: String, score: Option<i64>) -> (r: Self)
        ensures
            r.word == word,
            r.score == score,
    {
        Self { word, score }
    }
}

/// The ordering of two records: by score alone.
pub open spec fn record_cmp(a: &CemantixWord, b: &CemantixWord) -> Ordering {
    if a.score < b.score {
        Ordering::Less
    } else if a.score == b.score {
        Ordering::Equal
    } else {
        Ordering::Greater
    }
}

impl CemantixWord {
    pub fn new(word: String, rank: isize, score: i64) -> (r: Self)
        ensures
            r.word == word,
            r.rank == rank,
            r.score == score,
    {
        Self { word, rank, score }
    }

    pub fn clone_record(&self) -> (r: Self)
        ensures
            r == *self,
    {
        let r = Self { word: self.word.clone(), rank: self.rank, score: self.score };
        proof {
            assert(r.word == self.word);
        }
        r
    }
}

impl PartialEq for CemantixWord {
    fn eq(&self, other: &Self) -> (r: bool) {
        self.word == other.word
    }
}

impl vstd::std_specs::cmp::PartialEqSpecImpl for CemantixWord {
    open spec fn obeys_eq_spec() -> bool {
        true
    }

    open spec fn eq_spec(&self, other: &CemantixWord) -> bool {
        self.word@ == other.word@
    }
}

impl PartialOrd for CemantixWord {
    fn partial_cmp(&self, other: &Self) -> (r: Option<Ordering>) {
        if self.score < other.score {
            Some(Ordering::Less)
        } else if self.score == other.score {
            Some(Ordering::Equal)
        } else {
            Some(Ordering::Greater)
        }
    }

    fn lt(&self, other: &Self) -> (r: bool) {
        self.score < other.score
    }

    fn le(&self, other: &Self) -> (r: bool) {
        self.score <= other.score
    }

    fn gt(&self, other: &Self) -> (r: bool) {
        self.score > other.score
    }

    fn ge(&self, other: &Self) -> (r: bool) {
        self.score >= other.score
    }
}

impl vstd::std_specs::cmp::PartialOrdSpecImpl for CemantixWord {
    open spec fn obeys_partial_cmp_spec() -> bool {
        true
    }

    open spec fn partial_cmp_spec(&self, other: &CemantixWord) -> Option<Ordering> {
        Some(record_cmp(self, other))
    }
}

/// Two records with the same word are equal, whatever their scores or ranks:
/// equality reads the word alone.
pub proof fn lemma_record_equality_ignores_score(a: CemantixWord, b: CemantixWord)
    requires
        a.word@ == b.word@,
    ensures
        a.eq_spec(&b),
        b.eq_spec(&a),
{
}

/// Two records with different words are never equal, whatever their scores.
pub proof fn lemma_record_inequality_is_by_word(a: CemantixWord, b: CemantixWord)
    requires
        a.word@ != b.word@,
    ensures
        !a.eq_spec(&b),
{
}

/// The record ordering compares every pair: it is total.
pub proof fn lemma_record_order_total(a: CemantixWord, b: CemantixWord)
    ensures
        a.partial_cmp_spec(&b) is Some,
        a.partial_cmp_spec(&b) == Some(Ordering::Less) <==> a.score < b.score,
        a.partial_cmp_spec(&b) == Some(Ordering::Equal) <==> a.score == b.score,
        a.partial_cmp_spec(&b) == Some(Ordering::Greater) <==> a.score > b.score,
{
}

/// The record ordering is reflexive: every record compares equal to itself.
pub proof fn lemma_record_order_reflexive(a: CemantixWord)
    ensures
        a.partial_cmp_spec(&a) == Some(Ordering::Equal),
{
}

/// The record ordering is antisymmetric in the score: if neither record
/// orders above the other, their scores are equal.  It says nothing of the
/// words, so it never implies record equality.
pub proof fn lemma_record_order_antisymmetric(a: CemantixWord, b: CemantixWord)
    requires
        a.partial_cmp_spec(&b) != Some(Ordering::Greater),
        b.partial_cmp_spec(&a) != Some(Ordering::Greater),
    ensures
        a.score == b.score,
{
}

/// The record ordering is transitive.
pub proof fn lemma_record_order_transitive(a: CemantixWord, b: CemantixWord, c: CemantixWord)
    requires
        record_cmp(&a, &b) != Ordering::Greater,
        record_cmp(&b, &c) != Ordering::Greater,
    ensures
        record_cmp(&a, &c) != Ordering::Greater,
{
}

} // verus!
