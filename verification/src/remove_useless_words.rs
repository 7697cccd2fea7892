//! Removing useless words: of a candidate list probed against the oracle,
//! only the words it recognises are kept.

use vstd::prelude::*;

verus! {

use crate::word_record::BatchOutcome;

/// The options of one remove-useless-words command.
pub struct Ruw {
    pub source_filename: String,
    pub destination_file: String,
    pub starting_index: u32,
    pub batch_size: usize,
}

/// The words of the scored outcomes, in input order: an outcome without a
/// score — an unknown word or an absorbed failure — keeps nothing.
pub open spec fn kept_words(s: Seq<BatchOutcome>) -> Seq<String>
    decreases s.len(),
{
    if s.len() == 0 {
        Seq::empty()
    } else {
        let rest = kept_words(s.drop_last());
        if s.last().score is Some {
            rest.push(s.last().word)
        } else {
            rest
        }
    }
}

/// The words of one batch that the oracle recognised, in input order: these
/// are the words worth keeping in a cleaned candidate file.
pub fn words_to_keep(outcomes: &Vec<BatchOutcome>) -> (r: Vec<String>)
    ensures
        r@ == kept_words(outcomes@),
{
    let mut out: Vec<String> = Vec::new();
    let mut i: usize = 0;
    while i < outcomes.len()
        invariant
            i <= outcomes@.len(),
            out@ == kept_words(outcomes@.take(i as int)),
        decreases outcomes@.len() - i,
    {
        proof {
            assert(outcomes@.take(i + 1).drop_last() =~= outcomes@.take(i as int));
            assert(outcomes@.take(i + 1).last() == outcomes@[i as int]);
        }
        match outcomes[i].score {
            Some(_) => {
                out.push(outcomes[i].word.clone());
            },
            None => {},
        }
        i += 1;
    }
    proof {
        assert(outcomes@.take(outcomes@.len() as int) =~= outcomes@);
    }
    out
}

/// Whether `w` is the word of some scored outcome of `s`.
pub open spec fn comes_from_scored(s: Seq<BatchOutcome>, w: String) -> bool {
    exists|i: int| 0 <= i < s.len() && (#[trigger] s[i]).score is Some && w == s[i].word
}

/// A word is kept only when its outcome scored, and every scored outcome's
/// word is kept: the cleaned list holds exactly the recognised words.
pub proof fn lemma_kept_words_exact(s: Seq<BatchOutcome>)
    ensures
        forall|k: int|
            0 <= k < kept_words(s).len() ==> comes_from_scored(s, #[trigger] kept_words(s)[k]),
        forall|i: int|
            0 <= i < s.len() && (#[trigger] s[i].score) is Some ==> kept_words(s).contains(
                s[i].word,
            ),
    decreases s.len(),
{
    if s.len() == 0 {
        assert(kept_words(s).len() == 0);
    } else {
        lemma_kept_words_exact(s.drop_last());
        let r = kept_words(s);
        let rest = kept_words(s.drop_last());
        assert(r == if s.last().score is Some {
            rest.push(s.last().word)
        } else {
            rest
        });
        assert forall|k: int| 0 <= k < r.len() implies comes_from_scored(s, #[trigger] r[k]) by {
            if k < rest.len() {
                assert(r[k] == rest[k]);
                assert(comes_from_scored(s.drop_last(), rest[k]));
                let i = choose|i: int|
                    0 <= i < s.drop_last().len() && (#[trigger] s.drop_last()[i]).score is Some
                        && rest[k] == s.drop_last()[i].word;
                assert(s[i] == s.drop_last()[i]);
                assert(0 <= i < s.len() && s[i].score is Some && r[k] == s[i].word);
            } else {
                assert(s[s.len() - 1] == s.last());
                assert(r[k] == s.last().word);
                assert(0 <= s.len() - 1 < s.len() && s[s.len() - 1].score is Some && r[k] == s[s.len()
                    - 1].word);
            }
        }
        assert forall|i: int|
            0 <= i < s.len() && (#[trigger] s[i].score) is Some implies r.contains(s[i].word) by {
            if i < s.len() - 1 {
                assert(s.drop_last()[i] == s[i]);
                assert(rest.contains(s[i].word));
                let k = choose|k: int| 0 <= k < rest.len() && rest[k] == s[i].word;
                if s.last().score is Some {
                    assert(r[k] == rest[k]);
                } else {
                    assert(r[k] == rest[k]);
                }
            } else {
                if s.last().score is Some {
                    assert(r[r.len() - 1] == s.last().word);
                }
            }
        }
    }
}

} // verus!
