//! Helpers over plain word lists: membership and exclusion.
//!
//! The surrounding program reads directory listings and files; the functions
//! here work on the lists it hands over.

use vstd::prelude::*;

verus! {

use crate::error::EngineError;
use crate::history::spec_parse_history_line;
use crate::history::Date;

/// Whether some entry of `s` spells the word `w`.
pub open spec fn seq_contains_str(s: Seq<String>, w: Seq<char>) -> bool {
    exists|i: int| 0 <= i < s.len() && s[i]@ == w
}

/// Whether some entry of `list` spells the word `w`.
pub fn list_contains(list: &Vec<String>, w: &String) -> (r: bool)
    ensures
        r == seq_contains_str(list@, w@),
{
    let mut i: usize = 0;
    while i < list.len()
        invariant
            i <= list@.len(),
            forall|k: int| 0 <= k < i ==> list@[k]@ != w@,
        decreases list@.len() - i,
    {
        if list[i] == *w {
            return true;
        }
        i += 1;
    }
    false
}

/// The entries of `data` whose word none of `except` spells, in order.
pub open spec fn spec_retain_except(data: Seq<String>, except: Seq<String>) -> Seq<String>
    decreases data.len(),
{
    if data.len() == 0 {
        Seq::empty()
    } else {
        let rest = spec_retain_except(data.drop_last(), except);
        if seq_contains_str(except, data.last()@) {
            rest
        } else {
            rest.push(data.last())
        }
    }
}

/// Every kept entry comes from `data` and spells none of `except`.
pub proof fn lemma_retain_except_props(data: Seq<String>, except: Seq<String>)
    ensures
        forall|k: int|
            0 <= k < spec_retain_except(data, except).len() ==> !seq_contains_str(
                except,
                (#[trigger] spec_retain_except(data, except)[k])@,
            ),
        forall|k: int|
            0 <= k < spec_retain_except(data, except).len() ==> data.contains(
                #[trigger] spec_retain_except(data, except)[k],
            ),
    decreases data.len(),
{
    if data.len() > 0 {
        lemma_retain_except_props(data.drop_last(), except);
        let r = spec_retain_except(data, except);
        let rest = spec_retain_except(data.drop_last(), except);
        assert forall|k: int| 0 <= k < r.len() implies !seq_contains_str(except, (#[trigger] r[k])@)
            && data.contains(r[k]) by {
            if k < rest.len() {
                assert(r[k] == rest[k]);
                assert(data.drop_last().contains(rest[k]));
                let i = choose|i: int|
                    0 <= i < data.drop_last().len() && data.drop_last()[i] == rest[k];
                assert(data[i] == rest[k]);
            } else {
                assert(r[k] == data.last());
                assert(data[data.len() - 1] == data.last());
            }
        }
    }
}

/// Reads word lists from directory listings and history lines the
/// surrounding program hands over.
pub struct WordGetter {}

impl WordGetter {
    /// The listed cache words with every excepted word removed, in listing
    /// order.
    pub fn get_all_found_words_except(data: Vec<String>, words_exception: &Vec<String>) -> (r: Vec<
        String,
    >)
        ensures
            r@ == spec_retain_except(data@, words_exception@),
    {
        let mut out: Vec<String> = Vec::new();
        let mut i: usize = 0;
        while i < data.len()
            invariant
                i <= data@.len(),
                out@ == spec_retain_except(data@.take(i as int), words_exception@),
            decreases data@.len() - i,
        {
            proof {
                assert(data@.take(i + 1).drop_last() =~= data@.take(i as int));
                assert(data@.take(i + 1).last() == data@[i as int]);
            }
            if !list_contains(words_exception, &data[i]) {
                out.push(data[i].clone());
            }
            i += 1;
        }
        proof {
            assert(data@.take(data@.len() as int) =~= data@);
        }
        out
    }

    /// The most recently found word and its date, read off the history
    /// file's last line: no line means no word was found yet, and a line
    /// that is no history entry is a malformed history.
    pub fn get_last_found_word(last_line: Option<&String>) -> (r: Result<
        Option<(String, Date)>,
        EngineError,
    >)
        ensures
            last_line is None ==> (r matches Ok(o) && o is None),
            last_line matches Some(l) ==> match spec_parse_history_line(l@) {
                Some(p) => r matches Ok(o) && o matches Some(q) && q.0@ == p.0 && q.1 == p.1,
                None => r == Result::<Option<(String, Date)>, EngineError>::Err(
                    EngineError::MalformedHistory,
                ),
            },
    {
        match last_line {
            None => Ok(None),
            Some(l) => match crate::history::parse_history_line(l.as_str()) {
                Some(p) => Ok(Some(p)),
                None => Err(EngineError::MalformedHistory),
            },
        }
    }
}

} // verus!
