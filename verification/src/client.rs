//! The scoring client's decisions: how a raw oracle response is classified,
//! how the numeric score text becomes a score in thousandths, and when a
//! failed request is retried.
//!
//! The network call itself lives outside the library; it hands over the
//! status code and the plain facts read from the payload.

use vstd::prelude::*;

verus! {

use crate::history::digit_val;
use crate::history::first_index_of;
use crate::history::is_digit_char;
use crate::history::lemma_first_index_of_props;
use vstd::string::StrSliceExecFns;

/// How many times in all one scored query is attempted.
pub const MAX_SCORE_ATTEMPTS: u32 = 5;

/// What one scored query came to.
///
/// An unknown word is a successful round trip whose payload says the oracle
/// does not recognise the candidate: it is no error, it contributes no score.
#[derive(Clone, Copy, Debug, PartialEq, Eq, Structural)]
pub enum ScoreOutcome {
    Success(i64),
    UnknownWord,
    TransportFailure,
    ProtocolFailure,
    ParseFailure,
}

/// The plain facts read from a response body: nothing, when the body is no
/// JSON object; else whether an error field stands, and the score field's
/// text if one does.
pub enum RawPayload {
    Unparseable,
    Object { has_error: bool, score_text: Option<String> },
}

/// 10 to the `n`.
pub open spec fn pow10(n: nat) -> int
    decreases n,
{
    if n == 0 {
        1
    } else {
        10 * pow10((n - 1) as nat)
    }
}

/// The powers of ten up to the fifteenth, written out.
proof fn lemma_pow10_values()
    ensures
        pow10(0) == 1,
        pow10(1) == 10,
        pow10(2) == 100,
        pow10(3) == 1000,
        pow10(4) == 10000,
        pow10(5) == 100000,
        pow10(6) == 1000000,
        pow10(7) == 10000000,
        pow10(8) == 100000000,
        pow10(9) == 1000000000,
        pow10(10) == 10000000000,
        pow10(11) == 100000000000,
        pow10(12) == 1000000000000,
        pow10(13) == 10000000000000,
        pow10(14) == 100000000000000,
        pow10(15) == 1000000000000000,
{
    assert(pow10(0) == 1);
    assert(pow10(1) == 10);
    assert(pow10(2) == 100);
    assert(pow10(3) == 1000);
    assert(pow10(4) == 10000);
    assert(pow10(5) == 100000);
    assert(pow10(6) == 1000000);
    assert(pow10(7) == 10000000);
    assert(pow10(8) == 100000000);
    assert(pow10(9) == 1000000000);
    assert(pow10(10) == 10000000000);
    assert(pow10(11) == 100000000000);
    assert(pow10(12) == 1000000000000);
    assert(pow10(13) == 10000000000000);
    assert(pow10(14) == 100000000000000);
    assert(pow10(15) == 1000000000000000);
}

/// Whether every character of `s` is a decimal digit.
pub open spec fn all_digits(s: Seq<char>) -> bool {
    forall|i: int| 0 <= i < s.len() ==> is_digit_char(s[i])
}

/// The number a digit text spells.
pub open spec fn digits_val(s: Seq<char>) -> int
    decreases s.len(),
{
    if s.len() == 0 {
        0
    } else {
        digits_val(s.drop_last()) * 10 + digit_val(s.last())
    }
}

/// A digit text of length `n` spells a number below ten to the `n`.
proof fn lemma_digits_val_bound(s: Seq<char>)
    requires
        all_digits(s),
    ensures
        0 <= digits_val(s) < pow10(s.len()),
    decreases s.len(),
{
    if s.len() > 0 {
        assert(all_digits(s.drop_last())) by {
            assert(forall|i: int| 0 <= i < s.len() - 1 ==> s[i] == #[trigger] s.drop_last()[i]);
        }
        lemma_digits_val_bound(s.drop_last());
        assert(is_digit_char(s.last()));
    }
}

/// The thousandths a fraction text carries: its first three digits, padded
/// with zeros; anything beyond the third digit is cut off.
pub open spec fn frac_millis(s: Seq<char>) -> int {
    let d0 = if s.len() >= 1 {
        digit_val(s[0])
    } else {
        0
    };
    let d1 = if s.len() >= 2 {
        digit_val(s[1])
    } else {
        0
    };
    let d2 = if s.len() >= 3 {
        digit_val(s[2])
    } else {
        0
    };
    d0 * 100 + d1 * 10 + d2
}

/// What parsing a score text yields: thousandths, for an optional minus sign,
/// one to fifteen integral digits, and optionally a dot and at least one
/// fractional digit, of which the first three count.  Anything else is
/// rejected.
pub open spec fn spec_parse_score(s: Seq<char>) -> Option<i64> {
    let body = if s.len() > 0 && s[0] == '-' {
        s.drop_first()
    } else {
        s
    };
    let neg = s.len() > 0 && s[0] == '-';
    let dot = first_index_of(body, '.');
    let int_text = body.subrange(0, dot);
    if 1 <= int_text.len() <= 15 && all_digits(int_text) && (dot == body.len() || (dot + 1
        < body.len() && all_digits(body.subrange(dot + 1, body.len() as int)))) {
        let frac_text = if dot == body.len() {
            Seq::<char>::empty()
        } else {
            body.subrange(dot + 1, body.len() as int)
        };
        let magnitude = digits_val(int_text) * 1000 + frac_millis(frac_text);
        if neg {
            Some((-magnitude) as i64)
        } else {
            Some(magnitude as i64)
        }
    } else {
        None
    }
}

/// Parses the text of the oracle's numeric score field into thousandths.
pub fn parse_score_text(s: &str) -> (r: Option<i64>)
    ensures
        r == spec_parse_score(s@),
{
    let n = s.unicode_len();
    let neg = n > 0 && s.get_char(0) == '-';
    let start: usize = if neg {
        1
    } else {
        0
    };
    let ghost body = if neg {
        s@.drop_first()
    } else {
        s@
    };
    proof {
        assert(forall|k: int| 0 <= k < body.len() ==> body[k] == s@[k + start]);
        lemma_first_index_of_props(body, '.');
        lemma_pow10_values();
    }
    // find the dot inside the body
    let mut dot: usize = start;
    while dot < n && s.get_char(dot) != '.'
        invariant
            start <= dot <= n,
            n == s@.len(),
            forall|k: int| start <= k < dot ==> s@[k] != '.',
        decreases n - dot,
    {
        dot += 1;
    }
    proof {
        assert forall|k: int| 0 <= k < dot - start implies body[k] != '.' by {
            assert(body[k] == s@[k + start]);
        }
        if dot < n {
            assert(body[dot - start] == s@[dot as int]);
        }
        crate::history::lemma_first_index_of_unique(body, '.', dot - start);
    }
    let int_len = dot - start;
    if int_len < 1 || int_len > 15 {
        return None;
    }
    // the integral digits
    let mut i: usize = start;
    let mut val: i64 = 0;
    while i < dot
        invariant
            start <= i <= dot <= n,
            n == s@.len(),
            dot - start <= 15,
            first_index_of(body, '.') == dot - start,
            neg == (s@.len() > 0 && s@[0] == '-'),
            body == (if neg {
                s@.drop_first()
            } else {
                s@
            }),
            start as int == (if neg {
                1int
            } else {
                0int
            }),
            forall|k: int| 0 <= k < body.len() ==> body[k] == s@[k + start],
            body.len() == n - start,
            all_digits(body.subrange(0, i - start)),
            val == digits_val(body.subrange(0, i - start)),
            0 <= val < pow10((i - start) as nat),
            pow10(15) == 1000000000000000,
        decreases dot - i,
    {
        let c = s.get_char(i);
        if !crate::history::is_digit(c) {
            proof {
                assert(body[i - start] == s@[i as int]);
                assert(body.subrange(0, first_index_of(body, '.'))[i - start] == body[i - start]);
            }
            return None;
        }
        let d = crate::history::digit_value(c);
        proof {
            lemma_pow10_values();
            assert(body.subrange(0, i + 1 - start).drop_last() =~= body.subrange(0, i - start));
            assert(body.subrange(0, i + 1 - start).last() == body[i - start]);
            assert(body[i - start] == s@[i as int]);
            assert(pow10(((i - start) + 1) as nat) == 10 * pow10((i - start) as nat));
            assert(pow10((i - start) as nat) <= pow10(14)) by {
                lemma_pow10_mono((i - start) as nat, 14);
            }
        }
        val = val * 10 + (d as i64);
        i += 1;
    }
    proof {
        assert(body.subrange(0, dot - start) == body.subrange(0, first_index_of(body, '.')));
        lemma_digits_val_bound(body.subrange(0, dot - start));
        lemma_pow10_values();
    }
    // the fractional digits, if a dot stands
    let mut millis: i64 = 0;
    if dot == n {
        millis = val * 1000;
    } else {
        if dot + 1 >= n {
            return None;
        }
        // check every fractional character and read the first three digits
        let mut f: usize = dot + 1;
        let mut frac: i64 = 0;
        while f < n
            invariant
                dot + 1 <= f <= n,
                n == s@.len(),
                first_index_of(body, '.') == dot - start,
                neg == (s@.len() > 0 && s@[0] == '-'),
                body == (if neg {
                    s@.drop_first()
                } else {
                    s@
                }),
                start as int == (if neg {
                    1int
                } else {
                    0int
                }),
                forall|k: int| 0 <= k < body.len() ==> body[k] == s@[k + start],
                body.len() == n - start,
                start <= dot,
                all_digits(body.subrange(dot + 1 - start, f - start)),
                frac == frac_millis_partial(body.subrange(dot + 1 - start, body.len() as int), f - dot - 1),
                0 <= frac <= 999,
            decreases n - f,
        {
            let c = s.get_char(f);
            if !crate::history::is_digit(c) {
                proof {
                    assert(body[f - start] == s@[f as int]);
                    assert(body.subrange(dot + 1 - start, body.len() as int)[f - dot - 1]
                        == body[f - start]);
                }
                return None;
            }
            let d = crate::history::digit_value(c);
            proof {
                assert(body.subrange(dot + 1 - start, f + 1 - start).drop_last() =~= body.subrange(
                    dot + 1 - start,
                    f - start,
                ));
                assert(body[f - start] == s@[f as int]);
            }
            if f == dot + 1 {
                frac = (d as i64) * 100;
            } else if f == dot + 2 {
                frac = frac + (d as i64) * 10;
            } else if f == dot + 3 {
                frac = frac + (d as i64);
            }
            f += 1;
        }
        millis = val * 1000 + frac;
    }
    let r = if neg {
        -millis
    } else {
        millis
    };
    Some(r)
}

/// The thousandths the first `k` characters of a fraction text carry.
pub open spec fn frac_millis_partial(s: Seq<char>, k: int) -> int {
    let d0 = if k >= 1 && s.len() >= 1 {
        digit_val(s[0])
    } else {
        0
    };
    let d1 = if k >= 2 && s.len() >= 2 {
        digit_val(s[1])
    } else {
        0
    };
    let d2 = if k >= 3 && s.len() >= 3 {
        digit_val(s[2])
    } else {
        0
    };
    d0 * 100 + d1 * 10 + d2
}

/// Ten to a smaller power is no greater.
proof fn lemma_pow10_mono(a: nat, b: nat)
    requires
        a <= b,
    ensures
        pow10(a) <= pow10(b),
    decreases b,
{
    if a < b {
        lemma_pow10_mono(a, (b - 1) as nat);
        lemma_pow10_pos((b - 1) as nat);
    }
}

/// Ten to any power is positive.
proof fn lemma_pow10_pos(n: nat)
    ensures
        pow10(n) >= 1,
    decreases n,
{
    if n > 0 {
        lemma_pow10_pos((n - 1) as nat);
    }
}

/// What a score of one outcome contributes to a batch: its thousandths on
/// success, nothing otherwise.
pub open spec fn spec_outcome_score(o: ScoreOutcome) -> Option<i64> {
    match o {
        ScoreOutcome::Success(v) => Some(v),
        _ => None,
    }
}

/// The score one outcome contributes to a batch: per-word failures and
/// unknown words are absorbed, they contribute no score and abort nothing.
pub fn outcome_score(o: &ScoreOutcome) -> (r: Option<i64>)
    ensures
        r == spec_outcome_score(*o),
{
    match o {
        ScoreOutcome::Success(v) => Some(*v),
        _ => None,
    }
}

/// Classifies one raw response: a status other than 200 is a protocol
/// failure; an unreadable body is a parse failure; an error field means the
/// oracle does not know the word; a score field must spell a number, which
/// becomes the score; a missing score field is a parse failure.
pub fn classify_response(status: u16, payload: RawPayload) -> (r: ScoreOutcome)
    ensures
        status != 200 ==> r == ScoreOutcome::ProtocolFailure,
        status == 200 && payload is Unparseable ==> r == ScoreOutcome::ParseFailure,
        status == 200 && (payload matches RawPayload::Object { has_error: true, .. }) ==> r
            == ScoreOutcome::UnknownWord,
        status == 200 && (payload matches RawPayload::Object { has_error: false, score_text: None })
            ==> r == ScoreOutcome::ParseFailure,
        payload matches RawPayload::Object { has_error: false, score_text: Some(t) } ==> (status
            == 200 ==> r == match spec_parse_score(t@) {
            Some(v) => ScoreOutcome::Success(v),
            None => ScoreOutcome::ParseFailure,
        }),
{
    if status != 200 {
        return ScoreOutcome::ProtocolFailure;
    }
    match payload {
        RawPayload::Unparseable => ScoreOutcome::ParseFailure,
        RawPayload::Object { has_error, score_text } => {
            if has_error {
                return ScoreOutcome::UnknownWord;
            }
            match score_text {
                None => ScoreOutcome::ParseFailure,
                Some(t) => match parse_score_text(t.as_str()) {
                    Some(v) => ScoreOutcome::Success(v),
                    None => ScoreOutcome::ParseFailure,
                },
            }
        },
    }
}

/// Whether a failed attempt is tried again: only a transport failure is,
/// and only while fewer than the bounded number of attempts were made.
/// Protocol and parse failures propagate at once.
pub fn should_retry(o: &ScoreOutcome, attempts_made: u32) -> (r: bool)
    ensures
        r == (o is TransportFailure && attempts_made < MAX_SCORE_ATTEMPTS),
{
    match o {
        ScoreOutcome::TransportFailure => attempts_made < MAX_SCORE_ATTEMPTS,
        _ => false,
    }
}

} // verus!
