//! Calendar dates and the append-only history of found words.
//!
//! The history file holds one line per solved day, `"<word> : <date>"` with
//! the date written day-month-year, two digits, two digits, four digits.
//! Only the last entry is ever read: it decides whether today's puzzle is
//! already solved.

use vstd::prelude::*;

verus! {

use vstd::string::StrSliceExecFns;
use vstd::string::StringExecFns;

/// A calendar date, held as plain day, month and year numbers.
#[derive(Clone, Copy, Debug, PartialEq, Eq, Structural)]
pub struct Date {
    pub day: u32,
    pub month: u32,
    pub year: u32,
}

/// Whether `y` is a leap year of the Gregorian calendar.
pub open spec fn is_leap_year(y: int) -> bool {
    y % 4 == 0 && (y % 100 != 0 || y % 400 == 0)
}

/// How many days month `m` of year `y` has.
pub open spec fn spec_days_in_month(y: int, m: int) -> int {
    if m == 2 {
        if is_leap_year(y) {
            29
        } else {
            28
        }
    } else if m == 4 || m == 6 || m == 9 || m == 11 {
        30
    } else {
        31
    }
}

impl Date {
    /// A real calendar date whose year the four-digit format can carry.
    pub open spec fn valid(self) -> bool {
        &&& 1 <= self.month <= 12
        &&& self.year <= 9999
        &&& 1 <= self.day <= spec_days_in_month(self.year as int, self.month as int)
    }

    pub fn new(day: u32, month: u32, year: u32) -> (r: Self)
        ensures
            r.day == day,
            r.month == month,
            r.year == year,
    {
        Self { day, month, year }
    }

    /// Whether the date is a real calendar date the history format can hold.
    pub fn is_valid(&self) -> (r: bool)
        ensures
            r == self.valid(),
    {
        if !(1 <= self.month && self.month <= 12) {
            return false;
        }
        if self.year > 9999 {
            return false;
        }
        let dim = days_in_month(self.year, self.month);
        1 <= self.day && self.day <= dim
    }
}

/// How many days month `m` of year `y` has.
pub fn days_in_month(y: u32, m: u32) -> (r: u32)
    requires
        1 <= m <= 12,
    ensures
        r == spec_days_in_month(y as int, m as int),
{
    if m == 2 {
        if y % 4 == 0 && (y % 100 != 0 || y % 400 == 0) {
            29
        } else {
            28
        }
    } else if m == 4 || m == 6 || m == 9 || m == 11 {
        30
    } else {
        31
    }
}

/// Whether `c` is a decimal digit.
pub open spec fn is_digit_char(c: char) -> bool {
    48 <= c as int <= 57
}

/// The value of the digit `c`.
pub open spec fn digit_val(c: char) -> int {
    c as int - 48
}

/// The digit character for a value below ten.
pub open spec fn digit_char(v: int) -> char {
    ((48 + v) as u8) as char
}

/// Whether `s` has the shape of the history date format: two digits, a dash,
/// two digits, a dash, four digits.
pub open spec fn spec_date_text_wf(s: Seq<char>) -> bool {
    &&& s.len() == 10
    &&& is_digit_char(s[0])
    &&& is_digit_char(s[1])
    &&& s[2] == '-'
    &&& is_digit_char(s[3])
    &&& is_digit_char(s[4])
    &&& s[5] == '-'
    &&& is_digit_char(s[6])
    &&& is_digit_char(s[7])
    &&& is_digit_char(s[8])
    &&& is_digit_char(s[9])
}

/// The date a well-shaped text carries, valid or not.
pub open spec fn spec_date_of_text(s: Seq<char>) -> Date {
    Date {
        day: (digit_val(s[0]) * 10 + digit_val(s[1])) as u32,
        month: (digit_val(s[3]) * 10 + digit_val(s[4])) as u32,
        year: (digit_val(s[6]) * 1000 + digit_val(s[7]) * 100 + digit_val(s[8]) * 10 + digit_val(
            s[9],
        )) as u32,
    }
}

/// What parsing a date text yields: the date it spells, provided the text is
/// well shaped and the date is a real calendar date.
pub open spec fn spec_parse_date(s: Seq<char>) -> Option<Date> {
    if spec_date_text_wf(s) && spec_date_of_text(s).valid() {
        Some(spec_date_of_text(s))
    } else {
        None
    }
}

/// Parses a date in the history format, day-month-year; anything not well
/// shaped, and any number triple that is no real calendar date, is rejected.
pub fn parse_date(s: &str) -> (r: Option<Date>)
    ensures
        r == spec_parse_date(s@),
{
    let n = s.unicode_len();
    if n != 10 {
        return None;
    }
    let c0 = s.get_char(0);
    let c1 = s.get_char(1);
    let c2 = s.get_char(2);
    let c3 = s.get_char(3);
    let c4 = s.get_char(4);
    let c5 = s.get_char(5);
    let c6 = s.get_char(6);
    let c7 = s.get_char(7);
    let c8 = s.get_char(8);
    let c9 = s.get_char(9);
    if !(is_digit(c0) && is_digit(c1) && c2 == '-' && is_digit(c3) && is_digit(c4) && c5 == '-'
        && is_digit(c6) && is_digit(c7) && is_digit(c8) && is_digit(c9)) {
        return None;
    }
    let day = digit_value(c0) * 10 + digit_value(c1);
    let month = digit_value(c3) * 10 + digit_value(c4);
    let year = digit_value(c6) * 1000 + digit_value(c7) * 100 + digit_value(c8) * 10 + digit_value(
        c9,
    );
    let date = Date { day, month, year };
    if date.is_valid() {
        Some(date)
    } else {
        None
    }
}

/// Whether `c` is a decimal digit.
pub fn is_digit(c: char) -> (r: bool)
    ensures
        r == is_digit_char(c),
{
    '0' <= c && c <= '9'
}

/// The value of the digit `c`.
pub fn digit_value(c: char) -> (r: u32)
    requires
        is_digit_char(c),
    ensures
        r == digit_val(c),
        r <= 9,
{
    (c as u32) - 48
}

/// The rendering of a date in the history format: day-month-year, zero
/// padded to two, two and four digits.
pub open spec fn spec_render_date(d: Date) -> Seq<char> {
    seq![
        digit_char(d.day as int / 10),
        digit_char(d.day as int % 10),
        '-',
        digit_char(d.month as int / 10),
        digit_char(d.month as int % 10),
        '-',
        digit_char(d.year as int / 1000),
        digit_char(d.year as int / 100 % 10),
        digit_char(d.year as int / 10 % 10),
        digit_char(d.year as int % 10),
    ]
}

/// The one-character text of the digit `v`.
fn digit_str(v: u32) -> (r: &'static str)
    requires
        v <= 9,
    ensures
        r@.len() == 1,
        r@[0] == digit_char(v as int),
{
    proof {
        reveal_strlit("0");
        reveal_strlit("1");
        reveal_strlit("2");
        reveal_strlit("3");
        reveal_strlit("4");
        reveal_strlit("5");
        reveal_strlit("6");
        reveal_strlit("7");
        reveal_strlit("8");
        reveal_strlit("9");
    }
    match v {
        0 => "0",
        1 => "1",
        2 => "2",
        3 => "3",
        4 => "4",
        5 => "5",
        6 => "6",
        7 => "7",
        8 => "8",
        _ => "9",
    }
}

/// Renders a date in the history format, day-month-year, zero padded.
pub fn render_date(d: &Date) -> (r: String)
    requires
        d.valid(),
    ensures
        r@ == spec_render_date(*d),
{
    proof {
        reveal_strlit("-");
    }
    let mut out = String::new();
    out.append(digit_str(d.day / 10));
    out.append(digit_str(d.day % 10));
    out.append("-");
    out.append(digit_str(d.month / 10));
    out.append(digit_str(d.month % 10));
    out.append("-");
    out.append(digit_str(d.year / 1000));
    out.append(digit_str(d.year / 100 % 10));
    out.append(digit_str(d.year / 10 % 10));
    out.append(digit_str(d.year % 10));
    proof {
        assert(out@ =~= spec_render_date(*d));
    }
    out
}

/// A digit character carries its digit back.
proof fn lemma_digit_round_trip(v: int)
    requires
        0 <= v <= 9,
    ensures
        is_digit_char(digit_char(v)),
        digit_val(digit_char(v)) == v,
{
    assert(digit_char(v) as int == 48 + v);
}

/// Rendering a valid date and parsing the text back yields the same date:
/// the history format loses nothing.
#[verifier::rlimit(50)]
pub proof fn lemma_date_round_trip(d: Date)
    requires
        d.valid(),
    ensures
        spec_parse_date(spec_render_date(d)) == Some(d),
{
    let s = spec_render_date(d);
    let day = d.day as int;
    let month = d.month as int;
    let year = d.year as int;
    lemma_digit_round_trip(day / 10);
    lemma_digit_round_trip(day % 10);
    lemma_digit_round_trip(month / 10);
    lemma_digit_round_trip(month % 10);
    lemma_digit_round_trip(year / 1000);
    lemma_digit_round_trip(year / 100 % 10);
    lemma_digit_round_trip(year / 10 % 10);
    lemma_digit_round_trip(year % 10);
    assert(s[0] == digit_char(day / 10));
    assert(s[1] == digit_char(day % 10));
    assert(s[2] == '-');
    assert(s[3] == digit_char(month / 10));
    assert(s[4] == digit_char(month % 10));
    assert(s[5] == '-');
    assert(s[6] == digit_char(year / 1000));
    assert(s[7] == digit_char(year / 100 % 10));
    assert(s[8] == digit_char(year / 10 % 10));
    assert(s[9] == digit_char(year % 10));
    assert(day / 10 <= 9 && month / 10 <= 9 && year / 1000 <= 9);
    assert(spec_date_text_wf(s));
    assert(digit_val(s[0]) == day / 10 && digit_val(s[1]) == day % 10);
    assert(digit_val(s[3]) == month / 10 && digit_val(s[4]) == month % 10);
    assert(digit_val(s[6]) == year / 1000 && digit_val(s[7]) == year / 100 % 10 && digit_val(s[8])
        == year / 10 % 10 && digit_val(s[9]) == year % 10);
    assert(spec_date_of_text(s) == d);
}

/// How many spaces `s` starts with.
pub open spec fn count_leading_spaces(s: Seq<char>) -> int
    decreases s.len(),
{
    if s.len() == 0 || s[0] != ' ' {
        0
    } else {
        1 + count_leading_spaces(s.drop_first())
    }
}

/// How many spaces `s` ends with.
pub open spec fn count_trailing_spaces(s: Seq<char>) -> int
    decreases s.len(),
{
    if s.len() == 0 || s.last() != ' ' {
        0
    } else {
        1 + count_trailing_spaces(s.drop_last())
    }
}

/// `s` without its leading and trailing spaces.
pub open spec fn spec_trim(s: Seq<char>) -> Seq<char> {
    let l = count_leading_spaces(s);
    if l == s.len() {
        Seq::empty()
    } else {
        s.subrange(l, s.len() - count_trailing_spaces(s))
    }
}

/// The leading-space count is the least index of a non-space, or the length.
proof fn lemma_count_leading_props(s: Seq<char>)
    ensures
        0 <= count_leading_spaces(s) <= s.len(),
        forall|k: int| 0 <= k < count_leading_spaces(s) ==> s[k] == ' ',
        count_leading_spaces(s) < s.len() ==> s[count_leading_spaces(s)] != ' ',
    decreases s.len(),
{
    if s.len() > 0 && s[0] == ' ' {
        lemma_count_leading_props(s.drop_first());
        assert forall|k: int| 0 <= k < count_leading_spaces(s) implies s[k] == ' ' by {
            if k >= 1 {
                assert(s[k] == s.drop_first()[k - 1]);
            }
        }
    }
}

/// The trailing-space count is the length of the space-only suffix.
proof fn lemma_count_trailing_props(s: Seq<char>)
    ensures
        0 <= count_trailing_spaces(s) <= s.len(),
        forall|k: int| s.len() - count_trailing_spaces(s) <= k < s.len() ==> s[k] == ' ',
        count_trailing_spaces(s) < s.len() ==> s[s.len() - 1 - count_trailing_spaces(s)] != ' ',
    decreases s.len(),
{
    if s.len() > 0 && s.last() == ' ' {
        lemma_count_trailing_props(s.drop_last());
        assert forall|k: int|
            s.len() - count_trailing_spaces(s) <= k < s.len() implies s[k] == ' ' by {
            if k < s.len() - 1 {
                assert(s[k] == s.drop_last()[k]);
            }
        }
    }
}

/// Any index below which all is space, and which holds no space itself, is
/// the leading-space count.
proof fn lemma_count_leading_unique(s: Seq<char>, i: int)
    requires
        0 <= i <= s.len(),
        forall|k: int| 0 <= k < i ==> s[k] == ' ',
        i < s.len() ==> s[i] != ' ',
    ensures
        i == count_leading_spaces(s),
{
    lemma_count_leading_props(s);
}

/// Any suffix bound from which all is space, before which no space stands,
/// marks the trailing-space count.
proof fn lemma_count_trailing_unique(s: Seq<char>, j: int)
    requires
        0 <= j <= s.len(),
        forall|k: int| j <= k < s.len() ==> s[k] == ' ',
        j > 0 ==> s[j - 1] != ' ',
    ensures
        s.len() - j == count_trailing_spaces(s),
{
    lemma_count_trailing_props(s);
    let t = count_trailing_spaces(s);
    if s.len() - j < t {
        assert(s[s.len() - 1 - t] == ' ');
    }
}

/// Strips the leading and trailing spaces of `s`.
pub fn trim_spaces<'a>(s: &'a str) -> (r: &'a str)
    ensures
        r@ == spec_trim(s@),
{
    let n = s.unicode_len();
    let mut i: usize = 0;
    while i < n && s.get_char(i) == ' '
        invariant
            i <= n,
            n == s@.len(),
            forall|k: int| 0 <= k < i ==> s@[k] == ' ',
        decreases n - i,
    {
        i += 1;
    }
    proof {
        lemma_count_leading_unique(s@, i as int);
    }
    if i == n {
        let r = s.substring_char(n, n);
        proof {
            assert(r@ =~= spec_trim(s@));
        }
        return r;
    }
    let mut j: usize = n;
    while j > i && s.get_char(j - 1) == ' '
        invariant
            i <= j <= n,
            n == s@.len(),
            i < n,
            s@[i as int] != ' ',
            forall|k: int| j <= k < n ==> s@[k] == ' ',
        decreases j,
    {
        j -= 1;
    }
    proof {
        if j == i {
            assert(s@[i as int] == ' ');
        }
        assert(j > i);
        lemma_count_trailing_unique(s@, j as int);
    }
    s.substring_char(i, j)
}

/// The index of the first occurrence of `c` in `s`, or the length of `s`.
pub open spec fn first_index_of(s: Seq<char>, c: char) -> int
    decreases s.len(),
{
    if s.len() == 0 || s[0] == c {
        0
    } else {
        1 + first_index_of(s.drop_first(), c)
    }
}

/// The first-occurrence index holds `c` and nothing before it does.
pub proof fn lemma_first_index_of_props(s: Seq<char>, c: char)
    ensures
        0 <= first_index_of(s, c) <= s.len(),
        forall|k: int| 0 <= k < first_index_of(s, c) ==> s[k] != c,
        first_index_of(s, c) < s.len() ==> s[first_index_of(s, c)] == c,
    decreases s.len(),
{
    if s.len() > 0 && s[0] != c {
        lemma_first_index_of_props(s.drop_first(), c);
        assert forall|k: int| 0 <= k < first_index_of(s, c) implies s[k] != c by {
            if k >= 1 {
                assert(s[k] == s.drop_first()[k - 1]);
            }
        }
    }
}

/// Any index that holds `c`, before which `c` never stands, is the
/// first-occurrence index; so is the length when `c` never occurs.
pub proof fn lemma_first_index_of_unique(s: Seq<char>, c: char, i: int)
    requires
        0 <= i <= s.len(),
        forall|k: int| 0 <= k < i ==> s[k] != c,
        i < s.len() ==> s[i] == c,
    ensures
        i == first_index_of(s, c),
{
    lemma_first_index_of_props(s, c);
}

/// The index of the first occurrence of `c` in `s`, or the length of `s`.
pub fn find_char(s: &str, c: char) -> (r: usize)
    ensures
        r == first_index_of(s@, c),
{
    let n = s.unicode_len();
    let mut i: usize = 0;
    while i < n && s.get_char(i) != c
        invariant
            i <= n,
            n == s@.len(),
            forall|k: int| 0 <= k < i ==> s@[k] != c,
        decreases n - i,
    {
        i += 1;
    }
    proof {
        lemma_first_index_of_unique(s@, c, i as int);
    }
    i
}

/// What parsing a history line yields: the trimmed word before the first
/// colon, and the date spelt between the first and second colon (or the
/// end), trimmed.  A line without a colon, or whose date part is no valid
/// date, parses to nothing.
pub open spec fn spec_parse_history_line(s: Seq<char>) -> Option<(Seq<char>, Date)> {
    let i = first_index_of(s, ':');
    if i == s.len() {
        None
    } else {
        let rest = s.subrange(i + 1, s.len() as int);
        let j = first_index_of(rest, ':');
        let word = spec_trim(s.subrange(0, i));
        match spec_parse_date(spec_trim(rest.subrange(0, j))) {
            Some(d) => Some((word, d)),
            None => None,
        }
    }
}

/// Parses one history line, `"<word> : <date>"`.
pub fn parse_history_line(line: &str) -> (r: Option<(String, Date)>)
    ensures
        (r is Some) == (spec_parse_history_line(line@) is Some),
        r matches Some(p) ==> {
            &&& spec_parse_history_line(line@) matches Some(q)
            &&& p.0@ == q.0
            &&& p.1 == q.1
        },
{
    let n = line.unicode_len();
    let i = find_char(line, ':');
    proof {
        lemma_first_index_of_props(line@, ':');
    }
    if i == n {
        return None;
    }
    let word_part = line.substring_char(0, i);
    let word = trim_spaces(word_part);
    let rest = line.substring_char(i + 1, n);
    let j = find_char(rest, ':');
    proof {
        lemma_first_index_of_props(rest@, ':');
    }
    let date_part = rest.substring_char(0, j);
    let date_text = trim_spaces(date_part);
    match parse_date(date_text) {
        Some(d) => Some((word.to_owned(), d)),
        None => None,
    }
}

/// The rendering of one history line: the word, a spaced colon, the date.
pub open spec fn spec_render_history_line(word: Seq<char>, d: Date) -> Seq<char> {
    word + seq![' ', ':', ' '] + spec_render_date(d)
}

/// Renders one history line, `"<word> : <date>"`.
pub fn render_history_line(word: &String, d: &Date) -> (r: String)
    requires
        d.valid(),
    ensures
        r@ == spec_render_history_line(word@, *d),
{
    proof {
        reveal_strlit(" : ");
    }
    let mut out = word.clone();
    out.append(" : ");
    let date_text = render_date(d);
    out.append(date_text.as_str());
    proof {
        assert(out@ =~= spec_render_history_line(word@, *d));
    }
    out
}

/// Rendering a history line for any valid date and any word without a colon
/// or edge spaces, then parsing it back, yields the word and the date
/// unchanged: what the history records it also serves back.
#[verifier::rlimit(50)]
pub proof fn lemma_history_line_round_trip(word: Seq<char>, d: Date)
    requires
        d.valid(),
        forall|i: int| 0 <= i < word.len() ==> word[i] != ':',
        word.len() > 0 ==> word[0] != ' ' && word[word.len() - 1] != ' ',
    ensures
        spec_parse_history_line(spec_render_history_line(word, d)) == Some((word, d)),
{
    let sep = seq![' ', ':', ' '];
    let date_text = spec_render_date(d);
    let s = word + sep + date_text;
    let wl = word.len() as int;
    let n = s.len() as int;
    assert(n == wl + 13);
    assert(forall|k: int| 0 <= k < wl ==> s[k] == word[k]);
    assert(s[wl] == ' ' && s[wl + 1] == ':' && s[wl + 2] == ' ');
    assert(forall|k: int| 0 <= k < 10 ==> s[wl + 3 + k] == date_text[k]);
    assert(forall|k: int| 0 <= k < 10 ==> is_digit_char(date_text[k]) || date_text[k] == '-');

    // the first colon stands right after the word and its space
    lemma_first_index_of_unique(s, ':', wl + 1);
    let i = first_index_of(s, ':');
    assert(i == wl + 1);

    // the word part trims back to the word itself
    let word_part = s.subrange(0, wl + 1);
    assert(word_part =~= word + seq![' ']);
    assert(word_part.drop_last() =~= word);
    if wl == 0 {
        assert(count_leading_spaces(word_part) == 1 + count_leading_spaces(
            word_part.drop_first(),
        ));
        assert(word_part.drop_first() =~= Seq::<char>::empty());
        assert(count_leading_spaces(word_part) == word_part.len());
        assert(spec_trim(word_part) =~= word);
    } else {
        assert(word_part[0] == word[0]);
        assert(count_leading_spaces(word_part) == 0);
        assert(count_trailing_spaces(word_part) == 1 + count_trailing_spaces(word));
        assert(count_trailing_spaces(word) == 0);
        assert(spec_trim(word_part) =~= word);
    }

    // the rest holds no further colon, so the date part is all of it
    let rest = s.subrange(i + 1, n);
    assert(rest =~= seq![' '] + date_text);
    assert(rest.len() == 11);
    assert(forall|k: int| 0 <= k < 11 ==> rest[k] != ':') by {
        assert(rest[0] == ' ');
        assert(forall|k: int| 1 <= k < 11 ==> rest[k] == date_text[k - 1]);
        assert(forall|v: int| 0 <= v <= 9 ==> digit_char(v) != ':');
    }
    lemma_first_index_of_unique(rest, ':', 11);
    let j = first_index_of(rest, ':');
    assert(j == 11);
    assert(rest.subrange(0, j) =~= rest);

    // the date part trims to the rendered date, which parses back
    assert(rest[0] == ' ');
    assert(rest.drop_first() =~= date_text);
    assert(rest[1] == date_text[0]);
    assert(is_digit_char(date_text[0])) by {
        lemma_digit_round_trip(d.day as int / 10);
    }
    assert(count_leading_spaces(rest) == 1 + count_leading_spaces(date_text));
    assert(count_leading_spaces(date_text) == 0);
    assert(rest.last() == date_text[9]);
    assert(is_digit_char(date_text[9])) by {
        lemma_digit_round_trip(d.year as int % 10);
    }
    assert(count_trailing_spaces(rest) == 0);
    assert(spec_trim(rest) =~= date_text);
    lemma_date_round_trip(d);
    assert(spec_parse_date(spec_trim(rest.subrange(0, j))) == Some(d));
}

/// One entry of the history: a found word and the date it was found.
pub struct HistoryEntry {
    pub word: String,
    pub date: Date,
}

/// The append-only history of found words.  Entries are only ever appended,
/// and only the last entry is ever consulted.
pub struct HistoryStore {
    pub entries: Vec<HistoryEntry>,
}

impl HistoryStore {
    pub fn new() -> (r: Self)
        ensures
            r.entries@ == Seq::<HistoryEntry>::empty(),
    {
        Self { entries: Vec::new() }
    }

    /// Appends one entry; nothing already recorded moves.
    pub fn append(&mut self, word: String, date: Date)
        ensures
            final(self).entries@ == old(self).entries@.push(HistoryEntry { word, date }),
    {
        self.entries.push(HistoryEntry { word, date });
    }

    /// The most recent entry, if any: the only read the history serves.
    pub fn last(&self) -> (r: Option<&HistoryEntry>)
        ensures
            self.entries@.len() == 0 ==> r is None,
            self.entries@.len() > 0 ==> (r matches Some(e) && *e == self.entries@.last()),
    {
        if self.entries.len() == 0 {
            None
        } else {
            Some(&self.entries[self.entries.len() - 1])
        }
    }
}

/// Records a solved word in the history unless a relationship cache already
/// holds it, which means the word was recorded previously: then the history
/// is left untouched.  Hands back whether the entry was appended.
pub fn adding_word_to_historic(
    word: &String,
    history: &mut HistoryStore,
    cached_words: &Vec<String>,
    today: Date,
) -> (appended: bool)
    ensures
        appended == !crate::words_getter::seq_contains_str(cached_words@, word@),
        appended ==> final(history).entries@ == old(history).entries@.push(
            HistoryEntry { word: *word, date: today },
        ),
        !appended ==> final(history).entries@ == old(history).entries@,
{
    if crate::words_getter::list_contains(cached_words, word) {
        return false;
    }
    history.append(word.clone(), today);
    true
}

} // verus!
