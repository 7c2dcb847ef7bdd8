//! Calendar dates: reading them from text and writing them out.

use vstd::prelude::*;
use chrono::Datelike;
use crate::text::{all_digits, decimal, digit, digits_value, push_decimal};

verus! {

/// A date of the proleptic Gregorian calendar.
#[derive(Clone, Copy, PartialEq, Eq, Debug, Structural)]
pub struct CalendarDate {
    /// The year; zero and below are before the common era.
    pub year: i32,
    /// The month, from 1.
    pub month: u32,
    /// The day of the month, from 1.
    pub day: u32,
}

/// Whether a year has a 29 February.
pub open spec fn leap(year: int) -> bool {
    year % 4 == 0 && (year % 100 != 0 || year % 400 == 0)
}

/// The days of a month.
pub open spec fn month_days(year: int, month: int) -> int {
    if month == 2 {
        if leap(year) {
            29
        } else {
            28
        }
    } else if month == 4 || month == 6 || month == 9 || month == 11 {
        30
    } else {
        31
    }
}

impl CalendarDate {
    /// Whether the calendar has the date, within the years that can be written.
    pub open spec fn valid(self) -> bool {
        &&& -262143 <= self.year <= 262142
        &&& 1 <= self.month <= 12
        &&& 1 <= self.day <= month_days(self.year as int, self.month as int)
    }
}

/// What stands between the numbers of a date: a hyphen, a slash, a full stop or nothing.
pub open spec fn separator(sep: Seq<char>) -> bool {
    sep == seq!['-'] || sep == seq!['/'] || sep == seq!['.'] || sep == Seq::<char>::empty()
}

/// The pattern of a year, a month and a day with a separator between them.
pub open spec fn pattern_with(sep: Seq<char>) -> Seq<char> {
    "%Y"@ + sep + "%m"@ + sep + "%d"@
}

/// Whether a text begins with four digits, a separator, two digits, the same separator and
/// two digits.
pub open spec fn begins_dated(text: Seq<char>, sep: Seq<char>) -> bool {
    let k = sep.len() as int;
    &&& text.len() >= 8 + 2 * k
    &&& all_digits(text.subrange(0, 4))
    &&& text.subrange(4, 4 + k) == sep
    &&& all_digits(text.subrange(4 + k, 6 + k))
    &&& text.subrange(6 + k, 6 + 2 * k) == sep
    &&& all_digits(text.subrange(6 + 2 * k, 8 + 2 * k))
}

/// Whether a text is four digits, a separator and two digits.
pub open spec fn month_only(text: Seq<char>, sep: Seq<char>) -> bool {
    let k = sep.len() as int;
    &&& text.len() == 6 + k
    &&& all_digits(text.subrange(0, 4))
    &&& text.subrange(4, 4 + k) == sep
    &&& all_digits(text.subrange(4 + k, 6 + k))
}

/// Whether a text has no digit.
pub open spec fn without_digits(text: Seq<char>) -> bool {
    forall|i: int| 0 <= i < text.len() ==> !digit(#[trigger] text[i])
}

/// The year, month and day that the digits of a dated text write, where nothing follows them
/// and the calendar has that date.
pub open spec fn plain_date(text: Seq<char>, sep: Seq<char>) -> Option<(int, int, int)> {
    let k = sep.len() as int;
    let year = digits_value(text.subrange(0, 4));
    let month = digits_value(text.subrange(4 + k, 6 + k));
    let day = digits_value(text.subrange(6 + 2 * k, 8 + 2 * k));
    if text.len() == 8 + 2 * k && 1 <= month <= 12 && 1 <= day <= month_days(year, month) {
        Some((year, month, day))
    } else {
        None
    }
}

/// The year, month and day of a date.
pub open spec fn numbers_of(d: Option<CalendarDate>) -> Option<(int, int, int)> {
    match d {
        Some(d) => Some((d.year as int, d.month as int, d.day as int)),
        None => None,
    }
}

/// The date that `chrono` reads from a text by a pattern.
pub uninterp spec fn chrono_parsed(text: Seq<char>, pattern: Seq<char>) -> Option<(int, int, int)>;

/// `chrono::NaiveDate::parse_from_str`: reads a date by a `strftime` pattern.
/// Which texts a pattern accepts is not spelled out in full: the outcome has a
/// name. What is claimed beside it is that the year, month and day of the
/// outcome are a date of the calendar within the years that `NaiveDate` holds,
/// and, of a pattern of year, month and day with a separator between them: a
/// text that begins with four digits, a separator, two digits, the separator
/// again and two digits is read where the pattern has that separator, nothing
/// follows and the calendar has the date, and then as that date (an unsigned
/// `%Y` takes at most four digits, `%m` and `%d` at most two, anything else
/// has to match as it stands, and nothing may be left over); a text that ends
/// after the month is not read, nor is one without a digit.
#[verifier::external_body]
pub(crate) fn parse_by_pattern(text: &str, pattern: &str) -> (r: Option<CalendarDate>)
    ensures
        match r {
            Some(d) => d.valid() && chrono_parsed(text@, pattern@) == Some(
                (d.year as int, d.month as int, d.day as int),
            ),
            None => chrono_parsed(text@, pattern@) is None,
        },
        forall|own: Seq<char>, sep: Seq<char>|
            separator(own) && separator(sep) && pattern@ == #[trigger] pattern_with(own)
                && #[trigger] begins_dated(text@, sep) ==> numbers_of(r) == if own == sep {
                plain_date(text@, sep)
            } else {
                None
            },
        forall|own: Seq<char>, sep: Seq<char>|
            separator(own) && separator(sep) && pattern@ == #[trigger] pattern_with(own)
                && #[trigger] month_only(text@, sep) ==> r is None,
        forall|own: Seq<char>|
            separator(own) && pattern@ == #[trigger] pattern_with(own) && without_digits(text@)
                ==> r is None,
{
    match chrono::NaiveDate::parse_from_str(text, pattern) {
        Ok(d) => Some(CalendarDate { year: d.year(), month: d.month(), day: d.day() }),
        Err(_) => None,
    }
}

/// The patterns of the four separators.
pub proof fn lemma_patterns()
    ensures
        "%Y-%m-%d"@ == pattern_with(seq!['-']),
        "%Y/%m/%d"@ == pattern_with(seq!['/']),
        "%Y.%m.%d"@ == pattern_with(seq!['.']),
        "%Y%m%d"@ == pattern_with(Seq::empty()),
{
    reveal_strlit("%Y");
    reveal_strlit("%m");
    reveal_strlit("%d");
    reveal_strlit("%Y-%m-%d");
    reveal_strlit("%Y/%m/%d");
    reveal_strlit("%Y.%m.%d");
    reveal_strlit("%Y%m%d");
    assert("%Y-%m-%d"@ =~= pattern_with(seq!['-']));
    assert("%Y/%m/%d"@ =~= pattern_with(seq!['/']));
    assert("%Y.%m.%d"@ =~= pattern_with(seq!['.']));
    assert("%Y%m%d"@ =~= pattern_with(Seq::empty()));
}

/// A text begins as a date, or ends after the month, with one separator only.
pub proof fn lemma_one_separator(text: Seq<char>, a: Seq<char>, b: Seq<char>)
    requires
        separator(a),
        separator(b),
        begins_dated(text, a) || month_only(text, a),
        begins_dated(text, b) || month_only(text, b),
    ensures
        a == b,
        begins_dated(text, a) == begins_dated(text, b),
{
    lemma_fifth(text, a);
    lemma_fifth(text, b);
}

/// The fifth character of a date tells its separator.
proof fn lemma_fifth(text: Seq<char>, sep: Seq<char>)
    requires
        separator(sep),
        begins_dated(text, sep) || month_only(text, sep),
    ensures
        sep.len() == 0 <==> digit(text[4]),
        sep.len() > 0 ==> sep == seq![text[4]],
        sep.len() == 0 ==> sep == Seq::<char>::empty(),
{
    if sep.len() == 0 {
        let two = text.subrange(4, 6);
        assert(digit(two[0]));
        assert(two[0] == text[4]);
    } else {
        assert(text.subrange(4, 5)[0] == text[4]);
        assert(sep[0] == text[4]);
    }
}

/// A number in base ten, with zeros in front up to a width.
pub open spec fn padded(n: nat, width: nat) -> Seq<char> {
    let d = decimal(n);
    if d.len() >= width {
        d
    } else {
        Seq::new((width - d.len()) as nat, |i: int| '0') + d
    }
}

/// A year in a date pattern: four digits, and a sign outside 0 to 9999.
pub open spec fn year_in_pattern(year: int) -> Seq<char> {
    if 0 <= year <= 9999 {
        padded(year as nat, 4)
    } else if year < 0 {
        seq!['-'] + padded((-year) as nat, 4)
    } else {
        seq!['+'] + padded(year as nat, 4)
    }
}

/// A year on its own: at least four places, the minus sign being one of them.
pub open spec fn year_alone(year: int) -> Seq<char> {
    if year < 0 {
        seq!['-'] + padded((-year) as nat, 3)
    } else {
        padded(year as nat, 4)
    }
}

/// A date written by one of the four patterns in use.
pub open spec fn written(d: CalendarDate, pattern: Seq<char>) -> Seq<char> {
    let year = year_in_pattern(d.year as int);
    let month = padded(d.month as nat, 2);
    let day = padded(d.day as nat, 2);
    if pattern == "%Y-%m-%d"@ {
        year + seq!['-'] + month + seq!['-'] + day
    } else if pattern == "%Y%m%d"@ {
        year + month + day
    } else if pattern == "%Y-%m"@ {
        year + seq!['-'] + month
    } else {
        year + month
    }
}

/// `chrono::NaiveDate::format`, for the four patterns named in `requires`: the
/// year with four digits (and a sign outside 0 to 9999), month and day with two.
#[verifier::external_body]
pub(crate) fn format_by_pattern(d: CalendarDate, pattern: &str) -> (r: String)
    requires
        d.valid(),
        pattern@ == "%Y-%m-%d"@ || pattern@ == "%Y%m%d"@ || pattern@ == "%Y-%m"@ || pattern@
            == "%Y%m"@,
    ensures
        r@ == written(d, pattern@),
{
    let date = chrono::NaiveDate::from_ymd_opt(d.year, d.month, d.day).unwrap();
    date.format(pattern).to_string()
}

/// A number in base ten, with zeros in front up to a width.
pub fn padded_text(n: u64, width: usize) -> (r: String)
    ensures
        r@ == padded(n as nat, width as nat),
{
    let digits = crate::text::decimal_text(n);
    let count = digits.as_str().unicode_len();
    let mut out = String::new();
    let mut i: usize = count;
    while i < width
        invariant
            count <= i,
            i <= width || i == count,
            out@ == Seq::new((i - count) as nat, |k: int| '0'),
        decreases width - i,
    {
        out.push('0');
        assert(out@ =~= Seq::new((i + 1 - count) as nat, |k: int| '0'));
        i += 1;
    }
    push_decimal(n, &mut out);
    assert(out@ =~= padded(n as nat, width as nat));
    out
}

/// A year on its own, as [`year_alone`] writes it.
pub fn year_text(year: i32) -> (r: String)
    ensures
        r@ == year_alone(year as int),
{
    if year < 0 {
        let magnitude: u64 = (-(year as i64)) as u64;
        let mut out = String::new();
        out.push('-');
        out.append(padded_text(magnitude, 3).as_str());
        assert(out@ =~= year_alone(year as int));
        out
    } else {
        padded_text(year as u64, 4)
    }
}

}
