//! What the dates in raw date texts come to.

use vstd::prelude::*;
use crate::archive_format::{
    by_any_pattern, date_of, dated_with, digits_of, month_of,
    raw_date_tokens, DateFormat,
};
use crate::calendar::{
    begins_dated, lemma_one_separator, month_days, month_only, padded, plain_date, separator,
    without_digits,
};
use crate::text::{
    all_digits, byte_len, byte_prefix, decimal, digit, digits_value, lemma_ascii_prefix,
    lemma_trim_fixed, trimmed, white_space, CharClass,
};

verus! {

/// Whether the calendar has a date of a year with four digits.
pub open spec fn plain(year: int, month: int, day: int) -> bool {
    &&& 0 <= year <= 9999
    &&& 1 <= month <= 12
    &&& 1 <= day <= month_days(year, month)
}

/// A date with a separator between its numbers.
pub open spec fn dated_text(year: int, month: int, day: int, sep: Seq<char>) -> Seq<char> {
    padded(year as nat, 4) + sep + padded(month as nat, 2) + sep + padded(day as nat, 2)
}

/// A month with a separator between its numbers.
pub open spec fn month_text(year: int, month: int, sep: Seq<char>) -> Seq<char> {
    padded(year as nat, 4) + sep + padded(month as nat, 2)
}

/// Zeros in front change no value.
proof fn lemma_zeros(zeros: Seq<char>, s: Seq<char>)
    requires
        forall|i: int| 0 <= i < zeros.len() ==> #[trigger] zeros[i] == '0',
    ensures
        digits_value(zeros + s) == digits_value(s),
    decreases zeros.len() + s.len(),
{
    let t = zeros + s;
    if s.len() > 0 {
        assert(t.drop_last() =~= zeros + s.drop_last());
        lemma_zeros(zeros, s.drop_last());
    } else if zeros.len() > 0 {
        assert(t.drop_last() =~= zeros.drop_last() + s);
        lemma_zeros(zeros.drop_last(), s);
    } else {
        assert(t =~= s);
    }
}

/// A padded number has its width in digits, and reads back.
pub proof fn padded_numbers_read_back(n: nat, width: nat)
    requires
        width == 2 && n < 100 || width == 4 && n < 10000,
    ensures
        padded(n, width).len() == width,
        all_digits(padded(n, width)),
        digits_value(padded(n, width)) == n,
{
    crate::text::lemma_decimal_value(n);
    let d = decimal(n);
    assert(d.len() <= width) by {
        reveal_with_fuel(decimal, 5);
    }
    let zeros = Seq::new((width - d.len()) as nat, |i: int| '0');
    lemma_zeros(zeros, d);
    assert(zeros + d =~= padded(n, width));
    assert forall|i: int| 0 <= i < width implies digit(#[trigger] padded(n, width)[i]) by {
        if i >= zeros.len() {
            assert((zeros + d)[i] == d[i - zeros.len()]);
        }
    }
}

/// The numbers of a text that begins with a date.
proof fn lemma_dated(year: int, month: int, day: int, sep: Seq<char>, rest: Seq<char>)
    requires
        plain(year, month, day),
        separator(sep),
    ensures
        ({
            let text = dated_text(year, month, day, sep);
            &&& text.len() == 8 + 2 * sep.len()
            &&& dated_with(text + rest, sep)
            &&& plain_date(text + rest, sep) == if rest.len() == 0 {
                Some((year, month, day))
            } else {
                None
            }
            &&& forall|i: int| 0 <= i < text.len() ==> (#[trigger] text[i]) as int <= 127
            &&& digit(text[0]) && digit(text.last())
        }),
{
    let k = sep.len() as int;
    let (y, m, d) = (padded(year as nat, 4), padded(month as nat, 2), padded(day as nat, 2));
    padded_numbers_read_back(year as nat, 4);
    padded_numbers_read_back(month as nat, 2);
    padded_numbers_read_back(day as nat, 2);
    let text = dated_text(year, month, day, sep);
    let all = text + rest;
    assert(all.subrange(0, 4) =~= y);
    assert(all.subrange(4, 4 + k) =~= sep);
    assert(all.subrange(4 + k, 6 + k) =~= m);
    assert(all.subrange(6 + k, 6 + 2 * k) =~= sep);
    assert(all.subrange(6 + 2 * k, 8 + 2 * k) =~= d);
    assert(begins_dated(all, sep));
    assert forall|i: int| 0 <= i < text.len() implies (#[trigger] text[i]) as int <= 127 by {
        if i < 4 {
            assert(text[i] == y[i]);
        } else if i < 4 + k {
            assert(text[i] == sep[i - 4]);
        } else if i < 6 + k {
            assert(text[i] == m[i - 4 - k]);
        } else if i < 6 + 2 * k {
            assert(text[i] == sep[i - 6 - k]);
        } else {
            assert(text[i] == d[i - 6 - 2 * k]);
        }
    }
    assert(text[0] == y[0]);
    assert(text.last() == d[1]);
}

/// The date of a text that begins with one.
proof fn lemma_read(text: Seq<char>, sep: Seq<char>)
    requires
        dated_with(text, sep),
    ensures
        by_any_pattern(text) == plain_date(text, sep),
{
    let other = choose|s: Seq<char>| dated_with(text, s);
    lemma_one_separator(text, sep, other);
}

/// Four digits, a separator or none, two digits, the same separator and two digits name the
/// year, month and day that they write, in that order, wherever the calendar has that date.
pub proof fn dates_name_their_numbers(year: int, month: int, day: int, sep: Seq<char>)
    requires
        plain(year, month, day),
        separator(sep),
    ensures
        date_of(dated_text(year, month, day, sep)) == Some((year, month, day)),
{
    let text = dated_text(year, month, day, sep);
    lemma_dated(year, month, day, sep, Seq::empty());
    assert(text + Seq::<char>::empty() =~= text);
    lemma_trim_fixed(text, CharClass::White);
    lemma_read(text, sep);
}

/// Where the digits write no date of the calendar, no date is found.
pub proof fn numbers_off_the_calendar_name_no_date(
    year: nat,
    month: nat,
    day: nat,
    sep: Seq<char>,
)
    requires
        year <= 9999,
        month <= 99,
        day <= 99,
        separator(sep),
        !plain(year as int, month as int, day as int),
    ensures
        date_of(dated_text(year as int, month as int, day as int, sep)) is None,
{
    let k = sep.len() as int;
    let (y, m, d) = (padded(year, 4), padded(month, 2), padded(day, 2));
    padded_numbers_read_back(year, 4);
    padded_numbers_read_back(month, 2);
    padded_numbers_read_back(day, 2);
    let text = dated_text(year as int, month as int, day as int, sep);
    assert(text.subrange(0, 4) =~= y);
    assert(text.subrange(4, 4 + k) =~= sep);
    assert(text.subrange(4 + k, 6 + k) =~= m);
    assert(text.subrange(6 + k, 6 + 2 * k) =~= sep);
    assert(text.subrange(6 + 2 * k, 8 + 2 * k) =~= d);
    assert(dated_with(text, sep));
    lemma_read(text, sep);
    assert(text[0] == y[0] && text.last() == d[1]);
    lemma_trim_fixed(text, CharClass::White);
    assert forall|i: int| 0 <= i < text.len() implies (#[trigger] text[i]) as int <= 127 by {
        if i < 4 {
            assert(text[i] == y[i]);
        } else if i < 4 + k {
            assert(text[i] == sep[i - 4]);
        } else if i < 6 + k {
            assert(text[i] == m[i - 4 - k]);
        } else if i < 6 + 2 * k {
            assert(text[i] == sep[i - 6 - k]);
        } else {
            assert(text[i] == d[i - 6 - 2 * k]);
        }
    }
    lemma_short_head(text);
    lemma_digits_joined(y + sep + m + sep, d);
    lemma_digits_joined(y + sep + m, sep);
    lemma_digits_joined(y + sep, m);
    lemma_digits_joined(y, sep);
    lemma_digits_kept(y);
    lemma_digits_kept(m);
    lemma_digits_kept(d);
    lemma_digits_dropped(sep);
    assert(y + sep + m + sep + d == text);
    let eight = y + m + d;
    assert(digits_of(text) =~= eight);
    assert(eight.take(8) =~= eight);
    assert(eight.subrange(0, 4) =~= y);
    assert(eight.subrange(4, 6) =~= m);
    assert(eight.subrange(6, 8) =~= d);
}

/// The start of ten bytes of a short text of ASCII characters is the text.
proof fn lemma_short_head(text: Seq<char>)
    requires
        text.len() <= 10,
        forall|i: int| 0 <= i < text.len() ==> (#[trigger] text[i]) as int <= 127,
    ensures
        byte_prefix(text, 10) matches Some(p) ==> p == text,
{
    lemma_ascii_prefix(text, text.len() as int);
    assert(text.take(text.len() as int) =~= text);
    if byte_prefix(text, 10) is Some {
        let k = choose|k: int| 0 <= k <= text.len() && byte_len(#[trigger] text.take(k)) == 10;
        lemma_ascii_prefix(text, k);
        assert(text.take(k) =~= text);
    }
}

/// The digits of two texts in a row.
proof fn lemma_digits_joined(a: Seq<char>, b: Seq<char>)
    ensures
        digits_of(a + b) == digits_of(a) + digits_of(b),
    decreases b.len(),
{
    if b.len() > 0 {
        lemma_digits_joined(a, b.drop_last());
        assert((a + b).drop_last() =~= a + b.drop_last());
        assert((a + b).last() == b.last());
        assert(digits_of(a + b) =~= digits_of(a) + digits_of(b));
    } else {
        assert(a + b =~= a);
        assert(digits_of(a + b) =~= digits_of(a) + digits_of(b));
    }
}

/// Digits alone are kept.
proof fn lemma_digits_kept(s: Seq<char>)
    requires
        all_digits(s),
    ensures
        digits_of(s) == s,
    decreases s.len(),
{
    if s.len() > 0 {
        assert forall|i: int| 0 <= i < s.len() - 1 implies digit(#[trigger] s.drop_last()[i]) by {
            assert(s.drop_last()[i] == s[i]);
        }
        assert(digit(s[s.len() - 1]));
        lemma_digits_kept(s.drop_last());
        assert(digits_of(s) =~= s);
    } else {
        assert(digits_of(s) =~= s);
    }
}

/// A text without digits has none.
proof fn lemma_digits_dropped(s: Seq<char>)
    requires
        without_digits(s),
    ensures
        digits_of(s) == Seq::<char>::empty(),
    decreases s.len(),
{
    if s.len() > 0 {
        assert forall|i: int| 0 <= i < s.len() - 1 implies !digit(#[trigger] s.drop_last()[i]) by {
            assert(s.drop_last()[i] == s[i]);
        }
        assert(!digit(s[s.len() - 1]));
        lemma_digits_dropped(s.drop_last());
    }
}

/// The tokens of a date: the date as its format writes it, the year and the month. They do
/// not depend on the separator.
pub proof fn date_tokens_write_the_date(
    year: int,
    month: int,
    day: int,
    sep: Seq<char>,
    empty_value: Seq<char>,
)
    requires
        plain(year, month, day),
        separator(sep),
    ensures
        ({
            let text = dated_text(year, month, day, sep);
            let (y, m) = (padded(year as nat, 4), padded(month as nat, 2));
            let d = padded(day as nat, 2);
            &&& raw_date_tokens(text, DateFormat::Iso, empty_value) == (
                y + seq!['-'] + m + seq!['-'] + d,
                y,
                m,
            )
            &&& raw_date_tokens(text, DateFormat::Compact, empty_value) == (y + m + d, y, m)
            &&& raw_date_tokens(text, DateFormat::YearMonth, empty_value) == (
                y + seq!['-'] + m,
                y,
                m,
            )
        }),
{
    dates_name_their_numbers(year, month, day, sep);
    lemma_write_patterns();
}

/// The patterns of the formats are different.
proof fn lemma_write_patterns()
    ensures
        "%Y%m%d"@ != "%Y-%m-%d"@,
        "%Y-%m"@ != "%Y-%m-%d"@,
        "%Y-%m"@ != "%Y%m%d"@,
        "%Y%m"@ != "%Y-%m-%d"@,
        "%Y%m"@ != "%Y%m%d"@,
        "%Y%m"@ != "%Y-%m"@,
{
    reveal_strlit("%Y%m%d");
    reveal_strlit("%Y-%m-%d");
    reveal_strlit("%Y-%m");
    reveal_strlit("%Y%m");
    assert("%Y%m%d"@.len() == 6 && "%Y-%m-%d"@.len() == 8);
    assert("%Y-%m"@.len() == 5 && "%Y%m"@.len() == 4);
}

/// The tokens of a date do not depend on its separator.
pub proof fn separators_do_not_matter(
    year: int,
    month: int,
    day: int,
    a: Seq<char>,
    b: Seq<char>,
    format: DateFormat,
    empty_value: Seq<char>,
)
    requires
        plain(year, month, day),
        separator(a),
        separator(b),
    ensures
        raw_date_tokens(dated_text(year, month, day, a), format, empty_value)
            == raw_date_tokens(dated_text(year, month, day, b), format, empty_value),
{
    dates_name_their_numbers(year, month, day, a);
    dates_name_their_numbers(year, month, day, b);
}

/// A date with more behind it, such as a time of day, names that date.
pub proof fn what_follows_a_date_does_not_matter(
    year: int,
    month: int,
    day: int,
    sep: Seq<char>,
    rest: Seq<char>,
)
    requires
        plain(year, month, day),
        separator(sep),
        rest.len() > 0,
        !white_space(rest.last()),
    ensures
        date_of(dated_text(year, month, day, sep) + rest) == Some((year, month, day)),
{
    let text = dated_text(year, month, day, sep);
    let all = text + rest;
    lemma_dated(year, month, day, sep, rest);
    lemma_dated(year, month, day, sep, Seq::empty());
    assert(text + Seq::<char>::empty() =~= text);
    assert(all[0] == text[0] && all.last() == rest.last());
    lemma_trim_fixed(all, CharClass::White);
    lemma_read(all, sep);
    lemma_read(text, sep);
    assert(all.take(text.len() as int) =~= text);
    assert forall|i: int| 0 <= i < text.len() implies (#[trigger] all[i]) as int <= 127 by {
        assert(all[i] == text[i]);
    }
    lemma_ascii_prefix(all, text.len() as int);
    if sep.len() == 0 {
        lemma_long_head(all, text);
        lemma_digits_joined(text, rest);
        padded_numbers_read_back(year as nat, 4);
        padded_numbers_read_back(month as nat, 2);
        padded_numbers_read_back(day as nat, 2);
        assert(all_digits(text)) by {
            let (y, m) = (padded(year as nat, 4), padded(month as nat, 2));
            let d = padded(day as nat, 2);
            assert forall|i: int| 0 <= i < text.len() implies digit(#[trigger] text[i]) by {
                if i < 4 {
                    assert(text[i] == y[i]);
                } else if i < 6 {
                    assert(text[i] == m[i - 4]);
                } else {
                    assert(text[i] == d[i - 6]);
                }
            }
        }
        lemma_digits_kept(text);
        assert(digits_of(all).take(8) =~= text);
    }
}

/// Ten bytes of a text that begins with eight digits, or the text itself, name no date where
/// more follows the digits.
proof fn lemma_long_head(all: Seq<char>, text: Seq<char>)
    requires
        text.len() == 8,
        all.len() > 8,
        all.take(8) == text,
        begins_dated(all, Seq::empty()),
        byte_len(text) == 8,
    ensures
        byte_prefix(all, 10) matches Some(p) ==> by_any_pattern(p) is None,
{
    if byte_prefix(all, 10) is Some {
        let k = choose|k: int| 0 <= k <= all.len() && byte_len(#[trigger] all.take(k)) == 10;
        let p = all.take(k);
        if k < 8 {
            crate::text::lemma_byte_len_grows(all, k, 8);
        }
        assert(k > 8);
        assert(p.subrange(0, 4) =~= all.subrange(0, 4));
        assert(p.subrange(4, 4) =~= all.subrange(4, 4));
        assert(p.subrange(4, 6) =~= all.subrange(4, 6));
        assert(p.subrange(6, 6) =~= all.subrange(6, 6));
        assert(p.subrange(6, 8) =~= all.subrange(6, 8));
        assert(dated_with(p, Seq::empty()));
        lemma_read(p, Seq::empty());
    }
}

/// A year and a month name that month and no day, whatever the separator, and its tokens
/// leave the day out.
pub proof fn months_name_no_day(year: int, month: int, sep: Seq<char>, empty_value: Seq<char>)
    requires
        0 <= year <= 9999,
        1 <= month <= 12,
        separator(sep),
    ensures
        ({
            let text = month_text(year, month, sep);
            let (y, m) = (padded(year as nat, 4), padded(month as nat, 2));
            &&& date_of(text) is None
            &&& month_of(text) == Some((year, month, 1int))
            &&& raw_date_tokens(text, DateFormat::Iso, empty_value) == (y + seq!['-'] + m, y, m)
            &&& raw_date_tokens(text, DateFormat::Compact, empty_value) == (y + m, y, m)
            &&& raw_date_tokens(text, DateFormat::YearMonth, empty_value) == (
                y + seq!['-'] + m,
                y,
                m,
            )
        }),
{
    let k = sep.len() as int;
    let (y, m) = (padded(year as nat, 4), padded(month as nat, 2));
    padded_numbers_read_back(year as nat, 4);
    padded_numbers_read_back(month as nat, 2);
    let text = month_text(year, month, sep);
    assert(text.subrange(0, 4) =~= y);
    assert(text.subrange(4, 4 + k) =~= sep);
    assert(text.subrange(4 + k, 6 + k) =~= m);
    assert(month_only(text, sep));
    assert(text[0] == y[0] && text.last() == m[1]);
    lemma_trim_fixed(text, CharClass::White);
    assert forall|i: int| 0 <= i < text.len() implies (#[trigger] text[i]) as int <= 127 by {
        if i < 4 {
            assert(text[i] == y[i]);
        } else if i < 4 + k {
            assert(text[i] == sep[i - 4]);
        } else {
            assert(text[i] == m[i - 4 - k]);
        }
    }
    lemma_short_head(text);
    assert(by_any_pattern(text) is None);
    lemma_digits_joined(y + sep, m);
    lemma_digits_joined(y, sep);
    lemma_digits_kept(y);
    lemma_digits_kept(m);
    lemma_digits_dropped(sep);
    assert(digits_of(text) =~= y + m);
    reveal_strlit("01");
    let eight = digits_of(text) + "01"@;
    assert(eight.subrange(0, 4) =~= y);
    assert(eight.subrange(4, 6) =~= m);
    assert(eight.subrange(6, 8) =~= "01"@);
    assert(digits_value("01"@) == 1) by {
        let one = "01"@;
        assert(one.drop_last() =~= seq!['0']);
        assert(seq!['0'].drop_last() =~= Seq::<char>::empty());
        reveal_with_fuel(digits_value, 3);
    }
    assert(month_of(text) == Some((year, month, 1int)));
    lemma_write_patterns();
}

/// A text without digits names neither a date nor a month: its tokens are the value for a
/// missing token.
pub proof fn texts_without_digits_name_no_date(
    text: Seq<char>,
    format: DateFormat,
    empty_value: Seq<char>,
)
    requires
        without_digits(text),
    ensures
        date_of(text) is None,
        month_of(text) is None,
        raw_date_tokens(text, format, empty_value) == (empty_value, empty_value, empty_value),
{
    let t = trimmed(text);
    crate::text::lemma_ends(text, CharClass::White);
    assert(without_digits(t)) by {
        crate::text::lemma_trim_subset(text, CharClass::White);
        assert forall|i: int| 0 <= i < t.len() implies !digit(#[trigger] t[i]) by {
            assert(t.contains(t[i]));
            assert(text.contains(t[i]));
        }
    }
    lemma_unread(t);
    lemma_digits_dropped(t);
    if byte_prefix(t, 10) is Some {
        let k = choose|k: int| 0 <= k <= t.len() && byte_len(#[trigger] t.take(k)) == 10;
        let p = t.take(k);
        assert forall|i: int| 0 <= i < p.len() implies !digit(#[trigger] p[i]) by {
            assert(p[i] == t[i]);
        }
        lemma_unread(p);
    }
}

/// No pattern reads a text without digits.
proof fn lemma_unread(text: Seq<char>)
    requires
        without_digits(text),
    ensures
        by_any_pattern(text) is None,
{
    if exists|sep: Seq<char>| dated_with(text, sep) {
        let sep = choose|sep: Seq<char>| dated_with(text, sep);
        let year = text.subrange(0, 4);
        assert(digit(year[0]));
        assert(year[0] == text[0]);
    }
}

/// A year has three hundred and sixty-five days, and one more where February has one more. That
/// is every fourth year, but of the full centuries only every fourth.
pub proof fn years_have_their_days(year: int, month: int)
    requires
        1 <= month <= 12,
    ensures
        28 <= month_days(year, month) <= 31,
        month != 2 ==> month_days(year, month) == month_days(0, month) >= 30,
        month_days(year, 1) + month_days(year, 2) + month_days(year, 3) + month_days(year, 4)
            + month_days(year, 5) + month_days(year, 6) + month_days(year, 7) + month_days(year, 8)
            + month_days(year, 9) + month_days(year, 10) + month_days(year, 11) + month_days(
            year,
            12,
        ) == 337 + month_days(year, 2),
        month_days(year, 7) == 31 && month_days(year, 8) == 31,
        month_days(year, 12) == 31 && month_days(year, 1) == 31,
        1 <= month <= 6 && month != 1 && month != 2 ==> month_days(year, month) + month_days(
            year,
            month + 1,
        ) == 61,
        8 <= month <= 11 ==> month_days(year, month) + month_days(year, month + 1) == 61,
        month_days(year + 400, month) == month_days(year, month),
        month_days(400 * year, 2) == 29,
        month_days(4 * year, 2) == if (4 * year) % 100 == 0 && (4 * year) % 400 != 0 {
            28int
        } else {
            29int
        },
        month_days(2 * year + 1, 2) == 28,
        month_days(4 * year + 2, 2) == 28,
{
    assert((year + 400) % 4 == year % 4);
    assert((year + 400) % 100 == year % 100);
    assert((400 * year) % 400 == 0);
    assert((400 * year) % 4 == 0);
    assert((4 * year) % 4 == 0);
    assert((2 * year + 1) % 4 != 0);
    assert((4 * year + 2) % 4 != 0);
}

}
