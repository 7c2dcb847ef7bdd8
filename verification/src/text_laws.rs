//! What the operations on texts do.

use vstd::prelude::*;
use crate::order::text_le;
use crate::text::{
    all_digits, contains_text, decimal, decimal_int, digits_value, ends_with, joined, lower,
    parsed_int, replaced, split, starts_with, trim_end_of, trimmed, upper, white_space, CharClass,
};

verus! {

/// Lower case moves the letters from `A` to `Z` by thirty-two places and changes nothing
/// else, upper case moves those from `a` to `z` back.
pub proof fn cases_change_letters_only(s: Seq<char>, i: int)
    requires
        0 <= i < s.len(),
    ensures
        lower(s).len() == s.len(),
        upper(s).len() == s.len(),
        lower(s)[i] as int == if 65 <= s[i] as int <= 90 {
            s[i] as int + 32
        } else {
            s[i] as int
        },
        upper(s)[i] as int == if 97 <= s[i] as int <= 122 {
            s[i] as int - 32
        } else {
            s[i] as int
        },
{
}

/// Texts that differ in case alone have one lower case and one upper case.
pub proof fn cases_are_one(s: Seq<char>)
    ensures
        lower(lower(s)) == lower(s),
        upper(upper(s)) == upper(s),
        lower(upper(s)) == lower(s),
        upper(lower(s)) == upper(s),
{
    assert(lower(lower(s)) =~= lower(s));
    assert(upper(upper(s)) =~= upper(s));
    assert(lower(upper(s)) =~= lower(s));
    assert(upper(lower(s)) =~= upper(s));
}

/// Trimming takes the white space at both ends, and nothing else.
pub proof fn trimming_takes_the_white_ends(front: Seq<char>, s: Seq<char>, back: Seq<char>)
    requires
        forall|i: int| 0 <= i < front.len() ==> white_space(#[trigger] front[i]),
        forall|i: int| 0 <= i < back.len() ==> white_space(#[trigger] back[i]),
        s.len() > 0,
        !white_space(s[0]),
        !white_space(s.last()),
    ensures
        trimmed(front + s + back) == s,
{
    let t = front + s + back;
    let a = front.len() as int;
    let b = a + s.len();
    assert forall|j: int| 0 <= j < a implies white_space(#[trigger] t[j]) by {
        assert(t[j] == front[j]);
    }
    assert forall|j: int| b <= j < t.len() implies white_space(#[trigger] t[j]) by {
        assert(t[j] == back[j - b]);
    }
    assert(t[a] == s[0] && t[b - 1] == s.last());
    crate::text::lemma_trim_cut(t, a, b);
    assert(t.subrange(a, b) =~= s);
}

/// White space alone is trimmed to nothing.
pub proof fn white_texts_are_trimmed_away(s: Seq<char>)
    requires
        forall|i: int| 0 <= i < s.len() ==> white_space(#[trigger] s[i]),
    ensures
        trimmed(s).len() == 0,
{
    crate::text::lemma_leading(s, CharClass::White, s.len());
    let t = s.skip(s.len() as int);
    crate::text::lemma_trailing(t, CharClass::White, 0);
}

/// A text put together from pieces without the separator is split into those pieces.
pub proof fn splitting_undoes_joining(parts: Seq<Seq<char>>, sep: char)
    requires
        parts.len() > 0,
        forall|i: int| 0 <= i < parts.len() ==> !(#[trigger] parts[i]).contains(sep),
    ensures
        split(joined(parts, seq![sep]), sep) == parts,
{
    crate::folder_archive::lemma_split_join(parts, sep);
}

/// Between two pieces of a text stands one separator.
pub proof fn pieces_are_joined_in_order(parts: Seq<Seq<char>>, last: Seq<char>, sep: Seq<char>)
    ensures
        joined(seq![last], sep) == last,
        parts.len() > 0 ==> joined(parts.push(last), sep) == joined(parts, sep) + sep + last,
{
    assert(parts.push(last).drop_last() =~= parts);
    assert(seq![last].drop_last() =~= Seq::<Seq<char>>::empty());
}

/// A number written in base ten reads back as it is, with its sign.
pub proof fn numbers_read_back(n: int)
    ensures
        parsed_int(decimal_int(n), true) == Some(n),
        n >= 0 ==> parsed_int(decimal_int(n), false) == Some(n),
        n >= 0 ==> parsed_int(seq!['+'] + decimal_int(n), false) == Some(n),
        n < 0 ==> parsed_int(decimal_int(n), false) is None,
{
    if n >= 0 {
        let d = decimal(n as nat);
        crate::text::lemma_decimal_value(n as nat);
        assert(crate::text::digit(d[0]));
        let plus = seq!['+'] + d;
        assert(plus.skip(1) =~= d);
    } else {
        let d = decimal((-n) as nat);
        crate::text::lemma_decimal_value((-n) as nat);
        let s = decimal_int(n);
        assert(s[0] == '-');
        assert(s.skip(1) =~= d);
    }
}

/// Only a run of digits, with at most a sign in front, is a number.
pub proof fn only_digits_are_numbers(s: Seq<char>, i: int)
    requires
        0 <= i < s.len(),
        !('0' <= s[i] <= '9'),
        i > 0 || (s[0] != '+' && s[0] != '-') || s.len() == 1,
    ensures
        parsed_int(s, true) is None,
        parsed_int(s, false) is None,
{
    if s.len() > 1 && i > 0 {
        assert(s.skip(1)[i - 1] == s[i]);
    }
}

/// Each digit counts ten times as much as the one behind it.
pub proof fn digits_count_by_place(s: Seq<char>, n: nat)
    requires
        all_digits(s),
        n < 10,
    ensures
        digits_value(s + decimal(n)) == 10 * digits_value(s) + n,
{
    let t = s + decimal(n);
    assert(decimal(n).len() == 1);
    assert(t.drop_last() =~= s);
}

/// What is put in front of a text it begins with, what is put behind it it ends with, and it
/// holds what stands between.
pub proof fn parts_are_found(front: Seq<char>, s: Seq<char>, back: Seq<char>)
    ensures
        starts_with(front + s, front),
        ends_with(s + back, back),
        contains_text(front + s + back, s),
{
    assert((front + s).take(front.len() as int) =~= front);
    assert((s + back).skip((s + back).len() - back.len()) =~= back);
    let t = front + s + back;
    let tail = t.skip(front.len() as int);
    assert(tail.take(s.len() as int) =~= s);
    assert(starts_with(tail, s));
}

/// A text that begins or ends with another is that text and what is left.
pub proof fn found_parts_are_there(s: Seq<char>, part: Seq<char>)
    ensures
        starts_with(s, part) ==> s == part + s.skip(part.len() as int),
        ends_with(s, part) ==> s == s.take(s.len() - part.len()) + part,
        contains_text(s, part) ==> exists|i: int|
            0 <= i && i + part.len() <= s.len() && #[trigger] s.subrange(i, i + part.len()) == part,
{
    if starts_with(s, part) {
        assert(s =~= part + s.skip(part.len() as int));
    }
    if ends_with(s, part) {
        let k = s.len() - part.len();
        assert(s =~= s.take(k) + s.skip(k));
    }
    if contains_text(s, part) {
        let i = choose|i: int| 0 <= i <= s.len() && #[trigger] starts_with(s.skip(i), part);
        assert(s.subrange(i, i + part.len()) =~= s.skip(i).take(part.len() as int));
    }
}

/// A replaced character stands nowhere any more, and the others stay.
pub proof fn replacing_reaches_every_place(s: Seq<char>, from: char, to: char, i: int)
    requires
        0 <= i < s.len(),
    ensures
        replaced(s, from, to).len() == s.len(),
        s[i] == from ==> replaced(s, from, to)[i] == to,
        s[i] != from ==> replaced(s, from, to)[i] == s[i],
{
}

/// Slashes at the end are taken off, those within stay.
pub proof fn end_slashes_are_taken(s: Seq<char>, slashes: Seq<char>)
    requires
        s.len() > 0,
        s.last() != '/',
        forall|i: int| 0 <= i < slashes.len() ==> #[trigger] slashes[i] == '/',
    ensures
        trim_end_of(s + slashes, CharClass::Slash) == s,
{
    let t = s + slashes;
    assert forall|j: int| t.len() - slashes.len() <= j < t.len() implies CharClass::Slash.has(
        #[trigger] t[j],
    ) by {
        assert(t[j] == slashes[j - s.len()]);
    }
    assert(t[s.len() - 1] == s.last());
    crate::text::lemma_trailing(t, CharClass::Slash, slashes.len());
    assert(t.take(s.len() as int) =~= s);
}

/// The order of texts: one that another begins with comes first, and otherwise the first
/// characters that differ decide.
pub proof fn texts_are_ordered_by_characters(a: Seq<char>, b: Seq<char>, n: int)
    requires
        0 <= n <= a.len(),
        n <= b.len(),
        a.take(n) == b.take(n),
    ensures
        n == a.len() ==> text_le(a, b),
        n < a.len() && n == b.len() ==> !text_le(a, b),
        n < a.len() && n < b.len() && a[n] != b[n] ==> text_le(a, b) == (a[n] < b[n]),
    decreases n,
{
    if n > 0 {
        assert(a[0] == a.take(n)[0] && b[0] == b.take(n)[0]);
        let (x, y) = (a.skip(1), b.skip(1));
        assert forall|i: int| 0 <= i < n - 1 implies x[i] == y[i] by {
            assert(a[i + 1] == a.take(n)[i + 1] && b[i + 1] == b.take(n)[i + 1]);
        }
        assert(x.take(n - 1) =~= y.take(n - 1));
        texts_are_ordered_by_characters(x, y, n - 1);
    }
}

}
