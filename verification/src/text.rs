//! Text as a sequence of characters: classification, trimming, splitting,
//! joining and decimal numbers.

use vstd::prelude::*;

verus! {

/// `String::push`: appends one character at the end and changes nothing else.
pub assume_specification[ String::push ](s: &mut String, c: char)
    ensures
        final(s)@ == old(s)@.push(c),
;

/// The characters of a string, in order.
pub fn chars_of(s: &str) -> (r: Vec<char>)
    ensures
        r@ == s@,
{
    let mut out: Vec<char> = Vec::new();
    for c in it: s.chars()
        invariant
            it.seq() == s@,
            out@ == s@.take(it.index() as int),
    {
        out.push(c);
        assert(s@.take(it.index() as int + 1) =~= s@.take(it.index() as int).push(c));
    }
    assert(s@.take(s@.len() as int) =~= s@);
    out
}

/// The string made of the given characters.
pub fn text_of(v: &[char]) -> (r: String)
    ensures
        r@ == v@,
{
    let mut out = String::new();
    let mut i: usize = 0;
    while i < v.len()
        invariant
            i <= v@.len(),
            out@ == v@.take(i as int),
        decreases v@.len() - i,
    {
        out.push(v[i]);
        assert(v@.take(i as int + 1) =~= v@.take(i as int).push(v@[i as int]));
        i += 1;
    }
    assert(v@.take(v@.len() as int) =~= v@);
    out
}

/// Whether two strings hold the same characters.
pub fn same_text(a: &str, b: &str) -> (r: bool)
    ensures
        r == (a@ == b@),
{
    let x = chars_of(a);
    let y = chars_of(b);
    same_chars(&x, &y)
}

/// Whether two character slices are equal.
pub fn same_chars(a: &[char], b: &[char]) -> (r: bool)
    ensures
        r == (a@ == b@),
{
    if a.len() != b.len() {
        return false;
    }
    let mut i: usize = 0;
    while i < a.len()
        invariant
            a@.len() == b@.len(),
            i <= a@.len(),
            forall|j: int| 0 <= j < i ==> a@[j] == b@[j],
        decreases a@.len() - i,
    {
        if a[i] != b[i] {
            return false;
        }
        i += 1;
    }
    assert(a@ =~= b@);
    true
}

/// The characters with the Unicode `White_Space` property.
pub open spec fn white_space(c: char) -> bool {
    ||| '\u{9}' <= c <= '\u{d}'
    ||| c == ' '
    ||| c == '\u{85}'
    ||| c == '\u{a0}'
    ||| c == '\u{1680}'
    ||| '\u{2000}' <= c <= '\u{200a}'
    ||| c == '\u{2028}'
    ||| c == '\u{2029}'
    ||| c == '\u{202f}'
    ||| c == '\u{205f}'
    ||| c == '\u{3000}'
}

/// Whether a character is white space.
pub fn is_white_space(c: char) -> (r: bool)
    ensures
        r == white_space(c),
{
    ('\u{9}' <= c && c <= '\u{d}') || c == ' ' || c == '\u{85}' || c == '\u{a0}' || c == '\u{1680}'
        || ('\u{2000}' <= c && c <= '\u{200a}') || c == '\u{2028}' || c == '\u{2029}' || c
        == '\u{202f}' || c == '\u{205f}' || c == '\u{3000}'
}

/// The control characters: the general category `Cc`.
pub open spec fn control(c: char) -> bool {
    c <= '\u{1f}' || '\u{7f}' <= c <= '\u{9f}'
}

/// Whether a character is a control character.
pub fn is_control(c: char) -> (r: bool)
    ensures
        r == control(c),
{
    c <= '\u{1f}' || ('\u{7f}' <= c && c <= '\u{9f}')
}


/// ASCII lower case; every other character stays as it is.
pub open spec fn lower_char(c: char) -> char {
    if 'A' <= c <= 'Z' {
        ((c as u8) + 32) as u8 as char
    } else {
        c
    }
}

/// ASCII upper case; every other character stays as it is.
pub open spec fn upper_char(c: char) -> char {
    if 'a' <= c <= 'z' {
        ((c as u8) - 32) as u8 as char
    } else {
        c
    }
}

/// ASCII lower case of a text.
pub open spec fn lower(s: Seq<char>) -> Seq<char> {
    s.map_values(|c: char| lower_char(c))
}

/// ASCII upper case of a text.
pub open spec fn upper(s: Seq<char>) -> Seq<char> {
    s.map_values(|c: char| upper_char(c))
}

/// Every `from` replaced by `to`.
pub open spec fn replaced(s: Seq<char>, from: char, to: char) -> Seq<char> {
    s.map_values(|c: char| if c == from { to } else { c })
}

/// The ASCII lower case of a character.
pub fn to_lower_char(c: char) -> (r: char)
    ensures
        r == lower_char(c),
{
    if 'A' <= c && c <= 'Z' {
        ((c as u8) + 32) as char
    } else {
        c
    }
}

/// The ASCII lower case of a text.
pub fn to_lower(s: &[char]) -> (r: Vec<char>)
    ensures
        r@ == lower(s@),
{
    let mut out: Vec<char> = Vec::new();
    let mut i: usize = 0;
    while i < s.len()
        invariant
            i <= s@.len(),
            out@.len() == i,
            forall|j: int| 0 <= j < i ==> out@[j] == lower_char(s@[j]),
        decreases s@.len() - i,
    {
        out.push(to_lower_char(s[i]));
        i += 1;
    }
    assert(out@ =~= lower(s@));
    out
}

/// The ASCII upper case of a text.
pub fn to_upper(s: &[char]) -> (r: Vec<char>)
    ensures
        r@ == upper(s@),
{
    let mut out: Vec<char> = Vec::new();
    let mut i: usize = 0;
    while i < s.len()
        invariant
            i <= s@.len(),
            out@.len() == i,
            forall|j: int| 0 <= j < i ==> out@[j] == upper_char(s@[j]),
        decreases s@.len() - i,
    {
        let c = s[i];
        if 'a' <= c && c <= 'z' {
            out.push(((c as u8) - 32) as char);
        } else {
            out.push(c);
        }
        i += 1;
    }
    assert(out@ =~= upper(s@));
    out
}

/// A text with every `from` replaced by `to`.
pub fn replace_char(s: &[char], from: char, to: char) -> (r: Vec<char>)
    ensures
        r@ == replaced(s@, from, to),
{
    let mut out: Vec<char> = Vec::new();
    let mut i: usize = 0;
    while i < s.len()
        invariant
            i <= s@.len(),
            out@.len() == i,
            forall|j: int| 0 <= j < i ==> out@[j] == (if s@[j] == from { to } else { s@[j] }),
        decreases s@.len() - i,
    {
        let c = s[i];
        if c == from {
            out.push(to);
        } else {
            out.push(c);
        }
        i += 1;
    }
    assert(out@ =~= replaced(s@, from, to));
    out
}

/// A set of characters that can be cut off the ends of a text.
#[derive(Clone, Copy, PartialEq, Eq, Debug, Structural)]
pub enum CharClass {
    /// Unicode white space.
    White,
    /// The forward slash.
    Slash,
    /// The space and the full stop.
    SpaceDot,
}

impl CharClass {
    /// Membership in the class.
    pub open spec fn has(self, c: char) -> bool {
        match self {
            CharClass::White => white_space(c),
            CharClass::Slash => c == '/',
            CharClass::SpaceDot => c == ' ' || c == '.',
        }
    }

    /// Whether the class holds a character.
    pub fn holds(self, c: char) -> (r: bool)
        ensures
            r == self.has(c),
    {
        match self {
            CharClass::White => is_white_space(c),
            CharClass::Slash => c == '/',
            CharClass::SpaceDot => c == ' ' || c == '.',
        }
    }
}

/// How many characters at the start of a text are in the class.
pub open spec fn leading(s: Seq<char>, class: CharClass) -> nat
    decreases s.len(),
{
    if s.len() > 0 && class.has(s[0]) {
        1 + leading(s.skip(1), class)
    } else {
        0
    }
}

/// How many characters at the end of a text are in the class.
pub open spec fn trailing(s: Seq<char>, class: CharClass) -> nat
    decreases s.len(),
{
    if s.len() > 0 && class.has(s.last()) {
        1 + trailing(s.drop_last(), class)
    } else {
        0
    }
}

/// A text without its leading characters of the class.
pub open spec fn trim_start_of(s: Seq<char>, class: CharClass) -> Seq<char> {
    s.skip(leading(s, class) as int)
}

/// A text without its trailing characters of the class.
pub open spec fn trim_end_of(s: Seq<char>, class: CharClass) -> Seq<char> {
    s.take(s.len() - trailing(s, class))
}

/// A text without the characters of the class at both ends.
pub open spec fn trim_of(s: Seq<char>, class: CharClass) -> Seq<char> {
    trim_end_of(trim_start_of(s, class), class)
}

/// A text without white space at both ends.
pub open spec fn trimmed(s: Seq<char>) -> Seq<char> {
    trim_of(s, CharClass::White)
}

/// `leading` is the first position outside the class.
pub proof fn lemma_leading(s: Seq<char>, class: CharClass, n: nat)
    requires
        n <= s.len(),
        forall|j: int| 0 <= j < n ==> class.has(s[j]),
        n < s.len() ==> !class.has(s[n as int]),
    ensures
        leading(s, class) == n,
    decreases n,
{
    if n > 0 {
        let t = s.skip(1);
        assert forall|j: int| 0 <= j < n - 1 implies class.has(t[j]) by {
            assert(t[j] == s[j + 1]);
        }
        lemma_leading(t, class, (n - 1) as nat);
    }
}

/// `trailing` counts back from the end to the last position outside the class.
pub proof fn lemma_trailing(s: Seq<char>, class: CharClass, n: nat)
    requires
        n <= s.len(),
        forall|j: int| s.len() - n <= j < s.len() ==> class.has(s[j]),
        n < s.len() ==> !class.has(s[s.len() - n - 1]),
    ensures
        trailing(s, class) == n,
    decreases n,
{
    if n > 0 {
        lemma_trailing(s.drop_last(), class, (n - 1) as nat);
    }
}

/// What `leading` and `trailing` promise about a text.
pub proof fn lemma_ends(s: Seq<char>, class: CharClass)
    ensures
        leading(s, class) <= s.len(),
        trailing(s, class) <= s.len(),
        forall|j: int| 0 <= j < leading(s, class) ==> class.has(#[trigger] s[j]),
        leading(s, class) < s.len() ==> !class.has(s[leading(s, class) as int]),
        forall|j: int| s.len() - trailing(s, class) <= j < s.len() ==> class.has(#[trigger] s[j]),
        trailing(s, class) < s.len() ==> !class.has(s[s.len() - trailing(s, class) - 1]),
    decreases s.len(),
{
    if s.len() > 0 {
        let t = s.skip(1);
        lemma_ends(t, class);
        lemma_ends(s.drop_last(), class);
        if class.has(s[0]) {
            assert forall|j: int| 0 <= j < leading(s, class) implies class.has(#[trigger] s[j]) by {
                if j > 0 {
                    assert(s[j] == t[j - 1]);
                }
            }
        }
        if class.has(s.last()) {
            let d = s.drop_last();
            assert forall|j: int| s.len() - trailing(s, class) <= j < s.len() implies class.has(
                #[trigger] s[j],
            ) by {
                if j < s.len() - 1 {
                    assert(s[j] == d[j]);
                }
            }
        }
    }
}

/// Trimming leaves nothing of the class at either end.
pub proof fn lemma_trim_ends(s: Seq<char>, class: CharClass)
    ensures
        trim_of(s, class).len() <= s.len(),
        trim_of(s, class).len() > 0 ==> !class.has(trim_of(s, class)[0]) && !class.has(
            trim_of(s, class).last(),
        ),
{
    lemma_ends(s, class);
    let t = trim_start_of(s, class);
    lemma_ends(t, class);
}

/// A text with nothing of the class at either end is its own trimming.
pub proof fn lemma_trim_fixed(s: Seq<char>, class: CharClass)
    requires
        s.len() > 0 ==> !class.has(s[0]) && !class.has(s.last()),
    ensures
        trim_of(s, class) == s,
{
    assert(leading(s, class) == 0);
    assert(trim_start_of(s, class) =~= s);
    assert(trailing(s, class) == 0);
    assert(trim_end_of(s, class) =~= s);
}

/// Trimming twice is trimming once.
pub proof fn lemma_trim_idempotent(s: Seq<char>, class: CharClass)
    ensures
        trim_of(trim_of(s, class), class) == trim_of(s, class),
{
    lemma_trim_ends(s, class);
    lemma_trim_fixed(trim_of(s, class), class);
}

/// Every character of a trimmed text stood in the text.
pub proof fn lemma_trim_subset(s: Seq<char>, class: CharClass)
    ensures
        forall|j: int|
            0 <= j < trim_of(s, class).len() ==> s.contains(#[trigger] trim_of(s, class)[j]),
{
    lemma_ends(s, class);
    let t = trim_start_of(s, class);
    lemma_ends(t, class);
    assert forall|j: int| 0 <= j < trim_of(s, class).len() implies s.contains(
        #[trigger] trim_of(s, class)[j],
    ) by {
        assert(trim_of(s, class)[j] == s[j + leading(s, class)]);
    }
}

/// A text without its leading characters of the class.
pub fn trim_start_chars(s: &[char], class: CharClass) -> (r: Vec<char>)
    ensures
        r@ == trim_start_of(s@, class),
{
    let mut i: usize = 0;
    while i < s.len() && class.holds(s[i])
        invariant
            i <= s@.len(),
            forall|j: int| 0 <= j < i ==> class.has(s@[j]),
        decreases s@.len() - i,
    {
        i += 1;
    }
    proof {
        lemma_leading(s@, class, i as nat);
    }
    sub_chars(s, i, s.len())
}

/// A text without its trailing characters of the class.
pub fn trim_end_chars(s: &[char], class: CharClass) -> (r: Vec<char>)
    ensures
        r@ == trim_end_of(s@, class),
{
    let mut n: usize = s.len();
    while n > 0 && class.holds(s[n - 1])
        invariant
            n <= s@.len(),
            forall|j: int| n <= j < s@.len() ==> class.has(s@[j]),
        decreases n,
    {
        n -= 1;
    }
    proof {
        lemma_trailing(s@, class, (s@.len() - n) as nat);
    }
    sub_chars(s, 0, n)
}

/// A text without the characters of the class at both ends.
pub fn trim_chars(s: &[char], class: CharClass) -> (r: Vec<char>)
    ensures
        r@ == trim_of(s@, class),
{
    let t = trim_start_chars(s, class);
    trim_end_chars(&t, class)
}

/// A text without white space at both ends.
pub fn trim_text(s: &str) -> (r: Vec<char>)
    ensures
        r@ == trimmed(s@),
{
    let v = chars_of(s);
    trim_chars(&v, CharClass::White)
}

/// The characters from one position up to another.
pub fn sub_chars(s: &[char], from: usize, to: usize) -> (r: Vec<char>)
    requires
        from <= to <= s@.len(),
    ensures
        r@ == s@.subrange(from as int, to as int),
        from == 0 ==> r@ == s@.take(to as int),
        to == s@.len() ==> r@ == s@.skip(from as int),
{
    let mut out: Vec<char> = Vec::new();
    let mut i: usize = from;
    while i < to
        invariant
            from <= i <= to <= s@.len(),
            out@ == s@.subrange(from as int, i as int),
        decreases to - i,
    {
        out.push(s[i]);
        assert(s@.subrange(from as int, i as int + 1) =~= s@.subrange(from as int, i as int).push(
            s@[i as int],
        ));
        i += 1;
    }
    proof {
        if from == 0 {
            assert(out@ =~= s@.take(to as int));
        }
        if to == s@.len() {
            assert(out@ =~= s@.skip(from as int));
        }
    }
    out
}

/// The first position of a character, or the length where it does not occur.
pub open spec fn index_of(s: Seq<char>, c: char) -> int
    decreases s.len(),
{
    if s.len() == 0 || s[0] == c {
        0
    } else {
        1 + index_of(s.skip(1), c)
    }
}

/// `index_of` is the first occurrence.
pub proof fn lemma_index_of(s: Seq<char>, c: char)
    ensures
        0 <= index_of(s, c) <= s.len(),
        index_of(s, c) < s.len() ==> s[index_of(s, c)] == c,
        forall|j: int| 0 <= j < index_of(s, c) ==> #[trigger] s[j] != c,
        s.contains(c) <==> index_of(s, c) < s.len(),
    decreases s.len(),
{
    if s.len() > 0 && s[0] != c {
        let t = s.skip(1);
        lemma_index_of(t, c);
        assert forall|j: int| 0 <= j < index_of(s, c) implies #[trigger] s[j] != c by {
            if j > 0 {
                assert(s[j] == t[j - 1]);
            }
        }
        if s.contains(c) {
            let k = s.index_of(c);
            assert(t[k - 1] == c);
            assert(t.contains(c));
        }
    }
}

/// The first occurrence is the only position with nothing equal before it.
pub proof fn lemma_index_of_unique(s: Seq<char>, c: char, n: int)
    requires
        0 <= n <= s.len(),
        forall|j: int| 0 <= j < n ==> s[j] != c,
        n < s.len() ==> s[n] == c,
    ensures
        index_of(s, c) == n,
{
    lemma_index_of(s, c);
    if index_of(s, c) < n {
        assert(s[index_of(s, c)] != c);
    }
}

/// The first position of a character at or behind `from`.
pub fn find_char(s: &[char], from: usize, c: char) -> (r: usize)
    requires
        from <= s@.len(),
    ensures
        from <= r <= s@.len(),
        r - from == index_of(s@.skip(from as int), c),
{
    let mut i: usize = from;
    while i < s.len() && s[i] != c
        invariant
            from <= i <= s@.len(),
            forall|j: int| from <= j < i ==> s@[j] != c,
        decreases s@.len() - i,
    {
        i += 1;
    }
    proof {
        lemma_index_of_unique(s@.skip(from as int), c, i - from);
    }
    i
}

/// Whether a character occurs in a text.
pub fn has_char(s: &[char], c: char) -> (r: bool)
    ensures
        r == s@.contains(c),
{
    let i = find_char(s, 0, c);
    proof {
        assert(s@.skip(0) =~= s@);
        lemma_index_of(s@, c);
    }
    i < s.len()
}

/// The pieces of a text between the occurrences of a separator; a text without
/// the separator is one piece.
pub open spec fn split(s: Seq<char>, sep: char) -> Seq<Seq<char>>
    decreases s.len(),
{
    let k = index_of(s, sep);
    if 0 <= k < s.len() {
        seq![s.take(k)] + split(s.skip(k + 1), sep)
    } else {
        seq![s]
    }
}

/// The texts of a list of strings.
pub open spec fn texts(v: Seq<String>) -> Seq<Seq<char>> {
    v.map_values(|t: String| t@)
}

/// The pieces of a text between the occurrences of a separator.
pub fn split_chars(s: &[char], sep: char) -> (r: Vec<String>)
    ensures
        texts(r@) == split(s@, sep),
{
    let mut out: Vec<String> = Vec::new();
    let mut start: usize = 0;
    assert(s@.skip(0) =~= s@);
    assert(texts(out@) + split(s@.skip(0), sep) =~= split(s@, sep));
    loop
        invariant_except_break
            start <= s@.len(),
            texts(out@) + split(s@.skip(start as int), sep) == split(s@, sep),
        ensures
            texts(out@) == split(s@, sep),
        decreases s@.len() - start,
    {
        let ghost rest = s@.skip(start as int);
        proof {
            lemma_index_of(rest, sep);
        }
        let k = find_char(s, start, sep);
        let piece = text_of(&sub_chars(s, start, k));
        let ghost before = out@;
        out.push(piece);
        assert(texts(out@) =~= texts(before).push(piece@));
        if k < s.len() {
            assert(piece@ =~= rest.take(k - start));
            assert(rest.skip(k - start + 1) =~= s@.skip(k + 1));
            assert(texts(out@) + split(s@.skip(k + 1), sep) =~= texts(before) + split(rest, sep));
            start = k + 1;
        } else {
            assert(piece@ =~= rest);
            assert(texts(out@) =~= texts(before) + split(rest, sep));
            break;
        }
    }
    out
}

/// Pieces put together with a separator between neighbours.
pub open spec fn joined(parts: Seq<Seq<char>>, sep: Seq<char>) -> Seq<char>
    decreases parts.len(),
{
    if parts.len() == 0 {
        Seq::empty()
    } else if parts.len() == 1 {
        parts[0]
    } else {
        joined(parts.drop_last(), sep) + sep + parts.last()
    }
}

/// Strings put together with a separator between neighbours.
pub fn join_texts(parts: &[String], sep: &str) -> (r: String)
    ensures
        r@ == joined(texts(parts@), sep@),
{
    let mut out = String::new();
    let mut i: usize = 0;
    while i < parts.len()
        invariant
            i <= parts@.len(),
            out@ == joined(texts(parts@.take(i as int)), sep@),
        decreases parts@.len() - i,
    {
        let ghost now = texts(parts@.take(i as int + 1));
        assert(now.drop_last() =~= texts(parts@.take(i as int)));
        if i > 0 {
            out.append(sep);
        }
        out.append(parts[i].as_str());
        assert(now.last() == parts@[i as int]@);
        assert(out@ =~= joined(now, sep@));
        i += 1;
    }
    assert(parts@.take(parts@.len() as int) =~= parts@);
    out
}

/// Whether a text begins with another.
pub open spec fn starts_with(s: Seq<char>, prefix: Seq<char>) -> bool {
    prefix.len() <= s.len() && s.take(prefix.len() as int) == prefix
}

/// Whether a text ends with another.
pub open spec fn ends_with(s: Seq<char>, suffix: Seq<char>) -> bool {
    suffix.len() <= s.len() && s.skip(s.len() - suffix.len()) == suffix
}

/// Whether a text begins with another.
pub fn has_prefix(s: &[char], prefix: &[char]) -> (r: bool)
    ensures
        r == starts_with(s@, prefix@),
{
    if prefix.len() > s.len() {
        return false;
    }
    let head = sub_chars(s, 0, prefix.len());
    same_chars(&head, prefix)
}

/// Whether a text ends with another.
pub fn has_suffix(s: &[char], suffix: &[char]) -> (r: bool)
    ensures
        r == ends_with(s@, suffix@),
{
    if suffix.len() > s.len() {
        return false;
    }
    let tail = sub_chars(s, s.len() - suffix.len(), s.len());
    same_chars(&tail, suffix)
}

/// Whether a text holds another as a run of characters.
pub open spec fn contains_text(s: Seq<char>, needle: Seq<char>) -> bool {
    exists|i: int| 0 <= i <= s.len() && #[trigger] starts_with(s.skip(i), needle)
}

/// Whether a text holds another as a run of characters.
pub fn has_text(s: &[char], needle: &[char]) -> (r: bool)
    ensures
        r == contains_text(s@, needle@),
{
    let mut i: usize = 0;
    while i <= s.len()
        invariant
            i <= s@.len() + 1,
            forall|j: int| 0 <= j < i ==> !#[trigger] starts_with(s@.skip(j), needle@),
        decreases s@.len() + 1 - i,
    {
        let tail = sub_chars(s, i, s.len());
        if has_prefix(&tail, needle) {
            assert(starts_with(s@.skip(i as int), needle@));
            return true;
        }
        if i == s.len() {
            return false;
        }
        i += 1;
    }
    false
}


/// Whether a character is an ASCII digit.
pub open spec fn digit(c: char) -> bool {
    '0' <= c <= '9'
}

/// The value of an ASCII digit.
pub open spec fn digit_value(c: char) -> int {
    c as int - '0' as int
}

/// The digit of a value below ten.
pub open spec fn digit_char(n: nat) -> char {
    (48 + n) as u8 as char
}

/// Whether every character of a text is an ASCII digit.
pub open spec fn all_digits(s: Seq<char>) -> bool {
    forall|i: int| 0 <= i < s.len() ==> digit(#[trigger] s[i])
}

/// The number that a run of digits writes in base ten.
pub open spec fn digits_value(s: Seq<char>) -> int
    decreases s.len(),
{
    if s.len() == 0 {
        0
    } else {
        digits_value(s.drop_last()) * 10 + digit_value(s.last())
    }
}

/// A natural number in base ten, without leading zeros.
pub open spec fn decimal(n: nat) -> Seq<char>
    decreases n,
{
    if n < 10 {
        seq![digit_char(n)]
    } else {
        decimal(n / 10).push(digit_char(n % 10))
    }
}

/// An integer in base ten, with a minus sign where it is negative.
pub open spec fn decimal_int(n: int) -> Seq<char> {
    if n < 0 {
        seq!['-'] + decimal((-n) as nat)
    } else {
        decimal(n as nat)
    }
}

/// Reading a number written in base ten gives the number back.
pub proof fn lemma_decimal_value(n: nat)
    ensures
        decimal(n).len() > 0,
        all_digits(decimal(n)),
        digits_value(decimal(n)) == n,
    decreases n,
{
    if n < 10 {
        let s = seq![digit_char(n)];
        assert(s.drop_last() =~= Seq::<char>::empty());
        assert(digits_value(Seq::<char>::empty()) == 0);
        assert(digit(digit_char(n)));
        assert(digits_value(s) == n);
    } else {
        lemma_decimal_value(n / 10);
        let head = decimal(n / 10);
        let last = digit_char(n % 10);
        assert(decimal(n).drop_last() =~= head);
        assert(digit(last));
        assert(digits_value(decimal(n)) == (n / 10) * 10 + n % 10);
    }
}

/// Appends a number in base ten.
pub fn push_decimal(n: u64, out: &mut String)
    ensures
        final(out)@ == old(out)@ + decimal(n as nat),
    decreases n,
{
    if n >= 10 {
        push_decimal(n / 10, out);
    }
    let d: u8 = (n % 10) as u8;
    out.push((48 + d) as char);
    assert(out@ =~= old(out)@ + decimal(n as nat));
}

/// A natural number in base ten.
pub fn decimal_text(n: u64) -> (r: String)
    ensures
        r@ == decimal(n as nat),
{
    let mut out = String::new();
    push_decimal(n, &mut out);
    assert(out@ =~= decimal(n as nat));
    out
}

/// Appends an integer in base ten.
pub fn push_decimal_int(n: i64, out: &mut String)
    ensures
        final(out)@ == old(out)@ + decimal_int(n as int),
{
    if n < 0 {
        out.push('-');
        let magnitude: u64 = (-(n as i128)) as u64;
        push_decimal(magnitude, out);
        assert(out@ =~= old(out)@ + decimal_int(n as int));
    } else {
        push_decimal(n as u64, out);
    }
}

/// An integer in base ten.
pub fn decimal_int_text(n: i64) -> (r: String)
    ensures
        r@ == decimal_int(n as int),
{
    let mut out = String::new();
    push_decimal_int(n, &mut out);
    assert(out@ =~= decimal_int(n as int));
    out
}

/// The integer that a text writes: an optional sign (`-` only where a negative
/// number is meant to be readable) and at least one ASCII digit.
pub open spec fn parsed_int(s: Seq<char>, signed: bool) -> Option<int> {
    if s.len() == 0 {
        None
    } else if s[0] == '+' {
        if s.len() > 1 && all_digits(s.skip(1)) {
            Some(digits_value(s.skip(1)))
        } else {
            None
        }
    } else if signed && s[0] == '-' {
        if s.len() > 1 && all_digits(s.skip(1)) {
            Some(-digits_value(s.skip(1)))
        } else {
            None
        }
    } else if all_digits(s) {
        Some(digits_value(s))
    } else {
        None
    }
}

/// The integer that a text writes, where it lies between two bounds.
pub open spec fn parsed_within(s: Seq<char>, signed: bool, low: int, high: int) -> Option<int> {
    match parsed_int(s, signed) {
        Some(n) => if low <= n <= high {
            Some(n)
        } else {
            None
        },
        None => None,
    }
}

/// A digit run never writes less than one of its prefixes.
pub proof fn lemma_digits_prefix(s: Seq<char>, n: int)
    requires
        0 <= n <= s.len(),
        all_digits(s),
    ensures
        0 <= digits_value(s.take(n)) <= digits_value(s),
    decreases s.len() - n, s.len(),
{
    if n == s.len() {
        assert(s.take(n) =~= s);
        if n > 0 {
            lemma_digits_prefix(s.drop_last(), n - 1);
            assert(s.drop_last().take(n - 1) =~= s.drop_last());
            assert(digit(s[n - 1]));
        }
    } else {
        lemma_digits_prefix(s.drop_last(), n);
        assert(s.drop_last().take(n) =~= s.take(n));
        assert(digit(s.last()));
    }
}

/// Reads a run of digits; `None` where it is no such run or too large for
/// 64 bits.
pub fn read_digits(s: &[char]) -> (r: Option<u64>)
    ensures
        r matches Some(n) ==> s@.len() > 0 && all_digits(s@) && digits_value(s@) == n,
        r is None ==> s@.len() == 0 || !all_digits(s@) || digits_value(s@) > u64::MAX,
{
    if s.len() == 0 {
        return None;
    }
    let mut value: u64 = 0;
    let mut i: usize = 0;
    let mut fits: bool = true;
    while i < s.len()
        invariant
            i <= s@.len(),
            forall|j: int| 0 <= j < i ==> digit(#[trigger] s@[j]),
            fits ==> digits_value(s@.take(i as int)) == value,
            !fits ==> digits_value(s@.take(i as int)) > u64::MAX,
        decreases s@.len() - i,
    {
        let c = s[i];
        if !('0' <= c && c <= '9') {
            assert(!digit(s@[i as int]));
            return None;
        }
        let ghost now = s@.take(i as int + 1);
        assert(now.drop_last() =~= s@.take(i as int));
        assert(now.last() == c);
        if fits {
            let wide: u128 = (value as u128) * 10 + ((c as u8) - 48) as u128;
            if wide > u64::MAX as u128 {
                fits = false;
            } else {
                value = wide as u64;
            }
        } else {
            assert(digit_value(c) >= 0);
        }
        i += 1;
    }
    assert(s@.take(s@.len() as int) =~= s@);
    if fits {
        Some(value)
    } else {
        None
    }
}

/// Reads an unsigned number of at most `max`.
pub fn read_unsigned(s: &[char], max: u64) -> (r: Option<u64>)
    ensures
        match r {
            Some(n) => parsed_within(s@, false, 0, max as int) == Some(n as int),
            None => parsed_within(s@, false, 0, max as int) is None,
        },
{
    if s.len() == 0 {
        return None;
    }
    let body = if s[0] == '+' {
        sub_chars(s, 1, s.len())
    } else {
        sub_chars(s, 0, s.len())
    };
    proof {
        assert(s@.take(s@.len() as int) =~= s@);
        if s@[0] == '+' {
            assert(!digit(s@[0]));
        }
        if all_digits(body@) {
            lemma_digits_prefix(body@, 0);
        }
    }
    match read_digits(&body) {
        Some(n) => if n <= max {
            Some(n)
        } else {
            None
        },
        None => None,
    }
}

/// Reads a signed 64-bit number.
pub fn read_i64(s: &[char]) -> (r: Option<i64>)
    ensures
        match r {
            Some(n) => parsed_within(s@, true, i64::MIN as int, i64::MAX as int) == Some(n as int),
            None => parsed_within(s@, true, i64::MIN as int, i64::MAX as int) is None,
        },
{
    if s.len() == 0 {
        return None;
    }
    let signed = s[0] == '+' || s[0] == '-';
    let negative = s[0] == '-';
    let body = if signed {
        sub_chars(s, 1, s.len())
    } else {
        sub_chars(s, 0, s.len())
    };
    proof {
        assert(s@.take(s@.len() as int) =~= s@);
        if all_digits(body@) {
            lemma_digits_prefix(body@, 0);
        }
    }
    match read_digits(&body) {
        Some(n) => {
            let wide: i128 = if negative {
                -(n as i128)
            } else {
                n as i128
            };
            if i64::MIN as i128 <= wide && wide <= i64::MAX as i128 {
                Some(wide as i64)
            } else {
                None
            }
        },
        None => None,
    }
}

/// The bytes that UTF-8 takes for a character.
pub open spec fn utf8_len(c: char) -> nat {
    if c <= '\u{7f}' {
        1
    } else if c <= '\u{7ff}' {
        2
    } else if c <= '\u{ffff}' {
        3
    } else {
        4
    }
}

/// The bytes that UTF-8 takes for a text.
pub open spec fn byte_len(s: Seq<char>) -> nat
    decreases s.len(),
{
    if s.len() == 0 {
        0
    } else {
        byte_len(s.drop_last()) + utf8_len(s.last())
    }
}

/// The start of a text that takes exactly `n` bytes; `None` where no start of
/// it does.
pub open spec fn byte_prefix(s: Seq<char>, n: nat) -> Option<Seq<char>> {
    if exists|k: int| 0 <= k <= s.len() && byte_len(#[trigger] s.take(k)) == n {
        let k = choose|k: int| 0 <= k <= s.len() && byte_len(#[trigger] s.take(k)) == n;
        Some(s.take(k))
    } else {
        None
    }
}

/// Longer starts take more bytes.
pub proof fn lemma_byte_len_grows(s: Seq<char>, a: int, b: int)
    requires
        0 <= a < b <= s.len(),
    ensures
        byte_len(s.take(a)) < byte_len(s.take(b)),
    decreases b - a,
{
    let t = s.take(b);
    assert(t.drop_last() =~= s.take(b - 1));
    if a < b - 1 {
        lemma_byte_len_grows(s, a, b - 1);
    }
}

/// The start of a text that takes exactly `n` bytes.
pub fn take_bytes(s: &[char], n: usize) -> (r: Option<Vec<char>>)
    ensures
        match r {
            Some(v) => byte_prefix(s@, n as nat) == Some(v@),
            None => byte_prefix(s@, n as nat) is None,
        },
{
    let mut used: usize = 0;
    let mut i: usize = 0;
    assert(s@.take(0) =~= Seq::<char>::empty());
    while i < s.len() && used < n
        invariant
            i <= s@.len(),
            used == byte_len(s@.take(i as int)),
            i > 0 ==> byte_len(s@.take(i as int - 1)) < n,
        decreases s@.len() - i,
    {
        let c = s[i];
        let width: usize = if c <= '\u{7f}' {
            1
        } else if c <= '\u{7ff}' {
            2
        } else if c <= '\u{ffff}' {
            3
        } else {
            4
        };
        let ghost now = s@.take(i as int + 1);
        assert(now.drop_last() =~= s@.take(i as int));
        if width > usize::MAX - used {
            proof {
                lemma_no_byte_prefix(s@, i as int + 1, n as nat);
            }
            return None;
        }
        used = used + width;
        i += 1;
    }
    if used == n {
        proof {
            assert(byte_len(s@.take(i as int)) == n);
            let k = choose|k: int| 0 <= k <= s@.len() && byte_len(#[trigger] s@.take(k)) == n;
            if k < i {
                lemma_byte_len_grows(s@, k, i as int);
            } else if i < k {
                lemma_byte_len_grows(s@, i as int, k);
            }
        }
        Some(sub_chars(s, 0, i))
    } else {
        proof {
            if used < n {
                assert forall|k: int| 0 <= k <= s@.len() implies byte_len(#[trigger] s@.take(k))
                    != n by {
                    if k < s@.len() {
                        lemma_byte_len_grows(s@, k, s@.len() as int);
                    }
                }
            } else {
                lemma_no_byte_prefix(s@, i as int, n as nat);
            }
        }
        None
    }
}

/// No start of a text takes `n` bytes where one takes fewer and the next more.
proof fn lemma_no_byte_prefix(s: Seq<char>, i: int, n: nat)
    requires
        0 < i <= s.len(),
        byte_len(s.take(i - 1)) < n < byte_len(s.take(i)),
    ensures
        byte_prefix(s, n) is None,
{
    assert forall|k: int| 0 <= k <= s.len() implies byte_len(#[trigger] s.take(k)) != n by {
        if k < i - 1 {
            lemma_byte_len_grows(s, k, i - 1);
        } else if k > i {
            lemma_byte_len_grows(s, i, k);
        }
    }
}

/// Where the first characters of a text are ASCII, they are its first bytes.
pub proof fn lemma_ascii_prefix(s: Seq<char>, n: int)
    requires
        0 <= n <= s.len(),
        forall|i: int| 0 <= i < n ==> #[trigger] s[i] <= '\u{7f}',
    ensures
        byte_len(s.take(n)) == n,
        byte_len(s) >= n,
        byte_prefix(s, n as nat) == Some(s.take(n)),
{
    lemma_ascii_bytes(s.take(n));
    assert(s.take(s.len() as int) =~= s);
    if n < s.len() {
        lemma_byte_len_grows(s, n, s.len() as int);
    }
    let k = choose|k: int| 0 <= k <= s.len() && byte_len(#[trigger] s.take(k)) == n;
    if k < n {
        lemma_byte_len_grows(s, k, n);
    } else if n < k {
        lemma_byte_len_grows(s, n, k);
    }
}

/// Each ASCII character takes one byte.
proof fn lemma_ascii_bytes(s: Seq<char>)
    requires
        forall|i: int| 0 <= i < s.len() ==> #[trigger] s[i] <= '\u{7f}',
    ensures
        byte_len(s) == s.len(),
    decreases s.len(),
{
    if s.len() > 0 {
        assert(s[s.len() - 1] <= '\u{7f}');
        assert forall|i: int| 0 <= i < s.len() - 1 implies #[trigger] s.drop_last()[i] <= '\u{7f}' by {
            assert(s.drop_last()[i] == s[i]);
        }
        lemma_ascii_bytes(s.drop_last());
    }
}

/// A text with white space around something that neither begins nor ends with white space
/// is trimmed to that.
pub proof fn lemma_trim_cut(s: Seq<char>, a: int, b: int)
    requires
        0 <= a < b <= s.len(),
        forall|j: int| 0 <= j < a ==> white_space(#[trigger] s[j]),
        forall|j: int| b <= j < s.len() ==> white_space(#[trigger] s[j]),
        !white_space(s[a]),
        !white_space(s[b - 1]),
    ensures
        trimmed(s) == s.subrange(a, b),
{
    lemma_leading(s, CharClass::White, a as nat);
    let t = s.skip(a);
    assert forall|j: int| b - a <= j < t.len() implies CharClass::White.has(#[trigger] t[j]) by {
        assert(t[j] == s[j + a]);
    }
    assert(t[b - a - 1] == s[b - 1]);
    lemma_trailing(t, CharClass::White, (s.len() - b) as nat);
    assert(trimmed(s) =~= s.subrange(a, b));
}

}
