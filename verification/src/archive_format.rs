//! Validated, versioned folder archive naming profiles.
//!
//! Rendering is separate from database and file-system work, so a preview uses
//! exactly the validation that a later plan update uses.

use vstd::prelude::*;
use crate::calendar::{
    begins_dated, chrono_parsed, format_by_pattern, lemma_patterns, month_only, padded, padded_text,
    parse_by_pattern, pattern_with, plain_date, separator, without_digits, written, year_alone,
    year_text, CalendarDate,
};
use crate::json::{or_else, Json, JsonTree};
use crate::text::{
    all_digits, byte_prefix, chars_of, control, decimal, decimal_int, decimal_int_text, decimal_text, find_char,
    has_prefix, index_of, is_control, join_texts, joined, parsed_within, read_i64, read_unsigned,
    replace_char, replaced, same_text, split, split_chars, starts_with, sub_chars, take_bytes,
    text_of, texts, to_upper, trim_chars, trim_of, trim_text, trimmed, upper, CharClass,
};

verus! {

/// The settings key under which the profiles are stored.
pub const ARCHIVE_FORMAT_SETTINGS_KEY: &'static str = "folder_rename_format_profiles_v1";

/// The version of the settings document.
pub const SETTINGS_VERSION: i64 = 1;

/// The longest template, in characters.
pub const MAX_TEMPLATE_LEN: usize = 512;

/// The longest profile name, in characters.
pub const MAX_PROFILE_NAME_LEN: usize = 80;

/// The longest token value, in characters.
pub const MAX_TOKEN_VALUE_LEN: usize = 160;

/// An outcome and its specification agree: the same value, or the same message.
pub open spec fn agrees<T: View>(r: Result<T, String>, s: Result<T::V, Seq<char>>) -> bool {
    match (r, s) {
        (Ok(a), Ok(b)) => a@ == b,
        (Err(a), Err(b)) => a@ == b,
        _ => false,
    }
}

/// Whether any character of a text is a control character.
pub open spec fn has_control(s: Seq<char>) -> bool {
    exists|i: int| 0 <= i < s.len() && control(#[trigger] s[i])
}

/// Whether any character of a text is a control character.
pub fn any_control(s: &[char]) -> (r: bool)
    ensures
        r == has_control(s@),
{
    let mut i: usize = 0;
    while i < s.len()
        invariant
            i <= s@.len(),
            forall|j: int| 0 <= j < i ==> !control(#[trigger] s@[j]),
        decreases s@.len() - i,
    {
        if is_control(s[i]) {
            assert(control(s@[i as int]));
            return true;
        }
        i += 1;
    }
    false
}

/// The characters that no file name may hold on every platform, besides the
/// separators.
pub open spec fn forbidden(c: char) -> bool {
    ||| control(c)
    ||| c == '<'
    ||| c == '>'
    ||| c == ':'
    ||| c == '"'
    ||| c == '|'
    ||| c == '?'
    ||| c == '*'
}

/// The characters that a single path segment may not hold.
pub open spec fn unsafe_in_name(c: char) -> bool {
    forbidden(c) || c == '/' || c == '\\'
}

/// Whether a character may stand in no file name.
pub fn is_forbidden(c: char) -> (r: bool)
    ensures
        r == forbidden(c),
{
    is_control(c) || c == '<' || c == '>' || c == ':' || c == '"' || c == '|' || c == '?' || c
        == '*'
}

/// Whether a text holds a forbidden character.
pub open spec fn has_forbidden(s: Seq<char>) -> bool {
    exists|i: int| 0 <= i < s.len() && forbidden(#[trigger] s[i])
}

/// Whether a text holds a forbidden character.
pub fn any_forbidden(s: &[char]) -> (r: bool)
    ensures
        r == has_forbidden(s@),
{
    let mut i: usize = 0;
    while i < s.len()
        invariant
            i <= s@.len(),
            forall|j: int| 0 <= j < i ==> !forbidden(#[trigger] s@[j]),
        decreases s@.len() - i,
    {
        if is_forbidden(s[i]) {
            assert(forbidden(s@[i as int]));
            return true;
        }
        i += 1;
    }
    false
}

/// The part of a path segment that decides whether Windows reserves it: up to
/// the first full stop, in upper case.
pub open spec fn device_stem(component: Seq<char>) -> Seq<char> {
    upper(component.take(index_of(component, '.')))
}

/// Whether the text behind a device prefix is a port number from 1 to 9.
pub open spec fn port_number(s: Seq<char>) -> bool {
    parsed_within(s, false, 1, 9) is Some
}

/// The names that Windows reserves for devices.
pub open spec fn windows_reserved(component: Seq<char>) -> bool {
    let stem = device_stem(component);
    ||| stem == "CON"@
    ||| stem == "PRN"@
    ||| stem == "AUX"@
    ||| stem == "NUL"@
    ||| (starts_with(stem, "COM"@) && port_number(stem.skip(3)))
    ||| (starts_with(stem, "LPT"@) && port_number(stem.skip(3)))
}

/// Whether Windows reserves a path segment for a device.
pub fn is_windows_reserved_component(component: &str) -> (r: bool)
    ensures
        r == windows_reserved(component@),
{
    let all = chars_of(component);
    let dot = find_char(&all, 0, '.');
    assert(all@.skip(0) =~= all@);
    let head = sub_chars(&all, 0, dot);
    let stem = to_upper(&head);
    let name = text_of(&stem);
    if same_text(&name, "CON") || same_text(&name, "PRN") || same_text(&name, "AUX") || same_text(
        &name,
        "NUL",
    ) {
        return true;
    }
    proof {
        reveal_strlit("COM");
        reveal_strlit("LPT");
    }
    if has_prefix(&stem, &chars_of("COM")) || has_prefix(&stem, &chars_of("LPT")) {
        let rest = sub_chars(&stem, 3, stem.len());
        match read_unsigned(&rest, 9) {
            Some(n) => n >= 1,
            None => false,
        }
    } else {
        false
    }
}

/// What is wrong with one segment of a rendered target.
pub open spec fn segment_problem(component: Seq<char>) -> Option<Seq<char>> {
    if component.len() == 0 {
        Some("rendered archive target cannot contain empty path segments"@)
    } else if component == "."@ || component == ".."@ {
        Some("rendered archive target cannot contain traversal segments"@)
    } else if component.len() > 180 {
        Some("rendered archive target has an overlong path segment"@)
    } else if component.last() == ' ' || component.last() == '.' {
        Some("rendered archive target has an unsafe trailing path character"@)
    } else if has_forbidden(component) {
        Some("rendered archive target contains unsafe filename characters"@)
    } else if windows_reserved(component) {
        Some("rendered archive target contains a reserved filename"@)
    } else {
        None
    }
}

/// The problem of the first segment that has one.
pub open spec fn first_problem(components: Seq<Seq<char>>) -> Option<Seq<char>>
    decreases components.len(),
{
    if components.len() == 0 {
        None
    } else {
        or_else(first_problem(components.drop_last()), segment_problem(components.last()))
    }
}

/// The outcome of checking a rendered target: the trimmed path with forward
/// slashes, or the first thing that is wrong with it.
pub open spec fn checked_target(value: Seq<char>) -> Result<Seq<char>, Seq<char>> {
    let raw = trimmed(replaced(value, '\\', '/'));
    if raw.len() == 0 || raw[0] == '/' {
        Err("rendered archive target must be an artist-relative folder"@)
    } else if raw.len() >= 2 && raw[0] <= '\u{7f}' && raw[1] == ':' {
        Err("rendered archive target must not use a drive path"@)
    } else {
        match first_problem(split(raw, '/')) {
            Some(problem) => Err(problem),
            None => Ok(raw),
        }
    }
}

/// What is wrong with one segment of a rendered target.
fn check_segment(component: &str) -> (r: Option<String>)
    ensures
        match r {
            Some(problem) => segment_problem(component@) == Some(problem@),
            None => segment_problem(component@) is None,
        },
{
    let chars = chars_of(component);
    if chars.len() == 0 {
        return Some("rendered archive target cannot contain empty path segments".to_owned());
    }
    if same_text(component, ".") || same_text(component, "..") {
        return Some("rendered archive target cannot contain traversal segments".to_owned());
    }
    if chars.len() > 180 {
        return Some("rendered archive target has an overlong path segment".to_owned());
    }
    let last = chars[chars.len() - 1];
    if last == ' ' || last == '.' {
        return Some("rendered archive target has an unsafe trailing path character".to_owned());
    }
    if any_forbidden(&chars) {
        return Some("rendered archive target contains unsafe filename characters".to_owned());
    }
    if is_windows_reserved_component(component) {
        return Some("rendered archive target contains a reserved filename".to_owned());
    }
    None
}

/// Checks a rendered target as a portable artist-relative folder path.
pub fn validate_rendered_target(value: &str) -> (r: Result<String, String>)
    ensures
        agrees(r, checked_target(value@)),
{
    let given = chars_of(value);
    let slashed = replace_char(&given, '\\', '/');
    let raw = trim_chars(&slashed, CharClass::White);
    if raw.len() == 0 || raw[0] == '/' {
        return Err("rendered archive target must be an artist-relative folder".to_owned());
    }
    if raw.len() >= 2 && raw[0] <= '\u{7f}' && raw[1] == ':' {
        return Err("rendered archive target must not use a drive path".to_owned());
    }
    let components = split_chars(&raw, '/');
    let ghost all = texts(components@);
    let mut i: usize = 0;
    while i < components.len()
        invariant
            i <= components@.len(),
            all == texts(components@),
            all == split(raw@, '/'),
            raw@ == trimmed(replaced(value@, '\\', '/')),
            raw@.len() > 0,
            raw@[0] != '/',
            !(raw@.len() >= 2 && raw@[0] <= '\u{7f}' && raw@[1] == ':'),
            first_problem(all.take(i as int)) is None,
        decreases components@.len() - i,
    {
        let ghost now = all.take(i as int + 1);
        assert(now.drop_last() =~= all.take(i as int));
        assert(now.last() == components@[i as int]@);
        match check_segment(components[i].as_str()) {
            Some(problem) => {
                proof {
                    lemma_problem_stays(all, i as int + 1);
                }
                return Err(problem);
            },
            None => {},
        }
        i += 1;
    }
    assert(all.take(all.len() as int) =~= all);
    Ok(text_of(&raw))
}

/// A problem found early is the problem of the whole path.
proof fn lemma_problem_stays(components: Seq<Seq<char>>, n: int)
    requires
        0 <= n <= components.len(),
        first_problem(components.take(n)) is Some,
    ensures
        first_problem(components) == first_problem(components.take(n)),
    decreases components.len(),
{
    if n == components.len() {
        assert(components.take(n) =~= components);
    } else {
        let d = components.drop_last();
        assert(d.take(n) =~= components.take(n));
        lemma_problem_stays(d, n);
    }
}


/// A value cut to the longest token length, with every unsafe character
/// replaced by an underscore, and without spaces and full stops at its ends.
pub open spec fn safe_name(value: Seq<char>) -> Seq<char> {
    let t = trimmed(value);
    let cut = if t.len() > MAX_TOKEN_VALUE_LEN {
        t.take(MAX_TOKEN_VALUE_LEN as int)
    } else {
        t
    };
    trim_of(cut.map_values(|c: char| if unsafe_in_name(c) { '_' } else { c }), CharClass::SpaceDot)
}

/// Whether a safe name can stand as a path segment.
pub open spec fn usable_name(name: Seq<char>) -> bool {
    name.len() > 0 && !windows_reserved(name)
}

/// The value of a token: its safe name, else the fallback's safe name, else
/// `untitled`; nothing at all where the fallback is empty.
pub open spec fn sanitized(value: Seq<char>, fallback: Seq<char>) -> Seq<char> {
    if usable_name(safe_name(value)) {
        safe_name(value)
    } else if fallback.len() == 0 {
        Seq::empty()
    } else if usable_name(safe_name(fallback)) {
        safe_name(fallback)
    } else {
        "untitled"@
    }
}

/// The safe name of a value.
fn to_safe_name(value: &str) -> (r: Vec<char>)
    ensures
        r@ == safe_name(value@),
{
    let t = trim_text(value);
    let limit: usize = if t.len() > MAX_TOKEN_VALUE_LEN {
        MAX_TOKEN_VALUE_LEN
    } else {
        t.len()
    };
    let mut out: Vec<char> = Vec::new();
    let mut i: usize = 0;
    while i < limit
        invariant
            i <= limit <= t@.len(),
            out@.len() == i,
            forall|j: int|
                0 <= j < i ==> out@[j] == (if unsafe_in_name(t@[j]) {
                    '_'
                } else {
                    t@[j]
                }),
        decreases limit - i,
    {
        let c = t[i];
        if is_forbidden(c) || c == '/' || c == '\\' {
            out.push('_');
        } else {
            out.push(c);
        }
        i += 1;
    }
    let ghost cut = if t@.len() > MAX_TOKEN_VALUE_LEN {
        t@.take(MAX_TOKEN_VALUE_LEN as int)
    } else {
        t@
    };
    assert(out@ =~= cut.map_values(|c: char| if unsafe_in_name(c) { '_' } else { c }));
    trim_chars(&out, CharClass::SpaceDot)
}

/// The value of a token.
pub fn sanitize_token_value(value: &str, fallback: &str) -> (r: String)
    ensures
        r@ == sanitized(value@, fallback@),
{
    let name = to_safe_name(value);
    let out = text_of(&name);
    if name.len() > 0 && !is_windows_reserved_component(&out) {
        return out;
    }
    if fallback.is_empty() {
        return String::new();
    }
    let second = to_safe_name(fallback);
    let other = text_of(&second);
    if second.len() > 0 && !is_windows_reserved_component(&other) {
        other
    } else {
        "untitled".to_owned()
    }
}

/// A token value holds no unsafe character, is at most as long as the longest
/// token value, starts and ends with neither a space nor a full stop, and is no
/// device name; it is empty only where an empty fallback was asked for.
pub proof fn token_values_are_safe(value: Seq<char>, fallback: Seq<char>)
    ensures
        ({
            let v = sanitized(value, fallback);
            &&& forall|i: int| 0 <= i < v.len() ==> !unsafe_in_name(#[trigger] v[i])
            &&& v.len() <= MAX_TOKEN_VALUE_LEN
            &&& v.len() > 0 ==> v[0] != ' ' && v[0] != '.' && v.last() != ' ' && v.last() != '.'
            &&& v.len() > 0 ==> !windows_reserved(v)
            &&& fallback.len() > 0 ==> v.len() > 0
        }),
{
    lemma_safe_name(value);
    lemma_safe_name(fallback);
    reveal_strlit("untitled");
    let u = "untitled"@;
    assert forall|i: int| 0 <= i < u.len() implies !unsafe_in_name(#[trigger] u[i]) by {
        assert(u[0] == 'u' && u[1] == 'n' && u[2] == 't' && u[3] == 'i' && u[4] == 't' && u[5] == 'l'
            && u[6] == 'e' && u[7] == 'd');
    }
    assert(!windows_reserved(u)) by {
        lemma_plain_name_is_free(u);
    }
}

/// A name whose upper case starts with none of the device letters is free.
pub(crate) proof fn lemma_plain_name_is_free(name: Seq<char>)
    requires
        name.len() > 0,
        name[0] == 'u',
    ensures
        !windows_reserved(name),
{
    crate::text::lemma_index_of(name, '.');
    reveal_strlit("CON");
    reveal_strlit("PRN");
    reveal_strlit("AUX");
    reveal_strlit("NUL");
    reveal_strlit("COM");
    reveal_strlit("LPT");
    let stem = device_stem(name);
    assert(stem[0] == 'U');
    assert("CON"@[0] == 'C');
    assert("PRN"@[0] == 'P');
    assert("AUX"@[0] == 'A');
    assert("NUL"@[0] == 'N');
    if starts_with(stem, "COM"@) {
        assert(stem.take(3)[0] == 'C');
    }
    if starts_with(stem, "LPT"@) {
        assert(stem.take(3)[0] == 'L');
    }
}

/// What a safe name is made of.
pub(crate) proof fn lemma_safe_name(value: Seq<char>)
    ensures
        ({
            let v = safe_name(value);
            &&& forall|i: int| 0 <= i < v.len() ==> !unsafe_in_name(#[trigger] v[i])
            &&& v.len() <= MAX_TOKEN_VALUE_LEN
            &&& v.len() > 0 ==> v[0] != ' ' && v[0] != '.' && v.last() != ' ' && v.last() != '.'
        }),
{
    let t = trimmed(value);
    let cut = if t.len() > MAX_TOKEN_VALUE_LEN {
        t.take(MAX_TOKEN_VALUE_LEN as int)
    } else {
        t
    };
    let clean = cut.map_values(|c: char| if unsafe_in_name(c) { '_' } else { c });
    crate::text::lemma_trim_ends(clean, CharClass::SpaceDot);
    crate::text::lemma_trim_subset(clean, CharClass::SpaceDot);
    assert forall|i: int| 0 <= i < safe_name(value).len() implies !unsafe_in_name(
        #[trigger] safe_name(value)[i],
    ) by {
        let c = safe_name(value)[i];
        assert(clean.contains(c));
        let k = clean.index_of(c);
        assert(clean[k] == c);
    }
}

/// The placeholders of a template.
#[derive(Clone, Copy, PartialEq, Eq, Debug, Structural)]
pub enum Token {
    /// The artist's name.
    Artist,
    /// The date, in the profile's format.
    Date,
    /// The year.
    Year,
    /// The month.
    Month,
    /// The tags, put together with the profile's separator.
    Tags,
    /// The title.
    Title,
    /// The folder.
    Folder,
    /// The running number.
    Index,
}

impl Token {
    /// The name that stands between the braces.
    pub open spec fn spelled(self) -> Seq<char> {
        match self {
            Token::Artist => "artist"@,
            Token::Date => "date"@,
            Token::Year => "year"@,
            Token::Month => "month"@,
            Token::Tags => "tags"@,
            Token::Title => "title"@,
            Token::Folder => "folder"@,
            Token::Index => "index"@,
        }
    }

    /// The name that stands between the braces.
    pub fn name(self) -> (r: &'static str)
        ensures
            r@ == self.spelled(),
    {
        match self {
            Token::Artist => "artist",
            Token::Date => "date",
            Token::Year => "year",
            Token::Month => "month",
            Token::Tags => "tags",
            Token::Title => "title",
            Token::Folder => "folder",
            Token::Index => "index",
        }
    }
}

/// The tokens, in the order in which they are offered.
pub fn all_tokens() -> (r: Vec<Token>)
    ensures
        r@ == seq![
            Token::Artist,
            Token::Date,
            Token::Year,
            Token::Month,
            Token::Tags,
            Token::Title,
            Token::Folder,
            Token::Index,
        ],
{
    let r = vec![
        Token::Artist,
        Token::Date,
        Token::Year,
        Token::Month,
        Token::Tags,
        Token::Title,
        Token::Folder,
        Token::Index,
    ];
    r
}

/// The token of a name.
pub open spec fn token_named(name: Seq<char>) -> Option<Token> {
    if name == "artist"@ {
        Some(Token::Artist)
    } else if name == "date"@ {
        Some(Token::Date)
    } else if name == "year"@ {
        Some(Token::Year)
    } else if name == "month"@ {
        Some(Token::Month)
    } else if name == "tags"@ {
        Some(Token::Tags)
    } else if name == "title"@ {
        Some(Token::Title)
    } else if name == "folder"@ {
        Some(Token::Folder)
    } else if name == "index"@ {
        Some(Token::Index)
    } else {
        None
    }
}

/// The token of a name.
fn find_token(name: &str) -> (r: Option<Token>)
    ensures
        r == token_named(name@),
{
    if same_text(name, "artist") {
        Some(Token::Artist)
    } else if same_text(name, "date") {
        Some(Token::Date)
    } else if same_text(name, "year") {
        Some(Token::Year)
    } else if same_text(name, "month") {
        Some(Token::Month)
    } else if same_text(name, "tags") {
        Some(Token::Tags)
    } else if same_text(name, "title") {
        Some(Token::Title)
    } else if same_text(name, "folder") {
        Some(Token::Folder)
    } else if same_text(name, "index") {
        Some(Token::Index)
    } else {
        None
    }
}

/// A piece of a parsed template.
#[derive(Debug)]
pub enum TemplatePart {
    /// Text that stands as it is.
    Text(String),
    /// A placeholder.
    Token(Token),
}

/// The value of a template piece.
pub enum PartView {
    /// Text that stands as it is.
    Text(Seq<char>),
    /// A placeholder.
    Token(Token),
}

impl View for TemplatePart {
    type V = PartView;

    open spec fn view(&self) -> PartView {
        match self {
            TemplatePart::Text(s) => PartView::Text(s@),
            TemplatePart::Token(t) => PartView::Token(*t),
        }
    }
}

/// The values of template pieces.
pub open spec fn part_views(parts: Seq<TemplatePart>) -> Seq<PartView> {
    parts.map_values(|p: TemplatePart| p@)
}

/// How many characters at the start of a text are no braces.
pub open spec fn plain_run(s: Seq<char>) -> int
    decreases s.len(),
{
    if s.len() == 0 || s[0] == '{' || s[0] == '}' {
        0
    } else {
        1 + plain_run(s.skip(1))
    }
}

/// Pieces put in front of an outcome.
pub open spec fn in_front(
    parts: Seq<PartView>,
    rest: Result<Seq<PartView>, Seq<char>>,
) -> Result<Seq<PartView>, Seq<char>> {
    match rest {
        Ok(more) => Ok(parts + more),
        Err(e) => Err(e),
    }
}

/// The pieces of a template: runs of plain text and known tokens in braces.
pub open spec fn template_parts(s: Seq<char>) -> Result<Seq<PartView>, Seq<char>>
    decreases s.len(),
{
    if s.len() == 0 {
        Ok(Seq::empty())
    } else if s[0] == '{' {
        let inner = s.skip(1);
        let k = index_of(inner, '}');
        if 0 <= k < inner.len() {
            match token_named(inner.take(k)) {
                Some(token) => in_front(
                    seq![PartView::Token(token)],
                    template_parts(s.skip(k + 2)),
                ),
                None => Err("unknown archive format token: {"@ + inner.take(k) + "}"@),
            }
        } else {
            Err("unmatched '{' in archive format template"@)
        }
    } else if s[0] == '}' {
        Err("unmatched '}' in archive format template"@)
    } else {
        let n = plain_run(s);
        if 0 < n <= s.len() {
            in_front(seq![PartView::Text(s.take(n))], template_parts(s.skip(n)))
        } else {
            Ok(Seq::empty())
        }
    }
}

/// The outcome of parsing a template.
pub open spec fn parsed_template(s: Seq<char>) -> Result<Seq<PartView>, Seq<char>> {
    if trimmed(s).len() == 0 {
        Err("template cannot be empty"@)
    } else if s.len() > MAX_TEMPLATE_LEN {
        Err("template is too long"@)
    } else if has_control(s) {
        Err("template cannot contain control characters"@)
    } else {
        template_parts(s)
    }
}

/// A run of plain text ends at a brace or at the end.
proof fn lemma_plain_run(s: Seq<char>, n: int)
    requires
        0 <= n <= s.len(),
        forall|j: int| 0 <= j < n ==> s[j] != '{' && s[j] != '}',
        n < s.len() ==> s[n] == '{' || s[n] == '}',
    ensures
        plain_run(s) == n,
    decreases n,
{
    if n > 0 {
        let t = s.skip(1);
        assert forall|j: int| 0 <= j < n - 1 implies t[j] != '{' && t[j] != '}' by {
            assert(t[j] == s[j + 1]);
        }
        lemma_plain_run(t, n - 1);
    }
}

/// The outcome of parsing pieces agrees with its specification.
pub open spec fn parts_agree(
    r: Result<Vec<TemplatePart>, String>,
    s: Result<Seq<PartView>, Seq<char>>,
) -> bool {
    match (r, s) {
        (Ok(a), Ok(b)) => part_views(a@) == b,
        (Err(a), Err(b)) => a@ == b,
        _ => false,
    }
}

/// Parses a template into its pieces; unknown tokens and unmatched braces are
/// refused.
pub fn parse_template(template: &str) -> (r: Result<Vec<TemplatePart>, String>)
    ensures
        parts_agree(r, parsed_template(template@)),
{
    let s = chars_of(template);
    let t = trim_text(template);
    if t.len() == 0 {
        return Err("template cannot be empty".to_owned());
    }
    if s.len() > MAX_TEMPLATE_LEN {
        return Err("template is too long".to_owned());
    }
    if any_control(&s) {
        return Err("template cannot contain control characters".to_owned());
    }
    let mut parts: Vec<TemplatePart> = Vec::new();
    let mut offset: usize = 0;
    assert(s@.skip(0) =~= s@);
    assert(in_front(part_views(parts@), template_parts(s@.skip(0))) == template_parts(s@)) by {
        match template_parts(s@) {
            Ok(more) => {
                assert(part_views(parts@) + more =~= more);
            },
            Err(e) => {},
        }
    }
    while offset < s.len()
        invariant
            offset <= s@.len() <= MAX_TEMPLATE_LEN,
            s@ == template@,
            parsed_template(template@) == template_parts(s@),
            in_front(part_views(parts@), template_parts(s@.skip(offset as int)))
                == template_parts(s@),
        decreases s@.len() - offset,
    {
        let ghost rest = s@.skip(offset as int);
        let ghost before = parts@;
        let c = s[offset];
        assert(rest[0] == c);
        if c == '{' {
            let start = offset + 1;
            let close = find_char(&s, start, '}');
            let ghost inner = rest.skip(1);
            assert(inner =~= s@.skip(start as int));
            proof {
                crate::text::lemma_index_of(inner, '}');
            }
            if close >= s.len() {
                return Err("unmatched '{' in archive format template".to_owned());
            }
            let name = text_of(&sub_chars(&s, start, close));
            assert(name@ =~= inner.take(close - start));
            match find_token(&name) {
                Some(token) => {
                    parts.push(TemplatePart::Token(token));
                    assert(rest.skip(close - start + 2) =~= s@.skip(close + 1));
                    assert(part_views(parts@) =~= part_views(before) + seq![PartView::Token(token)]);
                    proof {
                        lemma_in_front(
                            part_views(before),
                            seq![PartView::Token(token)],
                            template_parts(s@.skip(close + 1)),
                        );
                    }
                    offset = close + 1;
                },
                None => {
                    let mut message = "unknown archive format token: {".to_owned();
                    message.append(&name);
                    message.append("}");
                    return Err(message);
                },
            }
        } else if c == '}' {
            return Err("unmatched '}' in archive format template".to_owned());
        } else {
            let mut end: usize = offset;
            while end < s.len() && s[end] != '{' && s[end] != '}'
                invariant
                    offset <= end <= s@.len(),
                    forall|j: int| offset <= j < end ==> s@[j] != '{' && s@[j] != '}',
                decreases s@.len() - end,
            {
                end += 1;
            }
            proof {
                assert forall|j: int| 0 <= j < end - offset implies rest[j] != '{' && rest[j]
                    != '}' by {
                    assert(rest[j] == s@[j + offset]);
                }
                lemma_plain_run(rest, end - offset);
                assert(end > offset);
            }
            let run = text_of(&sub_chars(&s, offset, end));
            assert(run@ =~= rest.take(end - offset));
            let ghost piece = PartView::Text(run@);
            parts.push(TemplatePart::Text(run));
            assert(rest.skip(end - offset) =~= s@.skip(end as int));
            assert(part_views(parts@) =~= part_views(before) + seq![piece]);
            proof {
                lemma_in_front(part_views(before), seq![piece], template_parts(s@.skip(end as int)));
            }
            offset = end;
        }
    }
    assert(s@.skip(offset as int).len() == 0);
    assert(part_views(parts@) + Seq::<PartView>::empty() =~= part_views(parts@));
    Ok(parts)
}

/// Putting pieces in front one after the other is putting them in front at once.
proof fn lemma_in_front(
    a: Seq<PartView>,
    b: Seq<PartView>,
    rest: Result<Seq<PartView>, Seq<char>>,
)
    ensures
        in_front(a, in_front(b, rest)) == in_front(a + b, rest),
{
    match rest {
        Ok(more) => {
            assert(a + (b + more) =~= (a + b) + more);
        },
        Err(e) => {},
    }
}

/// The values that the tokens stand for.
#[derive(Debug)]
pub struct TokenValues {
    /// The artist's name.
    pub artist: String,
    /// The date.
    pub date: String,
    /// The year.
    pub year: String,
    /// The month.
    pub month: String,
    /// The tags in one text.
    pub tags: String,
    /// The tags one by one.
    pub tag_values: Vec<String>,
    /// The title.
    pub title: String,
    /// The folder.
    pub folder: String,
    /// The running number.
    pub index: String,
}

/// The value of [`TokenValues`].
pub struct TokenValuesView {
    /// The artist's name.
    pub artist: Seq<char>,
    /// The date.
    pub date: Seq<char>,
    /// The year.
    pub year: Seq<char>,
    /// The month.
    pub month: Seq<char>,
    /// The tags in one text.
    pub tags: Seq<char>,
    /// The tags one by one.
    pub tag_values: Seq<Seq<char>>,
    /// The title.
    pub title: Seq<char>,
    /// The folder.
    pub folder: Seq<char>,
    /// The running number.
    pub index: Seq<char>,
}

impl View for TokenValues {
    type V = TokenValuesView;

    open spec fn view(&self) -> TokenValuesView {
        TokenValuesView {
            artist: self.artist@,
            date: self.date@,
            year: self.year@,
            month: self.month@,
            tags: self.tags@,
            tag_values: texts(self.tag_values@),
            title: self.title@,
            folder: self.folder@,
            index: self.index@,
        }
    }
}

impl TokenValuesView {
    /// The value of one token.
    pub open spec fn of(self, token: Token) -> Seq<char> {
        match token {
            Token::Artist => self.artist,
            Token::Date => self.date,
            Token::Year => self.year,
            Token::Month => self.month,
            Token::Tags => self.tags,
            Token::Title => self.title,
            Token::Folder => self.folder,
            Token::Index => self.index,
        }
    }

    /// Every token standing for the same text.
    pub open spec fn same(text: Seq<char>) -> TokenValuesView {
        TokenValuesView {
            artist: text,
            date: text,
            year: text,
            month: text,
            tags: text,
            tag_values: Seq::empty(),
            title: text,
            folder: text,
            index: text,
        }
    }
}

/// The text of a template piece.
pub open spec fn filled_part(part: PartView, values: TokenValuesView) -> Seq<char> {
    match part {
        PartView::Text(s) => s,
        PartView::Token(token) => values.of(token),
    }
}

/// A template with its tokens replaced by their values.
pub open spec fn filled(parts: Seq<PartView>, values: TokenValuesView) -> Seq<char>
    decreases parts.len(),
{
    if parts.len() == 0 {
        Seq::empty()
    } else {
        filled(parts.drop_last(), values) + filled_part(parts.last(), values)
    }
}

/// A template with its tokens replaced by their values.
fn fill(parts: &[TemplatePart], values: &TokenValues) -> (r: String)
    ensures
        r@ == filled(part_views(parts@), values@),
{
    let ghost views = part_views(parts@);
    let mut out = String::new();
    let mut i: usize = 0;
    while i < parts.len()
        invariant
            i <= parts@.len(),
            views == part_views(parts@),
            out@ == filled(views.take(i as int), values@),
        decreases parts@.len() - i,
    {
        let ghost now = views.take(i as int + 1);
        assert(now.drop_last() =~= views.take(i as int));
        assert(now.last() == parts@[i as int]@);
        match &parts[i] {
            TemplatePart::Text(s) => out.append(s.as_str()),
            TemplatePart::Token(token) => match token {
                Token::Artist => out.append(values.artist.as_str()),
                Token::Date => out.append(values.date.as_str()),
                Token::Year => out.append(values.year.as_str()),
                Token::Month => out.append(values.month.as_str()),
                Token::Tags => out.append(values.tags.as_str()),
                Token::Title => out.append(values.title.as_str()),
                Token::Folder => out.append(values.folder.as_str()),
                Token::Index => out.append(values.index.as_str()),
            },
        }
        i += 1;
    }
    assert(views.take(views.len() as int) =~= views);
    out
}

/// The outcome of checking a template: its tokens and braces, then the path
/// that it makes with `sample` for every token.
pub open spec fn checked_template(template: Seq<char>) -> Result<(), Seq<char>> {
    match parsed_template(template) {
        Err(e) => Err(e),
        Ok(parts) => match checked_target(filled(parts, TokenValuesView::same("sample"@))) {
            Err(_) => Err("unsafe archive format template"@),
            Ok(_) => Ok(()),
        },
    }
}

/// Every token standing for `sample`.
fn sample_values() -> (r: TokenValues)
    ensures
        r@ == TokenValuesView::same("sample"@),
{
    let none: Vec<String> = Vec::new();
    let r = TokenValues {
        artist: "sample".to_owned(),
        date: "sample".to_owned(),
        year: "sample".to_owned(),
        month: "sample".to_owned(),
        tags: "sample".to_owned(),
        tag_values: none,
        title: "sample".to_owned(),
        folder: "sample".to_owned(),
        index: "sample".to_owned(),
    };
    assert(texts(r.tag_values@) =~= Seq::<Seq<char>>::empty());
    r
}

/// Checks a template before any plan data is read. The sample path catches
/// literal path traversal.
pub fn validate_template(template: &str) -> (r: Result<(), String>)
    ensures
        agrees(r, checked_template(template@)),
{
    match parse_template(template) {
        Err(e) => Err(e),
        Ok(parts) => {
            let sample = fill(&parts, &sample_values());
            match validate_rendered_target(&sample) {
                Err(_) => Err("unsafe archive format template".to_owned()),
                Ok(_) => Ok(()),
            }
        },
    }
}


/// How the date token is written.
#[derive(Clone, Copy, PartialEq, Eq, Debug, Structural)]
pub enum DateFormat {
    /// `2024-03-04`.
    Iso,
    /// `20240304`.
    Compact,
    /// `2024-03`.
    YearMonth,
}

impl DateFormat {
    /// The name in a profile document.
    pub open spec fn spelled(self) -> Seq<char> {
        match self {
            DateFormat::Iso => "iso"@,
            DateFormat::Compact => "compact"@,
            DateFormat::YearMonth => "year_month"@,
        }
    }

    /// The name in a profile document.
    pub fn name(self) -> (r: &'static str)
        ensures
            r@ == self.spelled(),
    {
        match self {
            DateFormat::Iso => "iso",
            DateFormat::Compact => "compact",
            DateFormat::YearMonth => "year_month",
        }
    }
}

/// What happens where a rendered target is already taken.
#[derive(Clone, Copy, PartialEq, Eq, Debug, Structural)]
pub enum CollisionStrategy {
    /// The plan is in conflict.
    Reject,
    /// The target gets a running number.
    Suffix,
    /// The target is shared.
    Merge,
}

impl CollisionStrategy {
    /// The name in a profile document.
    pub open spec fn spelled(self) -> Seq<char> {
        match self {
            CollisionStrategy::Reject => "reject"@,
            CollisionStrategy::Suffix => "suffix"@,
            CollisionStrategy::Merge => "merge"@,
        }
    }

    /// The name in a profile document.
    pub fn name(self) -> (r: &'static str)
        ensures
            r@ == self.spelled(),
    {
        match self {
            CollisionStrategy::Reject => "reject",
            CollisionStrategy::Suffix => "suffix",
            CollisionStrategy::Merge => "merge",
        }
    }
}

/// A validated naming profile.
#[derive(Debug)]
pub struct Profile {
    /// The profile's id.
    pub id: String,
    /// The name shown to the user.
    pub name: String,
    /// The template of the target path.
    pub template: String,
    /// What stands for a token without a value.
    pub empty_value: String,
    /// What stands between two tags.
    pub tag_separator: String,
    /// How the date token is written.
    pub date_format: DateFormat,
    /// What happens where a target is taken.
    pub collision_strategy: CollisionStrategy,
}

/// The value of a [`Profile`].
pub struct ProfileView {
    /// The profile's id.
    pub id: Seq<char>,
    /// The name shown to the user.
    pub name: Seq<char>,
    /// The template of the target path.
    pub template: Seq<char>,
    /// What stands for a token without a value.
    pub empty_value: Seq<char>,
    /// What stands between two tags.
    pub tag_separator: Seq<char>,
    /// How the date token is written.
    pub date_format: DateFormat,
    /// What happens where a target is taken.
    pub collision_strategy: CollisionStrategy,
}

impl View for Profile {
    type V = ProfileView;

    open spec fn view(&self) -> ProfileView {
        ProfileView {
            id: self.id@,
            name: self.name@,
            template: self.template@,
            empty_value: self.empty_value@,
            tag_separator: self.tag_separator@,
            date_format: self.date_format,
            collision_strategy: self.collision_strategy,
        }
    }
}

impl Profile {
    /// The same profile again.
    pub fn duplicate(&self) -> (r: Profile)
        ensures
            r@ == self@,
    {
        Profile {
            id: self.id.clone(),
            name: self.name.clone(),
            template: self.template.clone(),
            empty_value: self.empty_value.clone(),
            tag_separator: self.tag_separator.clone(),
            date_format: self.date_format,
            collision_strategy: self.collision_strategy,
        }
    }

    /// The profile as a document.
    pub fn to_json(&self) -> (r: Json)
        ensures
            r.tree() == profile_tree(self@),
    {
        let mut members: Vec<(String, Json)> = Vec::new();
        members.push(text_member("id", &self.id));
        members.push(text_member("name", &self.name));
        members.push(text_member("template", &self.template));
        members.push(text_member("empty_value", &self.empty_value));
        members.push(text_member("tag_separator", &self.tag_separator));
        members.push(text_member("date_format", self.date_format.name()));
        members.push(text_member("collision_strategy", self.collision_strategy.name()));
        let r = Json::Object(members);
        assert(r.tree()->Object_0 =~= profile_tree(self@)->Object_0);
        r
    }
}

/// A member that is a string.
fn text_member(key: &str, value: &str) -> (r: (String, Json))
    ensures
        r.0@ == key@,
        r.1.tree() == text_tree(value@),
{
    (key.to_owned(), Json::Text(value.to_owned()))
}

/// A string document.
pub open spec fn text_tree(s: Seq<char>) -> JsonTree {
    JsonTree::Text(s)
}

/// The document of a profile.
pub open spec fn profile_tree(p: ProfileView) -> JsonTree {
    JsonTree::Object(
        seq![
            ("id"@, text_tree(p.id)),
            ("name"@, text_tree(p.name)),
            ("template"@, text_tree(p.template)),
            ("empty_value"@, text_tree(p.empty_value)),
            ("tag_separator"@, text_tree(p.tag_separator)),
            ("date_format"@, text_tree(p.date_format.spelled())),
            ("collision_strategy"@, text_tree(p.collision_strategy.spelled())),
        ],
    )
}

/// The profile that is there before anything is configured.
pub open spec fn default_profile_view() -> ProfileView {
    ProfileView {
        id: "default"@,
        name: "Default archive"@,
        template: "{year}/{date} {tags}"@,
        empty_value: "untitled"@,
        tag_separator: "&"@,
        date_format: DateFormat::Iso,
        collision_strategy: CollisionStrategy::Suffix,
    }
}

/// The profile that is there before anything is configured.
pub fn default_profile() -> (r: Profile)
    ensures
        r@ == default_profile_view(),
{
    Profile {
        id: "default".to_owned(),
        name: "Default archive".to_owned(),
        template: "{year}/{date} {tags}".to_owned(),
        empty_value: "untitled".to_owned(),
        tag_separator: "&".to_owned(),
        date_format: DateFormat::Iso,
        collision_strategy: CollisionStrategy::Suffix,
    }
}

/// The characters of a profile id.
pub open spec fn id_char(c: char) -> bool {
    'a' <= c <= 'z' || 'A' <= c <= 'Z' || '0' <= c <= '9' || c == '_' || c == '-'
}

/// A well-formed profile id: up to 64 ASCII letters, digits, `_` and `-`.
pub open spec fn profile_id(s: Seq<char>) -> bool {
    0 < s.len() <= 64 && forall|i: int| 0 <= i < s.len() ==> id_char(#[trigger] s[i])
}

/// Checks a profile id.
pub fn validate_profile_id(id: &str) -> (r: Result<(), String>)
    ensures
        match r {
            Ok(_) => profile_id(id@),
            Err(e) => !profile_id(id@) && e@
                == "profile id must use ASCII letters, numbers, underscore, or hyphen"@,
        },
{
    let s = chars_of(id);
    let mut good = s.len() > 0 && s.len() <= 64;
    let mut i: usize = 0;
    while i < s.len() && good
        invariant
            i <= s@.len(),
            s@ == id@,
            good ==> 0 < s@.len() <= 64 && forall|j: int| 0 <= j < i ==> id_char(#[trigger] s@[j]),
            !good ==> !profile_id(id@),
        decreases s@.len() - i,
    {
        let c = s[i];
        if !(('a' <= c && c <= 'z') || ('A' <= c && c <= 'Z') || ('0' <= c && c <= '9') || c == '_'
            || c == '-') {
            assert(!id_char(s@[i as int]));
            good = false;
        }
        i += 1;
    }
    if good {
        Ok(())
    } else {
        Err("profile id must use ASCII letters, numbers, underscore, or hyphen".to_owned())
    }
}

/// Whether a tag separator holds a character that no path segment may hold.
pub open spec fn bad_separator(value: Seq<char>) -> bool {
    exists|i: int| 0 <= i < value.len() && unsafe_in_name(#[trigger] value[i])
}

/// Checks a tag separator.
pub fn validate_tag_separator(value: &str) -> (r: Result<(), String>)
    ensures
        match r {
            Ok(_) => !bad_separator(value@),
            Err(e) => bad_separator(value@) && e@
                == "tag_separator contains unsafe filename characters"@,
        },
{
    let s = chars_of(value);
    let mut i: usize = 0;
    while i < s.len()
        invariant
            i <= s@.len(),
            s@ == value@,
            forall|j: int| 0 <= j < i ==> !unsafe_in_name(#[trigger] s@[j]),
        decreases s@.len() - i,
    {
        let c = s[i];
        if is_forbidden(c) || c == '/' || c == '\\' {
            assert(unsafe_in_name(s@[i as int]));
            return Err("tag_separator contains unsafe filename characters".to_owned());
        }
        i += 1;
    }
    Ok(())
}

/// A member that has to be a non-empty string of limited length.
pub open spec fn required_text(doc: JsonTree, key: Seq<char>, max: int) -> Result<
    Seq<char>,
    Seq<char>,
> {
    match doc.get(key) {
        Some(JsonTree::Text(s)) => {
            let v = trimmed(s);
            if v.len() == 0 {
                Err(key + " cannot be empty"@)
            } else if v.len() > max {
                Err(key + " is too long"@)
            } else if has_control(v) {
                Err(key + " cannot contain control characters"@)
            } else {
                Ok(v)
            }
        },
        _ => Err(key + " must be a string"@),
    }
}

/// A member that may be missing, and else is a string of limited length.
pub open spec fn optional_text(
    doc: JsonTree,
    key: Seq<char>,
    default: Seq<char>,
    max: int,
) -> Result<Seq<char>, Seq<char>> {
    match doc.get(key) {
        None => Ok(default),
        Some(JsonTree::Text(s)) => {
            let v = trimmed(s);
            if v.len() > max {
                Err(key + " is too long"@)
            } else if has_control(v) {
                Err(key + " cannot contain control characters"@)
            } else {
                Ok(v)
            }
        },
        Some(_) => Err(key + " must be a string"@),
    }
}

/// A message about a member.
fn about(key: &str, rest: &str) -> (r: String)
    ensures
        r@ == key@ + rest@,
{
    let mut out = key.to_owned();
    out.append(rest);
    out
}

/// A member that has to be a non-empty string of limited length.
pub fn required_string(object: &Json, key: &str, max_len: usize) -> (r: Result<String, String>)
    ensures
        agrees(r, required_text(object.tree(), key@, max_len as int)),
{
    match object.get(key) {
        Some(found) => match found.as_text() {
            Some(s) => {
                let v = trim_text(s);
                if v.len() == 0 {
                    Err(about(key, " cannot be empty"))
                } else if v.len() > max_len {
                    Err(about(key, " is too long"))
                } else if any_control(&v) {
                    Err(about(key, " cannot contain control characters"))
                } else {
                    Ok(text_of(&v))
                }
            },
            None => Err(about(key, " must be a string")),
        },
        None => Err(about(key, " must be a string")),
    }
}

/// A member that may be missing, and else is a string of limited length.
pub fn optional_string(object: &Json, key: &str, default: &str, max_len: usize) -> (r: Result<
    String,
    String,
>)
    ensures
        agrees(r, optional_text(object.tree(), key@, default@, max_len as int)),
{
    match object.get(key) {
        Some(found) => match found.as_text() {
            Some(s) => {
                let v = trim_text(s);
                if v.len() > max_len {
                    Err(about(key, " is too long"))
                } else if any_control(&v) {
                    Err(about(key, " cannot contain control characters"))
                } else {
                    Ok(text_of(&v))
                }
            },
            None => Err(about(key, " must be a string")),
        },
        None => Ok(default.to_owned()),
    }
}

/// The date format of a name.
pub open spec fn date_format_named(name: Seq<char>) -> Option<DateFormat> {
    if name == "iso"@ {
        Some(DateFormat::Iso)
    } else if name == "compact"@ {
        Some(DateFormat::Compact)
    } else if name == "year_month"@ {
        Some(DateFormat::YearMonth)
    } else {
        None
    }
}

/// The date format of a name.
fn find_date_format(name: &str) -> (r: Option<DateFormat>)
    ensures
        r == date_format_named(name@),
{
    if same_text(name, "iso") {
        Some(DateFormat::Iso)
    } else if same_text(name, "compact") {
        Some(DateFormat::Compact)
    } else if same_text(name, "year_month") {
        Some(DateFormat::YearMonth)
    } else {
        None
    }
}

/// The collision strategy of a name.
pub open spec fn strategy_named(name: Seq<char>) -> Option<CollisionStrategy> {
    if name == "reject"@ {
        Some(CollisionStrategy::Reject)
    } else if name == "suffix"@ {
        Some(CollisionStrategy::Suffix)
    } else if name == "merge"@ {
        Some(CollisionStrategy::Merge)
    } else {
        None
    }
}

/// The collision strategy of a name.
fn find_strategy(name: &str) -> (r: Option<CollisionStrategy>)
    ensures
        r == strategy_named(name@),
{
    if same_text(name, "reject") {
        Some(CollisionStrategy::Reject)
    } else if same_text(name, "suffix") {
        Some(CollisionStrategy::Suffix)
    } else if same_text(name, "merge") {
        Some(CollisionStrategy::Merge)
    } else {
        None
    }
}

/// The collision strategy of a profile document, under its present or one of
/// its former names.
pub open spec fn chosen_strategy(doc: JsonTree) -> Result<CollisionStrategy, Seq<char>> {
    let given = or_else(
        doc.get("collision_strategy"@),
        or_else(doc.get("conflict_strategy"@), doc.get("collision"@)),
    );
    match given {
        None => Ok(CollisionStrategy::Suffix),
        Some(JsonTree::Text(s)) => {
            let v = trimmed(s);
            if v.len() > 32 || has_control(v) {
                Err("collision_strategy is invalid"@)
            } else {
                match strategy_named(v) {
                    Some(strategy) => Ok(strategy),
                    None => Err("collision_strategy must be reject, suffix, or merge"@),
                }
            }
        },
        Some(_) => Err("collision_strategy must be a string"@),
    }
}

/// The collision strategy of a profile document.
fn choose_strategy(object: &Json) -> (r: Result<CollisionStrategy, String>)
    ensures
        match (r, chosen_strategy(object.tree())) {
            (Ok(a), Ok(b)) => a == b,
            (Err(a), Err(b)) => a@ == b,
            _ => false,
        },
{
    let given = match object.get("collision_strategy") {
        Some(found) => Some(found),
        None => match object.get("conflict_strategy") {
            Some(found) => Some(found),
            None => object.get("collision"),
        },
    };
    match given {
        None => Ok(CollisionStrategy::Suffix),
        Some(found) => match found.as_text() {
            None => Err("collision_strategy must be a string".to_owned()),
            Some(s) => {
                let v = trim_text(s);
                if v.len() > 32 || any_control(&v) {
                    Err("collision_strategy is invalid".to_owned())
                } else {
                    match find_strategy(&text_of(&v)) {
                        Some(strategy) => Ok(strategy),
                        None => Err(
                            "collision_strategy must be reject, suffix, or merge".to_owned(),
                        ),
                    }
                }
            },
        },
    }
}

/// The outcome of validating a profile document. Members are checked in the
/// order in which they stand here; members of other names are dropped.
pub open spec fn normalized_profile(doc: JsonTree) -> Result<ProfileView, Seq<char>> {
    if !(doc is Object) {
        Err("archive format profile must be an object"@)
    } else {
        match required_text(doc, "id"@, 64) {
            Err(e) => Err(e),
            Ok(id) => if !profile_id(id) {
                Err("profile id must use ASCII letters, numbers, underscore, or hyphen"@)
            } else {
                match required_text(doc, "name"@, MAX_PROFILE_NAME_LEN as int) {
                    Err(e) => Err(e),
                    Ok(name) => match required_text(doc, "template"@, MAX_TEMPLATE_LEN as int) {
                        Err(e) => Err(e),
                        Ok(template) => match checked_template(template) {
                            Err(e) => Err(e),
                            Ok(_) => normalized_values(doc, id, name, template),
                        },
                    },
                }
            },
        }
    }
}

/// The part of [`normalized_profile`] behind the template.
pub open spec fn normalized_values(
    doc: JsonTree,
    id: Seq<char>,
    name: Seq<char>,
    template: Seq<char>,
) -> Result<ProfileView, Seq<char>> {
    match optional_text(doc, "empty_value"@, "untitled"@, 80) {
        Err(e) => Err(e),
        Ok(empty) => match optional_text(doc, "tag_separator"@, "&"@, 32) {
            Err(e) => Err(e),
            Ok(tag_separator) => if bad_separator(tag_separator) {
                Err("tag_separator contains unsafe filename characters"@)
            } else {
                match optional_text(doc, "date_format"@, "iso"@, 32) {
                    Err(e) => Err(e),
                    Ok(format) => match date_format_named(format) {
                        None => Err("date_format must be iso, compact, or year_month"@),
                        Some(date_format) => match chosen_strategy(doc) {
                            Err(e) => Err(e),
                            Ok(collision_strategy) => Ok(
                                ProfileView {
                                    id,
                                    name,
                                    template,
                                    empty_value: sanitized(empty, "untitled"@),
                                    tag_separator,
                                    date_format,
                                    collision_strategy,
                                },
                            ),
                        },
                    },
                }
            },
        },
    }
}

/// Validates a profile document.
pub fn normalize_profile(input: &Json) -> (r: Result<Profile, String>)
    ensures
        agrees(r, normalized_profile(input.tree())),
{
    match input {
        Json::Object(_) => {},
        _ => {
            return Err("archive format profile must be an object".to_owned());
        },
    }
    let id = match required_string(input, "id", 64) {
        Ok(v) => v,
        Err(e) => {
            return Err(e);
        },
    };
    match validate_profile_id(&id) {
        Ok(_) => {},
        Err(e) => {
            return Err(e);
        },
    }
    let name = match required_string(input, "name", MAX_PROFILE_NAME_LEN) {
        Ok(v) => v,
        Err(e) => {
            return Err(e);
        },
    };
    let template = match required_string(input, "template", MAX_TEMPLATE_LEN) {
        Ok(v) => v,
        Err(e) => {
            return Err(e);
        },
    };
    match validate_template(&template) {
        Ok(_) => {},
        Err(e) => {
            return Err(e);
        },
    }
    let empty = match optional_string(input, "empty_value", "untitled", 80) {
        Ok(v) => v,
        Err(e) => {
            return Err(e);
        },
    };
    let tag_separator = match optional_string(input, "tag_separator", "&", 32) {
        Ok(v) => v,
        Err(e) => {
            return Err(e);
        },
    };
    match validate_tag_separator(&tag_separator) {
        Ok(_) => {},
        Err(e) => {
            return Err(e);
        },
    }
    let format = match optional_string(input, "date_format", "iso", 32) {
        Ok(v) => v,
        Err(e) => {
            return Err(e);
        },
    };
    let date_format = match find_date_format(&format) {
        Some(v) => v,
        None => {
            return Err("date_format must be iso, compact, or year_month".to_owned());
        },
    };
    let collision_strategy = match choose_strategy(input) {
        Ok(v) => v,
        Err(e) => {
            return Err(e);
        },
    };
    let empty_value = sanitize_token_value(&empty, "untitled");
    Ok(
        Profile {
            id,
            name,
            template,
            empty_value,
            tag_separator,
            date_format,
            collision_strategy,
        },
    )
}


/// The profiles and which of them is used for whom.
#[derive(Debug)]
pub struct Settings {
    /// The profile of every artist without a choice of their own.
    pub active_profile_id: String,
    /// The profiles.
    pub profiles: Vec<Profile>,
    /// The artists with a profile of their own, each once.
    pub artist_profile_ids: Vec<(i64, String)>,
}

/// The value of [`Settings`].
pub struct SettingsView {
    /// The profile of every artist without a choice of their own.
    pub active_profile_id: Seq<char>,
    /// The profiles.
    pub profiles: Seq<ProfileView>,
    /// The profiles of the artists with a choice of their own.
    pub artist_profile_ids: Map<int, Seq<char>>,
}

/// The values of profiles.
pub open spec fn profile_views(profiles: Seq<Profile>) -> Seq<ProfileView> {
    profiles.map_values(|p: Profile| p@)
}

/// The choices that a list of pairs makes; a later pair counts before an
/// earlier one.
pub open spec fn choices(pairs: Seq<(i64, String)>) -> Map<int, Seq<char>>
    decreases pairs.len(),
{
    if pairs.len() == 0 {
        Map::empty()
    } else {
        choices(pairs.drop_last()).insert(pairs.last().0 as int, pairs.last().1@)
    }
}

/// Whether no artist stands twice in a list of choices.
pub open spec fn each_once(pairs: Seq<(i64, String)>) -> bool {
    forall|i: int, j: int| 0 <= i < j < pairs.len() ==> #[trigger] pairs[i].0 != #[trigger] pairs[j].0
}

impl View for Settings {
    type V = SettingsView;

    open spec fn view(&self) -> SettingsView {
        SettingsView {
            active_profile_id: self.active_profile_id@,
            profiles: profile_views(self.profiles@),
            artist_profile_ids: choices(self.artist_profile_ids@),
        }
    }
}

/// Whether one of the profiles has the given id.
pub open spec fn has_profile(profiles: Seq<ProfileView>, id: Seq<char>) -> bool {
    exists|i: int| 0 <= i < profiles.len() && (#[trigger] profiles[i]).id == id
}

/// The first profile with the given id.
pub open spec fn profile_with_id(profiles: Seq<ProfileView>, id: Seq<char>) -> Option<ProfileView>
    decreases profiles.len(),
{
    if profiles.len() == 0 {
        None
    } else if profiles[0].id == id {
        Some(profiles[0])
    } else {
        profile_with_id(profiles.skip(1), id)
    }
}

/// The first profile with the given id.
fn find_profile<'a>(profiles: &'a [Profile], id: &str) -> (r: Option<&'a Profile>)
    ensures
        match r {
            Some(p) => profile_with_id(profile_views(profiles@), id@) == Some(p@),
            None => profile_with_id(profile_views(profiles@), id@) is None,
        },
        r is Some <==> has_profile(profile_views(profiles@), id@),
{
    let ghost all = profile_views(profiles@);
    let mut i: usize = 0;
    assert(all.skip(0) =~= all);
    while i < profiles.len()
        invariant
            i <= profiles@.len(),
            all == profile_views(profiles@),
            profile_with_id(all.skip(i as int), id@) == profile_with_id(all, id@),
            forall|j: int| 0 <= j < i ==> (#[trigger] all[j]).id != id@,
        decreases profiles@.len() - i,
    {
        let ghost rest = all.skip(i as int);
        assert(rest[0] == profiles@[i as int]@);
        if same_text(&profiles[i].id, id) {
            assert(all[i as int].id == id@);
            return Some(&profiles[i]);
        }
        assert(rest.skip(1) =~= all.skip(i as int + 1));
        i += 1;
    }
    assert(all.skip(i as int).len() == 0);
    None
}

/// The outcome of validating the profiles in order; an id may not occur twice.
pub open spec fn normalized_profiles(docs: Seq<JsonTree>) -> Result<Seq<ProfileView>, Seq<char>>
    decreases docs.len(),
{
    if docs.len() == 0 {
        Ok(Seq::empty())
    } else {
        match normalized_profiles(docs.drop_last()) {
            Err(e) => Err(e),
            Ok(before) => match normalized_profile(docs.last()) {
                Err(e) => Err(e),
                Ok(p) => if has_profile(before, p.id) {
                    Err("duplicate archive format profile id: "@ + p.id)
                } else {
                    Ok(before.push(p))
                },
            },
        }
    }
}

/// The values of documents.
pub open spec fn trees(docs: Seq<Json>) -> Seq<JsonTree> {
    docs.map_values(|d: Json| d.tree())
}

/// The outcome of validating profiles agrees with its specification.
pub open spec fn profiles_agree(
    r: Result<Vec<Profile>, String>,
    s: Result<Seq<ProfileView>, Seq<char>>,
) -> bool {
    match (r, s) {
        (Ok(a), Ok(b)) => profile_views(a@) == b,
        (Err(a), Err(b)) => a@ == b,
        _ => false,
    }
}

/// A refusal of the first profiles is the refusal of all.
proof fn lemma_profiles_fail(docs: Seq<JsonTree>, n: int)
    requires
        0 <= n <= docs.len(),
        normalized_profiles(docs.take(n)) is Err,
    ensures
        normalized_profiles(docs) == normalized_profiles(docs.take(n)),
    decreases docs.len(),
{
    if n == docs.len() {
        assert(docs.take(n) =~= docs);
    } else {
        assert(docs.drop_last().take(n) =~= docs.take(n));
        lemma_profiles_fail(docs.drop_last(), n);
    }
}

/// Validates the profiles in order.
fn normalize_profiles(docs: &[Json]) -> (r: Result<Vec<Profile>, String>)
    ensures
        profiles_agree(r, normalized_profiles(trees(docs@))),
{
    let ghost all = trees(docs@);
    let mut profiles: Vec<Profile> = Vec::new();
    let mut i: usize = 0;
    assert(profile_views(profiles@) =~= Seq::<ProfileView>::empty());
    while i < docs.len()
        invariant
            i <= docs@.len(),
            all == trees(docs@),
            normalized_profiles(all.take(i as int)) == Ok::<Seq<ProfileView>, Seq<char>>(
                profile_views(profiles@),
            ),
        decreases docs@.len() - i,
    {
        let ghost now = all.take(i as int + 1);
        assert(now.drop_last() =~= all.take(i as int));
        assert(now.last() == docs@[i as int].tree());
        match normalize_profile(&docs[i]) {
            Err(e) => {
                proof {
                    lemma_profiles_fail(all, i as int + 1);
                }
                return Err(e);
            },
            Ok(p) => {
                match find_profile(&profiles, &p.id) {
                    Some(_) => {
                        proof {
                            lemma_profiles_fail(all, i as int + 1);
                        }
                        return Err(about("duplicate archive format profile id: ", &p.id));
                    },
                    None => {},
                }
                let ghost before = profiles@;
                profiles.push(p);
                assert(profile_views(profiles@) =~= profile_views(before).push(p@));
            },
        }
        i += 1;
    }
    assert(all.take(all.len() as int) =~= all);
    Ok(profiles)
}

/// The outcome of validating the artists' choices in order.
pub open spec fn normalized_choices(
    members: Seq<(Seq<char>, JsonTree)>,
    profiles: Seq<ProfileView>,
) -> Result<Map<int, Seq<char>>, Seq<char>>
    decreases members.len(),
{
    if members.len() == 0 {
        Ok(Map::empty())
    } else {
        match normalized_choices(members.drop_last(), profiles) {
            Err(e) => Err(e),
            Ok(before) => match parsed_within(members.last().0, true, 1, i64::MAX as int) {
                None => Err("artist profile selection has an invalid artist id"@),
                Some(artist) => match members.last().1 {
                    JsonTree::Text(s) => {
                        let id = trimmed(s);
                        if !profile_id(id) {
                            Err(
                                "profile id must use ASCII letters, numbers, underscore, or hyphen"@,
                            )
                        } else if !has_profile(profiles, id) {
                            Err("artist profile selection references an unknown profile"@)
                        } else {
                            Ok(before.insert(artist, id))
                        }
                    },
                    _ => Err("artist profile selection must be a profile id"@),
                },
            },
        }
    }
}

/// A refusal of the first choices is the refusal of all.
proof fn lemma_choices_fail(
    members: Seq<(Seq<char>, JsonTree)>,
    profiles: Seq<ProfileView>,
    n: int,
)
    requires
        0 <= n <= members.len(),
        normalized_choices(members.take(n), profiles) is Err,
    ensures
        normalized_choices(members, profiles) == normalized_choices(members.take(n), profiles),
    decreases members.len(),
{
    if n == members.len() {
        assert(members.take(n) =~= members);
    } else {
        assert(members.drop_last().take(n) =~= members.take(n));
        lemma_choices_fail(members.drop_last(), profiles, n);
    }
}

/// Replacing the choice of an artist changes that artist's choice alone.
proof fn lemma_choice_replaced(pairs: Seq<(i64, String)>, i: int, text: String)
    requires
        0 <= i < pairs.len(),
        each_once(pairs),
    ensures
        choices(pairs.update(i, (pairs[i].0, text))) == choices(pairs).insert(
            pairs[i].0 as int,
            text@,
        ),
        each_once(pairs.update(i, (pairs[i].0, text))),
    decreases pairs.len(),
{
    let changed = pairs.update(i, (pairs[i].0, text));
    let d = pairs.drop_last();
    if i == pairs.len() - 1 {
        assert(changed.drop_last() =~= d);
        assert(choices(changed) =~= choices(pairs).insert(pairs[i].0 as int, text@));
    } else {
        assert(each_once(d));
        lemma_choice_replaced(d, i, text);
        assert(changed.drop_last() =~= d.update(i, (d[i].0, text)));
        assert(changed.last() == pairs.last());
        assert(pairs[i].0 != pairs.last().0);
        assert(choices(changed) =~= choices(pairs).insert(pairs[i].0 as int, text@));
    }
}

/// Records the choice of one artist.
fn put_choice(pairs: &mut Vec<(i64, String)>, artist: i64, id: String)
    requires
        each_once(old(pairs)@),
    ensures
        each_once(final(pairs)@),
        choices(final(pairs)@) == choices(old(pairs)@).insert(artist as int, id@),
{
    let mut i: usize = 0;
    while i < pairs.len()
        invariant
            i <= pairs@.len(),
            pairs@ == old(pairs)@,
            each_once(pairs@),
            forall|j: int| 0 <= j < i ==> (#[trigger] pairs@[j]).0 != artist,
        decreases pairs@.len() - i,
    {
        if pairs[i].0 == artist {
            proof {
                lemma_choice_replaced(pairs@, i as int, id);
            }
            pairs.set(i, (artist, id));
            return;
        }
        i += 1;
    }
    let ghost before = pairs@;
    pairs.push((artist, id));
    assert(pairs@.drop_last() =~= before);
}

/// The outcome of validating the choices agrees with its specification.
pub open spec fn choices_agree(
    r: Result<Vec<(i64, String)>, String>,
    s: Result<Map<int, Seq<char>>, Seq<char>>,
) -> bool {
    match (r, s) {
        (Ok(a), Ok(b)) => choices(a@) == b && each_once(a@),
        (Err(a), Err(b)) => a@ == b,
        _ => false,
    }
}

/// Validates the artists' choices in order.
fn normalize_choices(members: &[(String, Json)], profiles: &[Profile]) -> (r: Result<
    Vec<(i64, String)>,
    String,
>)
    ensures
        choices_agree(
            r,
            normalized_choices(member_views(members@), profile_views(profiles@)),
        ),
{
    let ghost all = member_views(members@);
    let ghost views = profile_views(profiles@);
    let mut pairs: Vec<(i64, String)> = Vec::new();
    let mut i: usize = 0;
    while i < members.len()
        invariant
            i <= members@.len(),
            all == member_views(members@),
            views == profile_views(profiles@),
            each_once(pairs@),
            normalized_choices(all.take(i as int), views) == Ok::<Map<int, Seq<char>>, Seq<char>>(
                choices(pairs@),
            ),
        decreases members@.len() - i,
    {
        let ghost now = all.take(i as int + 1);
        assert(now.drop_last() =~= all.take(i as int));
        assert(now.last() == (members@[i as int].0@, members@[i as int].1.tree()));
        proof {
            if normalized_choices(now, views) is Err {
                lemma_choices_fail(all, views, i as int + 1);
            }
        }
        let key = chars_of(&members[i].0);
        let artist: i64 = match read_i64(&key) {
            Some(n) => n,
            None => 0,
        };
        if artist <= 0 {
            return Err("artist profile selection has an invalid artist id".to_owned());
        }
        match members[i].1.as_text() {
            None => {
                return Err("artist profile selection must be a profile id".to_owned());
            },
            Some(s) => {
                let id = text_of(&trim_text(s));
                match validate_profile_id(&id) {
                    Ok(_) => {},
                    Err(e) => {
                        return Err(e);
                    },
                }
                match find_profile(profiles, &id) {
                    None => {
                        return Err(
                            "artist profile selection references an unknown profile".to_owned(),
                        );
                    },
                    Some(_) => {},
                }
                put_choice(&mut pairs, artist, id);
            },
        }
        i += 1;
    }
    assert(all.take(all.len() as int) =~= all);
    Ok(pairs)
}

/// The values of the members of an object.
pub open spec fn member_views(members: Seq<(String, Json)>) -> Seq<(Seq<char>, JsonTree)> {
    members.map_values(|m: (String, Json)| (m.0@, m.1.tree()))
}

/// The version of a settings document.
pub open spec fn settings_version(doc: JsonTree) -> Result<i64, Seq<char>> {
    match doc.get("version"@) {
        None => Ok(SETTINGS_VERSION),
        Some(JsonTree::Int(n)) => Ok(n),
        Some(_) => Err("archive format settings version must be an integer"@),
    }
}

/// The id of the profile that is meant to be active, before it is checked.
pub open spec fn wanted_active(doc: JsonTree) -> Seq<char> {
    match or_else(doc.get("active_profile_id"@), doc.get("default_profile_id"@)) {
        Some(JsonTree::Text(s)) => trimmed(s),
        _ => trimmed("default"@),
    }
}

/// The documents of the profiles; without any, the default profile.
pub open spec fn profile_docs(doc: JsonTree) -> Option<Seq<JsonTree>> {
    match doc.get("profiles"@) {
        None => Some(seq![profile_tree(default_profile_view())]),
        Some(JsonTree::Array(docs)) => Some(docs),
        Some(_) => None,
    }
}

/// The members that choose profiles for artists, under their present or one of
/// their former names.
pub open spec fn choice_members(doc: JsonTree) -> Option<Seq<(Seq<char>, JsonTree)>> {
    let given = or_else(
        doc.get("artist_profile_ids"@),
        or_else(doc.get("artist_overrides"@), doc.get("artist_profiles"@)),
    );
    match given {
        None => Some(Seq::empty()),
        Some(JsonTree::Object(members)) => Some(members),
        Some(_) => None,
    }
}

/// The outcome of validating a settings document. Members of other names are
/// dropped, so that a misspelt name cannot change behaviour later.
pub open spec fn normalized_settings(doc: JsonTree) -> Result<SettingsView, Seq<char>> {
    if !(doc is Object) {
        Err("archive format settings must be an object"@)
    } else {
        match settings_version(doc) {
            Err(e) => Err(e),
            Ok(version) => if version != SETTINGS_VERSION {
                Err("unsupported archive format settings version: "@ + decimal_int(version as int))
            } else {
                match profile_docs(doc) {
                    None => Err("profiles must be an array"@),
                    Some(docs) => if docs.len() == 0 {
                        Err("at least one archive format profile is required"@)
                    } else if docs.len() > 64 {
                        Err("too many archive format profiles"@)
                    } else {
                        match normalized_profiles(docs) {
                            Err(e) => Err(e),
                            Ok(profiles) => settled(doc, profiles),
                        }
                    },
                }
            },
        }
    }
}

/// The part of [`normalized_settings`] behind the profiles.
pub open spec fn settled(doc: JsonTree, profiles: Seq<ProfileView>) -> Result<
    SettingsView,
    Seq<char>,
> {
    let active = wanted_active(doc);
    if !profile_id(active) {
        Err("profile id must use ASCII letters, numbers, underscore, or hyphen"@)
    } else if !has_profile(profiles, active) {
        Err("active_profile_id does not reference a profile"@)
    } else {
        match choice_members(doc) {
            None => Err("artist_profile_ids must be an object"@),
            Some(members) => match normalized_choices(members, profiles) {
                Err(e) => Err(e),
                Ok(artists) => Ok(
                    SettingsView {
                        active_profile_id: active,
                        profiles,
                        artist_profile_ids: artists,
                    },
                ),
            },
        }
    }
}

/// Checks the version of a settings document.
fn check_version(input: &Json) -> (r: Result<(), String>)
    ensures
        match r {
            Ok(_) => settings_version(input.tree()) == Ok::<i64, Seq<char>>(SETTINGS_VERSION),
            Err(e) => match settings_version(input.tree()) {
                Ok(version) => version != SETTINGS_VERSION && e@
                    == "unsupported archive format settings version: "@ + decimal_int(
                    version as int,
                ),
                Err(m) => e@ == m,
            },
        },
{
    match input.get("version") {
        None => Ok(()),
        Some(found) => match found {
            Json::Int(n) => if *n == SETTINGS_VERSION {
                Ok(())
            } else {
                Err(
                    about(
                        "unsupported archive format settings version: ",
                        &decimal_int_text(*n),
                    ),
                )
            },
            _ => Err("archive format settings version must be an integer".to_owned()),
        },
    }
}

/// Reads and validates the profiles of a settings document.
fn read_profiles(input: &Json) -> (r: Result<Vec<Profile>, String>)
    ensures
        match profile_docs(input.tree()) {
            None => r is Err && r->Err_0@ == "profiles must be an array"@,
            Some(docs) => if docs.len() == 0 {
                r is Err && r->Err_0@ == "at least one archive format profile is required"@
            } else if docs.len() > 64 {
                r is Err && r->Err_0@ == "too many archive format profiles"@
            } else {
                profiles_agree(r, normalized_profiles(docs))
            },
        },
{
    match input.get("profiles") {
        None => {
            let doc = default_profile().to_json();
            let mut docs: Vec<Json> = Vec::new();
            docs.push(doc);
            assert(trees(docs@) =~= seq![profile_tree(default_profile_view())]);
            normalize_profiles(&docs)
        },
        Some(found) => match found {
            Json::Array(docs) => {
                assert(trees(docs@) =~= found.tree()->Array_0);
                if docs.len() == 0 {
                    Err("at least one archive format profile is required".to_owned())
                } else if docs.len() > 64 {
                    Err("too many archive format profiles".to_owned())
                } else {
                    normalize_profiles(docs)
                }
            },
            _ => Err("profiles must be an array".to_owned()),
        },
    }
}

/// The id of the profile that is meant to be active.
fn read_active(input: &Json) -> (r: String)
    ensures
        r@ == wanted_active(input.tree()),
{
    let given = match input.get("active_profile_id") {
        Some(found) => Some(found),
        None => input.get("default_profile_id"),
    };
    match given {
        Some(found) => match found.as_text() {
            Some(s) => text_of(&trim_text(s)),
            None => text_of(&trim_text("default")),
        },
        None => text_of(&trim_text("default")),
    }
}

/// Reads and validates the artists' choices of a settings document.
fn read_choices(input: &Json, profiles: &[Profile]) -> (r: Result<Vec<(i64, String)>, String>)
    ensures
        match choice_members(input.tree()) {
            None => r is Err && r->Err_0@ == "artist_profile_ids must be an object"@,
            Some(members) => choices_agree(
                r,
                normalized_choices(members, profile_views(profiles@)),
            ),
        },
{
    let given = match input.get("artist_profile_ids") {
        Some(found) => Some(found),
        None => match input.get("artist_overrides") {
            Some(found) => Some(found),
            None => input.get("artist_profiles"),
        },
    };
    match given {
        None => {
            let none: Vec<(i64, String)> = Vec::new();
            Ok(none)
        },
        Some(found) => match found {
            Json::Object(members) => {
                assert(member_views(members@) =~= found.tree()->Object_0);
                normalize_choices(members, profiles)
            },
            _ => Err("artist_profile_ids must be an object".to_owned()),
        },
    }
}

/// Validates a settings document before it is stored.
pub fn normalize_settings(input: &Json) -> (r: Result<Settings, String>)
    ensures
        agrees(r, normalized_settings(input.tree())),
        r matches Ok(s) ==> each_once(s.artist_profile_ids@),
{
    match input {
        Json::Object(_) => {},
        _ => {
            return Err("archive format settings must be an object".to_owned());
        },
    }
    match check_version(input) {
        Ok(_) => {},
        Err(e) => {
            return Err(e);
        },
    }
    let profiles = match read_profiles(input) {
        Ok(v) => v,
        Err(e) => {
            return Err(e);
        },
    };
    let active_profile_id = read_active(input);
    match validate_profile_id(&active_profile_id) {
        Ok(_) => {},
        Err(e) => {
            return Err(e);
        },
    }
    match find_profile(&profiles, &active_profile_id) {
        Some(_) => {},
        None => {
            return Err("active_profile_id does not reference a profile".to_owned());
        },
    }
    let artist_profile_ids = match read_choices(input, &profiles) {
        Ok(v) => v,
        Err(e) => {
            return Err(e);
        },
    };
    Ok(Settings { active_profile_id, profiles, artist_profile_ids })
}


/// Where the effective profile comes from.
#[derive(Clone, Copy, PartialEq, Eq, Debug, Structural)]
pub enum ProfileSource {
    /// The artist's own choice.
    Artist,
    /// The active profile.
    Global,
}

impl ProfileSource {
    /// The name in an answer.
    pub fn name(self) -> (r: &'static str)
        ensures
            r@ == self.spelled(),
    {
        match self {
            ProfileSource::Artist => "artist",
            ProfileSource::Global => "global",
        }
    }

    /// The name in an answer.
    pub open spec fn spelled(self) -> Seq<char> {
        match self {
            ProfileSource::Artist => "artist"@,
            ProfileSource::Global => "global"@,
        }
    }
}

/// The document of settings; `default_profile_id` repeats the active id for
/// readers of the former name.
pub open spec fn settings_tree(
    active: Seq<char>,
    profiles: Seq<ProfileView>,
    pairs: Seq<(i64, String)>,
) -> JsonTree {
    JsonTree::Object(
        seq![
            ("version"@, JsonTree::Int(SETTINGS_VERSION)),
            ("active_profile_id"@, text_tree(active)),
            ("default_profile_id"@, text_tree(active)),
            (
                "profiles"@,
                JsonTree::Array(profiles.map_values(|p: ProfileView| profile_tree(p))),
            ),
            (
                "artist_profile_ids"@,
                JsonTree::Object(
                    pairs.map_values(
                        |c: (i64, String)| (decimal_int(c.0 as int), text_tree(c.1@)),
                    ),
                ),
            ),
        ],
    )
}

/// The settings that are there before anything is configured.
pub open spec fn default_settings_view() -> SettingsView {
    SettingsView {
        active_profile_id: "default"@,
        profiles: seq![default_profile_view()],
        artist_profile_ids: Map::empty(),
    }
}

/// The settings that are there before anything is configured.
pub fn default_settings() -> (r: Settings)
    ensures
        r@ == default_settings_view(),
        each_once(r.artist_profile_ids@),
{
    let mut profiles: Vec<Profile> = Vec::new();
    profiles.push(default_profile());
    let none: Vec<(i64, String)> = Vec::new();
    let r = Settings {
        active_profile_id: "default".to_owned(),
        profiles,
        artist_profile_ids: none,
    };
    assert(r@.profiles =~= seq![default_profile_view()]);
    r
}

impl Settings {
    /// The settings as a document.
    pub fn to_json(&self) -> (r: Json)
        ensures
            r.tree() == settings_tree(
                self.active_profile_id@,
                profile_views(self.profiles@),
                self.artist_profile_ids@,
            ),
    {
        let mut docs: Vec<Json> = Vec::new();
        let mut i: usize = 0;
        while i < self.profiles.len()
            invariant
                i <= self.profiles@.len(),
                docs@.len() == i,
                forall|j: int|
                    0 <= j < i ==> (#[trigger] docs@[j]).tree() == profile_tree(self.profiles@[j]@),
            decreases self.profiles@.len() - i,
        {
            docs.push(self.profiles[i].to_json());
            i += 1;
        }
        let mut chosen: Vec<(String, Json)> = Vec::new();
        let mut k: usize = 0;
        while k < self.artist_profile_ids.len()
            invariant
                k <= self.artist_profile_ids@.len(),
                chosen@.len() == k,
                forall|j: int|
                    0 <= j < k ==> (#[trigger] chosen@[j]).0@ == decimal_int(
                        self.artist_profile_ids@[j].0 as int,
                    ) && chosen@[j].1.tree() == text_tree(self.artist_profile_ids@[j].1@),
            decreases self.artist_profile_ids@.len() - k,
        {
            let key = decimal_int_text(self.artist_profile_ids[k].0);
            chosen.push(text_member(&key, &self.artist_profile_ids[k].1));
            k += 1;
        }
        let ghost views = profile_views(self.profiles@);
        let profiles_doc = Json::Array(docs);
        assert(profiles_doc.tree()->Array_0 =~= views.map_values(|p: ProfileView| profile_tree(p)));
        let artists_doc = Json::Object(chosen);
        assert(artists_doc.tree()->Object_0 =~= self.artist_profile_ids@.map_values(
            |c: (i64, String)| (decimal_int(c.0 as int), text_tree(c.1@)),
        ));
        let mut members: Vec<(String, Json)> = Vec::new();
        let version_doc = Json::Int(SETTINGS_VERSION);
        assert(version_doc.tree() == JsonTree::Int(SETTINGS_VERSION));
        members.push(("version".to_owned(), version_doc));
        members.push(text_member("active_profile_id", &self.active_profile_id));
        members.push(text_member("default_profile_id", &self.active_profile_id));
        members.push(("profiles".to_owned(), profiles_doc));
        members.push(("artist_profile_ids".to_owned(), artists_doc));
        let r = Json::Object(members);
        assert(r.tree()->Object_0 =~= settings_tree(
            self.active_profile_id@,
            views,
            self.artist_profile_ids@,
        )->Object_0);
        r
    }
}

/// The profile that settings give an artist, and where it comes from.
pub open spec fn effective_profile(s: SettingsView, artist_id: int) -> Option<
    (ProfileView, ProfileSource),
> {
    let own = s.artist_profile_ids.dom().contains(artist_id);
    let id = if own {
        s.artist_profile_ids[artist_id]
    } else {
        s.active_profile_id
    };
    match profile_with_id(s.profiles, id) {
        Some(p) => Some(
            (
                p,
                if own {
                    ProfileSource::Artist
                } else {
                    ProfileSource::Global
                },
            ),
        ),
        None => None,
    }
}

/// The outcome of looking up an artist's profile in a settings document.
pub open spec fn profile_for(doc: JsonTree, artist_id: int) -> Result<
    (ProfileView, ProfileSource),
    Seq<char>,
> {
    match normalized_settings(doc) {
        Err(e) => Err(e),
        Ok(s) => match effective_profile(s, artist_id) {
            Some(found) => Ok(found),
            None => Err("archive format profile is not configured"@),
        },
    }
}

/// An outcome with a source agrees with its specification.
pub open spec fn sourced_agree(
    r: Result<(Profile, ProfileSource), String>,
    s: Result<(ProfileView, ProfileSource), Seq<char>>,
) -> bool {
    match (r, s) {
        (Ok(a), Ok(b)) => a.0@ == b.0 && a.1 == b.1,
        (Err(a), Err(b)) => a@ == b,
        _ => false,
    }
}

/// The position of an artist's choice.
fn find_choice(pairs: &[(i64, String)], artist_id: i64) -> (r: Option<usize>)
    requires
        each_once(pairs@),
    ensures
        match r {
            Some(i) => i < pairs@.len() && choices(pairs@).dom().contains(artist_id as int)
                && choices(pairs@)[artist_id as int] == pairs@[i as int].1@,
            None => !choices(pairs@).dom().contains(artist_id as int),
        },
{
    let mut i: usize = 0;
    assert(pairs@.take(0) =~= Seq::<(i64, String)>::empty());
    while i < pairs.len()
        invariant
            i <= pairs@.len(),
            each_once(pairs@),
            !choices(pairs@.take(i as int)).dom().contains(artist_id as int),
        decreases pairs@.len() - i,
    {
        let ghost now = pairs@.take(i as int + 1);
        assert(now.drop_last() =~= pairs@.take(i as int));
        if pairs[i].0 == artist_id {
            proof {
                lemma_choice_found(pairs@, i as int);
            }
            return Some(i);
        }
        i += 1;
    }
    assert(pairs@.take(pairs@.len() as int) =~= pairs@);
    None
}

/// Where every artist stands once, the pair of an artist is that artist's choice.
pub(crate) proof fn lemma_choice_found(pairs: Seq<(i64, String)>, i: int)
    requires
        0 <= i < pairs.len(),
        each_once(pairs),
    ensures
        choices(pairs).dom().contains(pairs[i].0 as int),
        choices(pairs)[pairs[i].0 as int] == pairs[i].1@,
    decreases pairs.len(),
{
    if i < pairs.len() - 1 {
        let d = pairs.drop_last();
        assert(each_once(d));
        lemma_choice_found(d, i);
        assert(pairs[i].0 != pairs.last().0);
    }
}

/// The profile that a settings document gives an artist.
pub fn profile_for_artist(settings: &Json, artist_id: i64) -> (r: Result<
    (Profile, ProfileSource),
    String,
>)
    ensures
        sourced_agree(r, profile_for(settings.tree(), artist_id as int)),
{
    let s = match normalize_settings(settings) {
        Ok(s) => s,
        Err(e) => {
            return Err(e);
        },
    };
    let (id, source) = match find_choice(&s.artist_profile_ids, artist_id) {
        Some(i) => (s.artist_profile_ids[i].1.clone(), ProfileSource::Artist),
        None => (s.active_profile_id.clone(), ProfileSource::Global),
    };
    match find_profile(&s.profiles, &id) {
        Some(p) => Ok((p.duplicate(), source)),
        None => Err("archive format profile is not configured".to_owned()),
    }
}

/// The outcome of looking up a profile by its id in a settings document.
pub open spec fn named_profile(doc: JsonTree, id: Seq<char>) -> Result<ProfileView, Seq<char>> {
    match normalized_settings(doc) {
        Err(e) => Err(e),
        Ok(s) => if !profile_id(trimmed(id)) {
            Err("profile id must use ASCII letters, numbers, underscore, or hyphen"@)
        } else {
            match profile_with_id(s.profiles, trimmed(id)) {
                Some(p) => Ok(p),
                None => Err("archive format profile not found: "@ + trimmed(id)),
            }
        },
    }
}

/// The profile with the given id in a settings document.
pub fn profile_by_id(settings: &Json, profile_id: &str) -> (r: Result<Profile, String>)
    ensures
        agrees(r, named_profile(settings.tree(), profile_id@)),
{
    let s = match normalize_settings(settings) {
        Ok(s) => s,
        Err(e) => {
            return Err(e);
        },
    };
    let id = text_of(&trim_text(profile_id));
    match validate_profile_id(&id) {
        Ok(_) => {},
        Err(e) => {
            return Err(e);
        },
    }
    match find_profile(&s.profiles, &id) {
        Some(p) => Ok(p.duplicate()),
        None => Err(about("archive format profile not found: ", &id)),
    }
}

/// The settings as they are shown, with the profile that is in effect.
#[derive(Debug)]
pub struct SettingsResponse {
    /// The validated settings.
    pub settings: Settings,
    /// The artist that was asked for.
    pub artist_id: Option<i64>,
    /// The profile in effect.
    pub effective_profile: Profile,
    /// Where it comes from.
    pub profile_source: ProfileSource,
    /// The tokens that a template may use.
    pub tokens: Vec<Token>,
}

/// Whether an answer shows the settings of a document and the profile in effect,
/// for one artist or in general. The profile is looked up in the document of the
/// validated settings.
pub open spec fn responds(
    r: Result<SettingsResponse, String>,
    settings: JsonTree,
    artist_id: Option<i64>,
) -> bool {
    match normalized_settings(settings) {
        Err(e) => r is Err && r->Err_0@ == e,
        Ok(s) => exists|pairs: Seq<(i64, String)>|
            each_once(pairs) && #[trigger] choices(pairs) == s.artist_profile_ids && {
                let doc = settings_tree(s.active_profile_id, s.profiles, pairs);
                let found = match artist_id {
                    Some(artist) => profile_for(doc, artist as int),
                    None => match named_profile(doc, s.active_profile_id) {
                        Ok(p) => Ok((p, ProfileSource::Global)),
                        Err(e) => Err(e),
                    },
                };
                match (r, found) {
                    (Ok(a), Ok(b)) => a.settings@ == s && a.artist_id == artist_id
                        && a.effective_profile@ == b.0 && a.profile_source == b.1 && a.tokens@
                        == seq![
                        Token::Artist,
                        Token::Date,
                        Token::Year,
                        Token::Month,
                        Token::Tags,
                        Token::Title,
                        Token::Folder,
                        Token::Index,
                    ],
                    (Err(a), Err(b)) => a@ == b,
                    _ => false,
                }
            },
    }
}

/// Shows the settings and the profile in effect, for one artist or in general.
pub fn settings_response(settings: &Json, artist_id: Option<i64>) -> (r: Result<
    SettingsResponse,
    String,
>)
    ensures
        responds(r, settings.tree(), artist_id),
{
    let s = match normalize_settings(settings) {
        Ok(s) => s,
        Err(e) => {
            return Err(e);
        },
    };
    let doc = s.to_json();
    let ghost pairs = s.artist_profile_ids@;
    assert(choices(pairs) == s@.artist_profile_ids);
    let (effective_profile, profile_source) = match artist_id {
        Some(artist) => match profile_for_artist(&doc, artist) {
            Ok(found) => found,
            Err(e) => {
                return Err(e);
            },
        },
        None => match profile_by_id(&doc, &s.active_profile_id) {
            Ok(p) => (p, ProfileSource::Global),
            Err(e) => {
                return Err(e);
            },
        },
    };
    Ok(
        SettingsResponse {
            settings: s,
            artist_id,
            effective_profile,
            profile_source,
            tokens: all_tokens(),
        },
    )
}

/// Validated settings never leave an artist without a profile: the active id
/// and every artist's choice name a profile that is there.
pub proof fn validated_settings_resolve(doc: JsonTree, artist_id: int)
    requires
        normalized_settings(doc) is Ok,
    ensures
        profile_for(doc, artist_id) is Ok,
{
    let s = normalized_settings(doc)->Ok_0;
    let members = choice_members(doc)->Some_0;
    lemma_choices_known(members, s.profiles, artist_id);
    let id = if s.artist_profile_ids.dom().contains(artist_id) {
        s.artist_profile_ids[artist_id]
    } else {
        s.active_profile_id
    };
    lemma_profile_there(s.profiles, id);
}

/// Every validated choice names a profile that is there.
proof fn lemma_choices_known(
    members: Seq<(Seq<char>, JsonTree)>,
    profiles: Seq<ProfileView>,
    artist_id: int,
)
    requires
        normalized_choices(members, profiles) is Ok,
    ensures
        ({
            let m = normalized_choices(members, profiles)->Ok_0;
            m.dom().contains(artist_id) ==> has_profile(profiles, m[artist_id])
        }),
    decreases members.len(),
{
    if members.len() > 0 {
        lemma_choices_known(members.drop_last(), profiles, artist_id);
    }
}

/// A profile that is there is found.
proof fn lemma_profile_there(profiles: Seq<ProfileView>, id: Seq<char>)
    requires
        has_profile(profiles, id),
    ensures
        profile_with_id(profiles, id) is Some,
    decreases profiles.len(),
{
    let i = choose|i: int| 0 <= i < profiles.len() && (#[trigger] profiles[i]).id == id;
    if profiles[0].id != id {
        let rest = profiles.skip(1);
        assert(rest[i - 1] == profiles[i]);
        lemma_profile_there(rest, id);
    }
}

/// Validated settings hold between 1 and 64 profiles, no id twice, and every
/// profile has a well-formed id and a template that passes the template check.
pub proof fn validated_settings_are_well_formed(doc: JsonTree)
    requires
        normalized_settings(doc) is Ok,
    ensures
        ({
            let s = normalized_settings(doc)->Ok_0;
            &&& 1 <= s.profiles.len() <= 64
            &&& forall|i: int, j: int|
                0 <= i < j < s.profiles.len() ==> (#[trigger] s.profiles[i]).id != (
                #[trigger] s.profiles[j]).id
            &&& forall|i: int|
                0 <= i < s.profiles.len() ==> profile_id((#[trigger] s.profiles[i]).id)
                    && checked_template(s.profiles[i].template) is Ok
        }),
{
    let docs = profile_docs(doc)->Some_0;
    lemma_profiles_well_formed(docs);
}

/// What the validated profiles are like.
pub(crate) proof fn lemma_profiles_well_formed(docs: Seq<JsonTree>)
    requires
        normalized_profiles(docs) is Ok,
    ensures
        ({
            let profiles = normalized_profiles(docs)->Ok_0;
            &&& profiles.len() == docs.len()
            &&& forall|i: int, j: int|
                0 <= i < j < profiles.len() ==> (#[trigger] profiles[i]).id != (
                #[trigger] profiles[j]).id
            &&& forall|i: int|
                0 <= i < profiles.len() ==> profile_id((#[trigger] profiles[i]).id)
                    && checked_template(profiles[i].template) is Ok
        }),
    decreases docs.len(),
{
    if docs.len() > 0 {
        lemma_profiles_well_formed(docs.drop_last());
        let before = normalized_profiles(docs.drop_last())->Ok_0;
        let profiles = normalized_profiles(docs)->Ok_0;
        assert(profiles.drop_last() =~= before);
        assert forall|i: int, j: int| 0 <= i < j < profiles.len() implies (
        #[trigger] profiles[i]).id != (#[trigger] profiles[j]).id by {
            if j == profiles.len() - 1 {
                assert(before[i] == profiles[i]);
            } else {
                assert(before[i] == profiles[i] && before[j] == profiles[j]);
            }
        }
        assert forall|i: int| 0 <= i < profiles.len() implies profile_id(
            (#[trigger] profiles[i]).id,
        ) && checked_template(profiles[i].template) is Ok by {
            if i < before.len() {
                assert(before[i] == profiles[i]);
            }
        }
    }
}


/// The digits of a text, in order.
pub open spec fn digits_of(s: Seq<char>) -> Seq<char>
    decreases s.len(),
{
    if s.len() == 0 {
        Seq::empty()
    } else if '0' <= s.last() <= '9' {
        digits_of(s.drop_last()).push(s.last())
    } else {
        digits_of(s.drop_last())
    }
}

/// The digits of a text, in order.
fn collect_digits(s: &[char]) -> (r: Vec<char>)
    ensures
        r@ == digits_of(s@),
{
    let mut out: Vec<char> = Vec::new();
    let mut i: usize = 0;
    while i < s.len()
        invariant
            i <= s@.len(),
            out@ == digits_of(s@.take(i as int)),
        decreases s@.len() - i,
    {
        let c = s[i];
        assert(s@.take(i as int + 1).drop_last() =~= s@.take(i as int));
        if '0' <= c && c <= '9' {
            out.push(c);
        }
        i += 1;
    }
    assert(s@.take(s@.len() as int) =~= s@);
    out
}

/// The separator with which a text begins as a date.
pub open spec fn dated_with(text: Seq<char>, sep: Seq<char>) -> bool {
    separator(sep) && begins_dated(text, sep)
}

/// The date of a text by the first pattern that reads it. A text that begins as a date is
/// read as what its digits write, and not at all where more follows; one that ends after the
/// month or has no digit is not read.
pub open spec fn by_any_pattern(text: Seq<char>) -> Option<(int, int, int)> {
    if exists|sep: Seq<char>| dated_with(text, sep) {
        plain_date(text, choose|sep: Seq<char>| dated_with(text, sep))
    } else if without_digits(text) || exists|sep: Seq<char>|
        separator(sep) && #[trigger] month_only(text, sep) {
        None
    } else {
        or_else(
            chrono_parsed(text, "%Y-%m-%d"@),
            or_else(
                chrono_parsed(text, "%Y/%m/%d"@),
                or_else(chrono_parsed(text, "%Y.%m.%d"@), chrono_parsed(text, "%Y%m%d"@)),
            ),
        )
    }
}

/// The date that a raw date text names: the whole text, then its first ten
/// bytes, then its first eight digits.
pub open spec fn date_of(raw: Seq<char>) -> Option<(int, int, int)> {
    let t = trimmed(raw);
    let head = match byte_prefix(t, 10) {
        Some(p) => p,
        None => t,
    };
    if t.len() == 0 {
        None
    } else {
        or_else(
            by_any_pattern(t),
            or_else(
                by_any_pattern(head),
                if digits_of(t).len() >= 8 {
                    plain_date(digits_of(t).take(8), Seq::empty())
                } else {
                    None
                },
            ),
        )
    }
}

/// The first day of the month that a raw date text names with exactly six
/// digits.
pub open spec fn month_of(raw: Seq<char>) -> Option<(int, int, int)> {
    let digits = digits_of(trimmed(raw));
    if digits.len() != 6 {
        None
    } else {
        plain_date(digits + "01"@, Seq::empty())
    }
}

/// A found date agrees with its specification.
pub open spec fn date_agrees(r: Option<CalendarDate>, s: Option<(int, int, int)>) -> bool {
    match (r, s) {
        (Some(d), Some(t)) => d.valid() && t == (d.year as int, d.month as int, d.day as int),
        (None, None) => true,
        _ => false,
    }
}

/// No two separators make one pattern.
proof fn lemma_patterns_differ()
    ensures
        forall|a: Seq<char>, b: Seq<char>|
            separator(a) && separator(b) && #[trigger] pattern_with(a) == #[trigger] pattern_with(b)
                ==> a == b,
{
    assert forall|a: Seq<char>, b: Seq<char>|
        separator(a) && separator(b) && #[trigger] pattern_with(a) == #[trigger] pattern_with(
            b,
        ) implies a == b by {
        reveal_strlit("%Y");
        reveal_strlit("%m");
        reveal_strlit("%d");
        assert(pattern_with(a).len() == 6 + 2 * a.len());
        assert(pattern_with(b).len() == 6 + 2 * b.len());
        if a.len() > 0 {
            assert(pattern_with(a)[2] == a[0]);
            assert(pattern_with(b)[2] == b[0]);
        }
        assert(a =~= b);
    }
}

/// The digits of a text are digits.
pub proof fn lemma_digits_of(s: Seq<char>)
    ensures
        all_digits(digits_of(s)),
    decreases s.len(),
{
    if s.len() > 0 {
        lemma_digits_of(s.drop_last());
    }
}

/// Eight digits are a date without separators.
pub proof fn lemma_eight_digits(s: Seq<char>)
    requires
        s.len() == 8,
        all_digits(s),
    ensures
        begins_dated(s, Seq::empty()),
{
    assert(s.subrange(4, 4) =~= Seq::<char>::empty());
    assert(s.subrange(6, 6) =~= Seq::<char>::empty());
}

/// The date of a text by the first pattern that reads it.
fn read_by_any_pattern(text: &str) -> (r: Option<CalendarDate>)
    ensures
        date_agrees(r, by_any_pattern(text@)),
{
    proof {
        lemma_patterns();
        lemma_patterns_differ();
        if exists|sep: Seq<char>| dated_with(text@, sep) {
            let sep = choose|sep: Seq<char>| dated_with(text@, sep);
            assert(begins_dated(text@, sep));
        }
    }
    match parse_by_pattern(text, "%Y-%m-%d") {
        Some(d) => Some(d),
        None => match parse_by_pattern(text, "%Y/%m/%d") {
            Some(d) => Some(d),
            None => match parse_by_pattern(text, "%Y.%m.%d") {
                Some(d) => Some(d),
                None => parse_by_pattern(text, "%Y%m%d"),
            },
        },
    }
}

/// The date that a raw date text names.
pub fn parse_date(raw: &str) -> (r: Option<CalendarDate>)
    ensures
        date_agrees(r, date_of(raw@)),
{
    let t = trim_text(raw);
    if t.len() == 0 {
        return None;
    }
    match read_by_any_pattern(&text_of(&t)) {
        Some(d) => {
            return Some(d);
        },
        None => {},
    }
    let head = match take_bytes(&t, 10) {
        Some(p) => text_of(&p),
        None => text_of(&t),
    };
    match read_by_any_pattern(&head) {
        Some(d) => {
            return Some(d);
        },
        None => {},
    }
    let digits = collect_digits(&t);
    if digits.len() >= 8 {
        let first = text_of(&sub_chars(&digits, 0, 8));
        proof {
            lemma_patterns();
            lemma_digits_of(t@);
            assert(first@ =~= digits_of(t@).take(8));
            lemma_eight_digits(first@);
        }
        parse_by_pattern(&first, "%Y%m%d")
    } else {
        None
    }
}

/// The month that a raw date text names, as its first day.
pub fn parse_year_month(raw: &str) -> (r: Option<CalendarDate>)
    ensures
        date_agrees(r, month_of(raw@)),
{
    let t = trim_text(raw);
    let digits = collect_digits(&t);
    if digits.len() != 6 {
        return None;
    }
    let mut padded_day = text_of(&digits);
    padded_day.append("01");
    proof {
        reveal_strlit("01");
        lemma_patterns();
        lemma_digits_of(t@);
        lemma_eight_digits(padded_day@);
    }
    parse_by_pattern(&padded_day, "%Y%m%d")
}

/// The date, year and month tokens of a date.
pub open spec fn date_tokens(
    date: Option<CalendarDate>,
    has_day: bool,
    format: DateFormat,
    empty_value: Seq<char>,
) -> (Seq<char>, Seq<char>, Seq<char>) {
    match date {
        None => (empty_value, empty_value, empty_value),
        Some(d) => {
            let pattern = if format == DateFormat::Compact {
                if has_day {
                    "%Y%m%d"@
                } else {
                    "%Y%m"@
                }
            } else if format == DateFormat::YearMonth || !has_day {
                "%Y-%m"@
            } else {
                "%Y-%m-%d"@
            };
            (written(d, pattern), year_alone(d.year as int), padded(d.month as nat, 2))
        },
    }
}

/// The date, year and month tokens of a date that was or was not found.
pub fn write_date_tokens(
    date: Option<CalendarDate>,
    has_day: bool,
    format: DateFormat,
    empty_value: &str,
) -> (r: (String, String, String))
    requires
        date matches Some(d) ==> d.valid(),
    ensures
        (r.0@, r.1@, r.2@) == date_tokens(date, has_day, format, empty_value@),
{
    match date {
        None => (empty_value.to_owned(), empty_value.to_owned(), empty_value.to_owned()),
        Some(d) => {
            let pattern = match format {
                DateFormat::Compact => if has_day {
                    "%Y%m%d"
                } else {
                    "%Y%m"
                },
                DateFormat::YearMonth => "%Y-%m",
                DateFormat::Iso => if has_day {
                    "%Y-%m-%d"
                } else {
                    "%Y-%m"
                },
            };
            (format_by_pattern(d, pattern), year_text(d.year), padded_text(d.month as u64, 2))
        },
    }
}

/// The date of three numbers.
pub open spec fn date_from(t: (int, int, int)) -> CalendarDate {
    CalendarDate { year: t.0 as i32, month: t.1 as u32, day: t.2 as u32 }
}

/// The date, year and month tokens of a raw date text: a full date, else a
/// month without a day, else the value for a missing token.
pub open spec fn raw_date_tokens(raw: Seq<char>, format: DateFormat, empty_value: Seq<char>) -> (
    Seq<char>,
    Seq<char>,
    Seq<char>,
) {
    match date_of(raw) {
        Some(t) => date_tokens(Some(date_from(t)), true, format, empty_value),
        None => match month_of(raw) {
            Some(t) => date_tokens(Some(date_from(t)), false, format, empty_value),
            None => date_tokens(None, false, format, empty_value),
        },
    }
}

/// The date, year and month tokens of a raw date text.
pub fn formatted_date(raw: &str, format: DateFormat, empty_value: &str) -> (r: (
    String,
    String,
    String,
))
    ensures
        (r.0@, r.1@, r.2@) == raw_date_tokens(raw@, format, empty_value@),
{
    match parse_date(raw) {
        Some(d) => write_date_tokens(Some(d), true, format, empty_value),
        None => match parse_year_month(raw) {
            Some(d) => write_date_tokens(Some(d), false, format, empty_value),
            None => write_date_tokens(None, false, format, empty_value),
        },
    }
}

/// What a template is rendered with.
#[derive(Debug)]
pub struct RenderContext {
    /// The artist's name.
    pub artist: String,
    /// The raw date text.
    pub date: String,
    /// The tags.
    pub tags: Vec<String>,
    /// The title.
    pub title: String,
    /// The folder.
    pub folder: String,
    /// The running number.
    pub index: usize,
}

/// The value of a [`RenderContext`].
pub struct ContextView {
    /// The artist's name.
    pub artist: Seq<char>,
    /// The raw date text.
    pub date: Seq<char>,
    /// The tags.
    pub tags: Seq<Seq<char>>,
    /// The title.
    pub title: Seq<char>,
    /// The folder.
    pub folder: Seq<char>,
    /// The running number.
    pub index: nat,
}

impl View for RenderContext {
    type V = ContextView;

    open spec fn view(&self) -> ContextView {
        ContextView {
            artist: self.artist@,
            date: self.date@,
            tags: texts(self.tags@),
            title: self.title@,
            folder: self.folder@,
            index: self.index as nat,
        }
    }
}

/// A rendered target.
#[derive(Debug)]
pub struct RenderedTarget {
    /// The target path below the artist's folder.
    pub target_folder: String,
    /// The values that the tokens stood for.
    pub tokens: TokenValues,
}

/// The sanitized tags, without those that come out empty.
pub open spec fn kept_tags(tags: Seq<Seq<char>>) -> Seq<Seq<char>>
    decreases tags.len(),
{
    if tags.len() == 0 {
        Seq::empty()
    } else {
        let value = sanitized(tags.last(), Seq::empty());
        if value.len() > 0 {
            kept_tags(tags.drop_last()).push(value)
        } else {
            kept_tags(tags.drop_last())
        }
    }
}

/// The sanitized tags, without those that come out empty.
fn keep_tags(tags: &[String]) -> (r: Vec<String>)
    ensures
        texts(r@) == kept_tags(texts(tags@)),
{
    let ghost all = texts(tags@);
    let mut out: Vec<String> = Vec::new();
    let mut i: usize = 0;
    assert(texts(out@) =~= Seq::<Seq<char>>::empty());
    while i < tags.len()
        invariant
            i <= tags@.len(),
            all == texts(tags@),
            texts(out@) == kept_tags(all.take(i as int)),
        decreases tags@.len() - i,
    {
        let ghost now = all.take(i as int + 1);
        assert(now.drop_last() =~= all.take(i as int));
        assert(now.last() == tags@[i as int]@);
        let none = String::new();
        let value = sanitize_token_value(&tags[i], &none);
        assert(none@ =~= Seq::<char>::empty());
        if !value.as_str().is_empty() {
            let ghost before = out@;
            out.push(value);
            assert(texts(out@) =~= texts(before).push(value@));
        }
        i += 1;
    }
    assert(all.take(all.len() as int) =~= all);
    out
}

/// The value of the tags token.
pub open spec fn tags_token(kept: Seq<Seq<char>>, profile: ProfileView) -> Seq<char> {
    if kept.len() == 0 {
        profile.empty_value
    } else {
        sanitized(joined(kept, profile.tag_separator), profile.empty_value)
    }
}

/// The values that the tokens of a profile stand for.
pub open spec fn token_values(
    profile: ProfileView,
    dates: (Seq<char>, Seq<char>, Seq<char>),
    context: ContextView,
) -> TokenValuesView {
    let kept = kept_tags(context.tags);
    TokenValuesView {
        artist: sanitized(context.artist, profile.empty_value),
        date: dates.0,
        year: dates.1,
        month: dates.2,
        tags: tags_token(kept, profile),
        tag_values: kept,
        title: sanitized(context.title, profile.empty_value),
        folder: sanitized(context.folder, profile.empty_value),
        index: decimal(
            if context.index == 0 {
                1
            } else {
                context.index
            },
        ),
    }
}

/// The outcome of rendering a validated profile with given date tokens.
pub open spec fn rendered(
    profile: ProfileView,
    dates: (Seq<char>, Seq<char>, Seq<char>),
    context: ContextView,
) -> Result<(Seq<char>, TokenValuesView), Seq<char>> {
    let values = token_values(profile, dates, context);
    match parsed_template(profile.template) {
        Err(e) => Err(e),
        Ok(parts) => match checked_target(filled(parts, values)) {
            Err(e) => Err(e),
            Ok(target) => Ok((target, values)),
        },
    }
}

/// An outcome of rendering agrees with its specification.
pub open spec fn render_agrees(
    r: Result<RenderedTarget, String>,
    s: Result<(Seq<char>, TokenValuesView), Seq<char>>,
) -> bool {
    match (r, s) {
        (Ok(a), Ok(b)) => a.target_folder@ == b.0 && a.tokens@ == b.1,
        (Err(a), Err(b)) => a@ == b,
        _ => false,
    }
}

/// Renders a validated profile with given date, year and month tokens.
pub fn render_with_dates(
    profile: &Profile,
    dates: (String, String, String),
    context: &RenderContext,
) -> (r: Result<RenderedTarget, String>)
    ensures
        render_agrees(r, rendered(profile@, (dates.0@, dates.1@, dates.2@), context@)),
{
    let parts = match parse_template(&profile.template) {
        Ok(parts) => parts,
        Err(e) => {
            return Err(e);
        },
    };
    let (date, year, month) = dates;
    let artist = sanitize_token_value(&context.artist, &profile.empty_value);
    let title = sanitize_token_value(&context.title, &profile.empty_value);
    let folder = sanitize_token_value(&context.folder, &profile.empty_value);
    let tag_values = keep_tags(&context.tags);
    assert(texts(tag_values@).len() == tag_values@.len());
    let tags = if tag_values.len() == 0 {
        profile.empty_value.clone()
    } else {
        sanitize_token_value(
            &join_texts(&tag_values, &profile.tag_separator),
            &profile.empty_value,
        )
    };
    let number: u64 = if context.index == 0 {
        1
    } else {
        context.index as u64
    };
    let index = decimal_text(number);
    let tokens = TokenValues { artist, date, year, month, tags, tag_values, title, folder, index };
    let text = fill(&parts, &tokens);
    match validate_rendered_target(&text) {
        Ok(target_folder) => Ok(RenderedTarget { target_folder, tokens }),
        Err(e) => Err(e),
    }
}

/// The outcome of rendering a profile document.
pub open spec fn rendered_profile(doc: JsonTree, context: ContextView) -> Result<
    (Seq<char>, TokenValuesView),
    Seq<char>,
> {
    match normalized_profile(doc) {
        Err(e) => Err(e),
        Ok(p) => rendered(
            p,
            raw_date_tokens(context.date, p.date_format, p.empty_value),
            context,
        ),
    }
}

/// Renders a profile document: validates it, fills its template and checks the
/// target.
pub fn render_profile(profile: &Json, context: &RenderContext) -> (r: Result<
    RenderedTarget,
    String,
>)
    ensures
        render_agrees(r, rendered_profile(profile.tree(), context@)),
{
    match normalize_profile(profile) {
        Err(e) => Err(e),
        Ok(p) => {
            let dates = formatted_date(&context.date, p.date_format, &p.empty_value);
            render_with_dates(&p, dates, context)
        },
    }
}

/// The rule by which a plan was named, kept beside the plan.
#[derive(Debug)]
pub struct RuleSnapshot {
    /// The version of the settings document.
    pub version: i64,
    /// The profile's id.
    pub profile_id: String,
    /// The profile's name.
    pub profile_name: String,
    /// Where the profile came from.
    pub profile_source: String,
    /// The profile.
    pub profile: Profile,
}

/// The rule by which a plan is named.
pub fn rule_snapshot(profile: &Profile, profile_source: &str) -> (r: RuleSnapshot)
    ensures
        r.version == SETTINGS_VERSION,
        r.profile_id@ == profile.id@,
        r.profile_name@ == profile.name@,
        r.profile_source@ == profile_source@,
        r.profile@ == profile@,
{
    RuleSnapshot {
        version: SETTINGS_VERSION,
        profile_id: profile.id.clone(),
        profile_name: profile.name.clone(),
        profile_source: profile_source.to_owned(),
        profile: profile.duplicate(),
    }
}

/// Putting the pieces of a split text together gives the text back.
pub proof fn lemma_join_split(s: Seq<char>, sep: char)
    ensures
        joined(split(s, sep), seq![sep]) == s,
    decreases s.len(),
{
    crate::text::lemma_index_of(s, sep);
    let k = index_of(s, sep);
    if k < s.len() {
        let rest = s.skip(k + 1);
        lemma_join_split(rest, sep);
        lemma_split_not_empty(rest, sep);
        lemma_join_front(s.take(k), split(rest, sep), seq![sep]);
        assert(s.take(k) + seq![sep] + rest =~= s);
    }
}

/// A split text has at least one piece.
pub proof fn lemma_split_not_empty(s: Seq<char>, sep: char)
    ensures
        split(s, sep).len() > 0,
{
}

/// Joining with one more piece in front.
proof fn lemma_join_front(first: Seq<char>, rest: Seq<Seq<char>>, sep: Seq<char>)
    requires
        rest.len() > 0,
    ensures
        joined(seq![first] + rest, sep) == first + sep + joined(rest, sep),
    decreases rest.len(),
{
    let all = seq![first] + rest;
    if rest.len() == 1 {
        assert(all.drop_last() =~= seq![first]);
        assert(joined(all.drop_last(), sep) == first);
    } else {
        lemma_join_front(first, rest.drop_last(), sep);
        assert(all.drop_last() =~= seq![first] + rest.drop_last());
        assert(joined(all, sep) =~= first + sep + joined(rest, sep));
    }
}

/// An accepted target stays below the artist's folder: it is not absolute, and
/// each of its segments is a non-empty name that is neither `.` nor `..`, has
/// at most 180 characters, no forbidden character, no trailing space or full
/// stop, and is no device name.
pub proof fn accepted_targets_stay_inside(value: Seq<char>)
    requires
        checked_target(value) is Ok,
    ensures
        ({
            let t = checked_target(value)->Ok_0;
            &&& t.len() > 0
            &&& t[0] != '/'
            &&& !t.contains('\\')
            &&& joined(split(t, '/'), seq!['/']) == t
            &&& forall|i: int| 0 <= i < split(t, '/').len() ==> segment_problem(#[trigger] split(t, '/')[i]) is None
        }),
{
    let raw = trimmed(replaced(value, '\\', '/'));
    lemma_join_split(raw, '/');
    lemma_no_problem(split(raw, '/'));
    crate::text::lemma_trim_subset(replaced(value, '\\', '/'), CharClass::White);
    if raw.contains('\\') {
        let i = raw.index_of('\\');
        assert(replaced(value, '\\', '/').contains(raw[i]));
        let k = replaced(value, '\\', '/').index_of(raw[i]);
        assert(replaced(value, '\\', '/')[k] == '\\');
    }
}

/// Without a first problem no segment has one.
proof fn lemma_no_problem(components: Seq<Seq<char>>)
    requires
        first_problem(components) is None,
    ensures
        forall|i: int|
            0 <= i < components.len() ==> segment_problem(#[trigger] components[i]) is None,
    decreases components.len(),
{
    if components.len() > 0 {
        let d = components.drop_last();
        lemma_no_problem(d);
        assert forall|i: int| 0 <= i < components.len() implies segment_problem(
            #[trigger] components[i],
        ) is None by {
            if i < d.len() {
                assert(d[i] == components[i]);
            }
        }
    }
}

/// An accepted target is accepted again, unchanged.
pub proof fn accepted_targets_are_stable(value: Seq<char>)
    requires
        checked_target(value) is Ok,
    ensures
        checked_target(checked_target(value)->Ok_0) == checked_target(value),
{
    let t = checked_target(value)->Ok_0;
    accepted_targets_stay_inside(value);
    assert(replaced(t, '\\', '/') =~= t) by {
        assert forall|i: int| 0 <= i < t.len() implies replaced(t, '\\', '/')[i] == t[i] by {
            if t[i] == '\\' {
                assert(t.contains('\\'));
            }
        }
    }
    crate::text::lemma_trim_idempotent(replaced(value, '\\', '/'), CharClass::White);
}

/// A target that a profile renders stays below the artist's folder.
pub proof fn rendered_targets_stay_inside(doc: JsonTree, context: ContextView)
    requires
        rendered_profile(doc, context) is Ok,
    ensures
        ({
            let t = rendered_profile(doc, context)->Ok_0.0;
            &&& checked_target(t) == Ok::<Seq<char>, Seq<char>>(t)
            &&& forall|i: int| 0 <= i < split(t, '/').len() ==> segment_problem(#[trigger] split(t, '/')[i]) is None
        }),
{
    let p = normalized_profile(doc)->Ok_0;
    let values = token_values(
        p,
        raw_date_tokens(context.date, p.date_format, p.empty_value),
        context,
    );
    let text = filled(parsed_template(p.template)->Ok_0, values);
    accepted_targets_stay_inside(text);
    accepted_targets_are_stable(text);
}

}
