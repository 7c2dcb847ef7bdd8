//! What is promised of templates, token values and rendered targets.

use vstd::prelude::*;
use crate::archive_format::{
    checked_target, date_format_named, effective_profile, filled, kept_tags, parsed_template,
    profile_id, profile_with_id, safe_name, sanitized, segment_problem, strategy_named,
    template_parts, token_named, token_values, windows_reserved, CollisionStrategy, ContextView,
    DateFormat, PartView, ProfileSource, ProfileView, SettingsView, Token,
    TokenValuesView,
};
use crate::text::{
    control, decimal, index_of, joined, replaced, split, trimmed, upper, white_space, CharClass,
};

verus! {

/// Each token is named by its own word.
pub proof fn tokens_are_named_by_their_words(t: Token)
    ensures
        token_named(t.spelled()) == Some(t),
        token_named("artist"@) == Some(Token::Artist),
        token_named("date"@) == Some(Token::Date),
        token_named("year"@) == Some(Token::Year),
        token_named("month"@) == Some(Token::Month),
        token_named("tags"@) == Some(Token::Tags),
        token_named("title"@) == Some(Token::Title),
        token_named("folder"@) == Some(Token::Folder),
        token_named("index"@) == Some(Token::Index),
{
    reveal_strlit("artist");
    reveal_strlit("date");
    reveal_strlit("year");
    reveal_strlit("month");
    reveal_strlit("tags");
    reveal_strlit("title");
    reveal_strlit("folder");
    reveal_strlit("index");
    assert("artist"@[0] == 'a' && "date"@[0] == 'd' && "year"@[0] == 'y' && "month"@[0] == 'm');
    assert("tags"@[1] == 'a' && "title"@[1] == 'i' && "tags"@[0] == 't' && "title"@[0] == 't');
    assert("folder"@[0] == 'f' && "index"@[0] == 'i');
}

/// Whether a text has no brace.
pub open spec fn braceless(s: Seq<char>) -> bool {
    forall|i: int| 0 <= i < s.len() ==> #[trigger] s[i] != '{' && s[i] != '}'
}

/// The run of a text up to the first brace.
proof fn lemma_run(text: Seq<char>, rest: Seq<char>)
    requires
        braceless(text),
        rest.len() == 0 || rest[0] == '{' || rest[0] == '}',
    ensures
        crate::archive_format::plain_run(text + rest) == text.len(),
    decreases text.len(),
{
    let s = text + rest;
    if text.len() > 0 {
        assert(s[0] == text[0]);
        let t = text.skip(1);
        assert(s.skip(1) =~= t + rest);
        assert forall|i: int| 0 <= i < t.len() implies #[trigger] t[i] != '{' && t[i] != '}' by {
            assert(t[i] == text[i + 1]);
        }
        lemma_run(t, rest);
    } else {
        assert(s =~= rest);
    }
}

/// A template is read part by part: text up to the next brace is text, a name in braces is the
/// token of that name, and what follows is read as it would be alone.
pub proof fn templates_are_read_part_by_part(text: Seq<char>, token: Token, rest: Seq<char>)
    requires
        text.len() > 0,
        braceless(text),
    ensures
        rest.len() == 0 || rest[0] == '{' || rest[0] == '}' ==> template_parts(text + rest) == (
        match template_parts(rest) {
            Ok(more) => Ok(seq![PartView::Text(text)] + more),
            Err(e) => Err(e),
        }),
        template_parts(seq!['{'] + token.spelled() + seq!['}'] + rest) == (match template_parts(
            rest,
        ) {
            Ok(more) => Ok(seq![PartView::Token(token)] + more),
            Err(e) => Err(e),
        }),
        template_parts(Seq::empty()) == Ok::<Seq<PartView>, Seq<char>>(Seq::empty()),
{
    if rest.len() == 0 || rest[0] == '{' || rest[0] == '}' {
        let s = text + rest;
        lemma_run(text, rest);
        let n = text.len() as int;
        assert(s[0] == text[0]);
        assert(s.take(n) =~= text);
        assert(s.skip(n) =~= rest);
    }
    tokens_are_named_by_their_words(token);
    lemma_braced(token.spelled(), rest);
}

/// Where the name in braces ends.
proof fn lemma_braced(name: Seq<char>, rest: Seq<char>)
    ensures
        !name.contains('}') ==> ({
            let s = seq!['{'] + name + seq!['}'] + rest;
            let inner = s.skip(1);
            &&& s.len() > 0
            &&& s[0] == '{'
            &&& index_of(inner, '}') == name.len()
            &&& name.len() < inner.len()
            &&& inner.take(name.len() as int) == name
            &&& s.skip(name.len() as int + 2) == rest
        }),
        forall|t: Token| !(#[trigger] t.spelled()).contains('}'),
{
    if !name.contains('}') {
        let s = seq!['{'] + name + seq!['}'] + rest;
        let inner = s.skip(1);
        assert(inner =~= name + seq!['}'] + rest);
        assert forall|i: int| 0 <= i < name.len() implies inner[i] != '}' by {
            assert(inner[i] == name[i]);
            assert(name.contains(name[i]));
        }
        assert(inner[name.len() as int] == '}');
        crate::text::lemma_index_of_unique(inner, '}', name.len() as int);
        assert(inner.take(name.len() as int) =~= name);
        assert(s.skip(name.len() as int + 2) =~= rest);
    }
    assert forall|t: Token| !(#[trigger] t.spelled()).contains('}') by {
        reveal_strlit("artist");
        reveal_strlit("date");
        reveal_strlit("year");
        reveal_strlit("month");
        reveal_strlit("tags");
        reveal_strlit("title");
        reveal_strlit("folder");
        reveal_strlit("index");
        if t.spelled().contains('}') {
            let i = t.spelled().index_of('}');
            assert(t.spelled()[i] == '}');
        }
    }
}

/// An unknown name in braces, a brace that is not closed and one that was not opened are
/// refused.
pub proof fn faulty_templates_are_refused(name: Seq<char>, rest: Seq<char>)
    requires
        token_named(name) is None,
        !name.contains('}'),
    ensures
        template_parts(seq!['{'] + name + seq!['}'] + rest) is Err,
        !rest.contains('}') ==> template_parts(seq!['{'] + rest) is Err,
        template_parts(seq!['}'] + rest) is Err,
{
    lemma_braced(name, rest);
    if !rest.contains('}') {
        let s = seq!['{'] + rest;
        assert(s.skip(1) =~= rest);
        crate::text::lemma_index_of(rest, '}');
    }
}

/// A template is refused where it is blank, longer than 512 characters or holds a control
/// character, and else read as its parts tell.
pub proof fn templates_have_limits(s: Seq<char>, i: int)
    requires
        0 <= i < s.len(),
    ensures
        trimmed(s).len() == 0 ==> parsed_template(s) is Err,
        s.len() > 512 ==> parsed_template(s) is Err,
        (s[i] as int) < 32 || s[i] as int == 127 ==> parsed_template(s) is Err,
        trimmed(s).len() > 0 && s.len() <= 512 && (forall|j: int|
            0 <= j < s.len() ==> !control(#[trigger] s[j])) ==> parsed_template(s)
            == template_parts(s),
{
    if (s[i] as int) < 32 || s[i] as int == 127 {
        assert(control(s[i]));
    }
}

/// Filling puts each token's own value in its place and leaves the text as it is, in order.
pub proof fn tokens_are_filled_in_place(
    parts: Seq<PartView>,
    text: Seq<char>,
    values: TokenValuesView,
)
    ensures
        filled(Seq::empty(), values).len() == 0,
        filled(parts.push(PartView::Text(text)), values) == filled(parts, values) + text,
        filled(parts.push(PartView::Token(Token::Artist)), values) == filled(parts, values)
            + values.artist,
        filled(parts.push(PartView::Token(Token::Date)), values) == filled(parts, values)
            + values.date,
        filled(parts.push(PartView::Token(Token::Year)), values) == filled(parts, values)
            + values.year,
        filled(parts.push(PartView::Token(Token::Month)), values) == filled(parts, values)
            + values.month,
        filled(parts.push(PartView::Token(Token::Tags)), values) == filled(parts, values)
            + values.tags,
        filled(parts.push(PartView::Token(Token::Title)), values) == filled(parts, values)
            + values.title,
        filled(parts.push(PartView::Token(Token::Folder)), values) == filled(parts, values)
            + values.folder,
        filled(parts.push(PartView::Token(Token::Index)), values) == filled(parts, values)
            + values.index,
{
    assert forall|p: PartView| (#[trigger] parts.push(p)).drop_last() == parts by {
        assert(parts.push(p).drop_last() =~= parts);
    }
}

/// Whether a character cannot stand in a file name: a control character, a separator of names
/// or one that matches or quotes names.
pub open spec fn unsafe_character(c: char) -> bool {
    ||| (c as int) < 32
    ||| 127 <= c as int <= 159
    ||| c == '<'
    ||| c == '>'
    ||| c == ':'
    ||| c == '"'
    ||| c == '|'
    ||| c == '?'
    ||| c == '*'
    ||| c == '/'
    ||| c == '\\'
}

/// Whether a text can stand for a token as it is: it is not empty, has at most 160 characters,
/// none of them unsafe, begins and ends neither with white space nor with a full stop, and is
/// no name that the system reserves.
pub open spec fn clean_value(s: Seq<char>) -> bool {
    &&& 0 < s.len() <= 160
    &&& !white_space(s[0]) && s[0] != '.'
    &&& !white_space(s.last()) && s.last() != '.'
    &&& forall|i: int| 0 <= i < s.len() ==> !unsafe_character(#[trigger] s[i])
    &&& !windows_reserved(s)
}

/// Unsafe characters become underscores, each in its place, and the others stay.
pub proof fn unsafe_characters_become_underscores(value: Seq<char>, i: int)
    requires
        0 <= i < value.len() <= 160,
        !white_space(value[0]) && value[0] != '.',
        !white_space(value.last()) && value.last() != '.',
    ensures
        safe_name(value).len() == value.len(),
        safe_name(value)[i] == if unsafe_character(value[i]) {
            '_'
        } else {
            value[i]
        },
{
    crate::text::lemma_trim_fixed(value, CharClass::White);
    let mapped = value.map_values(
        |c: char|
            if crate::archive_format::unsafe_in_name(c) {
                '_'
            } else {
                c
            },
    );
    crate::text::lemma_trim_fixed(mapped, CharClass::SpaceDot);
}

/// A clean value stands for its token as it is.
pub proof fn clean_values_stay(value: Seq<char>, fallback: Seq<char>)
    requires
        clean_value(value),
    ensures
        sanitized(value, fallback) == value,
        sanitized(Seq::empty(), value) == value,
        sanitized(Seq::empty(), Seq::empty()).len() == 0,
{
    assert forall|i: int| 0 <= i < value.len() implies safe_name(value)[i] == value[i] by {
        unsafe_characters_become_underscores(value, i);
        assert(!unsafe_character(value[i]));
    }
    unsafe_characters_become_underscores(value, 0);
    assert(safe_name(value) =~= value);
    crate::text_laws::white_texts_are_trimmed_away(Seq::empty());
    let none = Seq::<char>::empty();
    let mapped = trimmed(none).map_values(
        |c: char|
            if crate::archive_format::unsafe_in_name(c) {
                '_'
            } else {
                c
            },
    );
    assert(mapped =~= none);
    crate::text::lemma_ends(mapped, CharClass::SpaceDot);
    assert(safe_name(none).len() == 0);
}

/// Values of more than 160 characters are cut to their first 160.
pub proof fn long_values_are_cut(value: Seq<char>)
    requires
        value.len() > 160,
        !white_space(value[0]),
        !white_space(value.last()),
        clean_value(value.take(160)),
    ensures
        safe_name(value) == value.take(160),
{
    let cut = value.take(160);
    crate::text::lemma_trim_fixed(value, CharClass::White);
    crate::text::lemma_trim_fixed(cut, CharClass::White);
    clean_values_stay(cut, Seq::empty());
    assert(safe_name(value) == safe_name(cut));
    assert forall|i: int| 0 <= i < cut.len() implies safe_name(cut)[i] == cut[i] by {
        unsafe_characters_become_underscores(cut, i);
        assert(!unsafe_character(cut[i]));
    }
    unsafe_characters_become_underscores(cut, 0);
    assert(safe_name(cut) =~= cut);
}

/// Each token stands for its own part of what is rendered: the artist, the three date tokens,
/// the title, the folder, the number from one on and the tags with the separator between them.
pub proof fn tokens_stand_for_what_is_given(
    profile: ProfileView,
    dates: (Seq<char>, Seq<char>, Seq<char>),
    context: ContextView,
)
    requires
        clean_value(context.artist),
        clean_value(context.title),
        clean_value(context.folder),
        forall|i: int| 0 <= i < context.tags.len() ==> clean_value(#[trigger] context.tags[i]),
    ensures
        ({
            let v = token_values(profile, dates, context);
            &&& v.artist == context.artist
            &&& v.title == context.title
            &&& v.folder == context.folder
            &&& v.date == dates.0 && v.year == dates.1 && v.month == dates.2
            &&& v.tag_values == context.tags
            &&& context.index > 0 ==> v.index == decimal(context.index)
            &&& context.index == 0 ==> v.index == decimal(1)
            &&& context.tags.len() == 0 ==> v.tags == profile.empty_value
            &&& context.tags.len() > 0 && clean_value(joined(context.tags, profile.tag_separator))
                ==> v.tags == joined(context.tags, profile.tag_separator)
        }),
{
    clean_values_stay(context.artist, profile.empty_value);
    clean_values_stay(context.title, profile.empty_value);
    clean_values_stay(context.folder, profile.empty_value);
    lemma_clean_tags(context.tags);
    if clean_value(joined(context.tags, profile.tag_separator)) {
        clean_values_stay(joined(context.tags, profile.tag_separator), profile.empty_value);
    }
}

/// Clean tags are kept.
proof fn lemma_clean_tags(tags: Seq<Seq<char>>)
    requires
        forall|i: int| 0 <= i < tags.len() ==> clean_value(#[trigger] tags[i]),
    ensures
        kept_tags(tags) == tags,
    decreases tags.len(),
{
    if tags.len() > 0 {
        let d = tags.drop_last();
        assert forall|i: int| 0 <= i < d.len() implies clean_value(#[trigger] d[i]) by {
            assert(d[i] == tags[i]);
        }
        lemma_clean_tags(d);
        assert(clean_value(tags[tags.len() - 1]));
        clean_values_stay(tags.last(), Seq::empty());
        assert(kept_tags(tags) =~= tags);
    } else {
        assert(kept_tags(tags) =~= tags);
    }
}

/// Whether a part of a target is plain: of 1 to 180 characters, none of them unsafe, that
/// begins and ends without white space, does not end in a full stop and is no name that the
/// system reserves.
pub open spec fn plain_segment(s: Seq<char>) -> bool {
    &&& 0 < s.len() <= 180
    &&& !white_space(s[0])
    &&& !white_space(s.last()) && s.last() != '.'
    &&& forall|i: int| 0 <= i < s.len() ==> !unsafe_character(#[trigger] s[i])
    &&& !windows_reserved(s)
}

/// A target of plain parts is accepted as it is.
pub proof fn plain_targets_are_accepted(parts: Seq<Seq<char>>)
    requires
        parts.len() > 0,
        forall|i: int| 0 <= i < parts.len() ==> plain_segment(#[trigger] parts[i]),
    ensures
        checked_target(joined(parts, seq!['/'])) == Ok::<Seq<char>, Seq<char>>(
            joined(parts, seq!['/']),
        ),
{
    let t = joined(parts, seq!['/']);
    lemma_plain_target(parts);
    assert(replaced(t, '\\', '/') =~= t);
    crate::text::lemma_trim_fixed(t, CharClass::White);
    assert forall|i: int| 0 <= i < parts.len() implies !(#[trigger] parts[i]).contains('/') by {
        if parts[i].contains('/') {
            let k = parts[i].index_of('/');
            assert(unsafe_character(parts[i][k]));
        }
    }
    crate::folder_archive::lemma_split_join(parts, '/');
    lemma_no_first_problem(parts);
}

/// Plain parts put together.
proof fn lemma_plain_target(parts: Seq<Seq<char>>)
    requires
        parts.len() > 0,
        forall|i: int| 0 <= i < parts.len() ==> plain_segment(#[trigger] parts[i]),
    ensures
        ({
            let t = joined(parts, seq!['/']);
            &&& t.len() > 0
            &&& !white_space(t[0]) && t[0] != '/'
            &&& !white_space(t.last())
            &&& forall|i: int| 0 <= i < t.len() ==> #[trigger] t[i] != '\\' && t[i] != ':'
        }),
    decreases parts.len(),
{
    let t = joined(parts, seq!['/']);
    let last = parts.last();
    assert(plain_segment(parts[parts.len() - 1]));
    assert(unsafe_character('/') && unsafe_character('\\') && unsafe_character(':'));
    if parts.len() == 1 {
        assert(t == last);
        assert(!unsafe_character(t[0]));
        assert forall|i: int| 0 <= i < t.len() implies #[trigger] t[i] != '\\' && t[i] != ':' by {
            assert(!unsafe_character(last[i]));
        }
    } else {
        let d = parts.drop_last();
        assert forall|i: int| 0 <= i < d.len() implies plain_segment(#[trigger] d[i]) by {
            assert(d[i] == parts[i]);
        }
        lemma_plain_target(d);
        let front = joined(d, seq!['/']);
        assert(t == front + seq!['/'] + last);
        assert(t[0] == front[0] && t.last() == last.last());
        assert forall|i: int| 0 <= i < t.len() implies #[trigger] t[i] != '\\' && t[i] != ':' by {
            if i < front.len() {
                assert(t[i] == front[i]);
            } else if i > front.len() {
                assert(t[i] == last[i - front.len() - 1]);
                assert(!unsafe_character(last[i - front.len() - 1]));
            }
        }
    }
}

/// Plain parts have no problem.
proof fn lemma_no_first_problem(parts: Seq<Seq<char>>)
    requires
        forall|i: int| 0 <= i < parts.len() ==> plain_segment(#[trigger] parts[i]),
    ensures
        crate::archive_format::first_problem(parts) is None,
    decreases parts.len(),
{
    if parts.len() > 0 {
        let d = parts.drop_last();
        assert forall|i: int| 0 <= i < d.len() implies plain_segment(#[trigger] d[i]) by {
            assert(d[i] == parts[i]);
        }
        lemma_no_first_problem(d);
        let s = parts.last();
        assert(plain_segment(parts[parts.len() - 1]));
        reveal_strlit(".");
        reveal_strlit("..");
        if s == "."@ {
            assert(s.last() == '.');
        }
        if s == ".."@ {
            assert(s.last() == '.');
        }
        if crate::archive_format::has_forbidden(s) {
            let i = choose|i: int|
                0 <= i < s.len() && crate::archive_format::forbidden(#[trigger] s[i]);
            assert(unsafe_character(s[i]));
        }
        assert(segment_problem(s) is None);
    }
}

/// The parts of an accepted target are neither empty nor steps up, have at most 180
/// characters, do not end in a space or a full stop, hold no unsafe character and are no names
/// that the system reserves.
pub proof fn accepted_parts_are_plain(value: Seq<char>, k: int, i: int)
    requires
        checked_target(value) is Ok,
        0 <= k < split(checked_target(value)->Ok_0, '/').len(),
        0 <= i < split(checked_target(value)->Ok_0, '/')[k].len(),
    ensures
        ({
            let s = split(checked_target(value)->Ok_0, '/')[k];
            &&& 0 < s.len() <= 180
            &&& s != "."@ && s != ".."@
            &&& s.last() != ' ' && s.last() != '.'
            &&& !unsafe_character(s[i]) || s[i] == '/' || s[i] == '\\'
            &&& !windows_reserved(s)
        }),
{
    crate::archive_format::accepted_targets_stay_inside(value);
    let s = split(checked_target(value)->Ok_0, '/')[k];
    assert(segment_problem(s) is None);
    assert(!crate::archive_format::forbidden(s[i]));
}

/// The names that the system reserves, whatever their case and whatever follows a full stop
/// behind them.
pub proof fn device_names_are_reserved(stem: Seq<char>, rest: Seq<char>, n: nat)
    requires
        !stem.contains('.'),
        1 <= n <= 9,
        upper(stem) == "CON"@ || upper(stem) == "PRN"@ || upper(stem) == "AUX"@ || upper(stem)
            == "NUL"@ || upper(stem) == "COM"@ + decimal(n) || upper(stem) == "LPT"@ + decimal(n),
    ensures
        windows_reserved(stem),
        windows_reserved(stem + seq!['.'] + rest),
{
    lemma_device_stem(stem, rest);
    let u = upper(stem);
    reveal_strlit("COM");
    reveal_strlit("LPT");
    if u == "COM"@ + decimal(n) {
        assert(u.take(3) =~= "COM"@);
        assert(u.skip(3) =~= decimal(n));
        crate::text_laws::numbers_read_back(n as int);
    }
    if u == "LPT"@ + decimal(n) {
        assert(u.take(3) =~= "LPT"@);
        assert(u.skip(3) =~= decimal(n));
        crate::text_laws::numbers_read_back(n as int);
    }
}

/// The part of a name in front of its first full stop.
proof fn lemma_device_stem(stem: Seq<char>, rest: Seq<char>)
    requires
        !stem.contains('.'),
    ensures
        crate::archive_format::device_stem(stem) == upper(stem),
        crate::archive_format::device_stem(stem + seq!['.'] + rest) == upper(stem),
{
    crate::text::lemma_index_of(stem, '.');
    let k = index_of(stem, '.');
    if 0 <= k < stem.len() {
        assert(stem.contains(stem[k]));
    }
    assert(stem.take(stem.len() as int) =~= stem);
    let s = stem + seq!['.'] + rest;
    assert forall|i: int| 0 <= i < stem.len() implies s[i] != '.' by {
        assert(s[i] == stem[i]);
        assert(stem.contains(stem[i]));
    }
    assert(s[stem.len() as int] == '.');
    crate::text::lemma_index_of_unique(s, '.', stem.len() as int);
    assert(s.take(stem.len() as int) =~= stem);
}

/// A name with another first letter than the reserved ones, or with fewer than three
/// characters, is not reserved.
pub proof fn other_names_are_free(stem: Seq<char>, rest: Seq<char>)
    requires
        !stem.contains('.'),
        stem.len() < 3 || !"CPANL"@.contains(upper(stem)[0]),
    ensures
        !windows_reserved(stem),
        !windows_reserved(stem + seq!['.'] + rest),
{
    lemma_device_stem(stem, rest);
    let u = upper(stem);
    reveal_strlit("CPANL");
    reveal_strlit("CON");
    reveal_strlit("PRN");
    reveal_strlit("AUX");
    reveal_strlit("NUL");
    reveal_strlit("COM");
    reveal_strlit("LPT");
    let all = "CPANL"@;
    assert(all[0] == 'C' && all[1] == 'P' && all[2] == 'A' && all[3] == 'N' && all[4] == 'L');
    assert(all.contains('C') && all.contains('P') && all.contains('A') && all.contains('N')
        && all.contains('L'));
    if u.len() >= 3 {
        assert(u.take(3)[0] == u[0]);
        assert("CON"@[0] == 'C' && "PRN"@[0] == 'P' && "AUX"@[0] == 'A' && "NUL"@[0] == 'N');
        assert("COM"@[0] == 'C' && "LPT"@[0] == 'L');
    }
}

/// An artist's own choice of a profile counts, and the active profile for every artist without
/// one; the answer says which of the two it is.
pub proof fn own_choices_come_first(s: SettingsView, artist: int, k: int)
    requires
        0 <= k < s.profiles.len(),
        forall|i: int, j: int|
            0 <= i < j < s.profiles.len() ==> (#[trigger] s.profiles[i]).id != (
            #[trigger] s.profiles[j]).id,
    ensures
        s.artist_profile_ids.dom().contains(artist) && s.artist_profile_ids[artist]
            == s.profiles[k].id ==> effective_profile(s, artist) == Some(
            (s.profiles[k], ProfileSource::Artist),
        ),
        !s.artist_profile_ids.dom().contains(artist) && s.active_profile_id == s.profiles[k].id
            ==> effective_profile(s, artist) == Some((s.profiles[k], ProfileSource::Global)),
{
    lemma_found(s.profiles, k);
}

/// A profile is found by its number.
proof fn lemma_found(profiles: Seq<ProfileView>, k: int)
    requires
        0 <= k < profiles.len(),
        forall|i: int, j: int|
            0 <= i < j < profiles.len() ==> (#[trigger] profiles[i]).id != (
            #[trigger] profiles[j]).id,
    ensures
        profile_with_id(profiles, profiles[k].id) == Some(profiles[k]),
    decreases k,
{
    if k > 0 {
        let rest = profiles.skip(1);
        assert(profiles[0].id != profiles[k].id);
        assert forall|i: int, j: int| 0 <= i < j < rest.len() implies (#[trigger] rest[i]).id != (
        #[trigger] rest[j]).id by {
            assert(rest[i] == profiles[i + 1] && rest[j] == profiles[j + 1]);
        }
        assert(rest[k - 1] == profiles[k]);
        lemma_found(rest, k - 1);
    }
}

/// The words of the settings: each format of a date and each way to settle a collision has its
/// own, and no other word has one.
pub proof fn settings_are_named_by_their_words(name: Seq<char>)
    ensures
        date_format_named("iso"@) == Some(DateFormat::Iso),
        date_format_named("compact"@) == Some(DateFormat::Compact),
        date_format_named("year_month"@) == Some(DateFormat::YearMonth),
        date_format_named(name) is Some ==> name == "iso"@ || name == "compact"@ || name
            == "year_month"@,
        strategy_named("reject"@) == Some(CollisionStrategy::Reject),
        strategy_named("suffix"@) == Some(CollisionStrategy::Suffix),
        strategy_named("merge"@) == Some(CollisionStrategy::Merge),
        strategy_named(name) is Some ==> name == "reject"@ || name == "suffix"@ || name == "merge"@,
{
    reveal_strlit("iso");
    reveal_strlit("compact");
    reveal_strlit("year_month");
    reveal_strlit("reject");
    reveal_strlit("suffix");
    reveal_strlit("merge");
    assert("iso"@.len() == 3 && "compact"@.len() == 7 && "year_month"@.len() == 10);
    assert("reject"@[0] == 'r' && "suffix"@[0] == 's' && "merge"@[0] == 'm');
}

/// The name of a profile has one to sixty-four characters: letters, digits, underscores and
/// hyphens. What it is put together from is such a name itself.
pub proof fn names_of_profiles_are_plain(s: Seq<char>, i: int)
    ensures
        profile_id(s) ==> 1 <= s.len() <= 64,
        profile_id(s) && 0 <= i < s.len() ==> {
            let c = s[i] as int;
            97 <= c <= 122 || 65 <= c <= 90 || 48 <= c <= 57 || c == 95 || c == 45
        },
        1 <= s.len() <= 64 && (forall|k: int|
            0 <= k < s.len() ==> {
                let c = (#[trigger] s[k]) as int;
                97 <= c <= 122 || 65 <= c <= 90 || 48 <= c <= 57 || c == 95 || c == 45
            }) ==> profile_id(s),
{
    if profile_id(s) && 0 <= i < s.len() {
        assert(crate::archive_format::id_char(s[i]));
    }
}

}
