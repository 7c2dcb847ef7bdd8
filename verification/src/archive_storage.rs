//! Settings that are stored and read again.

use vstd::prelude::*;
use crate::archive_format::{
    choices, date_format_named, each_once, has_control, has_profile, id_char, lemma_choice_found,
    lemma_profiles_well_formed, lemma_safe_name, normalized_choices, normalized_profile,
    normalized_profiles, normalized_settings, optional_text, profile_docs, profile_id, profile_tree,
    required_text, safe_name, sanitized, settings_tree, strategy_named, text_tree, unsafe_in_name,
    usable_name, CollisionStrategy, DateFormat, ProfileView, SettingsView, MAX_TOKEN_VALUE_LEN,
    SETTINGS_VERSION,
};
use crate::json::{member, JsonTree};
use crate::text::{
    control, decimal, decimal_int, lemma_decimal_value, lemma_trim_fixed, parsed_within, trimmed,
    white_space, CharClass,
};

verus! {

/// The member at a place, where no member before it has its key.
proof fn lemma_member_at(members: Seq<(Seq<char>, JsonTree)>, key: Seq<char>, n: int)
    requires
        0 <= n < members.len(),
        members[n].0 == key,
        forall|j: int| 0 <= j < n ==> (#[trigger] members[j]).0 != key,
    ensures
        member(members, key) == Some(members[n].1),
    decreases n,
{
    if n > 0 {
        let rest = members.skip(1);
        assert(members[0].0 != key);
        assert forall|j: int| 0 <= j < n - 1 implies (#[trigger] rest[j]).0 != key by {
            assert(rest[j] == members[j + 1]);
        }
        lemma_member_at(rest, key, n - 1);
    }
}

/// The keys of a profile are different.
proof fn lemma_profile_keys()
    ensures
        "id"@.len() == 2,
        "name"@.len() == 4,
        "template"@.len() == 8,
        "empty_value"@.len() == 11,
        "tag_separator"@.len() == 13,
        "date_format"@.len() == 11,
        "collision_strategy"@.len() == 18,
        "empty_value"@ != "date_format"@,
{
    reveal_strlit("id");
    reveal_strlit("name");
    reveal_strlit("template");
    reveal_strlit("empty_value");
    reveal_strlit("tag_separator");
    reveal_strlit("date_format");
    reveal_strlit("collision_strategy");
    assert("empty_value"@[0] == 'e' && "date_format"@[0] == 'd');
}

/// The members of the document of a profile.
proof fn lemma_profile_members(p: ProfileView)
    ensures
        profile_tree(p).get("id"@) == Some(text_tree(p.id)),
        profile_tree(p).get("name"@) == Some(text_tree(p.name)),
        profile_tree(p).get("template"@) == Some(text_tree(p.template)),
        profile_tree(p).get("empty_value"@) == Some(text_tree(p.empty_value)),
        profile_tree(p).get("tag_separator"@) == Some(text_tree(p.tag_separator)),
        profile_tree(p).get("date_format"@) == Some(text_tree(p.date_format.spelled())),
        profile_tree(p).get("collision_strategy"@) == Some(
            text_tree(p.collision_strategy.spelled()),
        ),
{
    lemma_profile_keys();
    let members = profile_tree(p)->Object_0;
    lemma_member_at(members, "id"@, 0);
    lemma_member_at(members, "name"@, 1);
    lemma_member_at(members, "template"@, 2);
    lemma_member_at(members, "empty_value"@, 3);
    lemma_member_at(members, "tag_separator"@, 4);
    lemma_member_at(members, "date_format"@, 5);
    lemma_member_at(members, "collision_strategy"@, 6);
}

/// A word of lower-case letters and underscores is plain: it has no control
/// characters and nothing to trim.
proof fn lemma_plain_word(s: Seq<char>)
    requires
        s.len() > 0,
        forall|i: int| 0 <= i < s.len() ==> 'a' <= (#[trigger] s[i]) <= 'z' || s[i] == '_',
    ensures
        !has_control(s),
        trimmed(s) == s,
{
    assert(!white_space(s[0]));
    assert(!white_space(s[s.len() - 1]));
    lemma_trim_fixed(s, CharClass::White);
}

/// The words for date formats are plain and known again.
proof fn lemma_date_words(f: DateFormat)
    ensures
        f.spelled().len() <= 32,
        !has_control(f.spelled()),
        trimmed(f.spelled()) == f.spelled(),
        date_format_named(f.spelled()) == Some(f),
{
    reveal_strlit("iso");
    reveal_strlit("compact");
    reveal_strlit("year_month");
    let (a, b, c) = ("iso"@, "compact"@, "year_month"@);
    assert(a.len() == 3 && b.len() == 7 && c.len() == 10);
    assert(a[0] == 'i' && a[1] == 's' && a[2] == 'o');
    assert(b[0] == 'c' && b[1] == 'o' && b[2] == 'm' && b[3] == 'p' && b[4] == 'a' && b[5] == 'c'
        && b[6] == 't');
    assert(c[0] == 'y' && c[1] == 'e' && c[2] == 'a' && c[3] == 'r' && c[4] == '_' && c[5] == 'm'
        && c[6] == 'o' && c[7] == 'n' && c[8] == 't' && c[9] == 'h');
    lemma_plain_word(f.spelled());
}

/// The words for collision strategies are plain and known again.
proof fn lemma_strategy_words(c: CollisionStrategy)
    ensures
        c.spelled().len() <= 32,
        !has_control(c.spelled()),
        trimmed(c.spelled()) == c.spelled(),
        strategy_named(c.spelled()) == Some(c),
{
    reveal_strlit("reject");
    reveal_strlit("suffix");
    reveal_strlit("merge");
    let (x, y, z) = ("reject"@, "suffix"@, "merge"@);
    assert(x.len() == 6 && y.len() == 6 && z.len() == 5);
    assert(x[0] == 'r' && x[1] == 'e' && x[2] == 'j' && x[3] == 'e' && x[4] == 'c' && x[5] == 't');
    assert(y[0] == 's' && y[1] == 'u' && y[2] == 'f' && y[3] == 'f' && y[4] == 'i' && y[5] == 'x');
    assert(z[0] == 'm' && z[1] == 'e' && z[2] == 'r' && z[3] == 'g' && z[4] == 'e');
    lemma_plain_word(c.spelled());
}

/// A name without unsafe characters, of limited length, with nothing to trim at
/// its ends, is its own safe name.
proof fn lemma_safe_name_fixed(v: Seq<char>)
    requires
        v.len() > 0,
        v.len() <= MAX_TOKEN_VALUE_LEN,
        forall|i: int| 0 <= i < v.len() ==> !unsafe_in_name(#[trigger] v[i]),
        v[0] != ' ' && v[0] != '.' && v.last() != ' ' && v.last() != '.',
        trimmed(v) == v,
    ensures
        safe_name(v) == v,
{
    let clean = v.map_values(
        |c: char|
            if unsafe_in_name(c) {
                '_'
            } else {
                c
            },
    );
    assert(clean =~= v);
    lemma_trim_fixed(v, CharClass::SpaceDot);
}

/// The word for a missing value is its own safe name.
proof fn lemma_untitled()
    ensures
        "untitled"@.len() == 8,
        safe_name("untitled"@) == "untitled"@,
        trimmed("untitled"@) == "untitled"@,
        usable_name("untitled"@),
{
    reveal_strlit("untitled");
    let u = "untitled"@;
    assert(u[0] == 'u' && u[1] == 'n' && u[2] == 't' && u[3] == 'i' && u[4] == 't' && u[5] == 'l'
        && u[6] == 'e' && u[7] == 'd');
    lemma_plain_word(u);
    lemma_safe_name_fixed(u);
    crate::archive_format::lemma_plain_name_is_free(u);
}

/// The value for missing parts of a validated profile is its own normal form.
proof fn lemma_empty_value_fixed(empty: Seq<char>)
    requires
        empty.len() <= 80,
        trimmed(sanitized(empty, "untitled"@)) == sanitized(empty, "untitled"@),
    ensures
        ({
            let v = sanitized(empty, "untitled"@);
            &&& v.len() <= 80
            &&& !has_control(v)
            &&& sanitized(v, "untitled"@) == v
        }),
{
    lemma_untitled();
    let v = sanitized(empty, "untitled"@);
    crate::archive_format::token_values_are_safe(empty, "untitled"@);
    lemma_safe_name(empty);
    assert(!has_control(v)) by {
        assert forall|i: int| 0 <= i < v.len() implies !control(#[trigger] v[i]) by {
            assert(!unsafe_in_name(v[i]));
        }
    }
    lemma_safe_name_fixed(v);
    if usable_name(safe_name(empty)) {
        let t = trimmed(empty);
        crate::text::lemma_trim_ends(empty, CharClass::White);
        let cut = if t.len() > MAX_TOKEN_VALUE_LEN {
            t.take(MAX_TOKEN_VALUE_LEN as int)
        } else {
            t
        };
        let clean = cut.map_values(
            |c: char|
                if unsafe_in_name(c) {
                    '_'
                } else {
                    c
                },
        );
        crate::text::lemma_trim_ends(clean, CharClass::SpaceDot);
    }
}

/// A validated profile is read back from its own document as it is. A value for
/// missing parts that ends in white space other than spaces, which only a full
/// stop behind it can leave there, is the exception.
pub proof fn stored_profiles_read_back(doc: JsonTree)
    requires
        normalized_profile(doc) is Ok,
        trimmed(normalized_profile(doc)->Ok_0.empty_value) == normalized_profile(
            doc,
        )->Ok_0.empty_value,
    ensures
        normalized_profile(profile_tree(normalized_profile(doc)->Ok_0)) == normalized_profile(doc),
{
    let p = normalized_profile(doc)->Ok_0;
    let again = profile_tree(p);
    lemma_profile_members(p);
    lemma_date_words(p.date_format);
    lemma_strategy_words(p.collision_strategy);
    crate::text::lemma_trim_idempotent(doc.get("id"@)->Some_0->Text_0, CharClass::White);
    crate::text::lemma_trim_idempotent(doc.get("name"@)->Some_0->Text_0, CharClass::White);
    crate::text::lemma_trim_idempotent(doc.get("template"@)->Some_0->Text_0, CharClass::White);
    let empty = optional_text(doc, "empty_value"@, "untitled"@, 80)->Ok_0;
    lemma_untitled();
    lemma_empty_value_fixed(empty);
    match doc.get("tag_separator"@) {
        Some(JsonTree::Text(s)) => {
            crate::text::lemma_trim_idempotent(s, CharClass::White);
        },
        _ => {
            reveal_strlit("&");
            let t = "&"@;
            assert(t.len() == 1 && t[0] == '&');
            assert(!control('&'));
            assert(!has_control(t));
            lemma_trim_fixed(t, CharClass::White);
        },
    }
    assert(required_text(again, "id"@, 64) == Ok::<Seq<char>, Seq<char>>(p.id));
    assert(optional_text(again, "tag_separator"@, "&"@, 32) == Ok::<Seq<char>, Seq<char>>(
        p.tag_separator,
    ));
    assert(optional_text(again, "empty_value"@, "untitled"@, 80) == Ok::<Seq<char>, Seq<char>>(
        p.empty_value,
    ));
}

/// Validated profiles are read back from their own documents as they are.
proof fn lemma_profiles_read_back(docs: Seq<JsonTree>)
    requires
        normalized_profiles(docs) is Ok,
        forall|i: int|
            0 <= i < normalized_profiles(docs)->Ok_0.len() ==> trimmed(
                (#[trigger] normalized_profiles(docs)->Ok_0[i]).empty_value,
            ) == normalized_profiles(docs)->Ok_0[i].empty_value,
    ensures
        normalized_profiles(
            normalized_profiles(docs)->Ok_0.map_values(|p: ProfileView| profile_tree(p)),
        ) == normalized_profiles(docs),
    decreases docs.len(),
{
    let profiles = normalized_profiles(docs)->Ok_0;
    let again = profiles.map_values(|p: ProfileView| profile_tree(p));
    if docs.len() == 0 {
        assert(again =~= Seq::<JsonTree>::empty());
    } else {
        let before = normalized_profiles(docs.drop_last())->Ok_0;
        let last = normalized_profile(docs.last())->Ok_0;
        assert(profiles == before.push(last));
        assert forall|i: int| 0 <= i < before.len() implies trimmed(
            (#[trigger] before[i]).empty_value,
        ) == before[i].empty_value by {
            assert(profiles[i] == before[i]);
        }
        lemma_profiles_read_back(docs.drop_last());
        assert(profiles[profiles.len() - 1] == last);
        stored_profiles_read_back(docs.last());
        assert(again.drop_last() =~= before.map_values(|p: ProfileView| profile_tree(p)));
        assert(again.last() == profile_tree(last));
    }
}

/// A well-formed id has nothing to trim.
proof fn lemma_id_is_plain(id: Seq<char>)
    requires
        profile_id(id),
    ensures
        trimmed(id) == id,
{
    assert(id_char(id[0]));
    assert(id_char(id[id.len() - 1]));
    lemma_trim_fixed(id, CharClass::White);
}

/// Validated choices are choices of artists, and their ids are well-formed and
/// known.
proof fn lemma_choices_are_plain(
    members: Seq<(Seq<char>, JsonTree)>,
    profiles: Seq<ProfileView>,
    artist: int,
)
    requires
        normalized_choices(members, profiles) is Ok,
        normalized_choices(members, profiles)->Ok_0.dom().contains(artist),
    ensures
        1 <= artist <= i64::MAX,
        profile_id(normalized_choices(members, profiles)->Ok_0[artist]),
        has_profile(profiles, normalized_choices(members, profiles)->Ok_0[artist]),
    decreases members.len(),
{
    if members.len() > 0 {
        let d = members.drop_last();
        let before = normalized_choices(d, profiles)->Ok_0;
        if before.dom().contains(artist) {
            lemma_choices_are_plain(d, profiles, artist);
        }
    }
}

/// The choices that a list of pairs makes are read back from its document.
proof fn lemma_choices_read_back(
    pairs: Seq<(i64, String)>,
    profiles: Seq<ProfileView>,
)
    requires
        forall|i: int|
            0 <= i < pairs.len() ==> (#[trigger] pairs[i]).0 >= 1 && profile_id(pairs[i].1@)
                && has_profile(profiles, pairs[i].1@),
    ensures
        normalized_choices(
            pairs.map_values(|c: (i64, String)| (decimal_int(c.0 as int), text_tree(c.1@))),
            profiles,
        ) == Ok::<Map<int, Seq<char>>, Seq<char>>(choices(pairs)),
    decreases pairs.len(),
{
    let written = |c: (i64, String)| (decimal_int(c.0 as int), text_tree(c.1@));
    let members = pairs.map_values(written);
    if pairs.len() > 0 {
        let d = pairs.drop_last();
        assert forall|i: int| 0 <= i < d.len() implies (#[trigger] d[i]).0 >= 1 && profile_id(
            d[i].1@,
        ) && has_profile(profiles, d[i].1@) by {
            assert(pairs[i] == d[i]);
        }
        lemma_choices_read_back(d, profiles);
        assert(members.drop_last() =~= d.map_values(written));
        let last = pairs[pairs.len() - 1];
        assert(members.last() == written(last));
        let n = last.0;
        lemma_decimal_value(n as nat);
        let text = decimal(n as nat);
        assert(crate::text::digit(text[0]));
        assert(parsed_within(text, true, 1, i64::MAX as int) == Some(n as int));
        lemma_id_is_plain(last.1@);
    }
}

/// The members of the document of settings.
proof fn lemma_settings_members(
    active: Seq<char>,
    profiles: Seq<ProfileView>,
    pairs: Seq<(i64, String)>,
)
    ensures
        ({
            let doc = settings_tree(active, profiles, pairs);
            &&& doc.get("version"@) == Some(JsonTree::Int(SETTINGS_VERSION))
            &&& doc.get("active_profile_id"@) == Some(text_tree(active))
            &&& doc.get("profiles"@) == Some(
                JsonTree::Array(profiles.map_values(|p: ProfileView| profile_tree(p))),
            )
            &&& doc.get("artist_profile_ids"@) == Some(
                JsonTree::Object(
                    pairs.map_values(
                        |c: (i64, String)| (decimal_int(c.0 as int), text_tree(c.1@)),
                    ),
                ),
            )
        }),
{
    reveal_strlit("version");
    reveal_strlit("active_profile_id");
    reveal_strlit("default_profile_id");
    reveal_strlit("profiles");
    reveal_strlit("artist_profile_ids");
    assert("version"@.len() == 7 && "active_profile_id"@.len() == 17 && "default_profile_id"@.len()
        == 18 && "profiles"@.len() == 8 && "artist_profile_ids"@.len() == 18);
    assert("default_profile_id"@[0] == 'd' && "artist_profile_ids"@[0] == 'a');
    let members = settings_tree(active, profiles, pairs)->Object_0;
    lemma_member_at(members, "version"@, 0);
    lemma_member_at(members, "active_profile_id"@, 1);
    lemma_member_at(members, "profiles"@, 3);
    lemma_member_at(members, "artist_profile_ids"@, 4);
}

/// What is read of stored settings is what was stored: validated settings are
/// read back from their own document as they are, with the exception that
/// [`stored_profiles_read_back`] names. `pairs` lists the choices of the artists.
pub proof fn stored_settings_read_back(doc: JsonTree, pairs: Seq<(i64, String)>)
    requires
        normalized_settings(doc) is Ok,
        each_once(pairs),
        choices(pairs) == normalized_settings(doc)->Ok_0.artist_profile_ids,
        forall|i: int|
            0 <= i < normalized_settings(doc)->Ok_0.profiles.len() ==> trimmed(
                (#[trigger] normalized_settings(doc)->Ok_0.profiles[i]).empty_value,
            ) == normalized_settings(doc)->Ok_0.profiles[i].empty_value,
    ensures
        ({
            let s = normalized_settings(doc)->Ok_0;
            normalized_settings(settings_tree(s.active_profile_id, s.profiles, pairs)) == Ok::<
                SettingsView,
                Seq<char>,
            >(s)
        }),
{
    let s = normalized_settings(doc)->Ok_0;
    let again = settings_tree(s.active_profile_id, s.profiles, pairs);
    lemma_settings_members(s.active_profile_id, s.profiles, pairs);
    let docs = profile_docs(doc)->Some_0;
    lemma_profiles_well_formed(docs);
    lemma_profiles_read_back(docs);
    let members = crate::archive_format::choice_members(doc)->Some_0;
    assert forall|i: int| 0 <= i < pairs.len() implies (#[trigger] pairs[i]).0 >= 1 && profile_id(
        pairs[i].1@,
    ) && has_profile(s.profiles, pairs[i].1@) by {
        lemma_choice_found(pairs, i);
        lemma_choices_are_plain(members, s.profiles, pairs[i].0 as int);
    }
    lemma_choices_read_back(pairs, s.profiles);
    lemma_id_is_plain(s.active_profile_id);
    let written = s.profiles.map_values(|p: ProfileView| profile_tree(p));
    assert(profile_docs(again) == Some(written));
    assert(written.len() == docs.len());
}

}
