//! What is promised of searching, checking and unpacking archives.

use vstd::prelude::*;
use crate::archive_ops::{
    bad_entry_path, candidates, crossed, extension_of, first_file, known_after, new_folder_name,
    package_places, password_error, path_names, stem_end, stem_of, target_dir_of, try_name,
    visible, visible_count, FolderEntry, KnownView, Platform,
};
use crate::dimensions::jpeg_name;
use crate::folder_archive::path_joined;
use crate::text::{contains_text, decimal, lower, trimmed, white_space};

verus! {

/// Where the last full stop of a name is.
proof fn lemma_last_stop(stem: Seq<char>, rest: Seq<char>)
    requires
        stem.len() > 0,
        !rest.contains('.'),
    ensures
        stem_end(stem + seq!['.'] + rest) == Some(stem.len() as int),
    decreases rest.len(),
{
    let name = stem + seq!['.'] + rest;
    if rest.len() > 0 {
        assert(rest.contains(rest.last()));
        assert(name.last() == rest.last());
        assert(name.drop_last() =~= stem + seq!['.'] + rest.drop_last());
        assert(!rest.drop_last().contains('.')) by {
            if rest.drop_last().contains('.') {
                let i = rest.drop_last().index_of('.');
                assert(rest[i] == '.');
            }
        }
        lemma_last_stop(stem, rest.drop_last());
    } else {
        assert(name.last() == '.');
    }
}

/// A name without a full stop behind its first character has no extension.
proof fn lemma_no_stop(name: Seq<char>)
    requires
        forall|i: int| 1 <= i < name.len() ==> #[trigger] name[i] != '.',
    ensures
        stem_end(name) is None,
    decreases name.len(),
{
    if name.len() > 1 {
        assert(name[name.len() - 1] != '.');
        let d = name.drop_last();
        assert forall|i: int| 1 <= i < d.len() implies #[trigger] d[i] != '.' by {
            assert(d[i] == name[i]);
        }
        lemma_no_stop(d);
    }
}

/// A name is parted at its last full stop: what stands in front is its stem, and the full stop
/// with what stands behind is its extension. A full stop at the front parts nothing.
pub proof fn names_are_parted_at_the_last_stop(
    stem: Seq<char>,
    rest: Seq<char>,
    plain: Seq<char>,
)
    requires
        stem.len() > 0,
        stem != "."@,
        !rest.contains('.'),
        forall|i: int| 1 <= i < plain.len() ==> #[trigger] plain[i] != '.',
    ensures
        stem_of(stem + seq!['.'] + rest) == stem,
        extension_of(stem + seq!['.'] + rest) == seq!['.'] + rest,
        stem_of(plain) == plain,
        extension_of(plain).len() == 0,
{
    reveal_strlit(".");
    reveal_strlit("..");
    let name = stem + seq!['.'] + rest;
    lemma_last_stop(stem, rest);
    if name == ".."@ {
        assert(stem.len() == 1);
        assert(name[0] == stem[0]);
        assert(stem =~= "."@);
    }
    assert(name.take(stem.len() as int) =~= stem);
    assert(name.skip(stem.len() as int) =~= seq!['.'] + rest);
    lemma_no_stop(plain);
    if plain == ".."@ {
        assert(plain[1] == '.');
    }
}

/// A photograph is told by its extension, without regard to case.
pub proof fn photographs_are_told_by_extension(stem: Seq<char>, rest: Seq<char>)
    requires
        stem.len() > 0,
        stem != "."@,
        !rest.contains('.'),
    ensures
        jpeg_name(stem + seq!['.'] + rest) <==> lower(rest) == "jpg"@ || lower(rest) == "jpeg"@,
{
    reveal_strlit("jpg");
    reveal_strlit("jpeg");
    reveal_strlit(".jpg");
    reveal_strlit(".jpeg");
    names_are_parted_at_the_last_stop(stem, rest, Seq::empty());
    let ext = seq!['.'] + rest;
    assert(lower(ext) =~= seq!['.'] + lower(rest));
    assert(".jpg"@ =~= seq!['.'] + "jpg"@);
    assert(".jpeg"@ =~= seq!['.'] + "jpeg"@);
    if lower(ext) == ".jpg"@ {
        assert(lower(rest) =~= lower(ext).skip(1));
        assert(".jpg"@.skip(1) =~= "jpg"@);
    }
    if lower(ext) == ".jpeg"@ {
        assert(lower(rest) =~= lower(ext).skip(1));
        assert(".jpeg"@.skip(1) =~= "jpeg"@);
    }
}

/// A search ends at the first place where the program is.
pub proof fn searches_end_at_the_first_file(paths: Seq<Seq<char>>, is_file: Seq<bool>, k: int)
    requires
        paths.len() == is_file.len(),
        0 <= k <= paths.len(),
        forall|i: int| 0 <= i < k ==> !#[trigger] is_file[i],
        k < paths.len() ==> is_file[k],
    ensures
        known_after(KnownView::Unknown, paths, is_file) == if k < paths.len() {
            KnownView::At(paths[k])
        } else {
            KnownView::Missing
        },
    decreases k,
{
    lemma_first_file(paths, is_file, k);
}

/// The first place where the program is.
proof fn lemma_first_file(paths: Seq<Seq<char>>, is_file: Seq<bool>, k: int)
    requires
        paths.len() == is_file.len(),
        0 <= k <= paths.len(),
        forall|i: int| 0 <= i < k ==> !#[trigger] is_file[i],
        k < paths.len() ==> is_file[k],
    ensures
        first_file(paths, is_file) == if k < paths.len() {
            Some(paths[k])
        } else {
            None
        },
    decreases k,
{
    if k > 0 {
        assert(!is_file[0]);
        let (p, f) = (paths.skip(1), is_file.skip(1));
        assert forall|i: int| 0 <= i < k - 1 implies !#[trigger] f[i] by {
            assert(f[i] == is_file[i + 1]);
        }
        if k < paths.len() {
            assert(f[k - 1] == is_file[k] && p[k - 1] == paths[k]);
        }
        lemma_first_file(p, f, k - 1);
    }
}

/// The program that is named is looked at first, then the one beside the running program, and
/// the folders of the search path last, each with the usual names of the program in turn.
pub proof fn named_programs_are_tried_first(
    named: Seq<char>,
    dir: Seq<char>,
    bases: Seq<Seq<char>>,
    path_dirs: Seq<Seq<char>>,
    last: Seq<char>,
    other: Option<Seq<char>>,
)
    ensures
        candidates(Platform::Unix, Some(named), other, bases, path_dirs)[0] == named,
        candidates(Platform::Windows, Some(named), other, bases, path_dirs)[0] == named,
        candidates(Platform::Unix, None, Some(dir), bases, path_dirs)[0] == path_joined(
            dir,
            "7zz"@,
        ),
        candidates(Platform::Windows, None, Some(dir), bases, path_dirs)[0] == path_joined(
            dir,
            "7z.exe"@,
        ),
        candidates(Platform::Unix, None, None, Seq::empty(), Seq::empty()).len() == 0,
        ({
            let all = candidates(Platform::Unix, None, None, Seq::empty(), path_dirs.push(last));
            let before = candidates(Platform::Unix, None, None, Seq::empty(), path_dirs);
            all == before + seq![
                path_joined(last, "7zz"@),
                path_joined(last, "7z"@),
                path_joined(last, "7za"@),
            ]
        }),
{
    assert(crossed(Seq::empty(), package_places(Platform::Unix)) =~= Seq::<Seq<char>>::empty());
    assert(crossed(Seq::empty(), path_names(Platform::Unix)) =~= Seq::<Seq<char>>::empty());
    assert(path_dirs.push(last).drop_last() =~= path_dirs);
    let added = path_names(Platform::Unix).map_values(|p: Seq<char>| path_joined(last, p));
    assert(added =~= seq![
        path_joined(last, "7zz"@),
        path_joined(last, "7z"@),
        path_joined(last, "7za"@),
    ]);
    assert(crossed(path_dirs.push(last), path_names(Platform::Unix)) == crossed(
        path_dirs,
        path_names(Platform::Unix),
    ) + added);
    let all = candidates(Platform::Unix, None, None, Seq::empty(), path_dirs.push(last));
    let before = candidates(Platform::Unix, None, None, Seq::empty(), path_dirs);
    assert(all =~= before + added);
}

/// What the program says of a password is heard wherever it says it.
pub proof fn password_messages_are_heard(front: Seq<char>, back: Seq<char>)
    ensures
        password_error(front + "Wrong password"@ + back),
        password_error(front + "Cannot open encrypted archive"@ + back),
        password_error(front + "Enter password"@ + back),
        !password_error(Seq::empty()),
{
    crate::text_laws::parts_are_found(front, "Wrong password"@, back);
    crate::text_laws::parts_are_found(front, "Cannot open encrypted archive"@, back);
    crate::text_laws::parts_are_found(front, "Enter password"@, back);
    reveal_strlit("Wrong password");
    reveal_strlit("Cannot open encrypted archive");
    reveal_strlit("Enter password");
    let none = Seq::<char>::empty();
    crate::text_laws::found_parts_are_there(none, "Wrong password"@);
    crate::text_laws::found_parts_are_there(none, "Cannot open encrypted archive"@);
    crate::text_laws::found_parts_are_there(none, "Enter password"@);
}

/// An entry that goes up, begins at the root or names a drive is refused, wherever in its path
/// that stands.
pub proof fn escaping_entries_are_refused(front: Seq<char>, back: Seq<char>)
    ensures
        bad_entry_path(front + ".."@ + back),
        bad_entry_path(seq!['/'] + back),
        bad_entry_path(front + seq![':'] + back),
{
    crate::text_laws::parts_are_found(front, ".."@, back);
    let t = front + seq![':'] + back;
    assert(t[front.len() as int] == ':');
}

/// An entry of plain names with at most one full stop in a row is accepted.
pub proof fn plain_entries_are_accepted(path: Seq<char>)
    requires
        path.len() > 0,
        path[0] != '/',
        forall|i: int| 0 <= i < path.len() ==> #[trigger] path[i] != ':',
        forall|i: int| 0 <= i < path.len() - 1 && path[i] == '.' ==> #[trigger] path[i + 1] != '.',
    ensures
        !bad_entry_path(path),
{
    if contains_text(path, ".."@) {
        reveal_strlit("..");
        crate::text_laws::found_parts_are_there(path, ".."@);
        let i = choose|i: int|
            0 <= i && i + ".."@.len() <= path.len() && #[trigger] path.subrange(i, i + ".."@.len())
                == ".."@;
        assert(path.subrange(i, i + 2)[0] == path[i] && path.subrange(i, i + 2)[1] == path[i + 1]);
    }
}

/// An archive is unpacked beside itself, unless a new folder is asked for: that is named as
/// was asked, or as the archive is.
pub proof fn new_folders_are_named_as_asked(
    parent: Seq<char>,
    stem: Seq<char>,
    name: Seq<char>,
    mode: Seq<char>,
)
    requires
        plain_folder_name(stem),
        plain_folder_name(name),
    ensures
        target_dir_of(parent, stem, "new_folder"@, Some(name)) == path_joined(parent, name),
        target_dir_of(parent, stem, "new_folder"@, None) == path_joined(parent, stem),
        target_dir_of(parent, stem, "new_folder"@, Some(Seq::empty())) == path_joined(parent, stem),
        mode != "new_folder"@ ==> target_dir_of(parent, stem, mode, Some(name)) == parent,
{
    lemma_plain_folder(stem);
    lemma_plain_folder(name);
    crate::text_laws::white_texts_are_trimmed_away(Seq::empty());
    assert(new_folder_name(stem, None) == stem);
    assert(new_folder_name(stem, Some(name)) == name);
}

/// Whether a folder name needs no change: it is not empty, begins and ends without white
/// space, and has none of the characters that separate or match names.
pub open spec fn plain_folder_name(s: Seq<char>) -> bool {
    &&& s.len() > 0
    &&& !white_space(s[0])
    &&& !white_space(s.last())
    &&& forall|i: int|
        0 <= i < s.len() ==> {
            let c = #[trigger] s[i];
            c != '/' && c != '\\' && c != ':' && c != '*' && c != '?' && c != '"' && c != '<' && c
                != '>' && c != '|'
        }
}

/// A plain folder name stays as it is.
proof fn lemma_plain_folder(s: Seq<char>)
    requires
        plain_folder_name(s),
    ensures
        new_folder_name(s, None) == s,
        new_folder_name(s, Some(s)) == s,
        trimmed(s) == s,
{
    crate::text::lemma_trim_fixed(s, crate::text::CharClass::White);
    let mapped = s.map_values(
        |c: char|
            if crate::archive_ops::unsafe_in_folder(c) {
                '_'
            } else {
                c
            },
    );
    assert(mapped =~= s);
}

/// A file whose name is taken gets a number in brackets between its stem and its extension.
pub proof fn taken_names_are_numbered(stem: Seq<char>, rest: Seq<char>, n: nat)
    requires
        stem.len() > 0,
        stem != "."@,
        !rest.contains('.'),
    ensures
        try_name(stem + seq!['.'] + rest, 0) == stem + seq!['.'] + rest,
        n > 0 ==> try_name(stem + seq!['.'] + rest, n) == stem + " ("@ + decimal(n) + ")."@ + rest,
{
    reveal_strlit(")");
    reveal_strlit(").");
    names_are_parted_at_the_last_stop(stem, rest, Seq::empty());
    assert(stem + " ("@ + decimal(n) + ")"@ + (seq!['.'] + rest) =~= stem + " ("@ + decimal(n)
        + ")."@ + rest);
}

/// Different numbers give different names.
pub proof fn numbered_names_differ(name: Seq<char>, a: nat, b: nat)
    requires
        a != b,
        a > 0,
        b > 0,
    ensures
        try_name(name, a) != try_name(name, b),
{
    let (x, y) = (try_name(name, a), try_name(name, b));
    let (stem, ext) = (stem_of(name), extension_of(name));
    if x == y {
        let (p, q) = (decimal(a), decimal(b));
        assert(x.len() == stem.len() + " ("@.len() + p.len() + ")"@.len() + ext.len());
        assert(y.len() == stem.len() + " ("@.len() + q.len() + ")"@.len() + ext.len());
        assert(p.len() == q.len());
        let k = stem.len() + " ("@.len();
        assert(x.subrange(k as int, (k + p.len()) as int) =~= p);
        assert(y.subrange(k as int, (k + q.len()) as int) =~= q);
        crate::text::lemma_decimal_value(a);
        crate::text::lemma_decimal_value(b);
    }
}

/// Entries whose names begin with a full stop are not counted, and all others are.
pub proof fn hidden_entries_are_not_counted(entries: Seq<FolderEntry>, e: FolderEntry)
    ensures
        visible_count(Seq::empty()) == 0,
        visible_count(entries.push(e)) == visible_count(entries) + if e.name@.len() > 0
            && e.name@[0] == '.' {
            0int
        } else {
            1
        },
{
    assert(entries.push(e).drop_last() =~= entries);
    assert(visible(e) == !(e.name@.len() > 0 && e.name@[0] == '.'));
}

}
