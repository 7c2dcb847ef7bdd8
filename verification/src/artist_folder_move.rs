//! Moving an artist's folder to another place below the media roots.

use vstd::prelude::*;
use crate::archive_format::agrees;
use crate::folder_archive::dot_part;
use crate::json::{entry, entry_views, number, object, text_member, Json, JsonTree};
use crate::names::{lowercased_all, order_names, ordered_by};
use crate::path_conflicts::{
    conflict_views, conflicts, file_total, indexed_conflicts, item_summary, size_total,
    IndexedArtist, IndexedItem, PathConflict,
};
use crate::paths::{
    deepest, deepest_root, nearest_accepted, nearest_is_accepted, normalize_slashes, qualifies,
    root_views, AncestorProbe,
};
use crate::text::{
    chars_of, decimal, has_char, has_prefix, replace_char, replaced, same_chars, same_text, split,
    split_chars, starts_with, sub_chars, text_of, texts, trim_chars, trim_of, trimmed, CharClass,
};

verus! {

/// Whether any piece of a path is empty, `.` or `..`.
pub open spec fn has_bad_piece(pieces: Seq<Seq<char>>) -> bool {
    exists|i: int|
        0 <= i < pieces.len() && ((#[trigger] pieces[i]).len() == 0 || dot_part(pieces[i]))
}

/// Whether any piece of a path is empty, `.` or `..`.
fn any_bad_piece(pieces: &[String]) -> (r: bool)
    ensures
        r == has_bad_piece(texts(pieces@)),
{
    let ghost all = texts(pieces@);
    let mut i: usize = 0;
    while i < pieces.len()
        invariant
            i <= pieces@.len(),
            all == texts(pieces@),
            forall|j: int| 0 <= j < i ==> (#[trigger] all[j]).len() > 0 && !dot_part(all[j]),
        decreases pieces@.len() - i,
    {
        assert(all[i as int] == pieces@[i as int]@);
        if pieces[i].as_str().is_empty() || same_text(&pieces[i], ".") || same_text(
            &pieces[i],
            "..",
        ) {
            assert(all[i as int].len() == 0 || dot_part(all[i as int]));
            return true;
        }
        i += 1;
    }
    false
}

/// The outcome of checking a destination: a relative folder without a colon, an
/// empty piece, `.` or `..`.
pub open spec fn checked_destination(raw: Seq<char>) -> Result<Seq<char>, Seq<char>> {
    let value = trimmed(replaced(raw, '\\', '/'));
    let inner = trim_of(value, CharClass::Slash);
    if value.len() == 0 || value[0] == '/' || value.contains(':') {
        Err("destination folder must be relative"@)
    } else if has_bad_piece(split(inner, '/')) {
        Err("destination folder contains an invalid segment"@)
    } else {
        Ok(inner)
    }
}

/// Checks a destination folder.
pub fn validate_relative_destination(raw: &str) -> (r: Result<String, String>)
    ensures
        agrees(r, checked_destination(raw@)),
{
    let slashed = replace_char(&chars_of(raw), '\\', '/');
    let value = trim_chars(&slashed, CharClass::White);
    if value.len() == 0 || value[0] == '/' || has_char(&value, ':') {
        return Err("destination folder must be relative".to_owned());
    }
    let inner = trim_chars(&value, CharClass::Slash);
    let pieces = split_chars(&inner, '/');
    if any_bad_piece(&pieces) {
        return Err("destination folder contains an invalid segment".to_owned());
    }
    Ok(text_of(&inner))
}

/// The outcome of checking a folder that is to be listed: as a destination, but
/// the root itself is accepted.
pub open spec fn checked_directory(raw: Seq<char>) -> Result<Seq<char>, Seq<char>> {
    let value = trimmed(replaced(raw, '\\', '/'));
    let inner = trim_of(value, CharClass::Slash);
    if (value.len() > 0 && value[0] == '/') || value.contains(':') {
        Err("directory path must be relative"@)
    } else if inner.len() == 0 {
        Ok(Seq::empty())
    } else if has_bad_piece(split(inner, '/')) {
        Err("directory path contains an invalid segment"@)
    } else {
        Ok(inner)
    }
}

/// Checks a folder that is to be listed.
pub fn validate_relative_directory(raw: &str) -> (r: Result<String, String>)
    ensures
        agrees(r, checked_directory(raw@)),
{
    let slashed = replace_char(&chars_of(raw), '\\', '/');
    let value = trim_chars(&slashed, CharClass::White);
    if (value.len() > 0 && value[0] == '/') || has_char(&value, ':') {
        return Err("directory path must be relative".to_owned());
    }
    let inner = trim_chars(&value, CharClass::Slash);
    if inner.len() == 0 {
        return Ok(String::new());
    }
    let pieces = split_chars(&inner, '/');
    if any_bad_piece(&pieces) {
        return Err("directory path contains an invalid segment".to_owned());
    }
    Ok(text_of(&inner))
}

/// An accepted destination stays below its root: it is not empty, not absolute,
/// and none of its pieces is empty, `.` or `..`.
pub proof fn accepted_destinations_stay_inside(raw: Seq<char>)
    requires
        checked_destination(raw) is Ok,
    ensures
        ({
            let d = checked_destination(raw)->Ok_0;
            &&& d.len() > 0
            &&& d[0] != '/'
            &&& !has_bad_piece(split(d, '/'))
        }),
{
    let value = trimmed(replaced(raw, '\\', '/'));
    let inner = trim_of(value, CharClass::Slash);
    crate::text::lemma_trim_ends(value, CharClass::Slash);
    if inner.len() == 0 {
        assert(split(inner, '/')[0].len() == 0);
    }
}

/// Whether a character is a slash of either kind.
pub open spec fn any_slash(c: char) -> bool {
    c == '/' || c == '\\'
}

/// A path without slashes of either kind at its end.
pub open spec fn without_end_slashes(path: Seq<char>) -> Seq<char>
    decreases path.len(),
{
    if path.len() > 0 && any_slash(path.last()) {
        without_end_slashes(path.drop_last())
    } else {
        path
    }
}

/// A path without slashes of either kind at its end.
pub fn source_prefix(path: &str) -> (r: String)
    ensures
        r@ == without_end_slashes(path@),
{
    let p = chars_of(path);
    let mut n: usize = p.len();
    assert(p@.take(p@.len() as int) =~= p@);
    while n > 0 && (p[n - 1] == '/' || p[n - 1] == '\\')
        invariant
            n <= p@.len(),
            p@ == path@,
            without_end_slashes(p@.take(n as int)) == without_end_slashes(path@),
        decreases n,
    {
        assert(p@.take(n as int).drop_last() =~= p@.take(n as int - 1));
        n -= 1;
    }
    text_of(&sub_chars(&p, 0, n))
}

/// The text of a path: with forward slashes.
pub fn path_text(path: &str) -> (r: String)
    ensures
        r@ == replaced(path@, '\\', '/'),
{
    normalize_slashes(path)
}

/// The path that a stored path gets when a folder moves; `None` where it does
/// not lie in the folder.
pub open spec fn remapped_path(path: Seq<char>, source: Seq<char>, target: Seq<char>) -> Option<
    Seq<char>,
> {
    let p = replaced(path, '\\', '/');
    let s = without_end_slashes(replaced(source, '\\', '/'));
    if p == s {
        Some(target)
    } else if starts_with(p, s + seq!['/']) {
        Some(target + seq!['/'] + p.skip(s.len() as int + 1))
    } else {
        None
    }
}

/// The path that a stored path gets when a folder moves.
pub fn remap_path(path: &str, source: &str, target: &str) -> (r: Option<String>)
    ensures
        match r {
            Some(p) => remapped_path(path@, source@, target@) == Some(p@),
            None => remapped_path(path@, source@, target@) is None,
        },
{
    let p = chars_of(&normalize_slashes(path));
    let s = chars_of(&source_prefix(&normalize_slashes(source)));
    if same_chars(&p, &s) {
        return Some(target.to_owned());
    }
    let mut prefix = sub_chars(&s, 0, s.len());
    prefix.push('/');
    assert(prefix@ =~= s@ + seq!['/']);
    if has_prefix(&p, &prefix) {
        let mut out = target.to_owned();
        out.push('/');
        out.append(&text_of(&sub_chars(&p, prefix.len(), p.len())));
        assert(out@ =~= target@ + seq!['/'] + p@.skip(s@.len() as int + 1));
        Some(out)
    } else {
        None
    }
}

/// Moving back gives every stored path of the folder back, where neither folder
/// ends in a slash: with forward slashes, and as it was where neither the path nor
/// the source has a backslash.
pub proof fn moving_back_restores_paths(path: Seq<char>, source: Seq<char>, target: Seq<char>)
    requires
        source.len() > 0 ==> !any_slash(source.last()),
        target.len() > 0 ==> !any_slash(target.last()),
        remapped_path(path, source, target) is Some,
    ensures
        ({
            let back = remapped_path(remapped_path(path, source, target)->Some_0, target, source);
            &&& back is Some
            &&& replaced(back->Some_0, '\\', '/') == replaced(path, '\\', '/')
            &&& !path.contains('\\') && !source.contains('\\') ==> back == Some(path)
        }),
{
    let p = replaced(path, '\\', '/');
    let s = replaced(source, '\\', '/');
    let t = replaced(target, '\\', '/');
    assert(without_end_slashes(s) == s);
    assert(without_end_slashes(t) == t);
    let moved = remapped_path(path, source, target)->Some_0;
    let m = replaced(moved, '\\', '/');
    let back = remapped_path(moved, target, source);
    if p == s {
        assert(m == t);
        assert(back == Some(source));
    } else {
        let rest = p.skip(s.len() as int + 1);
        let before = s + seq!['/'];
        assert(p.take(before.len() as int) == before);
        assert(moved == target + seq!['/'] + rest);
        assert(m =~= t + seq!['/'] + rest);
        let prefix = t + seq!['/'];
        assert(m.take(prefix.len() as int) =~= prefix);
        assert(m != t);
        assert(m.skip(t.len() as int + 1) =~= rest);
        assert(back == Some(source + seq!['/'] + rest));
        assert(s + seq!['/'] + rest =~= p) by {
            assert forall|i: int| 0 <= i < p.len() implies (s + seq!['/'] + rest)[i] == p[i] by {
                if i < before.len() {
                    assert(p.take(before.len() as int)[i] == before[i]);
                }
            }
        }
        assert(replaced(back->Some_0, '\\', '/') =~= p);
    }
    if !path.contains('\\') && !source.contains('\\') {
        lemma_plain(path);
        lemma_plain(source);
    }
}

/// Replacing what does not occur changes nothing.
proof fn lemma_plain(s: Seq<char>)
    requires
        !s.contains('\\'),
    ensures
        replaced(s, '\\', '/') == s,
{
    assert forall|i: int| 0 <= i < s.len() implies replaced(s, '\\', '/')[i] == s[i] by {
        if s[i] == '\\' {
            assert(s.contains('\\'));
        }
    }
    assert(replaced(s, '\\', '/') =~= s);
}

/// A row of an artist with a path.
#[derive(Debug)]
pub struct PathRow {
    /// The row.
    pub id: i64,
    /// The artist.
    pub artist_id: i64,
    /// Its path.
    pub path: String,
}

/// The value of rows.
pub open spec fn row_views(rows: Seq<PathRow>) -> Seq<(i64, i64, Seq<char>)> {
    rows.map_values(|r: PathRow| (r.id, r.artist_id, r.path@))
}

/// The path that a row gets when the folder of an artist moves; `None` where it
/// stays.
pub open spec fn moved_row(
    row: (i64, i64, Seq<char>),
    artist_id: i64,
    source: Seq<char>,
    target: Seq<char>,
) -> Option<Seq<char>> {
    if row.1 == artist_id {
        remapped_path(row.2, source, target)
    } else {
        None
    }
}

/// The rows whose path changes when the folder of an artist moves, with their new
/// paths.
pub open spec fn changed_rows(
    rows: Seq<(i64, i64, Seq<char>)>,
    artist_id: i64,
    source: Seq<char>,
    target: Seq<char>,
) -> Seq<(i64, i64, Seq<char>)>
    decreases rows.len(),
{
    if rows.len() == 0 {
        Seq::empty()
    } else {
        let before = changed_rows(rows.drop_last(), artist_id, source, target);
        match moved_row(rows.last(), artist_id, source, target) {
            Some(p) => before.push((rows.last().0, artist_id, p)),
            None => before,
        }
    }
}

/// The rows whose path changes when the folder of an artist moves, with their new
/// paths.
pub fn update_path_column(rows: &[PathRow], artist_id: i64, source: &str, target: &str) -> (r: Vec<
    PathRow,
>)
    ensures
        row_views(r@) == changed_rows(row_views(rows@), artist_id, source@, target@),
{
    let ghost all = row_views(rows@);
    let mut out: Vec<PathRow> = Vec::new();
    let mut i: usize = 0;
    assert(row_views(out@) =~= Seq::<(i64, i64, Seq<char>)>::empty());
    while i < rows.len()
        invariant
            i <= rows@.len(),
            all == row_views(rows@),
            row_views(out@) == changed_rows(all.take(i as int), artist_id, source@, target@),
        decreases rows@.len() - i,
    {
        let ghost now = all.take(i as int + 1);
        let ghost row = (rows@[i as int].id, rows@[i as int].artist_id, rows@[i as int].path@);
        assert(now.drop_last() =~= all.take(i as int));
        assert(now.last() == row);
        if rows[i].artist_id == artist_id {
            match remap_path(&rows[i].path, source, target) {
                Some(path) => {
                    let ghost before = out@;
                    let ghost p = path@;
                    out.push(PathRow { id: rows[i].id, artist_id, path });
                    assert(row_views(out@) =~= row_views(before).push((row.0, artist_id, p)));
                },
                None => {},
            }
        }
        i += 1;
    }
    assert(all.take(all.len() as int) =~= all);
    out
}

/// The columns that hold paths of artists' files.
#[derive(Debug)]
pub struct PathColumns {
    /// The files of the items.
    pub items: Vec<PathRow>,
    /// The files that a scan has seen.
    pub seen: Vec<PathRow>,
    /// The files that a scan has found.
    pub candidates: Vec<PathRow>,
    /// The documents with links.
    pub documents: Vec<PathRow>,
    /// Where moved files were.
    pub old_paths: Vec<PathRow>,
    /// Where moved files went.
    pub new_paths: Vec<PathRow>,
}

/// Whether a column holds what changes in another one.
pub open spec fn holds_changes(
    changes: Vec<PathRow>,
    rows: Vec<PathRow>,
    artist_id: i64,
    source: Seq<char>,
    target: Seq<char>,
) -> bool {
    row_views(changes@) == changed_rows(row_views(rows@), artist_id, source, target)
}

/// The rows of every column that change when the folder of an artist moves, with
/// their new paths.
pub fn moved_columns(columns: &PathColumns, artist_id: i64, source: &str, target: &str) -> (r:
    PathColumns)
    ensures
        holds_changes(r.items, columns.items, artist_id, source@, target@),
        holds_changes(r.seen, columns.seen, artist_id, source@, target@),
        holds_changes(r.candidates, columns.candidates, artist_id, source@, target@),
        holds_changes(r.documents, columns.documents, artist_id, source@, target@),
        holds_changes(r.old_paths, columns.old_paths, artist_id, source@, target@),
        holds_changes(r.new_paths, columns.new_paths, artist_id, source@, target@),
{
    PathColumns {
        items: update_path_column(&columns.items, artist_id, source, target),
        seen: update_path_column(&columns.seen, artist_id, source, target),
        candidates: update_path_column(&columns.candidates, artist_id, source, target),
        documents: update_path_column(&columns.documents, artist_id, source, target),
        old_paths: update_path_column(&columns.old_paths, artist_id, source, target),
        new_paths: update_path_column(&columns.new_paths, artist_id, source, target),
    }
}

/// A move changes only rows of the artist whose paths lie in the source, and each
/// of them: a row is changed to a path exactly where it is the artist's and that is
/// its path at the target.
pub proof fn moves_change_the_rows_of_the_source(
    rows: Seq<(i64, i64, Seq<char>)>,
    artist_id: i64,
    source: Seq<char>,
    target: Seq<char>,
    id: i64,
    path: Seq<char>,
)
    ensures
        changed_rows(rows, artist_id, source, target).contains((id, artist_id, path))
            <==> exists|i: int|
            0 <= i < rows.len() && (#[trigger] rows[i]).0 == id && moved_row(
                rows[i],
                artist_id,
                source,
                target,
            ) == Some(path),
        forall|i: int|
            0 <= i < changed_rows(rows, artist_id, source, target).len()
                ==> (#[trigger] changed_rows(rows, artist_id, source, target)[i]).1 == artist_id,
    decreases rows.len(),
{
    let changed = changed_rows(rows, artist_id, source, target);
    let wanted = (id, artist_id, path);
    if rows.len() > 0 {
        let front = rows.drop_last();
        let before = changed_rows(front, artist_id, source, target);
        moves_change_the_rows_of_the_source(front, artist_id, source, target, id, path);
        let n = rows.len() - 1;
        if changed.contains(wanted) {
            let k = changed.index_of(wanted);
            assert(changed[k] == wanted);
            if k < before.len() {
                assert(before[k] == wanted);
                assert(before.contains(wanted));
                let i = choose|i: int|
                    0 <= i < front.len() && (#[trigger] front[i]).0 == id && moved_row(
                        front[i],
                        artist_id,
                        source,
                        target,
                    ) == Some(path);
                assert(rows[i] == front[i]);
            } else {
                assert(rows[n].0 == id);
            }
        }
        if exists|i: int|
            0 <= i < rows.len() && (#[trigger] rows[i]).0 == id && moved_row(
                rows[i],
                artist_id,
                source,
                target,
            ) == Some(path) {
            let i = choose|i: int|
                0 <= i < rows.len() && (#[trigger] rows[i]).0 == id && moved_row(
                    rows[i],
                    artist_id,
                    source,
                    target,
                ) == Some(path);
            if i < n {
                assert(front[i] == rows[i]);
                assert(before.contains(wanted));
                let k = before.index_of(wanted);
                assert(changed[k] == wanted);
            } else {
                assert(changed[before.len() as int] == wanted);
            }
        }
        assert forall|i: int| 0 <= i < changed.len() implies (#[trigger] changed[i]).1
            == artist_id by {
            if i < before.len() {
                assert(changed[i] == before[i]);
            }
        }
    }
}

/// The media root that a folder lies in: the deepest one, and the last of those.
pub fn root_for_source(source: &str, roots: &[Option<String>]) -> (r: Option<usize>)
    ensures
        match r {
            Some(i) => deepest_root(source@, root_views(roots@), false, i as int),
            None => forall|j: int|
                0 <= j < roots@.len() ==> !qualifies(source@, #[trigger] root_views(roots@)[j], false),
        },
{
    deepest(source, roots, false)
}

/// Whether a target stays below its root: what stands nearest above it, or at
/// it, resolves to a place below the root. A root that does not resolve holds
/// nothing.
pub fn target_parent_stays_under_root(root_resolves: bool, probes: &[AncestorProbe]) -> (r: bool)
    ensures
        r == (root_resolves && nearest_accepted(probes@)),
{
    root_resolves && nearest_is_accepted(probes)
}

/// Why a move is refused.
#[derive(Clone, Copy, PartialEq, Eq, Debug, Structural)]
pub enum MoveRefusal {
    /// The artist's folder is no directory.
    SourceMissing,
    /// The artist's folder lies outside the media roots.
    SourceOutside,
    /// The destination is not relative.
    DestinationNotRelative,
    /// The destination has a bad piece.
    DestinationInvalid,
    /// There is no such media root.
    RootNotFound,
    /// The media root is no directory.
    RootMissing,
    /// The destination leaves the media root.
    DestinationEscapes,
    /// The destination is the source or lies in it.
    DestinationInsideSource,
    /// The sizes of the artist's files add up to too much.
    SizeOverflow,
}

impl MoveRefusal {
    /// The message of the refusal.
    pub fn message(self) -> (r: &'static str)
        ensures
            r@ == (match self {
                MoveRefusal::SourceMissing => "artist source directory is missing"@,
                MoveRefusal::SourceOutside => "artist source is outside configured media roots"@,
                MoveRefusal::DestinationNotRelative => "destination folder must be relative"@,
                MoveRefusal::DestinationInvalid => "destination folder contains an invalid segment"@,
                MoveRefusal::RootNotFound => "media root not found"@,
                MoveRefusal::RootMissing => "media root directory is missing"@,
                MoveRefusal::DestinationEscapes => "destination escapes the configured media root"@,
                MoveRefusal::DestinationInsideSource =>
                "destination cannot be the source or inside it"@,
                MoveRefusal::SizeOverflow => "integer overflow"@,
            }),
    {
        match self {
            MoveRefusal::SourceMissing => "artist source directory is missing",
            MoveRefusal::SourceOutside => "artist source is outside configured media roots",
            MoveRefusal::DestinationNotRelative => "destination folder must be relative",
            MoveRefusal::DestinationInvalid => "destination folder contains an invalid segment",
            MoveRefusal::RootNotFound => "media root not found",
            MoveRefusal::RootMissing => "media root directory is missing",
            MoveRefusal::DestinationEscapes => "destination escapes the configured media root",
            MoveRefusal::DestinationInsideSource => "destination cannot be the source or inside it",
            MoveRefusal::SizeOverflow => "integer overflow",
        }
    }
}

/// What is known of a move before it is made.
#[derive(Clone, Copy, PartialEq, Eq, Debug, Structural)]
pub struct MoveFacts {
    /// Whether the artist's folder is a directory and no symbolic link.
    pub source_is_real_dir: bool,
    /// Whether the artist's folder is authorized.
    pub source_authorized: bool,
    /// Whether the media root is configured.
    pub root_found: bool,
    /// Whether the media root is a directory.
    pub root_is_dir: bool,
    /// Whether the target stays below the media root.
    pub target_inside_root: bool,
    /// Whether the target is the source or lies in it.
    pub target_inside_source: bool,
    /// Whether anything stands at the target.
    pub target_exists: bool,
}

/// A move that can be shown.
#[derive(Debug)]
pub struct MovePreview {
    /// The destination below the media root.
    pub destination: String,
    /// Whether something stands at the target.
    pub target_exists: bool,
    /// How many files of the artist are there.
    pub item_count: usize,
    /// Their total size.
    pub total_size: i64,
    /// What is stored of other artists at the target.
    pub conflicts: Vec<PathConflict>,
    /// Whether the move can be made.
    pub can_execute: bool,
}

/// Why a move is refused, if it is, in the order in which it is looked at; the
/// destination below the media root where it is not.
pub open spec fn vetted(facts: MoveFacts, destination: Seq<char>) -> Result<
    Seq<char>,
    MoveRefusal,
> {
    if !facts.source_is_real_dir {
        Err(MoveRefusal::SourceMissing)
    } else if !facts.source_authorized {
        Err(MoveRefusal::SourceOutside)
    } else {
        match checked_destination(destination) {
            Err(e) => if e == "destination folder must be relative"@ {
                Err(MoveRefusal::DestinationNotRelative)
            } else {
                Err(MoveRefusal::DestinationInvalid)
            },
            Ok(relative) => if !facts.root_found {
                Err(MoveRefusal::RootNotFound)
            } else if !facts.root_is_dir {
                Err(MoveRefusal::RootMissing)
            } else if !facts.target_inside_root {
                Err(MoveRefusal::DestinationEscapes)
            } else if facts.target_inside_source {
                Err(MoveRefusal::DestinationInsideSource)
            } else {
                Ok(relative)
            },
        }
    }
}

/// Looks at a move of an artist's folder to a target before it is made. It can be
/// made where nothing stands at the target and nothing is stored of other artists
/// there.
pub fn preview_artist_folder_move(
    facts: MoveFacts,
    artists: &[IndexedArtist],
    items: &[IndexedItem],
    artist_id: i64,
    destination: &str,
    target: &str,
) -> (r: Result<MovePreview, MoveRefusal>)
    ensures
        match (r, vetted(facts, destination@), size_total(items@, artist_id)) {
            (Err(a), Err(b), _) => a == b,
            (Err(a), Ok(_), None) => a == MoveRefusal::SizeOverflow,
            (Ok(a), Ok(relative), Some(size)) => {
                let found = conflicts(artists@, items@, target@, artist_id);
                &&& a.destination@ == relative
                &&& a.target_exists == facts.target_exists
                &&& a.item_count == file_total(items@, artist_id)
                &&& a.total_size == size
                &&& conflict_views(a.conflicts@) == found
                &&& a.can_execute == (!facts.target_exists && found.len() == 0)
            },
            _ => false,
        },
{
    if !facts.source_is_real_dir {
        return Err(MoveRefusal::SourceMissing);
    }
    if !facts.source_authorized {
        return Err(MoveRefusal::SourceOutside);
    }
    let relative = match validate_relative_destination(destination) {
        Ok(v) => v,
        Err(e) => {
            return if same_text(&e, "destination folder must be relative") {
                Err(MoveRefusal::DestinationNotRelative)
            } else {
                Err(MoveRefusal::DestinationInvalid)
            };
        },
    };
    if !facts.root_found {
        return Err(MoveRefusal::RootNotFound);
    }
    if !facts.root_is_dir {
        return Err(MoveRefusal::RootMissing);
    }
    if !facts.target_inside_root {
        return Err(MoveRefusal::DestinationEscapes);
    }
    if facts.target_inside_source {
        return Err(MoveRefusal::DestinationInsideSource);
    }
    let found = indexed_conflicts(artists, items, target, artist_id);
    let (item_count, total_size) = match item_summary(items, artist_id) {
        Some(summary) => summary,
        None => {
            return Err(MoveRefusal::SizeOverflow);
        },
    };
    let can_execute = !facts.target_exists && found.len() == 0;
    Ok(
        MovePreview {
            destination: relative,
            target_exists: facts.target_exists,
            item_count,
            total_size,
            conflicts: found,
            can_execute,
        },
    )
}

/// Whether a failed rename may be replaced by a copy: only where the two places
/// are on different devices.
pub fn copy_fallback_allowed(raw_os_error: Option<i32>) -> (r: bool)
    ensures
        r == (raw_os_error == Some(18i32) || raw_os_error == Some(17i32)),
{
    match raw_os_error {
        Some(code) => code == 18 || code == 17,
        None => false,
    }
}

/// How far a move has come.
#[derive(Clone, Copy, PartialEq, Eq, Debug, Structural)]
pub enum MoveStage {
    /// The database is being backed up.
    BackingUp,
    /// The folder is being renamed.
    Renaming,
    /// The folder is being copied to a private place beside the target.
    Copying,
    /// The copy is being renamed to the target.
    Publishing,
    /// The source is being renamed to a private place beside it.
    Retiring,
    /// The published copy is being removed again.
    Withdrawing,
    /// The database is being updated; `renamed` where the folder was renamed,
    /// else it was copied.
    Updating {
        /// Whether the folder was renamed.
        renamed: bool,
    },
    /// The folder is being renamed back.
    RenamingBack,
    /// The retired source is being renamed back.
    Restoring,
    /// The published copy is being removed; `restored` where the source is back.
    Removing {
        /// Whether the source is back.
        restored: bool,
    },
    /// The retired source is being removed.
    Cleaning,
    /// It has ended.
    Ended,
}

/// What happened to a move.
#[derive(Clone, Copy, PartialEq, Eq, Debug, Structural)]
pub enum MoveEvent {
    /// The step succeeded.
    Done,
    /// The step failed.
    Failed,
    /// The step failed because the place was taken.
    Occupied,
    /// The step failed because the places are on different devices, and both lie
    /// below the media roots (`authorized`) or not.
    OtherDevice {
        /// Whether both places are authorized.
        authorized: bool,
    },
}

/// A directory that stays behind and is recorded.
#[derive(Clone, Copy, PartialEq, Eq, Debug, Structural)]
pub enum Retained {
    /// Nothing stays behind.
    Nothing,
    /// A copy that was not finished.
    PartialCopy,
    /// A copy that could not be published.
    UnpublishedCopy,
    /// A copy that could not be published because the target appeared.
    OvertakenCopy,
    /// A published copy that could not be withdrawn.
    PublishedTarget,
    /// A target that could not be renamed back.
    RenamedTarget,
    /// What is left of the retired source and of the published copy.
    StagingAndTarget,
}

/// Why directories stay behind: a copy, the retired source and the target. The last
/// two are recorded together only as far as they are there.
#[derive(Clone, Copy, Debug)]
pub struct RetainedReasons {
    /// Why the copy stays.
    pub copy: Option<&'static str>,
    /// Why the retired source stays.
    pub retired: Option<&'static str>,
    /// Why the target stays.
    pub target: Option<&'static str>,
}

/// The reason in words.
pub open spec fn reason_view(reason: Option<&'static str>) -> Option<Seq<char>> {
    match reason {
        Some(r) => Some(r@),
        None => None,
    }
}

impl Retained {
    /// Why the copy stays.
    pub open spec fn copy_reason(self) -> Option<Seq<char>> {
        match self {
            Retained::PartialCopy => Some("partial_copy_staging"@),
            Retained::UnpublishedCopy => Some("unpublished_staging"@),
            Retained::OvertakenCopy => Some("unpublished_staging"@),
            _ => None,
        }
    }

    /// Why the retired source stays.
    pub open spec fn retired_reason(self) -> Option<Seq<char>> {
        match self {
            Retained::StagingAndTarget => Some("rollback_retained_staging"@),
            _ => None,
        }
    }

    /// Why the target stays.
    pub open spec fn target_reason(self) -> Option<Seq<char>> {
        match self {
            Retained::PublishedTarget => Some("published_target_retained"@),
            Retained::RenamedTarget => Some("rollback_retained_target"@),
            Retained::StagingAndTarget => Some("rollback_retained_target"@),
            _ => None,
        }
    }

    /// Whether a directory that stays behind is recorded: where a rollback failed half-way
    /// only one that is there, else in any case.
    pub fn is_recorded(self, is_dir: bool) -> (r: bool)
        ensures
            r == (self is StagingAndTarget ==> is_dir),
    {
        match self {
            Retained::StagingAndTarget => is_dir,
            _ => true,
        }
    }

    /// Why directories stay behind.
    pub fn reasons(self) -> (r: RetainedReasons)
        ensures
            reason_view(r.copy) == self.copy_reason(),
            reason_view(r.retired) == self.retired_reason(),
            reason_view(r.target) == self.target_reason(),
    {
        let copy = match self {
            Retained::PartialCopy => Some("partial_copy_staging"),
            Retained::UnpublishedCopy => Some("unpublished_staging"),
            Retained::OvertakenCopy => Some("unpublished_staging"),
            _ => None,
        };
        let retired = match self {
            Retained::StagingAndTarget => Some("rollback_retained_staging"),
            _ => None,
        };
        let target = match self {
            Retained::PublishedTarget => Some("published_target_retained"),
            Retained::RenamedTarget => Some("rollback_retained_target"),
            Retained::StagingAndTarget => Some("rollback_retained_target"),
            _ => None,
        };
        RetainedReasons { copy, retired, target }
    }
}

/// How a move ended.
#[derive(Clone, Copy, PartialEq, Eq, Debug, Structural)]
pub enum MoveOutcome {
    /// The folder stands at the target and the database knows it.
    Moved {
        /// Whether the retired source could not be removed.
        leftover: bool,
    },
    /// The database could not be backed up.
    BackupFailed,
    /// The target appeared in the meantime.
    TargetAppeared,
    /// A place lies outside the media roots.
    Escaped,
    /// A step failed, and everything is as before.
    Failed,
    /// The database refused, and everything is as before.
    UpdateFailed,
    /// A step failed, and somebody has to look at what was retained.
    NeedsReconciliation,
}

/// What is said of a move that was not made. `copy` is the place of the copy, `cause`
/// the problem that stopped the move and `rollback` what went wrong when it was taken
/// back. `None` where the cause says it all.
pub open spec fn told_failure(
    outcome: MoveOutcome,
    retained: Retained,
    copy: Seq<char>,
    cause: Seq<char>,
    rollback: Seq<char>,
) -> Option<Seq<char>> {
    match (outcome, retained) {
        (MoveOutcome::TargetAppeared, _) => Some(
            "destination appeared between preview and execute; refusing to proceed"@,
        ),
        (MoveOutcome::Escaped, _) => Some("copy fallback path escaped configured media roots"@),
        (_, Retained::Nothing) => None,
        (_, Retained::PartialCopy) => Some(
            "copy staging retained for manual reconciliation: "@ + copy,
        ),
        (_, Retained::UnpublishedCopy) => Some(
            cause + "; staging retained for manual reconciliation: "@ + copy,
        ),
        (_, Retained::OvertakenCopy) => Some(
            "destination appeared between preview and execute; staging retained for manual reconciliation: "@
                + copy,
        ),
        (_, Retained::PublishedTarget) => Some(
            "source retirement failed: "@ + cause
                + "; published target retained for manual reconciliation: "@ + rollback,
        ),
        (_, Retained::RenamedTarget) => Some(
            "database update failed: "@ + cause
                + "; filesystem rollback failed and needs manual reconciliation: "@ + rollback,
        ),
        (_, Retained::StagingAndTarget) => Some(
            "database update failed: "@ + cause
                + "; filesystem rollback needs manual reconciliation: "@ + rollback,
        ),
    }
}

/// What is said of a move that was not made.
pub fn failure_message(
    outcome: MoveOutcome,
    retained: Retained,
    copy: &str,
    cause: &str,
    rollback: &str,
) -> (r: Option<String>)
    ensures
        match r {
            Some(m) => told_failure(outcome, retained, copy@, cause@, rollback@) == Some(m@),
            None => told_failure(outcome, retained, copy@, cause@, rollback@) is None,
        },
{
    let mut out = String::new();
    match (outcome, retained) {
        (MoveOutcome::TargetAppeared, _) => {
            out.append("destination appeared between preview and execute; refusing to proceed");
            assert(out@
                =~= "destination appeared between preview and execute; refusing to proceed"@);
        },
        (MoveOutcome::Escaped, _) => {
            out.append("copy fallback path escaped configured media roots");
            assert(out@ =~= "copy fallback path escaped configured media roots"@);
        },
        (_, Retained::Nothing) => {
            return None;
        },
        (_, Retained::PartialCopy) => {
            out.append("copy staging retained for manual reconciliation: ");
            out.append(copy);
            assert(out@ =~= "copy staging retained for manual reconciliation: "@ + copy@);
        },
        (_, Retained::UnpublishedCopy) => {
            out.append(cause);
            out.append("; staging retained for manual reconciliation: ");
            out.append(copy);
            assert(out@ =~= cause@ + "; staging retained for manual reconciliation: "@ + copy@);
        },
        (_, Retained::OvertakenCopy) => {
            out.append(
                "destination appeared between preview and execute; staging retained for manual reconciliation: ",
            );
            out.append(copy);
            assert(out@
                =~= "destination appeared between preview and execute; staging retained for manual reconciliation: "@
                + copy@);
        },
        (_, Retained::PublishedTarget) => {
            out.append("source retirement failed: ");
            out.append(cause);
            out.append("; published target retained for manual reconciliation: ");
            out.append(rollback);
            assert(out@ =~= "source retirement failed: "@ + cause@
                + "; published target retained for manual reconciliation: "@ + rollback@);
        },
        (_, Retained::RenamedTarget) => {
            out.append("database update failed: ");
            out.append(cause);
            out.append("; filesystem rollback failed and needs manual reconciliation: ");
            out.append(rollback);
            assert(out@ =~= "database update failed: "@ + cause@
                + "; filesystem rollback failed and needs manual reconciliation: "@ + rollback@);
        },
        (_, Retained::StagingAndTarget) => {
            out.append("database update failed: ");
            out.append(cause);
            out.append("; filesystem rollback needs manual reconciliation: ");
            out.append(rollback);
            assert(out@ =~= "database update failed: "@ + cause@
                + "; filesystem rollback needs manual reconciliation: "@ + rollback@);
        },
    }
    Some(out)
}

/// What is to be done next for a move.
#[derive(Clone, Copy, PartialEq, Eq, Debug, Structural)]
pub enum MoveAction {
    /// Rename the source to the target, replacing nothing.
    Rename,
    /// Copy the source to a private place beside the target.
    Copy,
    /// Rename the copy to the target, replacing nothing.
    Publish,
    /// Rename the source to a private place beside it.
    Retire,
    /// Remove the published copy, if it is still the one that was published.
    Withdraw,
    /// Write the new paths, in one transaction.
    UpdateDatabase,
    /// Rename the target back to the source, replacing nothing.
    RenameBack,
    /// Rename the retired source back, replacing nothing.
    Restore,
    /// Remove the published copy, if it is still the one that was published.
    Remove,
    /// Remove the retired source, if it is still the one that was retired.
    Clean,
    /// Record what stays behind and report the outcome.
    Finish {
        /// How the move ended.
        outcome: MoveOutcome,
        /// What stays behind.
        retained: Retained,
    },
}

/// The end of a move.
pub open spec fn ended(outcome: MoveOutcome, retained: Retained) -> (MoveStage, MoveAction) {
    (MoveStage::Ended, MoveAction::Finish { outcome, retained })
}

/// The next stage of a move and what is to be done.
pub open spec fn next_move_step(stage: MoveStage, event: MoveEvent) -> (MoveStage, MoveAction) {
    let done = event is Done;
    match stage {
        MoveStage::BackingUp => if done {
            (MoveStage::Renaming, MoveAction::Rename)
        } else {
            ended(MoveOutcome::BackupFailed, Retained::Nothing)
        },
        MoveStage::Renaming => match event {
            MoveEvent::Done => (
                MoveStage::Updating { renamed: true },
                MoveAction::UpdateDatabase,
            ),
            MoveEvent::Occupied => ended(MoveOutcome::TargetAppeared, Retained::Nothing),
            MoveEvent::OtherDevice { authorized } => if authorized {
                (MoveStage::Copying, MoveAction::Copy)
            } else {
                ended(MoveOutcome::Escaped, Retained::Nothing)
            },
            MoveEvent::Failed => ended(MoveOutcome::Failed, Retained::Nothing),
        },
        MoveStage::Copying => if done {
            (MoveStage::Publishing, MoveAction::Publish)
        } else {
            ended(MoveOutcome::NeedsReconciliation, Retained::PartialCopy)
        },
        MoveStage::Publishing => if done {
            (MoveStage::Retiring, MoveAction::Retire)
        } else if event is Occupied {
            ended(MoveOutcome::NeedsReconciliation, Retained::OvertakenCopy)
        } else {
            ended(MoveOutcome::NeedsReconciliation, Retained::UnpublishedCopy)
        },
        MoveStage::Retiring => if done {
            (MoveStage::Updating { renamed: false }, MoveAction::UpdateDatabase)
        } else {
            (MoveStage::Withdrawing, MoveAction::Withdraw)
        },
        MoveStage::Withdrawing => if done {
            ended(MoveOutcome::Failed, Retained::Nothing)
        } else {
            ended(MoveOutcome::NeedsReconciliation, Retained::PublishedTarget)
        },
        MoveStage::Updating { renamed } => if done {
            if renamed {
                ended(MoveOutcome::Moved { leftover: false }, Retained::Nothing)
            } else {
                (MoveStage::Cleaning, MoveAction::Clean)
            }
        } else if renamed {
            (MoveStage::RenamingBack, MoveAction::RenameBack)
        } else {
            (MoveStage::Restoring, MoveAction::Restore)
        },
        MoveStage::RenamingBack => if done {
            ended(MoveOutcome::UpdateFailed, Retained::Nothing)
        } else {
            ended(MoveOutcome::NeedsReconciliation, Retained::RenamedTarget)
        },
        MoveStage::Restoring => (MoveStage::Removing { restored: done }, MoveAction::Remove),
        MoveStage::Removing { restored } => if done && restored {
            ended(MoveOutcome::UpdateFailed, Retained::Nothing)
        } else {
            ended(MoveOutcome::NeedsReconciliation, Retained::StagingAndTarget)
        },
        MoveStage::Cleaning => ended(MoveOutcome::Moved { leftover: !done }, Retained::Nothing),
        MoveStage::Ended => ended(MoveOutcome::Failed, Retained::Nothing),
    }
}

/// The end of a move.
fn end_move(outcome: MoveOutcome, retained: Retained) -> (r: (MoveStage, MoveAction))
    ensures
        r == ended(outcome, retained),
{
    (MoveStage::Ended, MoveAction::Finish { outcome, retained })
}

/// Takes a move one step on.
pub fn execute_artist_folder_move(stage: MoveStage, event: MoveEvent) -> (r: (MoveStage, MoveAction))
    ensures
        r == next_move_step(stage, event),
{
    let done = match event {
        MoveEvent::Done => true,
        _ => false,
    };
    match stage {
        MoveStage::BackingUp => if done {
            (MoveStage::Renaming, MoveAction::Rename)
        } else {
            end_move(MoveOutcome::BackupFailed, Retained::Nothing)
        },
        MoveStage::Renaming => match event {
            MoveEvent::Done => (
                MoveStage::Updating { renamed: true },
                MoveAction::UpdateDatabase,
            ),
            MoveEvent::Occupied => end_move(MoveOutcome::TargetAppeared, Retained::Nothing),
            MoveEvent::OtherDevice { authorized } => if authorized {
                (MoveStage::Copying, MoveAction::Copy)
            } else {
                end_move(MoveOutcome::Escaped, Retained::Nothing)
            },
            MoveEvent::Failed => end_move(MoveOutcome::Failed, Retained::Nothing),
        },
        MoveStage::Copying => if done {
            (MoveStage::Publishing, MoveAction::Publish)
        } else {
            end_move(MoveOutcome::NeedsReconciliation, Retained::PartialCopy)
        },
        MoveStage::Publishing => match event {
            MoveEvent::Done => (MoveStage::Retiring, MoveAction::Retire),
            MoveEvent::Occupied => end_move(
                MoveOutcome::NeedsReconciliation,
                Retained::OvertakenCopy,
            ),
            _ => end_move(MoveOutcome::NeedsReconciliation, Retained::UnpublishedCopy),
        },
        MoveStage::Retiring => if done {
            (MoveStage::Updating { renamed: false }, MoveAction::UpdateDatabase)
        } else {
            (MoveStage::Withdrawing, MoveAction::Withdraw)
        },
        MoveStage::Withdrawing => if done {
            end_move(MoveOutcome::Failed, Retained::Nothing)
        } else {
            end_move(MoveOutcome::NeedsReconciliation, Retained::PublishedTarget)
        },
        MoveStage::Updating { renamed } => if done {
            if renamed {
                end_move(MoveOutcome::Moved { leftover: false }, Retained::Nothing)
            } else {
                (MoveStage::Cleaning, MoveAction::Clean)
            }
        } else if renamed {
            (MoveStage::RenamingBack, MoveAction::RenameBack)
        } else {
            (MoveStage::Restoring, MoveAction::Restore)
        },
        MoveStage::RenamingBack => if done {
            end_move(MoveOutcome::UpdateFailed, Retained::Nothing)
        } else {
            end_move(MoveOutcome::NeedsReconciliation, Retained::RenamedTarget)
        },
        MoveStage::Restoring => (MoveStage::Removing { restored: done }, MoveAction::Remove),
        MoveStage::Removing { restored } => if done && restored {
            end_move(MoveOutcome::UpdateFailed, Retained::Nothing)
        } else {
            end_move(MoveOutcome::NeedsReconciliation, Retained::StagingAndTarget)
        },
        MoveStage::Cleaning => end_move(MoveOutcome::Moved { leftover: !done }, Retained::Nothing),
        MoveStage::Ended => end_move(MoveOutcome::Failed, Retained::Nothing),
    }
}

/// Where the artist's tree stands, and what the database knows.
pub struct MoveWorld {
    /// Whether the whole tree stands at the source.
    pub at_source: bool,
    /// Whether the whole tree stands at the target.
    pub at_target: bool,
    /// Whether the whole tree stands in a private place.
    pub in_staging: bool,
    /// Whether the database holds the new paths.
    pub stored: bool,
}

/// The world behind a step: only a step that succeeded changes it.
pub open spec fn world_after(w: MoveWorld, stage: MoveStage, event: MoveEvent) -> MoveWorld {
    if !(event is Done) {
        w
    } else {
        match stage {
            MoveStage::Renaming => MoveWorld { at_source: false, at_target: true, ..w },
            MoveStage::Copying => MoveWorld { in_staging: true, ..w },
            MoveStage::Publishing => MoveWorld { in_staging: false, at_target: true, ..w },
            MoveStage::Retiring => MoveWorld { at_source: false, in_staging: true, ..w },
            MoveStage::Withdrawing => MoveWorld { at_target: false, ..w },
            MoveStage::Updating { .. } => MoveWorld { stored: true, ..w },
            MoveStage::RenamingBack => MoveWorld { at_source: true, at_target: false, ..w },
            MoveStage::Restoring => MoveWorld { at_source: true, in_staging: false, ..w },
            MoveStage::Removing { .. } => MoveWorld { at_target: false, ..w },
            MoveStage::Cleaning => MoveWorld { in_staging: false, ..w },
            _ => w,
        }
    }
}

/// A run of a move against given events, one for each step.
pub open spec fn move_run(
    stage: MoveStage,
    w: MoveWorld,
    events: Seq<MoveEvent>,
    i: int,
    steps: nat,
) -> Option<(MoveOutcome, Retained, MoveWorld)>
    decreases steps,
{
    if steps == 0 {
        None
    } else {
        let (next, action) = next_move_step(stage, events[i]);
        let after = world_after(w, stage, events[i]);
        match action {
            MoveAction::Finish { outcome, retained } => Some((outcome, retained, after)),
            _ => move_run(next, after, events, i + 1, (steps - 1) as nat),
        }
    }
}

/// Every move ends, whatever happens to its steps, and leaves nothing to guess:
/// a move that is reported as made left the tree at the target and the database
/// with the new paths; a move that is reported as failed with nothing to
/// reconcile left the tree at the source, nothing at the target or in a private place
/// and the database as before; a tree that any other move leaves at the target or in a
/// private place is recorded with a reason; and the tree is never lost.
pub proof fn moves_are_consistent(events: Seq<MoveEvent>)
    ensures
        ({
            let start = MoveWorld {
                at_source: true,
                at_target: false,
                in_staging: false,
                stored: false,
            };
            let run = move_run(MoveStage::BackingUp, start, events, 0, 8);
            &&& run is Some
            &&& {
                let (outcome, retained, w) = run->Some_0;
                &&& outcome is Moved <==> w.stored
                &&& outcome is Moved ==> w.at_target && !w.at_source
                &&& !(outcome is Moved) && !(outcome is NeedsReconciliation) ==> w.at_source
                    && !w.at_target
                &&& outcome is NeedsReconciliation <==> !(retained is Nothing)
                &&& retained is Nothing && !(outcome is Moved) ==> !w.in_staging
                &&& outcome == (MoveOutcome::Moved { leftover: false }) ==> !w.in_staging
                &&& !(outcome is Moved) && w.in_staging ==> retained.copy_reason() is Some
                    || retained.retired_reason() is Some
                &&& !(outcome is Moved) && w.at_target ==> retained.target_reason() is Some
                &&& w.at_source || w.at_target || w.in_staging
            }
        }),
{
    reveal_with_fuel(move_run, 10);
}

/// Whether a directory may be removed: it is still the one that was made, where
/// that is known, and it is a directory.
pub fn may_remove_owned_dir(
    expected: Option<(u64, u64)>,
    actual: Option<(u64, u64)>,
    is_dir: bool,
) -> (r: bool)
    ensures
        r == ((expected is Some ==> actual == expected) && is_dir),
{
    let same = match (expected, actual) {
        (None, _) => true,
        (Some(e), Some(a)) => e.0 == a.0 && e.1 == a.1,
        (Some(_), None) => false,
    };
    same && is_dir
}

/// The record of a directory that stays behind, besides the time.
pub fn record_retained_directory(
    retained: &str,
    source: &str,
    target: &str,
    reason: &str,
) -> (r: Json)
    ensures
        r.tree() == JsonTree::Object(
            seq![
                ("retained_path"@, JsonTree::Text(retained@)),
                ("source"@, JsonTree::Text(source@)),
                ("target"@, JsonTree::Text(target@)),
                ("reason"@, JsonTree::Text(reason@)),
            ],
        ),
{
    let mut members: Vec<(String, Json)> = Vec::new();
    members.push(text_member("retained_path", retained));
    members.push(text_member("source", source));
    members.push(text_member("target", target));
    members.push(text_member("reason", reason));
    assert(entry_views(members@) =~= seq![
        ("retained_path"@, JsonTree::Text(retained@)),
        ("source"@, JsonTree::Text(source@)),
        ("target"@, JsonTree::Text(target@)),
        ("reason"@, JsonTree::Text(reason@)),
    ]);
    object(members)
}

/// What the database holds of an artist's folder.
#[derive(Debug)]
pub struct ArtistRow {
    /// The artist.
    pub id: i64,
    /// The path of the folder.
    pub path: String,
    /// Whether the folder is missing.
    pub missing: bool,
    /// Since when it is missing, with the number with which the caller writes a time.
    pub missing_at: Option<i64>,
}

/// The row of an artist whose folder was moved: it has the target as its path and is no
/// longer missing.
pub fn moved_artist(row: &ArtistRow, target: &str) -> (r: ArtistRow)
    ensures
        r.id == row.id,
        r.path@ == target@,
        !r.missing,
        r.missing_at is None,
{
    ArtistRow { id: row.id, path: target.to_owned(), missing: false, missing_at: None }
}

/// A text, or `null`.
pub open spec fn text_or_null(text: Option<&str>) -> JsonTree {
    match text {
        Some(t) => JsonTree::Text(t@),
        None => JsonTree::Null,
    }
}

/// The answer of a move that was made. `cleanup_error` is what went wrong with removing
/// the retired source, and `retained_dirs` how many directories of moves stay behind.
pub fn move_answer(
    backup: &str,
    source: &str,
    target: &str,
    updated_paths: u64,
    cleanup_error: Option<&str>,
    retained_dirs: u64,
) -> (r: Json)
    ensures
        r.tree() == JsonTree::Object(
            seq![
                ("ok"@, JsonTree::Bool(true)),
                ("backup"@, JsonTree::Text(backup@)),
                ("source"@, JsonTree::Text(source@)),
                ("target"@, JsonTree::Text(target@)),
                ("updated_paths"@, JsonTree::Number(decimal(updated_paths as nat))),
                ("cleanup_error"@, text_or_null(cleanup_error)),
                ("retained_dirs"@, JsonTree::Number(decimal(retained_dirs as nat))),
            ],
        ),
{
    let problem = match cleanup_error {
        Some(e) => Json::Text(e.to_owned()),
        None => Json::Null,
    };
    let mut members: Vec<(String, Json)> = Vec::new();
    members.push(entry("ok", Json::Bool(true)));
    members.push(text_member("backup", backup));
    members.push(text_member("source", source));
    members.push(text_member("target", target));
    members.push(entry("updated_paths", number(updated_paths)));
    members.push(entry("cleanup_error", problem));
    members.push(entry("retained_dirs", number(retained_dirs)));
    assert(entry_views(members@) =~= seq![
        ("ok"@, JsonTree::Bool(true)),
        ("backup"@, JsonTree::Text(backup@)),
        ("source"@, JsonTree::Text(source@)),
        ("target"@, JsonTree::Text(target@)),
        ("updated_paths"@, JsonTree::Number(decimal(updated_paths as nat))),
        ("cleanup_error"@, text_or_null(cleanup_error)),
        ("retained_dirs"@, JsonTree::Number(decimal(retained_dirs as nat))),
    ]);
    object(members)
}

/// The path in a record of a directory that stays behind.
pub fn retained_path(record: &Json) -> (r: Option<String>)
    ensures
        match r {
            Some(p) => record.tree().get("retained_path"@) == Some(JsonTree::Text(p@)),
            None => !(record.tree().get("retained_path"@) matches Some(JsonTree::Text(_))),
        },
{
    match record.get("retained_path") {
        Some(found) => match found.as_text() {
            Some(s) => Some(s.to_owned()),
            None => None,
        },
        None => None,
    }
}

/// What becomes of a file among the records of directories that stay behind.
#[derive(Clone, Copy, PartialEq, Eq, Debug, Structural)]
pub enum RecordAction {
    /// It is no record.
    Ignore,
    /// Its directory is still there.
    Keep,
    /// Its directory is gone, or it cannot be read.
    Remove,
}

/// Decides what becomes of a record: it is kept as long as its directory is
/// there. `path_exists` is `None` where the record names no path.
pub fn prune_retained_directory_record(is_json: bool, path_exists: Option<bool>) -> (r:
    RecordAction)
    ensures
        r == (if !is_json {
            RecordAction::Ignore
        } else if path_exists == Some(true) {
            RecordAction::Keep
        } else {
            RecordAction::Remove
        }),
{
    if !is_json {
        RecordAction::Ignore
    } else {
        match path_exists {
            Some(true) => RecordAction::Keep,
            _ => RecordAction::Remove,
        }
    }
}


/// The listing of a folder below a media root.
#[derive(Debug)]
pub struct DirectoryListing {
    /// The folder below the root.
    pub path: String,
    /// The names of its directories, in the order of their lower case.
    pub directories: Vec<String>,
}

/// Lists the directories of a folder below a media root: checks the folder and
/// orders the names that were found in it.
pub fn list_media_root_directories(relative_path: &str, names: &[String]) -> (r: Result<
    DirectoryListing,
    String,
>)
    ensures
        match (r, checked_directory(relative_path@)) {
            (Ok(a), Ok(b)) => a.path@ == b && a.directories@ == ordered_by(
                names@,
                lowercased_all(names@),
            ).0,
            (Err(a), Err(b)) => a@ == b,
            _ => false,
        },
{
    match validate_relative_directory(relative_path) {
        Ok(path) => Ok(DirectoryListing { path, directories: order_names(names) }),
        Err(e) => Err(e),
    }
}

/// Whether a name can be a part of a destination: it is not empty, neither a full stop nor
/// two, has no slash, no backslash and no colon, and neither begins nor ends with white space.
pub open spec fn plain_part(s: Seq<char>) -> bool {
    &&& s.len() > 0
    &&& s != "."@ && s != ".."@
    &&& !s.contains('/') && !s.contains('\\') && !s.contains(':')
    &&& !crate::text::white_space(s[0])
    &&& !crate::text::white_space(s.last())
}

/// A destination of plain parts is accepted as it is, and so with slashes behind it; one that
/// begins at the root, names a drive or is empty is refused.
pub proof fn plain_destinations_are_accepted(parts: Seq<Seq<char>>, rest: Seq<char>)
    requires
        parts.len() > 0,
        forall|i: int| 0 <= i < parts.len() ==> plain_part(#[trigger] parts[i]),
    ensures
        ({
            let d = crate::text::joined(parts, seq!['/']);
            &&& checked_destination(d) == Ok::<Seq<char>, Seq<char>>(d)
            &&& checked_directory(d) == Ok::<Seq<char>, Seq<char>>(d)
        }),
        checked_destination(Seq::empty()) is Err,
        checked_directory(Seq::empty()) == Ok::<Seq<char>, Seq<char>>(Seq::empty()),
        rest.len() > 0 && !crate::text::white_space(rest.last()) ==> checked_destination(
            seq!['/'] + rest,
        ) is Err,
{
    let d = crate::text::joined(parts, seq!['/']);
    lemma_plain_parts(parts);
    assert(replaced(d, '\\', '/') =~= d);
    crate::text::lemma_trim_fixed(d, CharClass::White);
    crate::text::lemma_trim_fixed(d, CharClass::Slash);
    assert(!d.contains(':')) by {
        if d.contains(':') {
            let i = d.index_of(':');
            assert(d[i] == ':');
        }
    }
    assert forall|i: int| 0 <= i < parts.len() implies !(#[trigger] parts[i]).contains('/') by {
        assert(plain_part(parts[i]));
    }
    crate::folder_archive::lemma_split_join(parts, '/');
    assert(!has_bad_piece(parts)) by {
        if has_bad_piece(parts) {
            let i = choose|i: int|
                0 <= i < parts.len() && ((#[trigger] parts[i]).len() == 0 || dot_part(parts[i]));
            assert(plain_part(parts[i]));
        }
    }
    let none = Seq::<char>::empty();
    assert(replaced(none, '\\', '/') =~= none);
    crate::text_laws::white_texts_are_trimmed_away(none);
    assert(trimmed(none) =~= none);
    crate::text::lemma_ends(none, CharClass::Slash);
    assert(trim_of(none, CharClass::Slash) =~= none);
    if rest.len() > 0 && !crate::text::white_space(rest.last()) {
        let s = seq!['/'] + rest;
        let r = replaced(s, '\\', '/');
        assert(r[0] == '/');
        assert(r.last() == rest.last() || r.last() == '/');
        crate::text::lemma_trim_fixed(r, CharClass::White);
    }
}

/// Plain parts put together.
proof fn lemma_plain_parts(parts: Seq<Seq<char>>)
    requires
        parts.len() > 0,
        forall|i: int| 0 <= i < parts.len() ==> plain_part(#[trigger] parts[i]),
    ensures
        ({
            let d = crate::text::joined(parts, seq!['/']);
            &&& d.len() > 0
            &&& d[0] != '/' && !crate::text::white_space(d[0])
            &&& d.last() != '/' && !crate::text::white_space(d.last())
            &&& forall|i: int| 0 <= i < d.len() ==> #[trigger] d[i] != '\\' && d[i] != ':'
        }),
    decreases parts.len(),
{
    let d = crate::text::joined(parts, seq!['/']);
    let last = parts.last();
    assert(plain_part(parts[parts.len() - 1]));
    assert forall|i: int| 0 <= i < last.len() implies #[trigger] last[i] != '\\' && last[i] != ':'
        && last[i] != '/' by {
        assert(last.contains(last[i]));
    }
    if parts.len() == 1 {
        assert(d == last);
    } else {
        let front = parts.drop_last();
        assert forall|i: int| 0 <= i < front.len() implies plain_part(#[trigger] front[i]) by {
            assert(front[i] == parts[i]);
        }
        lemma_plain_parts(front);
        let head = crate::text::joined(front, seq!['/']);
        assert(d == head + seq!['/'] + last);
        assert(d[0] == head[0] && d.last() == last.last());
        assert forall|i: int| 0 <= i < d.len() implies #[trigger] d[i] != '\\' && d[i] != ':' by {
            if i < head.len() {
                assert(d[i] == head[i]);
            } else if i > head.len() {
                assert(d[i] == last[i - head.len() - 1]);
            }
        }
    }
}

/// A destination with a colon, and one with a part that steps up or stays, is refused.
pub proof fn escaping_destinations_are_refused(parts: Seq<Seq<char>>, k: int, raw: Seq<char>)
    requires
        parts.len() > 0,
        0 <= k < parts.len(),
        parts[k] == ".."@ || parts[k] == "."@ || parts[k].len() == 0,
        forall|i: int|
            0 <= i < parts.len() ==> !(#[trigger] parts[i]).contains('/') && !parts[i].contains(
                '\\',
            ),
        ({
            let d = crate::text::joined(parts, seq!['/']);
            &&& d.len() > 0
            &&& d[0] != '/' && !crate::text::white_space(d[0])
            &&& d.last() != '/' && !crate::text::white_space(d.last())
        }),
    ensures
        checked_destination(crate::text::joined(parts, seq!['/'])) is Err,
        trimmed(replaced(raw, '\\', '/')).contains(':') ==> checked_destination(raw) is Err,
{
    let d = crate::text::joined(parts, seq!['/']);
    lemma_without_backslash(parts);
    assert(replaced(d, '\\', '/') =~= d);
    crate::text::lemma_trim_fixed(d, CharClass::White);
    crate::text::lemma_trim_fixed(d, CharClass::Slash);
    crate::folder_archive::lemma_split_join(parts, '/');
    assert(parts[k].len() == 0 || dot_part(parts[k]));
    assert(has_bad_piece(parts));
}

/// Parts without a backslash, put together, have none.
proof fn lemma_without_backslash(parts: Seq<Seq<char>>)
    requires
        forall|i: int| 0 <= i < parts.len() ==> !(#[trigger] parts[i]).contains('\\'),
    ensures
        forall|i: int|
            0 <= i < crate::text::joined(parts, seq!['/']).len() ==> #[trigger] crate::text::joined(
                parts,
                seq!['/'],
            )[i] != '\\',
    decreases parts.len(),
{
    if parts.len() > 0 {
        let front = parts.drop_last();
        let last = parts.last();
        assert(!parts[parts.len() - 1].contains('\\'));
        assert forall|i: int| 0 <= i < front.len() implies !(#[trigger] front[i]).contains(
            '\\',
        ) by {
            assert(front[i] == parts[i]);
        }
        lemma_without_backslash(front);
        let head = crate::text::joined(front, seq!['/']);
        let d = crate::text::joined(parts, seq!['/']);
        assert forall|i: int| 0 <= i < d.len() implies #[trigger] d[i] != '\\' by {
            if parts.len() == 1 {
                assert(last.contains(last[i]));
            } else if i < head.len() {
                assert(d[i] == head[i]);
            } else if i > head.len() {
                assert(d[i] == last[i - head.len() - 1]);
                assert(last.contains(last[i - head.len() - 1]));
            }
        }
    }
}

/// What lies below the source lies below the target after the move, under the same names;
/// the source becomes the target; anything else stays where it is.
pub proof fn moved_paths_keep_their_rest(
    source: Seq<char>,
    target: Seq<char>,
    rest: Seq<char>,
    other: Seq<char>,
)
    requires
        !source.contains('\\'),
        !rest.contains('\\'),
        !other.contains('\\'),
        source.len() > 0,
        source.last() != '/',
        other != source,
        !starts_with(other, source + seq!['/']),
    ensures
        remapped_path(source, source, target) == Some(target),
        remapped_path(source + seq!['/'] + rest, source, target) == Some(
            target + seq!['/'] + rest,
        ),
        remapped_path(other, source, target) is None,
        remapped_path(source + seq!['/'], source + seq!['/'], target) == Some(
            target + seq!['/'],
        ),
{
    assert forall|s: Seq<char>| !s.contains('\\') implies #[trigger] replaced(s, '\\', '/') == s by {
        assert forall|i: int| 0 <= i < s.len() implies s[i] != '\\' by {
            assert(s.contains(s[i]));
        }
        assert(replaced(s, '\\', '/') =~= s);
    }
    let slash = seq!['/'];
    assert(!any_slash(source.last())) by {
        assert(source.contains(source.last()));
    }
    let path = source + slash + rest;
    assert(!path.contains('\\')) by {
        if path.contains('\\') {
            let i = path.index_of('\\');
            if i < source.len() {
                assert(source[i] == '\\');
            } else if i > source.len() {
                assert(rest[i - source.len() - 1] == '\\');
            }
        }
    }
    assert(replaced(path, '\\', '/') == path);
    assert(path.take(source.len() as int + 1) =~= source + slash);
    assert(path.skip(source.len() as int + 1) =~= rest);
    let ended = source + slash;
    assert(!ended.contains('\\')) by {
        if ended.contains('\\') {
            let i = ended.index_of('\\');
            if i < source.len() {
                assert(source[i] == '\\');
            }
        }
    }
    assert(ended.drop_last() =~= source);
    assert(without_end_slashes(ended) == without_end_slashes(source));
    assert(ended.take(source.len() as int + 1) =~= source + slash);
    assert(target + slash + ended.skip(source.len() as int + 1) =~= target + slash);
}

/// A move is refused for the first thing that is wrong: the source, the destination, the root,
/// then where the target lies; and accepted where nothing is.
pub proof fn moves_are_refused_in_order(facts: MoveFacts, destination: Seq<char>)
    ensures
        vetted(facts, destination) is Ok <==> facts.source_is_real_dir && facts.source_authorized
            && checked_destination(destination) is Ok && facts.root_found && facts.root_is_dir
            && facts.target_inside_root && !facts.target_inside_source,
        vetted(facts, destination) matches Ok(d) ==> checked_destination(destination) == Ok::<
            Seq<char>,
            Seq<char>,
        >(d),
        !facts.source_is_real_dir ==> vetted(facts, destination) == Err::<Seq<char>, MoveRefusal>(
            MoveRefusal::SourceMissing,
        ),
        facts.source_is_real_dir && !facts.source_authorized ==> vetted(facts, destination) == Err::<
            Seq<char>,
            MoveRefusal,
        >(MoveRefusal::SourceOutside),
{
}

/// A move in which everything succeeds ends with the folder at its target, whether it is
/// renamed or copied to another device.
pub proof fn undisturbed_moves_succeed(events: Seq<MoveEvent>)
    requires
        events.len() >= 6,
        events[0] is Done,
        events[2] is Done,
        events[1] is Done || (events[1] == (MoveEvent::OtherDevice { authorized: true }) && events[3]
            is Done && events[4] is Done && events[5] is Done && events.len() >= 7 && events[6]
            is Done),
    ensures
        ({
            let start = MoveWorld {
                at_source: true,
                at_target: false,
                in_staging: false,
                stored: false,
            };
            let run = move_run(MoveStage::BackingUp, start, events, 0, 8);
            &&& run is Some
            &&& run->Some_0.0 == (MoveOutcome::Moved { leftover: false })
            &&& run->Some_0.1 is Nothing
            &&& run->Some_0.2.at_target && !run->Some_0.2.at_source && run->Some_0.2.stored
                && !run->Some_0.2.in_staging
        }),
{
    reveal_with_fuel(move_run, 9);
}

/// Where the database cannot be updated, the folder goes back where it was; and without a
/// backup nothing is touched.
pub proof fn failed_updates_are_taken_back(events: Seq<MoveEvent>)
    requires
        events.len() >= 4,
    ensures
        ({
            let start = MoveWorld {
                at_source: true,
                at_target: false,
                in_staging: false,
                stored: false,
            };
            let run = move_run(MoveStage::BackingUp, start, events, 0, 8);
            &&& !(events[0] is Done) ==> run == Some(
                (MoveOutcome::BackupFailed, Retained::Nothing, start),
            )
            &&& events[0] is Done && events[1] is Done && !(events[2] is Done) && events[3] is Done
                ==> run == Some((MoveOutcome::UpdateFailed, Retained::Nothing, start))
            &&& events[0] is Done && events[1] is Occupied ==> run == Some(
                (MoveOutcome::TargetAppeared, Retained::Nothing, start),
            )
        }),
{
    reveal_with_fuel(move_run, 9);
}

}
