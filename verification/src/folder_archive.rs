//! Folder archive plans: checking paths, discovering plans, carrying plans out
//! and taking them back.

use vstd::prelude::*;
use crate::archive_format::agrees;
use crate::artist_folder_move::{row_views, PathRow};
use crate::calendar::{
    format_by_pattern, padded, padded_text, written, year_in_pattern, CalendarDate,
};
use crate::id_list::{
    has_id, id_list_text, ids_text, read_values, serde_values, values_view, write_id_list,
};
use crate::json::{
    array, doc_trees, entry, entry_views, number, object, text_member, Json, JsonTree,
};
use crate::names::{quote, quoted};
use crate::order::{add_number, in_order, rising, sort_texts};
use crate::plan_rows::{auto_confirmed, confirm_plan, MarksView, PlanMarks};
use crate::paths::{
    deepest, deepest_root, is_below, lies_below, nearest_accepted, nearest_is_accepted,
    path_components, qualifies, root_views, split_path, AncestorProbe,
};
use crate::tables::{kept, map_rows, views};
use crate::text::{
    byte_len, byte_prefix, chars_of, contains_text, decimal, decimal_int, has_prefix, has_text,
    join_texts, joined, lower, parsed_within, push_decimal, push_decimal_int, read_unsigned,
    replace_char, replaced, same_chars, same_text, split, split_chars, starts_with, sub_chars,
    take_bytes, text_of, texts, to_lower, trim_chars, trim_end_chars, trim_end_of, trim_text,
    trimmed, CharClass,
};

verus! {

/// The non-empty pieces of a path.
pub open spec fn kept_parts(parts: Seq<Seq<char>>) -> Seq<Seq<char>>
    decreases parts.len(),
{
    if parts.len() == 0 {
        Seq::empty()
    } else if parts.last().len() > 0 {
        kept_parts(parts.drop_last()).push(parts.last())
    } else {
        kept_parts(parts.drop_last())
    }
}

/// Whether a path piece is `.` or `..`.
pub open spec fn dot_part(part: Seq<char>) -> bool {
    part == "."@ || part == ".."@
}

/// Whether any path piece is `.` or `..`.
pub open spec fn has_dot_part(parts: Seq<Seq<char>>) -> bool {
    exists|i: int| 0 <= i < parts.len() && dot_part(#[trigger] parts[i])
}

/// Whether a path starts with a drive letter, or with any other single byte in
/// front of a colon.
pub open spec fn drive_path(raw: Seq<char>) -> bool {
    raw.len() >= 2 && raw[0] <= '\u{7f}' && raw[1] == ':'
}

/// The outcome of checking a folder below an artist: its pieces with single
/// forward slashes between them. Absolute paths, drive paths and the pieces `.`
/// and `..` are refused.
pub open spec fn checked_folder(folder: Seq<char>) -> Result<Seq<char>, Seq<char>> {
    let raw = trimmed(replaced(folder, '\\', '/'));
    let parts = kept_parts(split(raw, '/'));
    if raw.len() == 0 || raw[0] == '/' || drive_path(raw) || has_dot_part(parts) || parts.len()
        == 0 {
        Err("Bad folder path"@)
    } else {
        Ok(joined(parts, seq!['/']))
    }
}

/// Checks a folder below an artist; absolute paths and traversal are refused.
pub fn validate_relative_folder(folder: &str) -> (r: Result<String, String>)
    ensures
        agrees(r, checked_folder(folder@)),
{
    let given = chars_of(folder);
    let slashed = replace_char(&given, '\\', '/');
    let raw = trim_chars(&slashed, CharClass::White);
    if raw.len() == 0 || raw[0] == '/' {
        return Err("Bad folder path".to_owned());
    }
    if raw.len() >= 2 && raw[0] <= '\u{7f}' && raw[1] == ':' {
        return Err("Bad folder path".to_owned());
    }
    let pieces = split_chars(&raw, '/');
    let ghost all = texts(pieces@);
    let mut parts: Vec<String> = Vec::new();
    let mut i: usize = 0;
    let mut dots: bool = false;
    assert(texts(parts@) =~= Seq::<Seq<char>>::empty());
    while i < pieces.len()
        invariant
            i <= pieces@.len(),
            all == texts(pieces@),
            texts(parts@) == kept_parts(all.take(i as int)),
            dots == has_dot_part(texts(parts@)),
        decreases pieces@.len() - i,
    {
        let ghost now = all.take(i as int + 1);
        assert(now.drop_last() =~= all.take(i as int));
        assert(now.last() == pieces@[i as int]@);
        if !pieces[i].as_str().is_empty() {
            let ghost before = parts@;
            let is_dot = same_text(pieces[i].as_str(), ".") || same_text(pieces[i].as_str(), "..");
            parts.push(pieces[i].clone());
            proof {
                let b = texts(before);
                let n = texts(parts@);
                assert(n =~= b.push(pieces@[i as int]@));
                if has_dot_part(b) {
                    let k = choose|k: int| 0 <= k < b.len() && dot_part(#[trigger] b[k]);
                    assert(dot_part(n[k]));
                }
                if is_dot {
                    assert(dot_part(n[b.len() as int]));
                }
                if has_dot_part(n) {
                    let k = choose|k: int| 0 <= k < n.len() && dot_part(#[trigger] n[k]);
                    if k < b.len() {
                        assert(dot_part(b[k]));
                    }
                }
            }
            dots = dots || is_dot;
        }
        i += 1;
    }
    assert(all.take(all.len() as int) =~= all);
    if dots || parts.len() == 0 {
        return Err("Bad folder path".to_owned());
    }
    let r = join_texts(&parts, "/");
    proof {
        reveal_strlit("/");
        assert("/"@ =~= seq!['/']);
    }
    Ok(r)
}

/// Every kept piece is a non-empty piece.
proof fn lemma_kept_parts(parts: Seq<Seq<char>>)
    ensures
        forall|i: int|
            0 <= i < kept_parts(parts).len() ==> (#[trigger] kept_parts(parts)[i]).len() > 0
                && parts.contains(kept_parts(parts)[i]),
    decreases parts.len(),
{
    if parts.len() > 0 {
        let d = parts.drop_last();
        lemma_kept_parts(d);
        assert forall|i: int| 0 <= i < kept_parts(parts).len() implies (
        #[trigger] kept_parts(parts)[i]).len() > 0 && parts.contains(kept_parts(parts)[i]) by {
            if i < kept_parts(d).len() {
                assert(kept_parts(parts)[i] == kept_parts(d)[i]);
                let k = d.index_of(kept_parts(d)[i]);
                assert(parts[k] == d[k]);
            } else {
                assert(parts[parts.len() - 1] == parts.last());
            }
        }
    }
}

/// No piece of a split text holds the separator.
pub proof fn lemma_split_pieces(s: Seq<char>, sep: char)
    ensures
        forall|i: int| 0 <= i < split(s, sep).len() ==> !(#[trigger] split(s, sep)[i]).contains(sep),
    decreases s.len(),
{
    crate::text::lemma_index_of(s, sep);
    let k = crate::text::index_of(s, sep);
    if k < s.len() {
        lemma_split_pieces(s.skip(k + 1), sep);
        let rest = split(s.skip(k + 1), sep);
        assert forall|i: int| 0 <= i < split(s, sep).len() implies !(#[trigger] split(
            s,
            sep,
        )[i]).contains(sep) by {
            if i == 0 {
                let head = s.take(k);
                if head.contains(sep) {
                    let j = head.index_of(sep);
                    assert(s[j] == sep);
                }
            } else {
                assert(split(s, sep)[i] == rest[i - 1]);
            }
        }
    }
}

/// Splitting what was joined gives the pieces back, where no piece holds the
/// separator.
pub proof fn lemma_split_join(parts: Seq<Seq<char>>, sep: char)
    requires
        parts.len() > 0,
        forall|i: int| 0 <= i < parts.len() ==> !(#[trigger] parts[i]).contains(sep),
    ensures
        split(joined(parts, seq![sep]), sep) == parts,
    decreases parts.len(),
{
    let text = joined(parts, seq![sep]);
    if parts.len() == 1 {
        crate::text::lemma_index_of(text, sep);
        assert(split(text, sep) =~= parts);
    } else {
        let d = parts.drop_last();
        assert forall|i: int| 0 <= i < d.len() implies !(#[trigger] d[i]).contains(sep) by {
            assert(d[i] == parts[i]);
        }
        lemma_split_join(d, sep);
        lemma_split_append(joined(d, seq![sep]), parts.last(), sep);
        assert(text =~= joined(d, seq![sep]) + seq![sep] + parts.last());
        assert(d.push(parts.last()) =~= parts);
    }
}

/// Appending a separator and a piece without one appends that piece.
proof fn lemma_split_append(s: Seq<char>, last: Seq<char>, sep: char)
    requires
        !last.contains(sep),
    ensures
        split(s + seq![sep] + last, sep) == split(s, sep).push(last),
    decreases s.len(),
{
    let whole = s + seq![sep] + last;
    crate::text::lemma_index_of(s, sep);
    let k = crate::text::index_of(s, sep);
    if k < s.len() {
        crate::text::lemma_index_of_unique(whole, sep, k);
        lemma_split_append(s.skip(k + 1), last, sep);
        assert(whole.skip(k + 1) =~= s.skip(k + 1) + seq![sep] + last);
        assert(whole.take(k) =~= s.take(k));
        assert(split(whole, sep) =~= split(s, sep).push(last));
    } else {
        crate::text::lemma_index_of_unique(whole, sep, s.len() as int);
        assert(whole.take(s.len() as int) =~= s);
        assert(whole.skip(s.len() as int + 1) =~= last);
        crate::text::lemma_index_of(last, sep);
        assert(split(last, sep) == seq![last]);
        assert(split(s, sep) == seq![s]);
        assert(split(whole, sep) == seq![s] + split(last, sep));
        assert(split(whole, sep) =~= split(s, sep).push(last));
    }
}

/// An accepted folder stays below the artist: it is not empty, and none of its
/// pieces is empty, `.` or `..`.
pub proof fn accepted_folders_stay_inside(folder: Seq<char>)
    requires
        checked_folder(folder) is Ok,
    ensures
        ({
            let f = checked_folder(folder)->Ok_0;
            &&& f.len() > 0
            &&& f[0] != '/'
            &&& forall|i: int|
                0 <= i < split(f, '/').len() ==> (#[trigger] split(f, '/')[i]).len() > 0
                    && !dot_part(split(f, '/')[i])
        }),
{
    let raw = trimmed(replaced(folder, '\\', '/'));
    let pieces = split(raw, '/');
    let parts = kept_parts(pieces);
    lemma_kept_parts(pieces);
    lemma_split_pieces(raw, '/');
    assert forall|i: int| 0 <= i < parts.len() implies !(#[trigger] parts[i]).contains('/') by {
        let k = pieces.index_of(parts[i]);
        assert(pieces[k] == parts[i]);
    }
    lemma_split_join(parts, '/');
    let f = joined(parts, seq!['/']);
    assert(split(f, '/') == parts);
    assert forall|i: int| 0 <= i < split(f, '/').len() implies (#[trigger] split(f, '/')[i]).len()
        > 0 && !dot_part(split(f, '/')[i]) by {
        assert(parts[i].len() > 0);
    }
    crate::text::lemma_index_of(f, '/');
    if f.len() == 0 {
        assert(split(f, '/')[0] == f);
    } else if f[0] == '/' {
        assert(crate::text::index_of(f, '/') == 0);
        assert(split(f, '/')[0] == f.take(0));
    }
}

/// No piece of a split text holds a character that the text lacks.
proof fn lemma_split_lacks(s: Seq<char>, sep: char, c: char)
    requires
        !s.contains(c),
    ensures
        forall|i: int| 0 <= i < split(s, sep).len() ==> !(#[trigger] split(s, sep)[i]).contains(c),
    decreases s.len(),
{
    crate::text::lemma_index_of(s, sep);
    let k = crate::text::index_of(s, sep);
    if k < s.len() {
        let tail = s.skip(k + 1);
        assert(!tail.contains(c)) by {
            if tail.contains(c) {
                let j = tail.index_of(c);
                assert(s[k + 1 + j] == c);
            }
        }
        lemma_split_lacks(tail, sep, c);
        assert forall|i: int| 0 <= i < split(s, sep).len() implies !(#[trigger] split(
            s,
            sep,
        )[i]).contains(c) by {
            if i == 0 {
                let head = s.take(k);
                if head.contains(c) {
                    let j = head.index_of(c);
                    assert(s[j] == c);
                }
            } else {
                assert(split(s, sep)[i] == split(tail, sep)[i - 1]);
            }
        }
    }
}

/// An accepted folder ends neither in a slash nor in a backslash, and begins with no
/// slash.
pub proof fn lemma_accepted_ends(folder: Seq<char>)
    requires
        checked_folder(folder) is Ok,
    ensures
        ({
            let f = checked_folder(folder)->Ok_0;
            &&& f.len() > 0
            &&& f[0] != '/'
            &&& f.last() != '/'
            &&& f.last() != '\\'
        }),
{
    accepted_folders_stay_inside(folder);
    let plain = replaced(folder, '\\', '/');
    let raw = trimmed(plain);
    let pieces = split(raw, '/');
    let parts = kept_parts(pieces);
    lemma_kept_parts(pieces);
    lemma_split_pieces(raw, '/');
    assert(!raw.contains('\\')) by {
        crate::text::lemma_trim_subset(plain, CharClass::White);
        if raw.contains('\\') {
            let j = raw.index_of('\\');
            assert(plain.contains(raw[j]));
            let k = plain.index_of('\\');
            assert(plain[k] == '\\');
        }
    }
    lemma_split_lacks(raw, '/', '\\');
    let last = parts.last();
    assert(parts[parts.len() - 1] == last);
    let k = pieces.index_of(last);
    assert(pieces[k] == last);
    assert(last.contains(last.last()));
    let f = joined(parts, seq!['/']);
    assert(f.last() == last.last());
}

/// A path text put behind another: a separator where the base lacks one, and
/// the base alone counts for nothing in front of an absolute path.
pub open spec fn path_joined(base: Seq<char>, rest: Seq<char>) -> Seq<char> {
    if rest.len() > 0 && rest[0] == '/' {
        rest
    } else if base.len() == 0 || base.last() == '/' {
        base + rest
    } else {
        base + seq!['/'] + rest
    }
}

/// A path text put behind another.
pub fn join_path(base: &str, rest: &str) -> (r: String)
    ensures
        r@ == path_joined(base@, rest@),
{
    let b = chars_of(base);
    let f = chars_of(rest);
    if f.len() > 0 && f[0] == '/' {
        return rest.to_owned();
    }
    let mut out = base.to_owned();
    if b.len() > 0 && b[b.len() - 1] != '/' {
        out.push('/');
    }
    out.append(rest);
    assert(out@ =~= path_joined(base@, rest@));
    out
}

/// The stored path of an artist's folder.
pub open spec fn stored_path(artist_path: Seq<char>, folder: Seq<char>) -> Seq<char> {
    replaced(path_joined(artist_path, folder), '\\', '/')
}

/// The stored path of an artist's folder.
pub fn folder_db_path(artist_path: &str, folder: &str) -> (r: String)
    ensures
        r@ == stored_path(artist_path@, folder@),
{
    let path = join_path(artist_path, folder);
    text_of(&replace_char(&chars_of(&path), '\\', '/'))
}

/// Whether a path is a folder or lies below it; slashes at the end of the
/// folder do not count for what lies below.
pub open spec fn at_or_below(path: Seq<char>, folder: Seq<char>) -> bool {
    path == folder || starts_with(path, trim_end_of(folder, CharClass::Slash) + seq!['/'])
}

/// Whether a path is a folder or lies below it.
fn is_at_or_below(path: &[char], folder: &[char]) -> (r: bool)
    ensures
        r == at_or_below(path@, folder@),
{
    if same_chars(path, folder) {
        return true;
    }
    let mut prefix = trim_end_chars(folder, CharClass::Slash);
    prefix.push('/');
    assert(prefix@ =~= trim_end_of(folder@, CharClass::Slash) + seq!['/']);
    has_prefix(path, &prefix)
}

/// The text behind the first `n` characters; nothing where there are fewer.
pub open spec fn behind(s: Seq<char>, n: int) -> Seq<char> {
    if n <= s.len() {
        s.skip(n)
    } else {
        Seq::empty()
    }
}

/// A text and what of another text stands behind a number of characters.
fn with_tail(head: &[char], path: &[char], n: usize) -> (r: String)
    ensures
        r@ == head@ + behind(path@, n as int),
{
    let mut out = text_of(head);
    if n <= path.len() {
        let tail = sub_chars(path, n, path.len());
        out.append(&text_of(&tail));
    }
    assert(out@ =~= head@ + behind(path@, n as int));
    out
}

/// The new path of an item when its folder is renamed: the real folder is
/// looked for first, the logical one second; every other path stays.
pub open spec fn moved_path(
    path: Seq<char>,
    logical_source: Seq<char>,
    real_source: Seq<char>,
    logical_target: Seq<char>,
    real_target: Seq<char>,
) -> Option<Seq<char>> {
    if at_or_below(path, real_source) {
        Some(real_target + behind(path, real_source.len() as int))
    } else if at_or_below(path, logical_source) {
        Some(logical_target + behind(path, logical_source.len() as int))
    } else {
        None
    }
}

/// The new path of an item when its folder is renamed; `None` where the item
/// does not lie in the folder.
pub fn move_item_path(
    path: &str,
    logical_source: &str,
    real_source: &str,
    logical_target: &str,
    real_target: &str,
) -> (r: Option<String>)
    ensures
        match r {
            Some(p) => moved_path(
                path@,
                logical_source@,
                real_source@,
                logical_target@,
                real_target@,
            ) == Some(p@),
            None => moved_path(
                path@,
                logical_source@,
                real_source@,
                logical_target@,
                real_target@,
            ) is None,
        },
{
    let p = chars_of(path);
    let from_real = chars_of(real_source);
    if is_at_or_below(&p, &from_real) {
        return Some(with_tail(&chars_of(real_target), &p, from_real.len()));
    }
    let logical = chars_of(logical_source);
    if is_at_or_below(&p, &logical) {
        return Some(with_tail(&chars_of(logical_target), &p, logical.len()));
    }
    None
}

/// The items of an artist whose paths change when a folder is renamed, with their new
/// paths.
pub open spec fn moved_items(
    rows: Seq<(i64, i64, Seq<char>)>,
    artist_id: i64,
    logical_source: Seq<char>,
    real_source: Seq<char>,
    logical_target: Seq<char>,
    real_target: Seq<char>,
) -> Seq<(i64, i64, Seq<char>)>
    decreases rows.len(),
{
    if rows.len() == 0 {
        Seq::empty()
    } else {
        let before = moved_items(
            rows.drop_last(),
            artist_id,
            logical_source,
            real_source,
            logical_target,
            real_target,
        );
        let row = rows.last();
        match moved_path(row.2, logical_source, real_source, logical_target, real_target) {
            Some(p) if row.1 == artist_id => before.push((row.0, artist_id, p)),
            _ => before,
        }
    }
}

/// The items of an artist whose paths change when a folder is renamed, with their new
/// paths.
pub fn update_folder_item_paths(
    items: &[PathRow],
    artist_id: i64,
    logical_source: &str,
    real_source: &str,
    logical_target: &str,
    real_target: &str,
) -> (r: Vec<PathRow>)
    ensures
        row_views(r@) == moved_items(
            row_views(items@),
            artist_id,
            logical_source@,
            real_source@,
            logical_target@,
            real_target@,
        ),
{
    let ghost all = row_views(items@);
    let mut out: Vec<PathRow> = Vec::new();
    let mut i: usize = 0;
    assert(row_views(out@) =~= Seq::<(i64, i64, Seq<char>)>::empty());
    while i < items.len()
        invariant
            i <= items@.len(),
            all == row_views(items@),
            row_views(out@) == moved_items(
                all.take(i as int),
                artist_id,
                logical_source@,
                real_source@,
                logical_target@,
                real_target@,
            ),
        decreases items@.len() - i,
    {
        let ghost now = all.take(i as int + 1);
        let ghost row = (items@[i as int].id, items@[i as int].artist_id, items@[i as int].path@);
        assert(now.drop_last() =~= all.take(i as int));
        assert(now.last() == row);
        let moved = move_item_path(
            &items[i].path,
            logical_source,
            real_source,
            logical_target,
            real_target,
        );
        if let Some(path) = moved {
            if items[i].artist_id == artist_id {
                let ghost before = out@;
                let ghost p = path@;
                out.push(PathRow { id: items[i].id, artist_id, path });
                assert(row_views(out@) =~= row_views(before).push((row.0, artist_id, p)));
            }
        }
        i += 1;
    }
    assert(all.take(all.len() as int) =~= all);
    out
}

/// Taking a rename back gives every item that it moved its path back, where no folder
/// ends in a slash, and changes no other. The items that lay in the logical folder
/// alone have to lie outside the real target afterwards.
pub proof fn undo_restores_every_item(
    rows: Seq<(i64, i64, Seq<char>)>,
    artist_id: i64,
    logical_source: Seq<char>,
    real_source: Seq<char>,
    logical_target: Seq<char>,
    real_target: Seq<char>,
)
    requires
        logical_source.len() > 0 ==> logical_source.last() != '/',
        real_source.len() > 0 ==> real_source.last() != '/',
        logical_target.len() > 0 ==> logical_target.last() != '/',
        real_target.len() > 0 ==> real_target.last() != '/',
        forall|i: int|
            0 <= i < rows.len() ==> (match moved_path(
                (#[trigger] rows[i]).2,
                logical_source,
                real_source,
                logical_target,
                real_target,
            ) {
                Some(p) => at_or_below(rows[i].2, real_source) || !at_or_below(p, real_target),
                None => true,
            }),
    ensures
        moved_items(
            moved_items(
                rows,
                artist_id,
                logical_source,
                real_source,
                logical_target,
                real_target,
            ),
            artist_id,
            logical_target,
            real_target,
            logical_source,
            real_source,
        ) == kept(
            rows,
            |row: (i64, i64, Seq<char>)|
                row.1 == artist_id && moved_path(
                    row.2,
                    logical_source,
                    real_source,
                    logical_target,
                    real_target,
                ) is Some,
        ),
    decreases rows.len(),
{
    if rows.len() > 0 {
        let front = rows.drop_last();
        let row = rows.last();
        assert forall|i: int| 0 <= i < front.len() implies (match moved_path(
            (#[trigger] front[i]).2,
            logical_source,
            real_source,
            logical_target,
            real_target,
        ) {
            Some(p) => at_or_below(front[i].2, real_source) || !at_or_below(p, real_target),
            None => true,
        }) by {
            assert(front[i] == rows[i]);
        }
        undo_restores_every_item(
            front,
            artist_id,
            logical_source,
            real_source,
            logical_target,
            real_target,
        );
        let before = moved_items(
            front,
            artist_id,
            logical_source,
            real_source,
            logical_target,
            real_target,
        );
        let moved = moved_path(row.2, logical_source, real_source, logical_target, real_target);
        if moved is Some && row.1 == artist_id {
            assert(rows[rows.len() - 1] == row);
            undo_restores_item_paths(
                row.2,
                logical_source,
                real_source,
                logical_target,
                real_target,
            );
            let now = before.push((row.0, artist_id, moved->Some_0));
            assert(now.drop_last() =~= before);
        }
    }
}

/// Taking a rename back gives every item of the folder its path back, where no
/// folder ends in a slash. An item that lay in the logical folder alone has to lie
/// outside the real target afterwards: else it is taken for an item of that.
pub proof fn undo_restores_item_paths(
    path: Seq<char>,
    logical_source: Seq<char>,
    real_source: Seq<char>,
    logical_target: Seq<char>,
    real_target: Seq<char>,
)
    requires
        logical_source.len() > 0 ==> logical_source.last() != '/',
        real_source.len() > 0 ==> real_source.last() != '/',
        logical_target.len() > 0 ==> logical_target.last() != '/',
        real_target.len() > 0 ==> real_target.last() != '/',
        moved_path(path, logical_source, real_source, logical_target, real_target) is Some,
        at_or_below(path, real_source) || !at_or_below(
            moved_path(path, logical_source, real_source, logical_target, real_target)->Some_0,
            real_target,
        ),
    ensures
        moved_path(
            moved_path(path, logical_source, real_source, logical_target, real_target)->Some_0,
            logical_target,
            real_target,
            logical_source,
            real_source,
        ) == Some(path),
{
    if at_or_below(path, real_source) {
        lemma_tail_goes_back(path, real_source, real_target);
    } else {
        lemma_tail_goes_back(path, logical_source, logical_target);
    }
}

/// The tail of a path below a folder, put behind another folder, lies below that
/// one, and goes back.
proof fn lemma_tail_goes_back(path: Seq<char>, source: Seq<char>, target: Seq<char>)
    requires
        source.len() > 0 ==> source.last() != '/',
        target.len() > 0 ==> target.last() != '/',
        at_or_below(path, source),
    ensures
        ({
            let moved = target + behind(path, source.len() as int);
            &&& at_or_below(moved, target)
            &&& source + behind(moved, target.len() as int) == path
        }),
{
    lemma_no_end_slash(source);
    lemma_no_end_slash(target);
    let moved = target + behind(path, source.len() as int);
    if path == source {
        assert(behind(path, source.len() as int) =~= Seq::<char>::empty());
        assert(moved =~= target);
        assert(behind(moved, target.len() as int) =~= Seq::<char>::empty());
        assert(source + behind(moved, target.len() as int) =~= path);
    } else {
        let prefix = source + seq!['/'];
        let rest = path.skip(source.len() as int);
        assert(path.take(prefix.len() as int) == prefix);
        assert(rest[0] == '/') by {
            assert(path[source.len() as int] == prefix[source.len() as int]);
        }
        assert(path.take(source.len() as int) =~= source) by {
            assert forall|i: int| 0 <= i < source.len() implies path[i] == source[i] by {
                assert(path.take(prefix.len() as int)[i] == prefix[i]);
            }
        }
        assert(moved == target + rest);
        let back = target + seq!['/'];
        assert(moved.take(back.len() as int) =~= back);
        assert(starts_with(moved, back));
        assert(behind(moved, target.len() as int) =~= rest);
        assert(source + rest =~= path);
    }
}

/// Nothing is cut off a folder that ends in no slash.
proof fn lemma_no_end_slash(folder: Seq<char>)
    requires
        folder.len() > 0 ==> folder.last() != '/',
    ensures
        trim_end_of(folder, CharClass::Slash) == folder,
{
    assert(crate::text::trailing(folder, CharClass::Slash) == 0);
    assert(trim_end_of(folder, CharClass::Slash) =~= folder);
}


/// Why a plan was not carried out.
#[derive(Clone, Copy, PartialEq, Eq, Debug, Structural)]
pub enum FailureReason {
    /// The database could not be backed up first.
    BackupFailed,
    /// The source folder is not there.
    SourceMissing,
    /// The target is taken.
    TargetExists,
    /// The target is the source or lies in it.
    TargetInsideSource,
    /// The source or the target is no folder path.
    BadFolderPath,
    /// The database refused the new paths.
    DbUpdateFailed,
    /// The folder could not be renamed back.
    RollbackFailed,
    /// The source or the target lies outside the artist's folder.
    OutsideArtist,
    /// The folder could not be renamed.
    ExecutionFailed,
    /// The plan changed while it was carried out.
    StaleState,
}

impl FailureReason {
    /// The code in an answer and in the log.
    pub open spec fn spelled(self) -> Seq<char> {
        match self {
            FailureReason::BackupFailed => "backup_failed"@,
            FailureReason::SourceMissing => "source_missing"@,
            FailureReason::TargetExists => "target_exists"@,
            FailureReason::TargetInsideSource => "target_inside_source"@,
            FailureReason::BadFolderPath => "bad_folder_path"@,
            FailureReason::DbUpdateFailed => "db_update_failed"@,
            FailureReason::RollbackFailed => "rollback_failed"@,
            FailureReason::OutsideArtist => "outside_artist"@,
            FailureReason::ExecutionFailed => "execution_failed"@,
            FailureReason::StaleState => "stale_state"@,
        }
    }

    /// The code in an answer and in the log.
    pub fn code(self) -> (r: &'static str)
        ensures
            r@ == self.spelled(),
    {
        match self {
            FailureReason::BackupFailed => "backup_failed",
            FailureReason::SourceMissing => "source_missing",
            FailureReason::TargetExists => "target_exists",
            FailureReason::TargetInsideSource => "target_inside_source",
            FailureReason::BadFolderPath => "bad_folder_path",
            FailureReason::DbUpdateFailed => "db_update_failed",
            FailureReason::RollbackFailed => "rollback_failed",
            FailureReason::OutsideArtist => "outside_artist",
            FailureReason::ExecutionFailed => "execution_failed",
            FailureReason::StaleState => "stale_state",
        }
    }
}

/// The message shown for a failure code.
pub open spec fn failure_message(reason: Seq<char>) -> Seq<char> {
    if reason == "backup_failed"@ {
        "数据库备份失败"@
    } else if reason == "source_missing"@ {
        "来源文件夹不存在"@
    } else if reason == "target_exists"@ {
        "目标已存在"@
    } else if reason == "target_parent_failed"@ {
        "无法创建目标文件夹"@
    } else if reason == "target_inside_source"@ {
        "目标文件夹不能位于来源文件夹内"@
    } else if reason == "bad_folder_path"@ {
        "文件夹路径无效"@
    } else if reason == "db_update_failed"@ {
        "数据库路径更新失败"@
    } else if reason == "rollback_failed"@ {
        "执行回滚失败，需要人工核对"@
    } else if reason == "outside_artist"@ {
        "路径不在画师目录内"@
    } else if reason == "execution_failed"@ {
        "执行失败"@
    } else {
        "整理失败"@
    }
}

/// The message shown for a failure code.
pub fn archive_failure_message(reason: &str) -> (r: &'static str)
    ensures
        r@ == failure_message(reason@),
{
    if same_text(reason, "backup_failed") {
        "数据库备份失败"
    } else if same_text(reason, "source_missing") {
        "来源文件夹不存在"
    } else if same_text(reason, "target_exists") {
        "目标已存在"
    } else if same_text(reason, "target_parent_failed") {
        "无法创建目标文件夹"
    } else if same_text(reason, "target_inside_source") {
        "目标文件夹不能位于来源文件夹内"
    } else if same_text(reason, "bad_folder_path") {
        "文件夹路径无效"
    } else if same_text(reason, "db_update_failed") {
        "数据库路径更新失败"
    } else if same_text(reason, "rollback_failed") {
        "执行回滚失败，需要人工核对"
    } else if same_text(reason, "outside_artist") {
        "路径不在画师目录内"
    } else if same_text(reason, "execution_failed") {
        "执行失败"
    } else {
        "整理失败"
    }
}

/// The folders of a plan, as far as they could be checked.
#[derive(Debug)]
pub struct PlanPaths {
    /// The source folder: checked, or as it was stored where it is refused.
    pub source: String,
    /// The target folder: checked, or as it was stored where one is refused.
    pub target: String,
    /// Whether both were accepted.
    pub valid: bool,
}

/// The folders of a plan: a refused source leaves both as they are stored, a
/// refused target leaves the target as it is stored.
pub open spec fn paths_of(source: Seq<char>, target: Seq<char>) -> (Seq<char>, Seq<char>, bool) {
    match checked_folder(source) {
        Err(_) => (source, target, false),
        Ok(s) => match checked_folder(target) {
            Err(_) => (s, target, false),
            Ok(t) => (s, t, true),
        },
    }
}

/// Checks the folders of a plan.
pub fn plan_paths(source_raw: &str, target_raw: &str) -> (r: PlanPaths)
    ensures
        (r.source@, r.target@, r.valid) == paths_of(source_raw@, target_raw@),
{
    match validate_relative_folder(source_raw) {
        Err(_) => PlanPaths {
            source: source_raw.to_owned(),
            target: target_raw.to_owned(),
            valid: false,
        },
        Ok(source) => match validate_relative_folder(target_raw) {
            Err(_) => PlanPaths { source, target: target_raw.to_owned(), valid: false },
            Ok(target) => PlanPaths { source, target, valid: true },
        },
    }
}

/// What the file system says about a plan's folders.
#[derive(Clone, Copy, PartialEq, Eq, Debug, Structural)]
pub struct FolderProbe {
    /// Whether the source is a directory.
    pub source_is_dir: bool,
    /// Whether anything stands at the target.
    pub target_exists: bool,
    /// Whether the source lies in the artist's folder.
    pub source_inside: bool,
    /// Whether the target's parent lies in the artist's folder.
    pub target_parent_inside: bool,
}

/// Whether a target is the source or lies in it.
pub open spec fn inside_source(source: Seq<char>, target: Seq<char>) -> bool {
    target == source || starts_with(target, source + seq!['/'])
}

/// Whether a target is the source or lies in it.
pub fn is_inside_source(source: &str, target: &str) -> (r: bool)
    ensures
        r == inside_source(source@, target@),
{
    if same_text(source, target) {
        return true;
    }
    let mut prefix = chars_of(source);
    prefix.push('/');
    assert(prefix@ =~= source@ + seq!['/']);
    has_prefix(&chars_of(target), &prefix)
}

/// Why a plan cannot be carried out, in the order in which it is looked at.
pub open spec fn vetted(
    valid: bool,
    source: Seq<char>,
    target: Seq<char>,
    probe: FolderProbe,
) -> Option<FailureReason> {
    if !valid {
        Some(FailureReason::BadFolderPath)
    } else if !probe.source_is_dir {
        Some(FailureReason::SourceMissing)
    } else if probe.target_exists {
        Some(FailureReason::TargetExists)
    } else if inside_source(source, target) {
        Some(FailureReason::TargetInsideSource)
    } else if !probe.source_inside || !probe.target_parent_inside {
        Some(FailureReason::OutsideArtist)
    } else {
        None
    }
}

/// Why a plan cannot be carried out.
pub fn vet_plan(paths: &PlanPaths, probe: FolderProbe) -> (r: Option<FailureReason>)
    ensures
        r == vetted(paths.valid, paths.source@, paths.target@, probe),
{
    if !paths.valid {
        Some(FailureReason::BadFolderPath)
    } else if !probe.source_is_dir {
        Some(FailureReason::SourceMissing)
    } else if probe.target_exists {
        Some(FailureReason::TargetExists)
    } else if is_inside_source(&paths.source, &paths.target) {
        Some(FailureReason::TargetInsideSource)
    } else if !probe.source_inside || !probe.target_parent_inside {
        Some(FailureReason::OutsideArtist)
    } else {
        None
    }
}

/// The check of a plan that is only looked at again.
#[derive(Debug)]
pub struct PlanPathCheck {
    /// The source folder.
    pub source_folder: String,
    /// The target folder.
    pub target_folder: String,
    /// Whether the source is a directory.
    pub source_exists: bool,
    /// Whether anything stands at the target.
    pub target_exists: bool,
    /// What blocks the plan.
    pub reason: Option<FailureReason>,
}

/// What blocks a plan that is looked at again. The order differs from that of
/// carrying it out: where the paths lie comes before what is there.
pub open spec fn rechecked(
    valid: bool,
    source: Seq<char>,
    target: Seq<char>,
    artist_authorized: bool,
    probe: FolderProbe,
) -> Option<FailureReason> {
    if !valid {
        Some(FailureReason::BadFolderPath)
    } else if inside_source(source, target) {
        Some(FailureReason::TargetInsideSource)
    } else if !artist_authorized || !probe.source_inside || !probe.target_parent_inside {
        Some(FailureReason::OutsideArtist)
    } else if !probe.source_is_dir {
        Some(FailureReason::SourceMissing)
    } else if probe.target_exists {
        Some(FailureReason::TargetExists)
    } else {
        None
    }
}

/// Looks at a plan again.
pub fn check_plan_paths(
    source_raw: &str,
    target_raw: &str,
    artist_authorized: bool,
    probe: FolderProbe,
) -> (r: PlanPathCheck)
    ensures
        ({
            let (source, target, valid) = paths_of(source_raw@, target_raw@);
            &&& r.source_folder@ == source
            &&& r.target_folder@ == target
            &&& r.source_exists == (valid && probe.source_is_dir)
            &&& r.target_exists == (valid && probe.target_exists)
            &&& r.reason == rechecked(valid, source, target, artist_authorized, probe)
        }),
{
    let paths = plan_paths(source_raw, target_raw);
    let reason = if !paths.valid {
        Some(FailureReason::BadFolderPath)
    } else if is_inside_source(&paths.source, &paths.target) {
        Some(FailureReason::TargetInsideSource)
    } else if !artist_authorized || !probe.source_inside || !probe.target_parent_inside {
        Some(FailureReason::OutsideArtist)
    } else if !probe.source_is_dir {
        Some(FailureReason::SourceMissing)
    } else if probe.target_exists {
        Some(FailureReason::TargetExists)
    } else {
        None
    };
    PlanPathCheck {
        source_exists: paths.valid && probe.source_is_dir,
        target_exists: paths.valid && probe.target_exists,
        source_folder: paths.source,
        target_folder: paths.target,
        reason,
    }
}

/// The status shown for a plan that was looked at again.
pub fn recheck_plan(check: &PlanPathCheck) -> (r: &'static str)
    ensures
        r@ == (if check.reason is None {
            "ready"@
        } else {
            "blocked"@
        }),
{
    match check.reason {
        None => "ready",
        Some(_) => "blocked",
    }
}

/// Carrying a plan out and looking at it again agree on whether it can be done,
/// for an artist whose folder is authorized.
pub proof fn recheck_agrees_with_execution(
    valid: bool,
    source: Seq<char>,
    target: Seq<char>,
    probe: FolderProbe,
)
    ensures
        vetted(valid, source, target, probe) is None <==> rechecked(
            valid,
            source,
            target,
            true,
            probe,
        ) is None,
{
}

/// How a plan ended.
#[derive(Clone, Copy, PartialEq, Eq, Debug, Structural)]
pub enum PlanVerdict {
    /// The folder was renamed and its items have their new paths.
    Executed,
    /// The plan could be carried out; nothing was done.
    DryRun,
    /// The plan was not carried out.
    Failed(FailureReason),
}

impl PlanVerdict {
    /// The status in an answer.
    pub open spec fn spelled(self) -> Seq<char> {
        match self {
            PlanVerdict::Executed => "executed"@,
            PlanVerdict::DryRun => "dry_run"@,
            PlanVerdict::Failed(_) => "error"@,
        }
    }

    /// The status in an answer.
    pub fn status(self) -> (r: &'static str)
        ensures
            r@ == self.spelled(),
    {
        match self {
            PlanVerdict::Executed => "executed",
            PlanVerdict::DryRun => "dry_run",
            PlanVerdict::Failed(_) => "error",
        }
    }
}

/// How far a plan has come.
#[derive(Clone, Copy, PartialEq, Eq, Debug, Structural)]
pub enum PlanStage {
    /// Its paths are being looked at.
    Checking,
    /// Its folder is being renamed.
    Renaming,
    /// The database is being updated.
    Updating,
    /// Its folder is being renamed back; `stale` where the plan had changed.
    RollingBack {
        /// Whether the plan had changed.
        stale: bool,
    },
    /// It has ended.
    Ended,
}

/// What happened to a plan.
#[derive(Clone, Copy, PartialEq, Eq, Debug, Structural)]
pub enum PlanEvent {
    /// Its paths were looked at.
    Checked(Option<FailureReason>),
    /// The rename was tried.
    Renamed(bool),
    /// The database took the new paths.
    Updated,
    /// The database did not take the new paths.
    UpdateFailed {
        /// Whether the plan had changed.
        stale: bool,
    },
    /// The rename back was tried.
    RolledBack(bool),
}

/// What is to be done next for a plan.
#[derive(Clone, Copy, PartialEq, Eq, Debug, Structural)]
pub enum PlanAction {
    /// Rename the source folder to the target.
    Rename,
    /// Give the items their new paths and mark the plan as executed, in one
    /// transaction.
    UpdateDatabase,
    /// Rename the target folder back to the source.
    RenameBack,
    /// Report the verdict, and keep a failure with the plan where `record` says so.
    Finish {
        /// How the plan ended.
        verdict: PlanVerdict,
        /// Whether the failure is kept with the plan.
        record: bool,
    },
}

/// Whether an event can happen at a stage.
pub open spec fn fits(stage: PlanStage, event: PlanEvent) -> bool {
    match stage {
        PlanStage::Checking => event is Checked,
        PlanStage::Renaming => event is Renamed,
        PlanStage::Updating => event is Updated || event is UpdateFailed,
        PlanStage::RollingBack { .. } => event is RolledBack,
        PlanStage::Ended => false,
    }
}

/// The next stage of a plan and what is to be done.
pub open spec fn next_step(stage: PlanStage, event: PlanEvent, dry_run: bool) -> (
    PlanStage,
    PlanAction,
) {
    match (stage, event) {
        (PlanStage::Checking, PlanEvent::Checked(Some(reason))) => (
            PlanStage::Ended,
            PlanAction::Finish { verdict: PlanVerdict::Failed(reason), record: !dry_run },
        ),
        (PlanStage::Checking, PlanEvent::Checked(None)) => if dry_run {
            (PlanStage::Ended, PlanAction::Finish { verdict: PlanVerdict::DryRun, record: false })
        } else {
            (PlanStage::Renaming, PlanAction::Rename)
        },
        (PlanStage::Renaming, PlanEvent::Renamed(true)) => (
            PlanStage::Updating,
            PlanAction::UpdateDatabase,
        ),
        (PlanStage::Renaming, PlanEvent::Renamed(false)) => (
            PlanStage::Ended,
            PlanAction::Finish {
                verdict: PlanVerdict::Failed(FailureReason::ExecutionFailed),
                record: true,
            },
        ),
        (PlanStage::Updating, PlanEvent::UpdateFailed { stale }) => (
            PlanStage::RollingBack { stale },
            PlanAction::RenameBack,
        ),
        (PlanStage::RollingBack { stale }, PlanEvent::RolledBack(true)) => (
            PlanStage::Ended,
            PlanAction::Finish {
                verdict: PlanVerdict::Failed(
                    if stale {
                        FailureReason::StaleState
                    } else {
                        FailureReason::DbUpdateFailed
                    },
                ),
                record: !stale,
            },
        ),
        (PlanStage::RollingBack { .. }, PlanEvent::RolledBack(false)) => (
            PlanStage::Ended,
            PlanAction::Finish {
                verdict: PlanVerdict::Failed(FailureReason::RollbackFailed),
                record: true,
            },
        ),
        _ => (
            PlanStage::Ended,
            PlanAction::Finish { verdict: PlanVerdict::Executed, record: false },
        ),
    }
}

/// Takes a plan one step on.
pub fn step_plan(stage: PlanStage, event: PlanEvent, dry_run: bool) -> (r: (PlanStage, PlanAction))
    requires
        fits(stage, event),
    ensures
        r == next_step(stage, event, dry_run),
{
    match stage {
        PlanStage::Checking => match event {
            PlanEvent::Checked(Some(reason)) => (
                PlanStage::Ended,
                PlanAction::Finish { verdict: PlanVerdict::Failed(reason), record: !dry_run },
            ),
            _ => if dry_run {
                (
                    PlanStage::Ended,
                    PlanAction::Finish { verdict: PlanVerdict::DryRun, record: false },
                )
            } else {
                (PlanStage::Renaming, PlanAction::Rename)
            },
        },
        PlanStage::Renaming => match event {
            PlanEvent::Renamed(true) => (PlanStage::Updating, PlanAction::UpdateDatabase),
            _ => (
                PlanStage::Ended,
                PlanAction::Finish {
                    verdict: PlanVerdict::Failed(FailureReason::ExecutionFailed),
                    record: true,
                },
            ),
        },
        PlanStage::Updating => match event {
            PlanEvent::UpdateFailed { stale } => (
                PlanStage::RollingBack { stale },
                PlanAction::RenameBack,
            ),
            _ => (
                PlanStage::Ended,
                PlanAction::Finish { verdict: PlanVerdict::Executed, record: false },
            ),
        },
        PlanStage::RollingBack { stale } => match event {
            PlanEvent::RolledBack(true) => (
                PlanStage::Ended,
                PlanAction::Finish {
                    verdict: PlanVerdict::Failed(
                        if stale {
                            FailureReason::StaleState
                        } else {
                            FailureReason::DbUpdateFailed
                        },
                    ),
                    record: !stale,
                },
            ),
            _ => (
                PlanStage::Ended,
                PlanAction::Finish {
                    verdict: PlanVerdict::Failed(FailureReason::RollbackFailed),
                    record: true,
                },
            ),
        },
        PlanStage::Ended => (
            PlanStage::Ended,
            PlanAction::Finish { verdict: PlanVerdict::Executed, record: false },
        ),
    }
}

/// Whether a database error says that the plan had changed.
pub fn is_stale(error: &str) -> (r: bool)
    ensures
        r == contains_text(error@, "stale_state"@),
{
    has_text(&chars_of(error), &chars_of("stale_state"))
}

/// How the outside world answers, whatever a plan asks of it.
#[derive(Clone, Copy, PartialEq, Eq, Debug, Structural)]
pub struct PlanAnswers {
    /// What the check of the paths says.
    pub checked: Option<FailureReason>,
    /// Whether the rename succeeds.
    pub renamed: bool,
    /// Whether the database takes the new paths.
    pub updated: bool,
    /// Whether a refusal of the database says that the plan had changed.
    pub stale: bool,
    /// Whether the rename back succeeds.
    pub rolled_back: bool,
}

/// What has been done to the folder of a plan.
#[derive(Clone, Copy, PartialEq, Eq, Debug, Structural)]
pub struct PlanTrace {
    /// How the plan ended.
    pub verdict: PlanVerdict,
    /// Whether the failure is kept with the plan.
    pub record: bool,
    /// Whether the folder stands at the target.
    pub moved: bool,
    /// Whether the database holds the new paths.
    pub stored: bool,
}

/// The event that answers an action.
pub open spec fn answer(action: PlanAction, answers: PlanAnswers) -> PlanEvent {
    match action {
        PlanAction::Rename => PlanEvent::Renamed(answers.renamed),
        PlanAction::UpdateDatabase => if answers.updated {
            PlanEvent::Updated
        } else {
            PlanEvent::UpdateFailed { stale: answers.stale }
        },
        PlanAction::RenameBack => PlanEvent::RolledBack(answers.rolled_back),
        PlanAction::Finish { .. } => PlanEvent::Updated,
    }
}

/// Runs a plan against given answers: from a stage and an event to its end.
pub open spec fn run_from(
    stage: PlanStage,
    event: PlanEvent,
    dry_run: bool,
    answers: PlanAnswers,
    moved: bool,
    stored: bool,
    steps: nat,
) -> Option<PlanTrace>
    decreases steps,
{
    if steps == 0 {
        None
    } else {
        let now_moved = match event {
            PlanEvent::Renamed(done) => done,
            PlanEvent::RolledBack(done) => moved && !done,
            _ => moved,
        };
        let now_stored = stored || (stage is Updating && event is Updated);
        let (next, action) = next_step(stage, event, dry_run);
        match action {
            PlanAction::Finish { verdict, record } => Some(
                PlanTrace { verdict, record, moved: now_moved, stored: now_stored },
            ),
            _ => run_from(
                next,
                answer(action, answers),
                dry_run,
                answers,
                now_moved,
                now_stored,
                (steps - 1) as nat,
            ),
        }
    }
}

/// A run of a plan from its check to its end.
pub open spec fn plan_run(dry_run: bool, answers: PlanAnswers) -> Option<PlanTrace> {
    run_from(
        PlanStage::Checking,
        PlanEvent::Checked(answers.checked),
        dry_run,
        answers,
        false,
        false,
        4,
    )
}

/// Every run of a plan ends, and file system and database agree at its end:
/// the folder stands at the target exactly where the database holds the new
/// paths, except where the rename back failed, and that is reported. A run is
/// reported as executed exactly where both moved; a dry run and a failed check
/// touch nothing.
pub proof fn plan_runs_are_consistent(dry_run: bool, answers: PlanAnswers)
    ensures
        plan_run(dry_run, answers) is Some,
        ({
            let t = plan_run(dry_run, answers)->Some_0;
            &&& t.verdict == PlanVerdict::Executed <==> t.stored
            &&& t.stored ==> t.moved
            &&& t.moved && !t.stored ==> t.verdict == PlanVerdict::Failed(
                FailureReason::RollbackFailed,
            ) && t.record
            &&& (dry_run || answers.checked is Some) ==> !t.moved && !t.stored
            &&& dry_run ==> !t.record
            &&& t.verdict is Failed && !dry_run && t.verdict != PlanVerdict::Failed(
                FailureReason::StaleState,
            ) && !(answers.checked == Some(FailureReason::StaleState)) ==> t.record
        }),
{
    reveal_with_fuel(run_from, 6);
}


/// The members of an object with one member put in: it takes the place of the
/// first member with its key, or comes last.
pub open spec fn with_member(
    members: Seq<(Seq<char>, JsonTree)>,
    key: Seq<char>,
    value: JsonTree,
) -> Seq<(Seq<char>, JsonTree)>
    decreases members.len(),
{
    if members.len() == 0 {
        seq![(key, value)]
    } else if members[0].0 == key {
        seq![(key, value)] + members.skip(1)
    } else {
        seq![members[0]] + with_member(members.skip(1), key, value)
    }
}

/// A member that was put in is the one that is found, and no other member
/// changes.
pub proof fn put_members_are_found(
    members: Seq<(Seq<char>, JsonTree)>,
    key: Seq<char>,
    value: JsonTree,
    other: Seq<char>,
)
    ensures
        crate::json::member(with_member(members, key, value), key) == Some(value),
        other != key ==> crate::json::member(with_member(members, key, value), other)
            == crate::json::member(members, other),
    decreases members.len(),
{
    let put = with_member(members, key, value);
    if members.len() == 0 {
        assert(put.skip(1).len() == 0);
        assert(crate::json::member(put.skip(1), other) is None);
    } else if members[0].0 == key {
        assert(put.skip(1) =~= members.skip(1));
    } else {
        put_members_are_found(members.skip(1), key, value, other);
        assert(put.skip(1) =~= with_member(members.skip(1), key, value));
    }
}

/// The members of an object with every member of another put in, in order.
pub open spec fn with_members(
    members: Seq<(Seq<char>, JsonTree)>,
    extra: Seq<(Seq<char>, JsonTree)>,
) -> Seq<(Seq<char>, JsonTree)>
    decreases extra.len(),
{
    if extra.len() == 0 {
        members
    } else {
        with_member(
            with_members(members, extra.drop_last()),
            extra.last().0,
            extra.last().1,
        )
    }
}

/// What is kept with a plan that failed, besides the time.
pub open spec fn failure_members(
    reason: Seq<char>,
    source: Seq<char>,
    target: Seq<char>,
) -> Seq<(Seq<char>, JsonTree)> {
    seq![
        ("status"@, JsonTree::Text("failed"@)),
        ("reason"@, JsonTree::Text(reason)),
        ("message"@, JsonTree::Text(failure_message(reason))),
        ("source"@, JsonTree::Text(source)),
        ("target"@, JsonTree::Text(target)),
        ("automatic"@, JsonTree::Bool(true)),
    ]
}

/// Puts one member into the members of an object.
fn put_member(members: Vec<(String, Json)>, key: String, value: Json) -> (r: Vec<(String, Json)>)
    ensures
        entry_views(r@) == with_member(entry_views(members@), key@, value.tree()),
{
    let ghost all = entry_views(members@);
    let mut list = members;
    let mut i: usize = 0;
    assert(all.skip(0) =~= all);
    assert(all.take(0) + with_member(all, key@, value.tree()) =~= with_member(
        all,
        key@,
        value.tree(),
    ));
    while i < list.len()
        invariant
            i <= list@.len(),
            list@ == members@,
            all == entry_views(list@),
            all.take(i as int) + with_member(all.skip(i as int), key@, value.tree()) == with_member(
                all,
                key@,
                value.tree(),
            ),
        decreases list@.len() - i,
    {
        let ghost rest = all.skip(i as int);
        assert(rest[0] == (list@[i as int].0@, list@[i as int].1.tree()));
        if same_text(&list[i].0, &key) {
            let ghost put = (key@, value.tree());
            list.set(i, (key, value));
            assert(entry_views(list@) =~= all.take(i as int) + (seq![put] + rest.skip(1)));
            return list;
        }
        proof {
            assert(rest.skip(1) =~= all.skip(i as int + 1));
            assert(all.take(i as int + 1) =~= all.take(i as int).push(all[i as int]));
            assert(all.take(i as int) + (seq![rest[0]] + with_member(
                rest.skip(1),
                key@,
                value.tree(),
            )) =~= all.take(i as int + 1) + with_member(
                all.skip(i as int + 1),
                key@,
                value.tree(),
            ));
        }
        i += 1;
    }
    let ghost put = (key@, value.tree());
    list.push((key, value));
    assert(all.skip(i as int).len() == 0);
    assert(entry_views(list@) =~= all.take(i as int) + seq![put]);
    list
}

/// What is kept with a plan that failed, besides the time: the failure, and the
/// members of `extra` in place of its own where a key is the same.
pub fn record_plan_execution_failure(
    reason: &str,
    source: &str,
    target: &str,
    extra: Vec<(String, Json)>,
) -> (r: Json)
    ensures
        r.tree() == JsonTree::Object(
            with_members(failure_members(reason@, source@, target@), entry_views(extra@)),
        ),
{
    let mut members: Vec<(String, Json)> = Vec::new();
    members.push(text_member("status", "failed"));
    members.push(text_member("reason", reason));
    members.push(text_member("message", archive_failure_message(reason)));
    members.push(text_member("source", source));
    members.push(text_member("target", target));
    let automatic = Json::Bool(true);
    assert(automatic.tree() == JsonTree::Bool(true));
    members.push(("automatic".to_owned(), automatic));
    assert(entry_views(members@) =~= failure_members(reason@, source@, target@));
    let ghost base = failure_members(reason@, source@, target@);
    let ghost all = entry_views(extra@);
    let mut waiting = extra;
    waiting = reverse_members(waiting);
    let ghost count = all.len();
    let ghost mut done: int = 0;
    assert(all.take(0) =~= Seq::<(Seq<char>, JsonTree)>::empty());
    while waiting.len() > 0
        invariant
            0 <= done,
            done + waiting@.len() == count,
            count == all.len(),
            forall|k: int|
                0 <= k < waiting@.len() ==> (
                (#[trigger] waiting@[k]).0@,
                waiting@[k].1.tree(),
            ) == all[count - 1 - k],
            entry_views(members@) == with_members(base, all.take(done)),
        decreases waiting@.len(),
    {
        let ghost last = waiting@[waiting@.len() - 1];
        let ghost before = waiting@;
        match waiting.pop() {
            Some((key, value)) => {
                proof {
                    assert((last.0@, last.1.tree()) == all[done]);
                    let now = all.take(done + 1);
                    assert(now.drop_last() =~= all.take(done));
                    assert(now.last() == all[done]);
                    assert forall|k: int| 0 <= k < waiting@.len() implies (
                        (#[trigger] waiting@[k]).0@,
                        waiting@[k].1.tree(),
                    ) == all[count - 1 - k] by {
                        assert(waiting@[k] == before[k]);
                    }
                }
                members = put_member(members, key, value);
                proof {
                    done = done + 1;
                }
            },
            None => {},
        }
    }
    assert(all.take(count as int) =~= all);
    let r = Json::Object(members);
    assert(r.tree()->Object_0 =~= entry_views(members@));
    r
}

/// Members in the opposite order.
fn reverse_members(members: Vec<(String, Json)>) -> (r: Vec<(String, Json)>)
    ensures
        r@ == members@.reverse(),
{
    let ghost all = members@;
    let mut rest = members;
    let mut out: Vec<(String, Json)> = Vec::new();
    while rest.len() > 0
        invariant
            rest@.len() + out@.len() == all.len(),
            rest@ == all.take(rest@.len() as int),
            forall|k: int| 0 <= k < out@.len() ==> #[trigger] out@[k] == all[all.len() - 1 - k],
        decreases rest@.len(),
    {
        let ghost n = rest@.len();
        let ghost before = rest@;
        match rest.pop() {
            Some(m) => {
                assert(m == all[n - 1]);
                assert(rest@ =~= all.take(n - 1));
                out.push(m);
            },
            None => {},
        }
    }
    assert(out@ =~= all.reverse());
    out
}

/// Why a plan was not taken back.
#[derive(Clone, Copy, PartialEq, Eq, Debug, Structural)]
pub enum UndoError {
    /// There is no such plan.
    PlanNotFound,
    /// The plan is not executed.
    PlanNotExecuted,
    /// The artist or the artist's folder is not there.
    ArtistMissing,
    /// A folder lies outside the artist's folder.
    OutsideArtist,
    /// The target folder is not there.
    TargetMissing,
    /// The target is no folder.
    TargetNotDirectory,
    /// The source is taken again.
    SourceExists,
}

impl UndoError {
    /// The code of the error.
    pub fn code(self) -> (r: &'static str)
        ensures
            r@ == (match self {
                UndoError::PlanNotFound => "plan_not_found"@,
                UndoError::PlanNotExecuted => "plan_not_executed"@,
                UndoError::ArtistMissing => "artist_missing"@,
                UndoError::OutsideArtist => "outside_artist"@,
                UndoError::TargetMissing => "target_missing"@,
                UndoError::TargetNotDirectory => "target_not_directory"@,
                UndoError::SourceExists => "source_exists"@,
            }),
    {
        match self {
            UndoError::PlanNotFound => "plan_not_found",
            UndoError::PlanNotExecuted => "plan_not_executed",
            UndoError::ArtistMissing => "artist_missing",
            UndoError::OutsideArtist => "outside_artist",
            UndoError::TargetMissing => "target_missing",
            UndoError::TargetNotDirectory => "target_not_directory",
            UndoError::SourceExists => "source_exists",
        }
    }
}

/// What is known when a plan is to be taken back.
#[derive(Clone, Copy, PartialEq, Eq, Debug, Structural)]
pub struct UndoFacts {
    /// Whether the plan exists.
    pub plan_found: bool,
    /// Whether the artist is in the database.
    pub artist_known: bool,
    /// Whether the artist's folder is a directory.
    pub artist_is_dir: bool,
    /// Whether the artist's folder is authorized.
    pub artist_authorized: bool,
    /// Whether anything stands at the target.
    pub target_exists: bool,
    /// Whether the target is a directory.
    pub target_is_dir: bool,
    /// Whether anything stands at the source.
    pub source_exists: bool,
    /// Whether the target lies in the artist's folder.
    pub target_inside: bool,
    /// Whether the source's parent lies in the artist's folder.
    pub source_parent_inside: bool,
}

/// Why a plan cannot be taken back, in the order in which it is looked at.
pub open spec fn undo_refused(facts: UndoFacts, status: Seq<char>, valid: bool) -> Option<
    UndoError,
> {
    if !facts.plan_found {
        Some(UndoError::PlanNotFound)
    } else if status != "executed"@ {
        Some(UndoError::PlanNotExecuted)
    } else if !facts.artist_known || !facts.artist_is_dir {
        Some(UndoError::ArtistMissing)
    } else if !facts.artist_authorized || !valid {
        Some(UndoError::OutsideArtist)
    } else if !facts.target_exists {
        Some(UndoError::TargetMissing)
    } else if !facts.target_is_dir {
        Some(UndoError::TargetNotDirectory)
    } else if facts.source_exists {
        Some(UndoError::SourceExists)
    } else if !facts.target_inside || !facts.source_parent_inside {
        Some(UndoError::OutsideArtist)
    } else {
        None
    }
}

/// Why a plan cannot be taken back.
pub fn vet_undo(facts: UndoFacts, status: &str, paths: &PlanPaths) -> (r: Option<UndoError>)
    ensures
        r == undo_refused(facts, status@, paths.valid),
{
    if !facts.plan_found {
        Some(UndoError::PlanNotFound)
    } else if !same_text(status, "executed") {
        Some(UndoError::PlanNotExecuted)
    } else if !facts.artist_known || !facts.artist_is_dir {
        Some(UndoError::ArtistMissing)
    } else if !facts.artist_authorized || !paths.valid {
        Some(UndoError::OutsideArtist)
    } else if !facts.target_exists {
        Some(UndoError::TargetMissing)
    } else if !facts.target_is_dir {
        Some(UndoError::TargetNotDirectory)
    } else if facts.source_exists {
        Some(UndoError::SourceExists)
    } else if !facts.target_inside || !facts.source_parent_inside {
        Some(UndoError::OutsideArtist)
    } else {
        None
    }
}

/// How far taking a plan back has come.
#[derive(Clone, Copy, PartialEq, Eq, Debug, Structural)]
pub enum UndoStage {
    /// The plan is being looked at.
    Checking,
    /// The database is being backed up.
    BackingUp,
    /// The folder is being renamed back.
    Renaming,
    /// The database is being updated.
    Updating,
    /// The folder is being renamed to the target again.
    RollingBack,
    /// The failure is being kept with the plan.
    Recording,
    /// It has ended.
    Ended,
}

/// What happened while a plan was taken back.
#[derive(Clone, Copy, PartialEq, Eq, Debug, Structural)]
pub enum UndoEvent {
    /// The plan was looked at.
    Checked(Option<UndoError>),
    /// Backing up was tried.
    BackedUp(bool),
    /// The folder was renamed back.
    Renamed,
    /// The folder was not renamed back; `occupied` where the source was taken.
    RenameFailed {
        /// Whether the source was taken.
        occupied: bool,
    },
    /// Updating the database was tried.
    Updated(bool),
    /// Renaming to the target again was tried.
    RolledBack(bool),
    /// Keeping the failure with the plan was tried.
    Recorded(bool),
}

/// How taking a plan back ended.
#[derive(Clone, Copy, PartialEq, Eq, Debug, Structural)]
pub enum UndoOutcome {
    /// The plan is taken back.
    Reverted,
    /// The plan was refused.
    Refused(UndoError),
    /// The database could not be backed up.
    BackupFailed,
    /// The folder could not be renamed.
    RenameFailed,
    /// The database refused; the folder stands at the target again.
    UpdateFailed,
    /// The database refused and the folder could not be put back: somebody has
    /// to look at it, and the plan says so.
    ReconciliationRequired,
    /// As before, and the plan could not be marked either.
    ReconciliationNotRecorded,
}

/// What is to be done next to take a plan back.
#[derive(Clone, Copy, PartialEq, Eq, Debug, Structural)]
pub enum UndoAction {
    /// Back the database up.
    TakeBackup,
    /// Rename the target folder to the source.
    RenameBack,
    /// Give the items their former paths and mark the plan as reverted, in one
    /// transaction.
    UpdateDatabase,
    /// Rename the source folder to the target again.
    RenameAgain,
    /// Mark the plan for manual review.
    RecordFailure,
    /// Report the outcome.
    Finish(UndoOutcome),
}

/// Whether an event can happen at a stage.
pub open spec fn undo_fits(stage: UndoStage, event: UndoEvent) -> bool {
    match stage {
        UndoStage::Checking => event is Checked,
        UndoStage::BackingUp => event is BackedUp,
        UndoStage::Renaming => event is Renamed || event is RenameFailed,
        UndoStage::Updating => event is Updated,
        UndoStage::RollingBack => event is RolledBack,
        UndoStage::Recording => event is Recorded,
        UndoStage::Ended => false,
    }
}

/// The next stage of taking a plan back and what is to be done.
pub open spec fn next_undo_step(event: UndoEvent) -> (UndoStage, UndoAction) {
    match event {
        UndoEvent::Checked(Some(error)) => (
            UndoStage::Ended,
            UndoAction::Finish(UndoOutcome::Refused(error)),
        ),
        UndoEvent::Checked(None) => (UndoStage::BackingUp, UndoAction::TakeBackup),
        UndoEvent::BackedUp(true) => (UndoStage::Renaming, UndoAction::RenameBack),
        UndoEvent::BackedUp(false) => (
            UndoStage::Ended,
            UndoAction::Finish(UndoOutcome::BackupFailed),
        ),
        UndoEvent::Renamed => (UndoStage::Updating, UndoAction::UpdateDatabase),
        UndoEvent::RenameFailed { occupied } => (
            UndoStage::Ended,
            UndoAction::Finish(
                if occupied {
                    UndoOutcome::Refused(UndoError::SourceExists)
                } else {
                    UndoOutcome::RenameFailed
                },
            ),
        ),
        UndoEvent::Updated(true) => (UndoStage::Ended, UndoAction::Finish(UndoOutcome::Reverted)),
        UndoEvent::Updated(false) => (UndoStage::RollingBack, UndoAction::RenameAgain),
        UndoEvent::RolledBack(true) => (
            UndoStage::Ended,
            UndoAction::Finish(UndoOutcome::UpdateFailed),
        ),
        UndoEvent::RolledBack(false) => (UndoStage::Recording, UndoAction::RecordFailure),
        UndoEvent::Recorded(true) => (
            UndoStage::Ended,
            UndoAction::Finish(UndoOutcome::ReconciliationRequired),
        ),
        UndoEvent::Recorded(false) => (
            UndoStage::Ended,
            UndoAction::Finish(UndoOutcome::ReconciliationNotRecorded),
        ),
    }
}

/// Takes the undo of a plan one step on.
pub fn undo_folder_rename_plan(stage: UndoStage, event: UndoEvent) -> (r: (UndoStage, UndoAction))
    requires
        undo_fits(stage, event),
    ensures
        r == next_undo_step(event),
{
    match event {
        UndoEvent::Checked(Some(error)) => (
            UndoStage::Ended,
            UndoAction::Finish(UndoOutcome::Refused(error)),
        ),
        UndoEvent::Checked(None) => (UndoStage::BackingUp, UndoAction::TakeBackup),
        UndoEvent::BackedUp(done) => if done {
            (UndoStage::Renaming, UndoAction::RenameBack)
        } else {
            (UndoStage::Ended, UndoAction::Finish(UndoOutcome::BackupFailed))
        },
        UndoEvent::Renamed => (UndoStage::Updating, UndoAction::UpdateDatabase),
        UndoEvent::RenameFailed { occupied } => if occupied {
            (
                UndoStage::Ended,
                UndoAction::Finish(UndoOutcome::Refused(UndoError::SourceExists)),
            )
        } else {
            (UndoStage::Ended, UndoAction::Finish(UndoOutcome::RenameFailed))
        },
        UndoEvent::Updated(done) => if done {
            (UndoStage::Ended, UndoAction::Finish(UndoOutcome::Reverted))
        } else {
            (UndoStage::RollingBack, UndoAction::RenameAgain)
        },
        UndoEvent::RolledBack(done) => if done {
            (UndoStage::Ended, UndoAction::Finish(UndoOutcome::UpdateFailed))
        } else {
            (UndoStage::Recording, UndoAction::RecordFailure)
        },
        UndoEvent::Recorded(done) => if done {
            (UndoStage::Ended, UndoAction::Finish(UndoOutcome::ReconciliationRequired))
        } else {
            (UndoStage::Ended, UndoAction::Finish(UndoOutcome::ReconciliationNotRecorded))
        },
    }
}

/// How the outside world answers while a plan is taken back.
#[derive(Clone, Copy, PartialEq, Eq, Debug, Structural)]
pub struct UndoAnswers {
    /// What the check says.
    pub checked: Option<UndoError>,
    /// Whether backing up succeeds.
    pub backed_up: bool,
    /// Whether the rename back succeeds.
    pub renamed: bool,
    /// Whether a failed rename found the source taken.
    pub occupied: bool,
    /// Whether the database takes the former paths.
    pub updated: bool,
    /// Whether the folder can be put back to the target.
    pub rolled_back: bool,
    /// Whether the failure can be kept with the plan.
    pub recorded: bool,
}

/// The event that answers an action.
pub open spec fn undo_answer(action: UndoAction, a: UndoAnswers) -> UndoEvent {
    match action {
        UndoAction::TakeBackup => UndoEvent::BackedUp(a.backed_up),
        UndoAction::RenameBack => if a.renamed {
            UndoEvent::Renamed
        } else {
            UndoEvent::RenameFailed { occupied: a.occupied }
        },
        UndoAction::UpdateDatabase => UndoEvent::Updated(a.updated),
        UndoAction::RenameAgain => UndoEvent::RolledBack(a.rolled_back),
        UndoAction::RecordFailure => UndoEvent::Recorded(a.recorded),
        UndoAction::Finish(_) => UndoEvent::Checked(None),
    }
}

/// Runs the undo of a plan against given answers. The result holds the outcome,
/// whether the folder stands at the source, and whether the database holds the
/// former paths.
pub open spec fn undo_from(
    event: UndoEvent,
    a: UndoAnswers,
    moved: bool,
    stored: bool,
    steps: nat,
) -> Option<(UndoOutcome, bool, bool)>
    decreases steps,
{
    if steps == 0 {
        None
    } else {
        let now_moved = match event {
            UndoEvent::Renamed => true,
            UndoEvent::RolledBack(done) => moved && !done,
            _ => moved,
        };
        let now_stored = stored || event == UndoEvent::Updated(true);
        match next_undo_step(event).1 {
            UndoAction::Finish(outcome) => Some((outcome, now_moved, now_stored)),
            action => undo_from(
                undo_answer(action, a),
                a,
                now_moved,
                now_stored,
                (steps - 1) as nat,
            ),
        }
    }
}

/// A run of an undo from its check to its end.
pub open spec fn undo_run(a: UndoAnswers) -> Option<(UndoOutcome, bool, bool)> {
    undo_from(UndoEvent::Checked(a.checked), a, false, false, 6)
}

/// Every undo ends, and file system and database agree at its end: it is
/// reported as reverted exactly where both were taken back; where the folder
/// moved and the database did not follow, reconciliation is reported; in every
/// other outcome neither has changed.
pub proof fn undo_runs_are_consistent(a: UndoAnswers)
    ensures
        undo_run(a) is Some,
        ({
            let (outcome, moved, stored) = undo_run(a)->Some_0;
            &&& outcome == UndoOutcome::Reverted <==> stored
            &&& stored ==> moved
            &&& moved && !stored <==> (outcome == UndoOutcome::ReconciliationRequired || outcome
                == UndoOutcome::ReconciliationNotRecorded)
        }),
{
    reveal_with_fuel(undo_from, 8);
}


/// Why a plan from outside is not taken over.
#[derive(Clone, Copy, PartialEq, Eq, Debug, Structural)]
pub enum UpsertError {
    /// The artist does not exist.
    ArtistMissing,
    /// The source folder is missing.
    SourceRequired,
    /// The source folder is refused.
    InvalidSource,
    /// The target folder is refused.
    InvalidTarget,
    /// The status is none that a plan may be given from outside.
    InvalidStatus,
    /// The tags of the stored plan's folder differ, so it gets no target.
    InconsistentTags,
    /// The selected tags are a string that holds no JSON.
    TagsNotJson,
    /// The selected tags are no array.
    TagsNotArray,
    /// A selected tag is no positive integer.
    TagNotPositive,
    /// A selected tag belongs to somebody else.
    TagNotOwned(i64),
}

impl UpsertError {
    /// What is wrong with a plan of an artist.
    pub open spec fn told(self, artist_id: i64) -> Seq<char> {
        match self {
            UpsertError::ArtistMissing => "artist does not exist"@,
            UpsertError::SourceRequired => "source_folder is required"@,
            UpsertError::InvalidSource => "invalid source_folder"@,
            UpsertError::InvalidTarget => "invalid target_folder"@,
            UpsertError::InvalidStatus => "invalid editable status"@,
            UpsertError::InconsistentTags => "folder tags are inconsistent, cannot modify target"@,
            UpsertError::TagsNotJson => "selected_tag_ids must be a JSON array"@,
            UpsertError::TagsNotArray => "selected_tag_ids must be an array"@,
            UpsertError::TagNotPositive => "selected_tag_ids must contain positive integers"@,
            UpsertError::TagNotOwned(tag) => "tag "@ + decimal_int(tag as int)
                + " does not belong to artist "@ + decimal_int(artist_id as int),
        }
    }

    /// The message of the error.
    pub fn message(self, artist_id: i64) -> (r: String)
        ensures
            r@ == "invalid folder rename plan: "@ + self.told(artist_id),
    {
        let mut out = "invalid folder rename plan: ".to_owned();
        match self {
            UpsertError::ArtistMissing => out.append("artist does not exist"),
            UpsertError::SourceRequired => out.append("source_folder is required"),
            UpsertError::InvalidSource => out.append("invalid source_folder"),
            UpsertError::InvalidTarget => out.append("invalid target_folder"),
            UpsertError::InvalidStatus => out.append("invalid editable status"),
            UpsertError::InconsistentTags => out.append("folder tags are inconsistent, cannot modify target"),
            UpsertError::TagsNotJson => out.append("selected_tag_ids must be a JSON array"),
            UpsertError::TagsNotArray => out.append("selected_tag_ids must be an array"),
            UpsertError::TagNotPositive => out.append("selected_tag_ids must contain positive integers"),
            UpsertError::TagNotOwned(tag) => {
                out.append("tag ");
                push_decimal_int(tag, &mut out);
                out.append(" does not belong to artist ");
                push_decimal_int(artist_id, &mut out);
            },
        }
        assert(out@ =~= "invalid folder rename plan: "@ + self.told(artist_id));
        out
    }
}

/// Which plan from outside is not taken over, and why.
#[derive(Clone, Copy, PartialEq, Eq, Debug, Structural)]
pub struct UpsertRefusal {
    /// The place of the plan.
    pub place: usize,
    /// Why.
    pub error: UpsertError,
}

impl UpsertRefusal {
    /// The folder that was refused, in quotes and behind a space; nothing where no folder
    /// is wrong.
    pub open spec fn refused_folder(self, docs: Seq<JsonTree>) -> Seq<char> {
        if self.place >= docs.len() {
            Seq::empty()
        } else {
            match self.error {
                UpsertError::InvalidSource => seq![' '] + quoted(
                    text_or_empty(docs[self.place as int], "source_folder"@),
                ),
                UpsertError::InvalidTarget => seq![' '] + quoted(
                    text_or_empty(docs[self.place as int], "target_folder"@),
                ),
                _ => Seq::empty(),
            }
        }
    }

    /// The message of the refusal of one of these plans of an artist.
    pub fn message(self, artist_id: i64, plans: &[Json]) -> (r: String)
        ensures
            r@ == "invalid folder rename plan: "@ + self.error.told(artist_id)
                + self.refused_folder(doc_trees(plans@)),
    {
        let mut out = self.error.message(artist_id);
        let ghost told = out@;
        if self.place < plans.len() {
            let plan = &plans[self.place];
            assert(doc_trees(plans@)[self.place as int] == plan.tree());
            match self.error {
                UpsertError::InvalidSource => {
                    out.push(' ');
                    out.append(&quote(&read_text(plan, "source_folder")));
                },
                UpsertError::InvalidTarget => {
                    out.push(' ');
                    out.append(&quote(&read_text(plan, "target_folder")));
                },
                _ => {},
            }
        }
        assert(out@ =~= told + self.refused_folder(doc_trees(plans@)));
        out
    }
}

/// A stored plan, as far as it can be edited.
#[derive(Debug)]
pub struct StoredPlan {
    /// The source folder; no two plans of an artist share one.
    pub source_folder: String,
    /// The target folder; empty where there is none yet.
    pub target_folder: String,
    /// The status.
    pub status: String,
    /// The selected tags, as they are stored.
    pub selected_tag_ids: String,
}

/// The value of a [`StoredPlan`].
pub struct PlanView {
    /// The source folder.
    pub source_folder: Seq<char>,
    /// The target folder.
    pub target_folder: Seq<char>,
    /// The status.
    pub status: Seq<char>,
    /// The selected tags, as they are stored.
    pub selected_tag_ids: Seq<char>,
}

impl View for StoredPlan {
    type V = PlanView;

    open spec fn view(&self) -> PlanView {
        PlanView {
            source_folder: self.source_folder@,
            target_folder: self.target_folder@,
            status: self.status@,
            selected_tag_ids: self.selected_tag_ids@,
        }
    }
}

impl StoredPlan {
    /// The same plan again.
    pub fn duplicate(&self) -> (r: StoredPlan)
        ensures
            r@ == self@,
    {
        StoredPlan {
            source_folder: self.source_folder.clone(),
            target_folder: self.target_folder.clone(),
            status: self.status.clone(),
            selected_tag_ids: self.selected_tag_ids.clone(),
        }
    }
}

/// The values of stored plans.
pub open spec fn plan_views(plans: Seq<StoredPlan>) -> Seq<PlanView> {
    plans.map_values(|p: StoredPlan| p@)
}

/// The text of a member; empty where it is missing or no string.
pub open spec fn text_or_empty(doc: JsonTree, key: Seq<char>) -> Seq<char> {
    match doc.get(key) {
        Some(JsonTree::Text(s)) => s,
        _ => Seq::empty(),
    }
}

/// Whether a status may be given from outside: none that says a plan was
/// confirmed, executed or taken back.
pub open spec fn editable(status: Seq<char>) -> bool {
    ||| status == "draft"@
    ||| status == "needs_tags"@
    ||| status == "ready"@
    ||| status == "manual_review"@
    ||| status == "inconsistent_tags"@
}

/// Whether a stored plan is kept as it is, whatever comes from outside.
pub open spec fn settled_status(status: Seq<char>) -> bool {
    status == "confirmed"@ || status == "executed"@
}

/// Whether a stored plan is kept as it is.
pub fn is_settled(status: &str) -> (r: bool)
    ensures
        r == settled_status(status@),
{
    same_text(status, "confirmed") || same_text(status, "executed")
}

/// The source folder, target folder and status that a plan from outside asks for.
pub open spec fn asked_fields(doc: JsonTree) -> Result<
    (Seq<char>, Seq<char>, Seq<char>),
    UpsertError,
> {
    let source_raw = text_or_empty(doc, "source_folder"@);
    let target_raw = text_or_empty(doc, "target_folder"@);
    let status = match doc.get("status"@) {
        Some(JsonTree::Text(s)) => s,
        _ => "needs_tags"@,
    };
    if source_raw.len() == 0 {
        Err(UpsertError::SourceRequired)
    } else if checked_folder(source_raw) is Err {
        Err(UpsertError::InvalidSource)
    } else if target_raw.len() > 0 && checked_folder(target_raw) is Err {
        Err(UpsertError::InvalidTarget)
    } else if !editable(status) {
        Err(UpsertError::InvalidStatus)
    } else {
        Ok(
            (
                checked_folder(source_raw)->Ok_0,
                if target_raw.len() == 0 {
                    Seq::empty()
                } else {
                    checked_folder(target_raw)->Ok_0
                },
                status,
            ),
        )
    }
}

/// The text of a member; empty where it is missing or no string.
fn read_text(doc: &Json, key: &str) -> (r: String)
    ensures
        r@ == text_or_empty(doc.tree(), key@),
{
    match doc.get(key) {
        Some(found) => match found.as_text() {
            Some(s) => s.to_owned(),
            None => String::new(),
        },
        None => String::new(),
    }
}

/// The source folder, target folder and status that a plan from outside asks for.
fn ask_fields(doc: &Json) -> (r: Result<(String, String, String), UpsertError>)
    ensures
        match (r, asked_fields(doc.tree())) {
            (Ok(a), Ok(b)) => (a.0@, a.1@, a.2@) == b,
            (Err(a), Err(b)) => a == b,
            _ => false,
        },
{
    let source_raw = read_text(doc, "source_folder");
    if source_raw.as_str().is_empty() {
        return Err(UpsertError::SourceRequired);
    }
    let source = match validate_relative_folder(&source_raw) {
        Ok(v) => v,
        Err(_) => {
            return Err(UpsertError::InvalidSource);
        },
    };
    let target_raw = read_text(doc, "target_folder");
    let target = if target_raw.as_str().is_empty() {
        String::new()
    } else {
        match validate_relative_folder(&target_raw) {
            Ok(v) => v,
            Err(_) => {
                return Err(UpsertError::InvalidTarget);
            },
        }
    };
    let status = match doc.get("status") {
        Some(found) => match found.as_text() {
            Some(s) => s.to_owned(),
            None => "needs_tags".to_owned(),
        },
        None => "needs_tags".to_owned(),
    };
    if same_text(&status, "draft") || same_text(&status, "needs_tags") || same_text(
        &status,
        "ready",
    ) || same_text(&status, "manual_review") || same_text(&status, "inconsistent_tags") {
        Ok((source, target, status))
    } else {
        Err(UpsertError::InvalidStatus)
    }
}

/// The documents of the tags that a plan from outside selects. A string stands
/// for the document that was read from it.
pub open spec fn asked_tags(doc: JsonTree, read: Option<JsonTree>) -> Result<
    Seq<JsonTree>,
    UpsertError,
> {
    match doc.get("selected_tag_ids"@) {
        None => Ok(Seq::empty()),
        Some(JsonTree::Array(values)) => Ok(values),
        Some(JsonTree::Text(_)) => match read {
            None => Err(UpsertError::TagsNotJson),
            Some(JsonTree::Array(values)) => Ok(values),
            Some(_) => Err(UpsertError::TagsNotArray),
        },
        Some(_) => Err(UpsertError::TagsNotArray),
    }
}

/// The selected tags in the order of their first appearance; each has to be a
/// positive integer and one of the artist's own.
pub open spec fn chosen_tags(values: Seq<JsonTree>, owned: Seq<i64>) -> Result<
    Seq<i64>,
    UpsertError,
>
    decreases values.len(),
{
    if values.len() == 0 {
        Ok(Seq::empty())
    } else {
        match chosen_tags(values.drop_last(), owned) {
            Err(e) => Err(e),
            Ok(before) => match values.last() {
                JsonTree::Int(n) => if n <= 0 {
                    Err(UpsertError::TagNotPositive)
                } else if before.contains(n) {
                    Ok(before)
                } else if !owned.contains(n) {
                    Err(UpsertError::TagNotOwned(n))
                } else {
                    Ok(before.push(n))
                },
                _ => Err(UpsertError::TagNotPositive),
            },
        }
    }
}

/// A refusal of the first tags is the refusal of all.
proof fn lemma_tags_fail(values: Seq<JsonTree>, owned: Seq<i64>, n: int)
    requires
        0 <= n <= values.len(),
        chosen_tags(values.take(n), owned) is Err,
    ensures
        chosen_tags(values, owned) == chosen_tags(values.take(n), owned),
    decreases values.len(),
{
    if n == values.len() {
        assert(values.take(n) =~= values);
    } else {
        assert(values.drop_last().take(n) =~= values.take(n));
        lemma_tags_fail(values.drop_last(), owned, n);
    }
}

/// The selected tags in the order of their first appearance.
pub fn choose_tags(values: &[Json], owned: &[i64]) -> (r: Result<Vec<i64>, UpsertError>)
    ensures
        match (r, chosen_tags(doc_trees(values@), owned@)) {
            (Ok(a), Ok(b)) => a@ == b,
            (Err(a), Err(b)) => a == b,
            _ => false,
        },
{
    let ghost all = doc_trees(values@);
    let mut ids: Vec<i64> = Vec::new();
    let mut i: usize = 0;
    while i < values.len()
        invariant
            i <= values@.len(),
            all == doc_trees(values@),
            chosen_tags(all.take(i as int), owned@) == Ok::<Seq<i64>, UpsertError>(ids@),
        decreases values@.len() - i,
    {
        let ghost now = all.take(i as int + 1);
        assert(now.drop_last() =~= all.take(i as int));
        assert(now.last() == values@[i as int].tree());
        proof {
            if chosen_tags(now, owned@) is Err {
                lemma_tags_fail(all, owned@, i as int + 1);
            }
        }
        let id: i64 = match &values[i] {
            Json::Int(n) => *n,
            _ => 0,
        };
        if id <= 0 {
            return Err(UpsertError::TagNotPositive);
        }
        if !has_id(&ids, id) {
            if !has_id(owned, id) {
                return Err(UpsertError::TagNotOwned(id));
            }
            ids.push(id);
        }
        i += 1;
    }
    assert(all.take(all.len() as int) =~= all);
    Ok(ids)
}

/// The stored plan of a source folder.
pub open spec fn plan_of(rows: Seq<PlanView>, source: Seq<char>) -> Option<PlanView>
    decreases rows.len(),
{
    if rows.len() == 0 {
        None
    } else if rows[0].source_folder == source {
        Some(rows[0])
    } else {
        plan_of(rows.skip(1), source)
    }
}

/// The stored plans with one plan put in: a plan of the same source folder is
/// replaced, a new one comes last.
pub open spec fn with_plan(rows: Seq<PlanView>, row: PlanView) -> Seq<PlanView>
    decreases rows.len(),
{
    if rows.len() == 0 {
        seq![row]
    } else if rows[0].source_folder == row.source_folder {
        seq![row] + rows.skip(1)
    } else {
        seq![rows[0]] + with_plan(rows.skip(1), row)
    }
}

/// The plan that a document asks to be stored.
pub open spec fn asked_plan(
    rows: Seq<PlanView>,
    doc: JsonTree,
    read: Option<JsonTree>,
    owned: Seq<i64>,
) -> Result<PlanView, UpsertError> {
    match asked_fields(doc) {
        Err(e) => Err(e),
        Ok((source, target, status)) => {
            let inconsistent = match plan_of(rows, source) {
                Some(p) => p.status == "inconsistent_tags"@,
                None => false,
            };
            if inconsistent && target.len() > 0 {
                Err(UpsertError::InconsistentTags)
            } else {
                match asked_tags(doc, read) {
                    Err(e) => Err(e),
                    Ok(values) => match chosen_tags(values, owned) {
                        Err(e) => Err(e),
                        Ok(ids) => Ok(
                            PlanView {
                                source_folder: source,
                                target_folder: target,
                                status,
                                selected_tag_ids: id_list_text(ids),
                            },
                        ),
                    },
                }
            }
        },
    }
}

/// The stored plans behind one plan from outside, and how many were written: a
/// settled plan stays as it is.
pub open spec fn one_upsert(rows: Seq<PlanView>, row: PlanView) -> (Seq<PlanView>, int) {
    match plan_of(rows, row.source_folder) {
        Some(p) => if settled_status(p.status) {
            (rows, 0)
        } else {
            (with_plan(rows, row), 1)
        },
        None => (with_plan(rows, row), 1),
    }
}

/// The stored plans behind a batch from outside: each plan sees those in front
/// of it, and the first refusal refuses the batch.
pub open spec fn upserted(
    rows: Seq<PlanView>,
    docs: Seq<JsonTree>,
    reads: Seq<Option<JsonTree>>,
    owned: Seq<i64>,
) -> Result<(Seq<PlanView>, int), UpsertRefusal>
    decreases docs.len(),
{
    if docs.len() == 0 {
        Ok((rows, 0))
    } else {
        match upserted(rows, docs.drop_last(), reads, owned) {
            Err(e) => Err(e),
            Ok((before, count)) => match asked_plan(
                before,
                docs.last(),
                reads[docs.len() - 1],
                owned,
            ) {
                Err(e) => Err(UpsertRefusal { place: (docs.len() - 1) as usize, error: e }),
                Ok(row) => {
                    let (after, n) = one_upsert(before, row);
                    Ok((after, count + n))
                },
            },
        }
    }
}

/// A refusal of the first plans is the refusal of all.
proof fn lemma_upsert_fail(
    rows: Seq<PlanView>,
    docs: Seq<JsonTree>,
    reads: Seq<Option<JsonTree>>,
    owned: Seq<i64>,
    n: int,
)
    requires
        0 <= n <= docs.len(),
        upserted(rows, docs.take(n), reads, owned) is Err,
    ensures
        upserted(rows, docs, reads, owned) == upserted(rows, docs.take(n), reads, owned),
    decreases docs.len(),
{
    if n == docs.len() {
        assert(docs.take(n) =~= docs);
    } else {
        assert(docs.drop_last().take(n) =~= docs.take(n));
        lemma_upsert_fail(rows, docs.drop_last(), reads, owned, n);
    }
}

/// The position of the plan of a source folder.
fn find_plan(rows: &[StoredPlan], source: &str) -> (r: Option<usize>)
    ensures
        match r {
            Some(i) => i < rows@.len() && plan_of(plan_views(rows@), source@) == Some(
                rows@[i as int]@,
            ) && rows@[i as int]@.source_folder == source@ && forall|j: int|
                0 <= j < i ==> (#[trigger] rows@[j])@.source_folder != source@,
            None => plan_of(plan_views(rows@), source@) is None && forall|j: int|
                0 <= j < rows@.len() ==> (#[trigger] rows@[j])@.source_folder != source@,
        },
{
    let ghost all = plan_views(rows@);
    let mut i: usize = 0;
    assert(all.skip(0) =~= all);
    while i < rows.len()
        invariant
            i <= rows@.len(),
            all == plan_views(rows@),
            plan_of(all.skip(i as int), source@) == plan_of(all, source@),
            forall|j: int| 0 <= j < i ==> (#[trigger] rows@[j])@.source_folder != source@,
        decreases rows@.len() - i,
    {
        let ghost rest = all.skip(i as int);
        assert(rest[0] == rows@[i as int]@);
        if same_text(&rows[i].source_folder, source) {
            return Some(i);
        }
        assert(rest.skip(1) =~= all.skip(i as int + 1));
        i += 1;
    }
    assert(all.skip(i as int).len() == 0);
    None
}

/// Putting a plan in at its first position, or at the end.
proof fn lemma_with_plan(rows: Seq<PlanView>, row: PlanView, i: int)
    requires
        0 <= i <= rows.len(),
        forall|j: int| 0 <= j < i ==> (#[trigger] rows[j]).source_folder != row.source_folder,
        i < rows.len() ==> rows[i].source_folder == row.source_folder,
    ensures
        with_plan(rows, row) == if i < rows.len() {
            rows.update(i, row)
        } else {
            rows.push(row)
        },
    decreases rows.len(),
{
    if rows.len() > 0 && i > 0 {
        let rest = rows.skip(1);
        assert forall|j: int| 0 <= j < i - 1 implies (#[trigger] rest[j]).source_folder
            != row.source_folder by {
            assert(rest[j] == rows[j + 1]);
        }
        lemma_with_plan(rest, row, i - 1);
        if i < rows.len() {
            assert(seq![rows[0]] + rest.update(i - 1, row) =~= rows.update(i, row));
        } else {
            assert(seq![rows[0]] + rest.push(row) =~= rows.push(row));
        }
    } else if rows.len() > 0 {
        assert(seq![row] + rows.skip(1) =~= rows.update(0, row));
    } else {
        assert(seq![row] =~= rows.push(row));
    }
}

/// Stores one plan from outside; tells whether it was written.
fn put_plan(rows: &mut Vec<StoredPlan>, row: StoredPlan) -> (r: bool)
    ensures
        (plan_views(final(rows)@), if r {
            1int
        } else {
            0int
        }) == one_upsert(plan_views(old(rows)@), row@),
        final(rows)@.len() <= old(rows)@.len() + 1,
{
    let ghost before = plan_views(rows@);
    match find_plan(rows, &row.source_folder) {
        Some(i) => {
            if is_settled(&rows[i].status) {
                false
            } else {
                proof {
                    lemma_with_plan(before, row@, i as int);
                }
                let ghost v = row@;
                rows.set(i, row);
                assert(plan_views(rows@) =~= before.update(i as int, v));
                true
            }
        },
        None => {
            proof {
                lemma_with_plan(before, row@, before.len() as int);
            }
            let ghost v = row@;
            rows.push(row);
            assert(plan_views(rows@) =~= before.push(v));
            true
        },
    }
}

/// The plan that a document asks to be stored.
fn ask_plan(rows: &[StoredPlan], doc: &Json, read: Option<&Json>, owned: &[i64]) -> (r: Result<
    StoredPlan,
    UpsertError,
>)
    ensures
        match (
            r,
            asked_plan(
                plan_views(rows@),
                doc.tree(),
                match read {
                    Some(j) => Some(j.tree()),
                    None => None,
                },
                owned@,
            ),
        ) {
            (Ok(a), Ok(b)) => a@ == b,
            (Err(a), Err(b)) => a == b,
            _ => false,
        },
{
    let (source_folder, target_folder, status) = match ask_fields(doc) {
        Ok(v) => v,
        Err(e) => {
            return Err(e);
        },
    };
    let inconsistent = match find_plan(rows, &source_folder) {
        Some(i) => same_text(&rows[i].status, "inconsistent_tags"),
        None => false,
    };
    if inconsistent && !target_folder.as_str().is_empty() {
        return Err(UpsertError::InconsistentTags);
    }
    let ids = match doc.get("selected_tag_ids") {
        None => {
            let none: Vec<Json> = Vec::new();
            assert(doc_trees(none@) =~= Seq::<JsonTree>::empty());
            choose_tags(&none, owned)
        },
        Some(found) => match found {
            Json::Array(values) => {
                assert(doc_trees(values@) =~= found.tree()->Array_0);
                choose_tags(values, owned)
            },
            Json::Text(_) => match read {
                None => Err(UpsertError::TagsNotJson),
                Some(parsed) => match parsed {
                    Json::Array(values) => {
                        assert(doc_trees(values@) =~= parsed.tree()->Array_0);
                        choose_tags(values, owned)
                    },
                    _ => Err(UpsertError::TagsNotArray),
                },
            },
            _ => Err(UpsertError::TagsNotArray),
        },
    };
    match ids {
        Err(e) => Err(e),
        Ok(ids) => Ok(
            StoredPlan {
                source_folder,
                target_folder,
                status,
                selected_tag_ids: write_id_list(&ids),
            },
        ),
    }
}

/// The values of documents that were read, where they were.
pub open spec fn read_trees(reads: Seq<Option<Json>>) -> Seq<Option<JsonTree>> {
    reads.map_values(
        |r: Option<Json>|
            match r {
                Some(j) => Some(j.tree()),
                None => None,
            },
    )
}

/// Takes a batch of plans from outside over: all of them, or none. `reads` holds
/// for each plan the document that its selected tags hold as a string.
pub fn upsert_read_plans(
    artist_exists: bool,
    stored: &[StoredPlan],
    plans: &[Json],
    reads: &[Option<Json>],
    owned: &[i64],
) -> (r: Result<(Vec<StoredPlan>, u64), UpsertRefusal>)
    requires
        reads@.len() == plans@.len(),
    ensures
        if !artist_exists {
            r == Err::<(Vec<StoredPlan>, u64), UpsertRefusal>(
                UpsertRefusal { place: 0, error: UpsertError::ArtistMissing },
            )
        } else {
            match (
                r,
                upserted(plan_views(stored@), doc_trees(plans@), read_trees(reads@), owned@),
            ) {
                (Ok(a), Ok(b)) => plan_views(a.0@) == b.0 && a.1 == b.1,
                (Err(a), Err(b)) => a == b,
                _ => false,
            }
        },
{
    if !artist_exists {
        return Err(UpsertRefusal { place: 0, error: UpsertError::ArtistMissing });
    }
    let ghost start = plan_views(stored@);
    let ghost docs = doc_trees(plans@);
    let ghost read = read_trees(reads@);
    let mut rows: Vec<StoredPlan> = Vec::new();
    let mut k: usize = 0;
    while k < stored.len()
        invariant
            k <= stored@.len(),
            rows@.len() == k,
            forall|j: int| 0 <= j < k ==> (#[trigger] rows@[j])@ == stored@[j]@,
        decreases stored@.len() - k,
    {
        rows.push(stored[k].duplicate());
        k += 1;
    }
    assert(plan_views(rows@) =~= start);
    let mut count: u64 = 0;
    let mut i: usize = 0;
    while i < plans.len()
        invariant
            i <= plans@.len(),
            reads@.len() == plans@.len(),
            docs == doc_trees(plans@),
            read == read_trees(reads@),
            count <= i,
            artist_exists,
            start == plan_views(stored@),
            upserted(start, docs.take(i as int), read, owned@) == Ok::<
                (Seq<PlanView>, int),
                UpsertRefusal,
            >((plan_views(rows@), count as int)),
        decreases plans@.len() - i,
    {
        let ghost now = docs.take(i as int + 1);
        assert(now.drop_last() =~= docs.take(i as int));
        assert(now.last() == plans@[i as int].tree());
        assert(read[i as int] == (match reads@[i as int] {
            Some(j) => Some(j.tree()),
            None => None::<JsonTree>,
        }));
        match ask_plan(&rows, &plans[i], reads[i].as_ref(), owned) {
            Err(e) => {
                proof {
                    lemma_upsert_fail(start, docs, read, owned@, i as int + 1);
                }
                return Err(UpsertRefusal { place: i, error: e });
            },
            Ok(row) => {
                if put_plan(&mut rows, row) {
                    count += 1;
                }
            },
        }
        i += 1;
    }
    assert(docs.take(docs.len() as int) =~= docs);
    Ok((rows, count))
}

/// The document that a text holds, as far as tags are chosen by it: whether it is an array,
/// and which of its values are integers.
pub open spec fn values_tree(values: Option<Option<Seq<Option<i64>>>>) -> Option<JsonTree> {
    match values {
        None => None,
        Some(None) => Some(JsonTree::Null),
        Some(Some(list)) => Some(
            JsonTree::Array(
                list.map_values(
                    |n: Option<i64>|
                        match n {
                            Some(n) => JsonTree::Int(n),
                            None => JsonTree::Null,
                        },
                ),
            ),
        ),
    }
}

/// The document that a text holds, as far as tags are chosen by it.
pub fn values_document(values: &Option<Option<Vec<Option<i64>>>>) -> (r: Option<Json>)
    ensures
        (match r {
            Some(j) => Some(j.tree()),
            None => None,
        }) == values_tree(values_view(*values)),
{
    match values {
        None => None,
        Some(None) => Some(Json::Null),
        Some(Some(list)) => {
            let mut out: Vec<Json> = Vec::new();
            let mut i: usize = 0;
            while i < list.len()
                invariant
                    i <= list@.len(),
                    out@.len() == i,
                    forall|k: int|
                        0 <= k < i ==> (#[trigger] out@[k]).tree() == (match list@[k] {
                            Some(n) => JsonTree::Int(n),
                            None => JsonTree::Null,
                        }),
                decreases list@.len() - i,
            {
                out.push(
                    match list[i] {
                        Some(n) => Json::Int(n),
                        None => Json::Null,
                    },
                );
                i += 1;
            }
            assert(doc_trees(out@) =~= values_tree(values_view(*values))->Some_0->Array_0);
            Some(array(out))
        },
    }
}

/// The document that the selected tags of a plan hold as a string.
pub open spec fn tags_read(doc: JsonTree) -> Option<JsonTree> {
    match doc.get("selected_tag_ids"@) {
        Some(JsonTree::Text(text)) => values_tree(serde_values(text)),
        _ => None,
    }
}

/// Reads the document that the selected tags of a plan hold as a string.
fn read_tags(doc: &Json) -> (r: Option<Json>)
    ensures
        (match r {
            Some(j) => Some(j.tree()),
            None => None,
        }) == tags_read(doc.tree()),
{
    match doc.get("selected_tag_ids") {
        Some(Json::Text(text)) => values_document(&read_values(text)),
        _ => None,
    }
}

/// Takes a batch of plans from outside over: all of them, or none.
pub fn upsert_folder_rename_plans(
    artist_exists: bool,
    stored: &[StoredPlan],
    plans: &[Json],
    owned: &[i64],
) -> (r: Result<(Vec<StoredPlan>, u64), UpsertRefusal>)
    ensures
        if !artist_exists {
            r == Err::<(Vec<StoredPlan>, u64), UpsertRefusal>(
                UpsertRefusal { place: 0, error: UpsertError::ArtistMissing },
            )
        } else {
            match (
                r,
                upserted(
                    plan_views(stored@),
                    doc_trees(plans@),
                    doc_trees(plans@).map_values(|doc: JsonTree| tags_read(doc)),
                    owned@,
                ),
            ) {
                (Ok(a), Ok(b)) => plan_views(a.0@) == b.0 && a.1 == b.1,
                (Err(a), Err(b)) => a == b,
                _ => false,
            }
        },
{
    let mut reads: Vec<Option<Json>> = Vec::new();
    let mut i: usize = 0;
    while i < plans.len()
        invariant
            i <= plans@.len(),
            reads@.len() == i,
            forall|k: int|
                0 <= k < i ==> (match #[trigger] reads@[k] {
                    Some(j) => Some(j.tree()),
                    None => None,
                }) == tags_read(plans@[k].tree()),
        decreases plans@.len() - i,
    {
        reads.push(read_tags(&plans[i]));
        i += 1;
    }
    assert(read_trees(reads@) =~= doc_trees(plans@).map_values(|doc: JsonTree| tags_read(doc)));
    upsert_read_plans(artist_exists, stored, plans, &reads, owned)
}

/// A batch from outside never touches a settled plan: a plan that is confirmed
/// or executed is stored as before.
pub proof fn upserts_keep_settled_plans(
    rows: Seq<PlanView>,
    docs: Seq<JsonTree>,
    reads: Seq<Option<JsonTree>>,
    owned: Seq<i64>,
    source: Seq<char>,
)
    requires
        upserted(rows, docs, reads, owned) is Ok,
        plan_of(rows, source) is Some,
        settled_status(plan_of(rows, source)->Some_0.status),
    ensures
        plan_of(upserted(rows, docs, reads, owned)->Ok_0.0, source) == plan_of(rows, source),
    decreases docs.len(),
{
    if docs.len() > 0 {
        upserts_keep_settled_plans(rows, docs.drop_last(), reads, owned, source);
        let (before, count) = upserted(rows, docs.drop_last(), reads, owned)->Ok_0;
        let row = asked_plan(before, docs.last(), reads[docs.len() - 1], owned)->Ok_0;
        if row.source_folder != source {
            lemma_with_plan_other(before, row, source);
        }
    }
}

/// Putting a plan in does not change the plan of another source folder.
proof fn lemma_with_plan_other(rows: Seq<PlanView>, row: PlanView, source: Seq<char>)
    requires
        row.source_folder != source,
    ensures
        plan_of(with_plan(rows, row), source) == plan_of(rows, source),
    decreases rows.len(),
{
    let put = with_plan(rows, row);
    if rows.len() == 0 {
        assert(put.skip(1).len() == 0);
        assert(plan_of(put.skip(1), source) is None);
    } else if rows[0].source_folder == row.source_folder {
        assert(put.skip(1) =~= rows.skip(1));
    } else {
        lemma_with_plan_other(rows.skip(1), row, source);
        assert(put.skip(1) =~= with_plan(rows.skip(1), row));
    }
}

/// No plan from outside can be stored as confirmed, executed or reverted.
pub proof fn upserts_never_forge_execution(
    rows: Seq<PlanView>,
    doc: JsonTree,
    read: Option<JsonTree>,
    owned: Seq<i64>,
)
    requires
        asked_plan(rows, doc, read, owned) is Ok,
    ensures
        ({
            let status = asked_plan(rows, doc, read, owned)->Ok_0.status;
            !settled_status(status) && status != "reverted"@
        }),
{
    reveal_strlit("draft");
    reveal_strlit("needs_tags");
    reveal_strlit("ready");
    reveal_strlit("manual_review");
    reveal_strlit("inconsistent_tags");
    reveal_strlit("confirmed");
    reveal_strlit("executed");
    reveal_strlit("reverted");
    let status = asked_plan(rows, doc, read, owned)->Ok_0.status;
    assert("confirmed"@.len() == 9 && "executed"@.len() == 8 && "reverted"@.len() == 8);
    assert(status.len() == 5 || status.len() == 10 || status.len() == 13 || status.len() == 17);
}


/// The plan that a folder has already.
#[derive(Debug)]
pub struct ExistingPlan {
    /// The status.
    pub status: String,
    /// The date, empty where none is known.
    pub parsed_date: String,
    /// The target folder, empty where there is none yet.
    pub target_folder: String,
}

/// What becomes of the plan of a folder.
#[derive(Debug)]
pub enum DiscoverAction {
    /// Nothing.
    Leave,
    /// The plan goes, unless it is settled.
    Remove,
    /// The folder gets a plan.
    Insert {
        /// The date.
        parsed_date: String,
        /// The selected tags, as they are stored.
        selected_tag_ids: String,
        /// The status.
        status: String,
    },
    /// The plan changes.
    Update {
        /// The date.
        parsed_date: String,
        /// The selected tags, as they are stored.
        selected_tag_ids: String,
        /// The status.
        status: String,
        /// The target folder.
        target_folder: String,
    },
}

/// The value of a [`DiscoverAction`].
pub enum DiscoverView {
    /// Nothing.
    Leave,
    /// The plan goes, unless it is settled.
    Remove,
    /// The folder gets a plan: date, tags, status.
    Insert(Seq<char>, Seq<char>, Seq<char>),
    /// The plan changes: date, tags, status, target.
    Update(Seq<char>, Seq<char>, Seq<char>, Seq<char>),
}

impl View for DiscoverAction {
    type V = DiscoverView;

    open spec fn view(&self) -> DiscoverView {
        match self {
            DiscoverAction::Leave => DiscoverView::Leave,
            DiscoverAction::Remove => DiscoverView::Remove,
            DiscoverAction::Insert { parsed_date, selected_tag_ids, status } => DiscoverView::Insert(
                parsed_date@,
                selected_tag_ids@,
                status@,
            ),
            DiscoverAction::Update { parsed_date, selected_tag_ids, status, target_folder } =>
            DiscoverView::Update(parsed_date@, selected_tag_ids@, status@, target_folder@),
        }
    }
}

/// The tags of the items of a folder.
pub open spec fn item_tags(items: Seq<Vec<i64>>) -> Seq<Seq<i64>> {
    items.map_values(|t: Vec<i64>| t@)
}

/// Whether any item has a tag.
pub open spec fn any_tags(items: Seq<Seq<i64>>) -> bool {
    exists|i: int| 0 <= i < items.len() && (#[trigger] items[i]).len() > 0
}

/// Whether all items have the same tags, and some.
pub open spec fn same_tags(items: Seq<Seq<i64>>) -> bool {
    items.len() > 0 && items[0].len() > 0 && forall|i: int|
        0 <= i < items.len() ==> #[trigger] items[i] == items[0]
}

/// Whether an item has a tag.
pub open spec fn tagged_with(items: Seq<Seq<i64>>, tag: i64) -> bool {
    exists|i: int| 0 <= i < items.len() && (#[trigger] items[i]).contains(tag)
}

/// Whether a list is the tags of all items, rising, each once.
pub open spec fn union_of(items: Seq<Seq<i64>>, union: Seq<i64>) -> bool {
    rising(union) && forall|tag: i64| union.contains(tag) <==> #[trigger] tagged_with(items, tag)
}

/// The tags that a plan selects: those that all items share, else those of any.
pub open spec fn selects(items: Seq<Seq<i64>>, ids: Seq<i64>) -> bool {
    if same_tags(items) {
        ids == items[0]
    } else {
        union_of(items, ids)
    }
}

/// The date of a folder's plan: the one in its name, else the first day of its
/// items, where that names a year.
pub open spec fn discovered_date(folder_date: Seq<char>, min_date: Seq<char>) -> Seq<char> {
    if folder_date.len() == 0 && byte_len(min_date) >= 10 && !starts_with(min_date, "0000"@) {
        byte_prefix(min_date, 10)->Some_0
    } else {
        folder_date
    }
}

/// What becomes of the plan of a folder with the given tags.
pub open spec fn discovered(
    folder: Seq<char>,
    date: Seq<char>,
    items: Seq<Seq<i64>>,
    ids: Seq<i64>,
    existing: Option<(Seq<char>, Seq<char>, Seq<char>)>,
) -> DiscoverView {
    if trimmed(folder).len() == 0 || items.len() == 0 {
        DiscoverView::Leave
    } else if !any_tags(items) {
        match existing {
            Some((status, _, _)) if !settled_status(status) => DiscoverView::Remove,
            _ => DiscoverView::Leave,
        }
    } else {
        match existing {
            None => DiscoverView::Insert(
                date,
                id_list_text(ids),
                if same_tags(items) {
                    "draft"@
                } else {
                    "inconsistent_tags"@
                },
            ),
            Some((status, old_date, old_target)) => if settled_status(status) {
                DiscoverView::Leave
            } else {
                DiscoverView::Update(
                    if old_date.len() == 0 {
                        date
                    } else {
                        old_date
                    },
                    id_list_text(ids),
                    if !same_tags(items) {
                        "inconsistent_tags"@
                    } else if status == "inconsistent_tags"@ {
                        "draft"@
                    } else {
                        status
                    },
                    if same_tags(items) {
                        old_target
                    } else {
                        Seq::empty()
                    },
                )
            },
        }
    }
}

/// A plan that was confirmed or carried out is left alone, whatever the tags of its
/// folder have become.
pub proof fn discovery_keeps_settled_plans(
    folder: Seq<char>,
    date: Seq<char>,
    items: Seq<Seq<i64>>,
    ids: Seq<i64>,
    existing: (Seq<char>, Seq<char>, Seq<char>),
)
    requires
        settled_status(existing.0),
    ensures
        discovered(folder, date, items, ids, Some(existing)) == DiscoverView::Leave,
{
}

/// A folder none of whose items has a tag gets no plan, and keeps none that is still
/// open.
pub proof fn untagged_folders_have_no_open_plan(
    folder: Seq<char>,
    date: Seq<char>,
    items: Seq<Seq<i64>>,
    ids: Seq<i64>,
    existing: Option<(Seq<char>, Seq<char>, Seq<char>)>,
)
    requires
        trimmed(folder).len() > 0,
        items.len() > 0,
        !any_tags(items),
    ensures
        !(discovered(folder, date, items, ids, existing) is Insert),
        !(discovered(folder, date, items, ids, existing) is Update),
        existing matches Some(plan) && !settled_status(plan.0) ==> discovered(
            folder,
            date,
            items,
            ids,
            existing,
        ) == DiscoverView::Remove,
{
}

/// Whether any item has a tag.
fn has_any_tags(items: &[Vec<i64>]) -> (r: bool)
    ensures
        r == any_tags(item_tags(items@)),
{
    let mut i: usize = 0;
    while i < items.len()
        invariant
            i <= items@.len(),
            forall|j: int| 0 <= j < i ==> (#[trigger] items@[j])@.len() == 0,
        decreases items@.len() - i,
    {
        if items[i].len() > 0 {
            assert(item_tags(items@)[i as int].len() > 0);
            return true;
        }
        i += 1;
    }
    proof {
        let all = item_tags(items@);
        assert forall|j: int| 0 <= j < all.len() implies (#[trigger] all[j]).len() == 0 by {
            assert(all[j] == items@[j]@);
        }
    }
    false
}

/// Whether two lists of ids are equal.
fn same_ids(a: &Vec<i64>, b: &Vec<i64>) -> (r: bool)
    ensures
        r == (a@ == b@),
{
    if a.len() != b.len() {
        return false;
    }
    let mut i: usize = 0;
    while i < a.len()
        invariant
            i <= a@.len(),
            a@.len() == b@.len(),
            forall|j: int| 0 <= j < i ==> a@[j] == b@[j],
        decreases a@.len() - i,
    {
        if a[i] != b[i] {
            return false;
        }
        i += 1;
    }
    assert(a@ =~= b@);
    true
}

/// Whether all items have the same tags, and some.
fn have_same_tags(items: &[Vec<i64>]) -> (r: bool)
    ensures
        r == same_tags(item_tags(items@)),
{
    if items.len() == 0 || items[0].len() == 0 {
        return false;
    }
    let ghost all = item_tags(items@);
    assert(all[0] == items@[0]@);
    let mut i: usize = 0;
    while i < items.len()
        invariant
            i <= items@.len(),
            items@.len() > 0,
            all == item_tags(items@),
            forall|j: int| 0 <= j < i ==> #[trigger] all[j] == all[0],
        decreases items@.len() - i,
    {
        assert(all[i as int] == items@[i as int]@);
        if !same_ids(&items[i], &items[0]) {
            assert(all[i as int] != all[0]);
            return false;
        }
        i += 1;
    }
    true
}

/// The tags of all items, rising, each once.
fn tag_union(items: &[Vec<i64>]) -> (r: Vec<i64>)
    ensures
        union_of(item_tags(items@), r@),
{
    let ghost all = item_tags(items@);
    let mut out: Vec<i64> = Vec::new();
    let mut i: usize = 0;
    while i < items.len()
        invariant
            i <= items@.len(),
            all == item_tags(items@),
            rising(out@),
            forall|t: i64|
                out@.contains(t) <==> exists|k: int|
                    0 <= k < i && (#[trigger] items@[k])@.contains(t),
        decreases items@.len() - i,
    {
        let ghost start = out@;
        let mut j: usize = 0;
        assert(items@[i as int]@.take(0) =~= Seq::<i64>::empty());
        while j < items[i].len()
            invariant
                i < items@.len(),
                j <= items@[i as int]@.len(),
                rising(out@),
                forall|t: i64|
                    #[trigger] out@.contains(t) <==> start.contains(t)
                        || items@[i as int]@.take(j as int).contains(t),
            decreases items@[i as int]@.len() - j,
        {
            let ghost before = out@;
            let n = items[i][j];
            add_number(&mut out, n);
            proof {
                let head = items@[i as int]@.take(j as int);
                let longer = items@[i as int]@.take(j as int + 1);
                assert(longer =~= head.push(n));
                assert forall|t: i64| #[trigger] out@.contains(t) <==> start.contains(t)
                    || longer.contains(t) by {
                    assert(out@.contains(t) <==> out@.to_set().contains(t));
                    assert(before.contains(t) <==> before.to_set().contains(t));
                    if t == n {
                        assert(longer[j as int] == t);
                    }
                    if head.contains(t) {
                        let k = head.index_of(t);
                        assert(longer[k] == t);
                    }
                    if longer.contains(t) && t != n {
                        let k = longer.index_of(t);
                        assert(longer[k] == t);
                        assert(head[k] == t);
                    }
                }
            }
            j += 1;
        }
        proof {
            assert forall|t: i64| out@.contains(t) <==> exists|k: int|
                0 <= k < i + 1 && (#[trigger] items@[k])@.contains(t) by {
                assert(items@[i as int]@.take(items@[i as int]@.len() as int) =~= items@[i as int]@);
                if start.contains(t) {
                    let k = choose|k: int| 0 <= k < i && (#[trigger] items@[k])@.contains(t);
                    assert(items@[k]@.contains(t));
                }
            }
        }
        i += 1;
    }
    proof {
        assert forall|t: i64| out@.contains(t) <==> #[trigger] tagged_with(all, t) by {
            if out@.contains(t) {
                let k = choose|k: int| 0 <= k < items@.len() && (#[trigger] items@[k])@.contains(t);
                assert(all[k].contains(t));
            }
            if tagged_with(all, t) {
                let k = choose|k: int| 0 <= k < all.len() && (#[trigger] all[k]).contains(t);
                assert(items@[k]@.contains(t));
            }
        }
    }
    out
}

/// Two lists that rise strictly and hold the same numbers are equal, so the
/// tags that a plan selects are determined by the items.
pub proof fn selected_tags_are_determined(items: Seq<Seq<i64>>, a: Seq<i64>, b: Seq<i64>)
    requires
        selects(items, a),
        selects(items, b),
    ensures
        a == b,
{
    if !same_tags(items) {
        assert forall|t: i64| a.contains(t) <==> b.contains(t) by {
            assert(a.contains(t) <==> tagged_with(items, t));
            assert(b.contains(t) <==> tagged_with(items, t));
        }
        lemma_rising_equal(a, b);
    }
}

/// Strictly rising lists with the same numbers are equal.
proof fn lemma_rising_equal(a: Seq<i64>, b: Seq<i64>)
    requires
        rising(a),
        rising(b),
        forall|t: i64| a.contains(t) <==> b.contains(t),
    ensures
        a == b,
    decreases a.len(),
{
    if a.len() == 0 {
        if b.len() > 0 {
            assert(b.contains(b[0]));
        }
        assert(a =~= b);
    } else {
        assert(a.contains(a.last()));
        let k = b.index_of(a.last());
        assert(b[k] == a.last());
        assert(b.contains(b.last()));
        let m = a.index_of(b.last());
        assert(a[m] == b.last());
        assert(b.last() == a.last()) by {
            if m < a.len() - 1 {
                assert(a[m] < a[a.len() - 1]);
            }
            if k < b.len() - 1 {
                assert(b[k] < b[b.len() - 1]);
            }
        }
        let da = a.drop_last();
        let db = b.drop_last();
        assert forall|t: i64| da.contains(t) <==> db.contains(t) by {
            if da.contains(t) {
                let i = da.index_of(t);
                assert(a[i] == t);
                assert(a[i] < a[a.len() - 1]);
                assert(a.contains(t));
                let j = b.index_of(t);
                assert(b[j] == t);
                assert(db[j] == t);
            }
            if db.contains(t) {
                let i = db.index_of(t);
                assert(b[i] == t);
                assert(b[i] < b[b.len() - 1]);
                assert(b.contains(t));
                let j = a.index_of(t);
                assert(a[j] == t);
                assert(da[j] == t);
            }
        }
        lemma_rising_equal(da, db);
        assert(a =~= da.push(a.last()));
        assert(b =~= db.push(b.last()));
    }
}

/// The bytes that UTF-8 takes for a text reach a number.
fn takes_bytes(s: &[char], n: usize) -> (r: bool)
    ensures
        r == (byte_len(s@) >= n),
{
    let mut used: usize = 0;
    let mut i: usize = 0;
    assert(s@.take(0) =~= Seq::<char>::empty());
    while i < s.len() && used < n
        invariant
            i <= s@.len(),
            used < n ==> used == byte_len(s@.take(i as int)),
            used >= n ==> byte_len(s@.take(i as int)) >= n,
        decreases s@.len() - i,
    {
        let c = s[i];
        let width: usize = if c <= '\u{7f}' {
            1
        } else if c <= '\u{7ff}' {
            2
        } else if c <= '\u{ffff}' {
            3
        } else {
            4
        };
        assert(s@.take(i as int + 1).drop_last() =~= s@.take(i as int));
        if width >= n - used {
            used = n;
        } else {
            used = used + width;
        }
        i += 1;
    }
    proof {
        assert(s@.take(s@.len() as int) =~= s@);
        if i < s@.len() {
            crate::text::lemma_byte_len_grows(s@, i as int, s@.len() as int);
        }
    }
    used >= n
}

/// Decides what becomes of the plan of one folder. `folder_date` is the date in
/// the folder's name, `min_date` the first date of its items, and `items` holds
/// the tags of each item.
pub fn auto_discover_artist_folder_plans(
    folder: &str,
    folder_date: &str,
    min_date: &str,
    items: &[Vec<i64>],
    existing: Option<&ExistingPlan>,
) -> (r: DiscoverAction)
    requires
        trimmed(folder@).len() > 0 && folder_date@.len() == 0 && byte_len(min_date@) >= 10
            && !starts_with(min_date@, "0000"@) ==> byte_prefix(min_date@, 10) is Some,
    ensures
        exists|ids: Seq<i64>|
            #[trigger] selects(item_tags(items@), ids) && r@ == discovered(
                folder@,
                discovered_date(folder_date@, min_date@),
                item_tags(items@),
                ids,
                match existing {
                    Some(e) => Some((e.status@, e.parsed_date@, e.target_folder@)),
                    None => None,
                },
            ),
{
    let ghost all = item_tags(items@);
    let same = have_same_tags(items);
    let ids = if same {
        items[0].clone()
    } else {
        tag_union(items)
    };
    proof {
        if same {
            assert(ids@ =~= items@[0]@);
            assert(all[0] == items@[0]@);
        }
        assert(selects(all, ids@));
    }
    let name = trim_text(folder);
    if name.len() == 0 || items.len() == 0 {
        return DiscoverAction::Leave;
    }
    if !has_any_tags(items) {
        return match existing {
            Some(e) => if is_settled(&e.status) {
                DiscoverAction::Leave
            } else {
                DiscoverAction::Remove
            },
            None => DiscoverAction::Leave,
        };
    }
    let first = chars_of(min_date);
    let parsed_date = if folder_date.is_empty() && takes_bytes(&first, 10) && !has_prefix(
        &first,
        &chars_of("0000"),
    ) {
        match take_bytes(&first, 10) {
            Some(head) => text_of(&head),
            None => String::new(),
        }
    } else {
        folder_date.to_owned()
    };
    let selected_tag_ids = ids_text(&ids);
    match existing {
        None => DiscoverAction::Insert {
            parsed_date,
            selected_tag_ids,
            status: if same {
                "draft".to_owned()
            } else {
                "inconsistent_tags".to_owned()
            },
        },
        Some(e) => {
            if is_settled(&e.status) {
                return DiscoverAction::Leave;
            }
            let status = if !same {
                "inconsistent_tags".to_owned()
            } else if same_text(&e.status, "inconsistent_tags") {
                "draft".to_owned()
            } else {
                e.status.clone()
            };
            let target_folder = if same {
                e.target_folder.clone()
            } else {
                String::new()
            };
            let date = if e.parsed_date.as_str().is_empty() {
                parsed_date
            } else {
                e.parsed_date.clone()
            };
            DiscoverAction::Update { parsed_date: date, selected_tag_ids, status, target_folder }
        },
    }
}

/// Whether a stored setting switches something on.
pub open spec fn switched_on(value: Seq<char>) -> bool {
    let v = trimmed(value);
    v == "1"@ || v == "true"@ || v == "yes"@ || v == "on"@
}

/// Whether a stored setting switches something on.
pub fn is_switched_on(value: &str) -> (r: bool)
    ensures
        r == switched_on(value@),
{
    let v = text_of(&trim_text(value));
    same_text(&v, "1") || same_text(&v, "true") || same_text(&v, "yes") || same_text(&v, "on")
}

/// The automatic archive setting, and whether its former key is to be replaced.
#[derive(Clone, Copy, PartialEq, Eq, Debug, Structural)]
pub struct AutoSetting {
    /// Whether plans are carried out after a full scan.
    pub enabled: bool,
    /// Whether the value is to be stored under the present key.
    pub migrate: bool,
}

/// Reads the automatic archive setting: the present key decides where it is
/// there, else the former one, whose value is taken over unless the database
/// cannot be written.
pub fn folder_rename_auto_enabled(
    value: Option<&str>,
    legacy: Option<&str>,
    query_only: bool,
) -> (r: AutoSetting)
    ensures
        r.enabled == match (value, legacy) {
            (Some(v), _) => switched_on(v@),
            (None, Some(l)) => switched_on(l@),
            (None, None) => false,
        },
        r.migrate == (value is None && legacy is Some && !query_only),
{
    match value {
        Some(v) => AutoSetting { enabled: is_switched_on(v), migrate: false },
        None => match legacy {
            Some(l) => AutoSetting { enabled: is_switched_on(l), migrate: !query_only },
            None => AutoSetting { enabled: false, migrate: false },
        },
    }
}

/// The stored value of the automatic archive setting.
pub fn set_folder_rename_auto(enabled: bool) -> (r: &'static str)
    ensures
        r@ == (if enabled {
            "1"@
        } else {
            "0"@
        }),
{
    if enabled {
        "1"
    } else {
        "0"
    }
}

/// What is stored is read back.
pub proof fn auto_setting_round_trip(enabled: bool)
    ensures
        switched_on(
            if enabled {
                "1"@
            } else {
                "0"@
            },
        ) == enabled,
{
    reveal_strlit("1");
    reveal_strlit("0");
    reveal_strlit("true");
    reveal_strlit("yes");
    reveal_strlit("on");
    crate::text::lemma_trim_fixed("1"@, CharClass::White);
    crate::text::lemma_trim_fixed("0"@, CharClass::White);
    assert("1"@[0] == '1' && "0"@[0] == '0');
    assert("1"@.len() == 1 && "0"@.len() == 1 && "true"@.len() == 4 && "yes"@.len() == 3
        && "on"@.len() == 2);
}


/// Whether a mark stands in a text at a place. Case does not count, and a low line
/// in the mark stands for any character.
pub open spec fn marked_at(text: Seq<char>, mark: Seq<char>, i: int) -> bool {
    &&& 0 <= i
    &&& i + mark.len() <= text.len()
    &&& forall|k: int|
        0 <= k < mark.len() ==> mark[k] == '_' || text[i + k] == #[trigger] mark[k]
}

/// Whether a mark stands anywhere in a text.
pub open spec fn marked(text: Seq<char>, mark: Seq<char>) -> bool {
    exists|i: int| #[trigger] marked_at(lower(text), mark, i)
}

/// Whether a mark stands anywhere in a text that is in lower case.
fn has_mark(text: &[char], mark: &str) -> (r: bool)
    ensures
        r == exists|i: int| #[trigger] marked_at(text@, mark@, i),
{
    let m = chars_of(mark);
    let n: usize = text.len();
    let mut i: usize = 0;
    while i <= n
        invariant
            m@ == mark@,
            n == text@.len(),
            i <= text@.len() + 1,
            forall|j: int| 0 <= j < i ==> !#[trigger] marked_at(text@, mark@, j),
        decreases text@.len() + 1 - i,
    {
        if m.len() > n - i {
            return false;
        }
        let mut k: usize = 0;
        while k < m.len() && (m[k] == '_' || text[i + k] == m[k])
            invariant
                m@ == mark@,
                n == text@.len(),
                k <= m@.len(),
                i + m@.len() <= text@.len(),
                forall|j: int| 0 <= j < k ==> m@[j] == '_' || text@[i + j] == #[trigger] m@[j],
            decreases m@.len() - k,
        {
            k += 1;
        }
        if k == m.len() {
            assert(marked_at(text@, mark@, i as int));
            return true;
        }
        assert(!marked_at(text@, mark@, i as int)) by {
            assert(mark@[k as int] != '_' && text@[i + k] != mark@[k as int]);
        }
        if i == n {
            return false;
        }
        i += 1;
    }
    false
}

/// Whether a log tells of a failure.
pub open spec fn tells_of_failure(log: Seq<char>) -> bool {
    marked(log, "failed"@) || marked(log, "source_missing"@) || marked(log, "target_exists"@)
        || marked(log, "bad_folder_path"@) || marked(log, "db_update_failed"@) || marked(
        log,
        "outside_artist"@,
    ) || marked(log, "\"status\":\"error\""@)
}

/// Whether a plan has to be looked at again: it is confirmed or ready, though its
/// log tells of a failure.
pub fn needs_manual_review(status: &str, log: &str) -> (r: bool)
    ensures
        r == ((status@ == "confirmed"@ || status@ == "ready"@) && tells_of_failure(log@)),
{
    let text = to_lower(&chars_of(log));
    let failed = has_mark(&text, "failed") || has_mark(&text, "source_missing") || has_mark(
        &text,
        "target_exists",
    ) || has_mark(&text, "bad_folder_path") || has_mark(&text, "db_update_failed") || has_mark(
        &text,
        "outside_artist",
    ) || has_mark(&text, "\"status\":\"error\"");
    (same_text(status, "confirmed") || same_text(status, "ready")) && failed
}

/// A plan as a run reads it.
#[derive(Debug)]
pub struct QueuedPlan {
    /// The plan.
    pub id: i64,
    /// The artist.
    pub artist_id: i64,
    /// The source.
    pub source_folder: String,
    /// The target, empty where none was chosen.
    pub target_folder: String,
    /// What its row says of its state.
    pub marks: PlanMarks,
}

/// The value of a [`QueuedPlan`].
#[verifier::ext_equal]
pub struct QueuedView {
    /// The plan.
    pub id: i64,
    /// The artist.
    pub artist_id: i64,
    /// The source.
    pub source_folder: Seq<char>,
    /// The target.
    pub target_folder: Seq<char>,
    /// What its row says of its state.
    pub marks: MarksView,
}

impl View for QueuedPlan {
    type V = QueuedView;

    open spec fn view(&self) -> QueuedView {
        QueuedView {
            id: self.id,
            artist_id: self.artist_id,
            source_folder: self.source_folder@,
            target_folder: self.target_folder@,
            marks: self.marks@,
        }
    }
}

/// The plans that are carried out: those that are confirmed and have a target.
pub open spec fn due() -> spec_fn(QueuedView) -> bool {
    |p: QueuedView| p.marks.status == "confirmed"@ && p.target_folder.len() > 0
}

/// The plans of an artist that are carried out.
pub open spec fn due_of(artist_id: i64) -> spec_fn(QueuedView) -> bool {
    |p: QueuedView| p.artist_id == artist_id && due()(p)
}

/// The plans that a run confirms: those that are ready and have a target, and whose
/// artist is there.
pub open spec fn confirmable(artists: Seq<i64>) -> spec_fn(QueuedView) -> bool {
    |p: QueuedView|
        p.marks.status == "ready"@ && p.target_folder.len() > 0 && artists.contains(p.artist_id)
}

/// The plans once a run has confirmed what it confirms.
pub open spec fn plans_confirmed(
    plans: Seq<QueuedView>,
    artists: Seq<i64>,
    now: i64,
) -> Seq<QueuedView> {
    plans.map_values(
        |p: QueuedView|
            if confirmable(artists)(p) {
                QueuedView { marks: auto_confirmed(p.marks, now), ..p }
            } else {
                p
            },
    )
}

/// Whether a plan is one of an artist that is carried out.
pub fn is_due(plan: &QueuedPlan, artist_id: i64) -> (r: bool)
    ensures
        r == due_of(artist_id)(plan@),
{
    plan.artist_id == artist_id && same_text(&plan.marks.status, "confirmed")
        && !plan.target_folder.as_str().is_empty()
}

/// The plans of an artist that are carried out, in their order.
pub fn due_plans(plans: &[QueuedPlan], artist_id: i64) -> (r: Vec<i64>)
    ensures
        r@ == kept(views(plans@), due_of(artist_id)).map_values(|p: QueuedView| p.id),
{
    let ghost wanted = due_of(artist_id);
    let ghost id_of = |p: QueuedView| p.id;
    let ghost rows = views(plans@);
    let mut ids: Vec<i64> = Vec::new();
    let mut i: usize = 0;
    assert(kept(rows.take(0), wanted).map_values(id_of) =~= Seq::empty());
    while i < plans.len()
        invariant
            i <= plans@.len(),
            rows == views(plans@),
            wanted == due_of(artist_id),
            id_of == (|p: QueuedView| p.id),
            ids@ == kept(rows.take(i as int), wanted).map_values(id_of),
        decreases plans@.len() - i,
    {
        let plan = &plans[i];
        let ghost seen = rows.take(i as int + 1);
        assert(seen.drop_last() =~= rows.take(i as int));
        assert(seen.last() == plan@);
        if is_due(plan, artist_id) {
            ids.push(plan.id);
        }
        assert(ids@ =~= kept(seen, wanted).map_values(id_of));
        i += 1;
    }
    assert(rows.take(i as int) =~= rows);
    ids
}

/// Confirms the plans that a run confirms.
fn confirm_plans(plans: &mut Vec<QueuedPlan>, artists: &[i64], now: i64)
    ensures
        views(final(plans)@) == plans_confirmed(views(old(plans)@), artists@, now),
{
    let ghost model = |p: QueuedView|
        if confirmable(artists@)(p) {
            QueuedView { marks: auto_confirmed(p.marks, now), ..p }
        } else {
            p
        };
    let change = |p: &QueuedPlan| -> (o: QueuedPlan)
        ensures
            o@ == model(p@),
        {
            let confirm = same_text(&p.marks.status, "ready") && !p.target_folder.as_str().is_empty() && has_id(
                artists,
                p.artist_id,
            );
            QueuedPlan {
                id: p.id,
                artist_id: p.artist_id,
                source_folder: p.source_folder.clone(),
                target_folder: p.target_folder.clone(),
                marks: if confirm {
                    confirm_plan(&p.marks, now)
                } else {
                    p.marks.duplicate()
                },
            }
        };
    *plans = map_rows(plans, change, Ghost(model));
}

/// How an automatic run begins.
#[derive(Debug)]
pub enum AutoStart {
    /// The setting is off.
    Disabled,
    /// There are no artists.
    NoArtists,
    /// The plans of these artists are carried out.
    Run {
        /// The artists with plans.
        executable: Vec<i64>,
        /// How many artists have none.
        skipped: u64,
    },
}

/// Begins an automatic run for the artists that are there: it confirms the plans
/// that are ready, and picks the artists that have plans to carry out.
pub fn start_auto_run(
    enabled: bool,
    artists: &[i64],
    plans: &mut Vec<QueuedPlan>,
    now: i64,
) -> (r: AutoStart)
    ensures
        match r {
            AutoStart::Disabled => !enabled,
            AutoStart::NoArtists => enabled && artists@.len() == 0,
            AutoStart::Run { executable, skipped } => {
                let after = plans_confirmed(views(old(plans)@), artists@, now);
                &&& enabled
                &&& artists@.len() > 0
                &&& executable@ == kept(artists@, |a: i64| kept(after, due_of(a)).len() > 0)
                &&& skipped == artists@.len() - executable@.len()
            },
        },
        views(final(plans)@) == (if r is Run {
            plans_confirmed(views(old(plans)@), artists@, now)
        } else {
            views(old(plans)@)
        }),
{
    if !enabled {
        return AutoStart::Disabled;
    }
    if artists.len() == 0 {
        return AutoStart::NoArtists;
    }
    confirm_plans(plans, artists, now);
    let ghost after = views(plans@);
    let ghost busy = |a: i64| kept(after, due_of(a)).len() > 0;
    let mut executable: Vec<i64> = Vec::new();
    let mut skipped: u64 = 0;
    let mut i: usize = 0;
    while i < artists.len()
        invariant
            i <= artists@.len(),
            after == views(plans@),
            busy == (|a: i64| kept(after, due_of(a)).len() > 0),
            executable@ == kept(artists@.take(i as int), busy),
            skipped == i - executable@.len(),
        decreases artists@.len() - i,
    {
        assert(artists@.take(i as int + 1).drop_last() =~= artists@.take(i as int));
        let found = due_plans(plans, artists[i]);
        if found.len() > 0 {
            executable.push(artists[i]);
        } else {
            skipped += 1;
        }
        i += 1;
    }
    assert(artists@.take(artists@.len() as int) =~= artists@);
    AutoStart::Run { executable, skipped }
}

/// A run carries out no plan but those that were confirmed or that it confirms: a
/// plan that is neither confirmed nor ready is not due afterwards, and one without
/// a target never is.
pub proof fn runs_take_only_confirmed_plans(
    plans: Seq<QueuedView>,
    artists: Seq<i64>,
    now: i64,
    i: int,
)
    requires
        0 <= i < plans.len(),
        due()(plans_confirmed(plans, artists, now)[i]),
    ensures
        plans[i].marks.status == "confirmed"@ || plans[i].marks.status == "ready"@,
        plans[i].target_folder.len() > 0,
        plans[i].marks.status == "ready"@ ==> artists.contains(plans[i].artist_id),
{
    reveal_strlit("ready");
    reveal_strlit("confirmed");
    assert("ready"@.len() == 5 && "confirmed"@.len() == 9);
}

/// How an automatic run ended.
#[derive(Clone, Copy, PartialEq, Eq, Debug, Structural)]
pub enum AutoStatus {
    /// Some plans were carried out, some failed.
    Partial,
    /// Plans failed and none was carried out.
    Failed,
    /// Plans were carried out and none failed.
    Executed,
    /// Artists were passed over, and that was all.
    Skipped,
    /// There was nothing to do.
    NoActions,
}

impl AutoStatus {
    /// The name in an answer.
    pub open spec fn spelled(self) -> Seq<char> {
        match self {
            AutoStatus::Partial => "partial"@,
            AutoStatus::Failed => "failed"@,
            AutoStatus::Executed => "executed"@,
            AutoStatus::Skipped => "skipped"@,
            AutoStatus::NoActions => "no_actions"@,
        }
    }

    /// The name in an answer.
    pub fn name(self) -> (r: &'static str)
        ensures
            r@ == self.spelled(),
    {
        match self {
            AutoStatus::Partial => "partial",
            AutoStatus::Failed => "failed",
            AutoStatus::Executed => "executed",
            AutoStatus::Skipped => "skipped",
            AutoStatus::NoActions => "no_actions",
        }
    }
}

/// The status of an automatic run by its counts.
pub open spec fn auto_status(executed: int, failed: int, skipped: int) -> AutoStatus {
    if failed > 0 && executed > 0 {
        AutoStatus::Partial
    } else if failed > 0 {
        AutoStatus::Failed
    } else if executed > 0 {
        AutoStatus::Executed
    } else if skipped > 0 {
        AutoStatus::Skipped
    } else {
        AutoStatus::NoActions
    }
}

/// The status of an automatic run by its counts.
pub fn status_of(executed: usize, failed: usize, skipped: u64) -> (r: AutoStatus)
    ensures
        r == auto_status(executed as int, failed as int, skipped as int),
{
    if failed > 0 && executed > 0 {
        AutoStatus::Partial
    } else if failed > 0 {
        AutoStatus::Failed
    } else if executed > 0 {
        AutoStatus::Executed
    } else if skipped > 0 {
        AutoStatus::Skipped
    } else {
        AutoStatus::NoActions
    }
}

/// A plan that was dealt with.
#[derive(Debug)]
pub struct PlanResult {
    /// How it ended.
    pub verdict: PlanVerdict,
    /// What is said of it.
    pub row: Json,
}

/// What became of one artist's plans.
#[derive(Debug)]
pub enum ArtistOutcome {
    /// The plans were dealt with one by one.
    Plans(Vec<PlanResult>),
    /// The artist could not be dealt with at all, and what is said of that.
    Error(Json),
}

/// How many plans of a list were carried out.
pub open spec fn executed_in(results: Seq<PlanResult>) -> int
    decreases results.len(),
{
    if results.len() == 0 {
        0
    } else {
        executed_in(results.drop_last()) + if results.last().verdict == PlanVerdict::Executed {
            1int
        } else {
            0int
        }
    }
}

/// How many plans were carried out and how many failed, over all artists; an artist
/// that could not be dealt with counts as one failure.
pub open spec fn tallied(outcomes: Seq<ArtistOutcome>) -> (int, int)
    decreases outcomes.len(),
{
    if outcomes.len() == 0 {
        (0, 0)
    } else {
        let (executed, failed) = tallied(outcomes.drop_last());
        match outcomes.last() {
            ArtistOutcome::Plans(results) => (
                executed + executed_in(results@),
                failed + results@.len() - executed_in(results@),
            ),
            ArtistOutcome::Error(_) => (executed, failed + 1),
        }
    }
}

/// The plans of an automatic run, an artist as a whole counting for one.
pub open spec fn dealt_with(outcomes: Seq<ArtistOutcome>) -> int
    decreases outcomes.len(),
{
    if outcomes.len() == 0 {
        0
    } else {
        dealt_with(outcomes.drop_last()) + match outcomes.last() {
            ArtistOutcome::Plans(results) => results@.len() as int,
            ArtistOutcome::Error(_) => 1,
        }
    }
}

/// The plans that were carried out never exceed the plans that there are.
proof fn lemma_executed_in(results: Seq<PlanResult>)
    ensures
        0 <= executed_in(results) <= results.len(),
    decreases results.len(),
{
    if results.len() > 0 {
        lemma_executed_in(results.drop_last());
    }
}

/// Every plan that an automatic run deals with is counted once, as carried out
/// or as failed.
pub proof fn auto_runs_count_every_plan(outcomes: Seq<ArtistOutcome>)
    ensures
        tallied(outcomes).0 >= 0,
        tallied(outcomes).1 >= 0,
        tallied(outcomes).0 + tallied(outcomes).1 == dealt_with(outcomes),
    decreases outcomes.len(),
{
    if outcomes.len() > 0 {
        auto_runs_count_every_plan(outcomes.drop_last());
        match outcomes.last() {
            ArtistOutcome::Plans(results) => {
                lemma_executed_in(results@);
            },
            ArtistOutcome::Error(_) => {},
        }
    }
}

/// How many backups are kept: eight, unless a number says otherwise; never none.
pub open spec fn retention_of(value: Option<Seq<char>>) -> int {
    let n = match value {
        Some(v) => match parsed_within(trimmed(v), false, 0, usize::MAX as int) {
            Some(n) => n,
            None => 8,
        },
        None => 8,
    };
    if n < 1 {
        1
    } else {
        n
    }
}

/// How many backups are kept.
pub fn backup_retention(value: Option<&str>) -> (r: usize)
    ensures
        r == retention_of(
            match value {
                Some(v) => Some(v@),
                None => None,
            },
        ),
{
    let n: usize = match value {
        Some(v) => match read_unsigned(&trim_text(v), usize::MAX as u64) {
            Some(n) => n as usize,
            None => 8,
        },
        None => 8,
    };
    if n < 1 {
        1
    } else {
        n
    }
}

/// An entry of the backup folder.
#[derive(Debug)]
pub struct BackupEntry {
    /// Its name.
    pub name: String,
    /// Whether it is a directory and no symbolic link.
    pub real_directory: bool,
}

/// Whether an entry is a backup: a real directory whose name does not start
/// with a full stop.
pub open spec fn is_backup(e: BackupEntry) -> bool {
    e.real_directory && !(e.name@.len() > 0 && e.name@[0] == '.')
}

/// The names of the backups, in the order of the entries.
pub open spec fn backup_names(entries: Seq<BackupEntry>) -> Seq<String>
    decreases entries.len(),
{
    if entries.len() == 0 {
        Seq::empty()
    } else if is_backup(entries.last()) {
        backup_names(entries.drop_last()).push(entries.last().name)
    } else {
        backup_names(entries.drop_last())
    }
}

/// How many of a number of backups go.
pub open spec fn surplus(count: int, retention: int) -> int {
    let keep = if retention < 1 {
        1
    } else {
        retention
    };
    if count > keep {
        count - keep
    } else {
        0
    }
}

/// The backups that go: the first ones by name, so that the wanted number of
/// the last ones stays.
pub fn prune_backup_root(entries: &[BackupEntry], retention: usize) -> (r: Vec<String>)
    ensures
        exists|sorted: Seq<String>| #[trigger]
            in_order(texts(sorted)) && sorted.to_multiset() == backup_names(
                entries@,
            ).to_multiset() && sorted.len() == backup_names(entries@).len() && r@ == sorted.take(
                surplus(sorted.len() as int, retention as int),
            ),
        r@.len() == surplus(backup_names(entries@).len() as int, retention as int),
{
    let mut names: Vec<String> = Vec::new();
    let mut i: usize = 0;
    while i < entries.len()
        invariant
            i <= entries@.len(),
            names@ == backup_names(entries@.take(i as int)),
        decreases entries@.len() - i,
    {
        assert(entries@.take(i as int + 1).drop_last() =~= entries@.take(i as int));
        let chars = chars_of(&entries[i].name);
        if entries[i].real_directory && !(chars.len() > 0 && chars[0] == '.') {
            names.push(entries[i].name.clone());
        }
        i += 1;
    }
    assert(entries@.take(entries@.len() as int) =~= entries@);
    let sorted = sort_texts(names);
    let keep: usize = if retention < 1 {
        1
    } else {
        retention
    };
    let gone: usize = if sorted.len() > keep {
        sorted.len() - keep
    } else {
        0
    };
    let mut out: Vec<String> = Vec::new();
    let mut k: usize = 0;
    while k < gone
        invariant
            k <= gone <= sorted@.len(),
            out@ == sorted@.take(k as int),
        decreases gone - k,
    {
        out.push(sorted[k].clone());
        assert(sorted@.take(k as int + 1) =~= sorted@.take(k as int).push(sorted@[k as int]));
        k += 1;
    }
    assert(in_order(texts(sorted@)));
    out
}

/// A moment of local time.
#[derive(Clone, Copy, PartialEq, Eq, Debug, Structural)]
pub struct Moment {
    /// The day.
    pub date: CalendarDate,
    /// The hour.
    pub hour: u32,
    /// The minute.
    pub minute: u32,
    /// The second.
    pub second: u32,
}

/// The label of a backup: the day, and the time of day behind a hyphen.
pub open spec fn label_of(now: Moment) -> Seq<char> {
    written(now.date, "%Y%m%d"@) + seq!['-'] + padded(now.hour as nat, 2) + padded(
        now.minute as nat,
        2,
    ) + padded(now.second as nat, 2)
}

/// The label of a backup.
pub fn backup_label(now: Moment) -> (r: String)
    requires
        now.date.valid(),
    ensures
        r@ == label_of(now),
{
    let mut out = format_by_pattern(now.date, "%Y%m%d");
    out.push('-');
    out.append(&padded_text(now.hour as u64, 2));
    out.append(&padded_text(now.minute as u64, 2));
    out.append(&padded_text(now.second as u64, 2));
    assert(out@ =~= label_of(now));
    out
}

/// No label makes a hidden name.
pub proof fn labels_are_not_hidden(now: Moment)
    ensures
        label_of(now).len() > 0,
        label_of(now)[0] != '.',
{
    let year = year_in_pattern(now.date.year as int);
    assert(year.len() > 0 && year[0] != '.') by {
        let n = if now.date.year >= 0 {
            now.date.year as nat
        } else {
            (-now.date.year) as nat
        };
        crate::text::lemma_decimal_value(n);
        assert(padded(n, 4).len() > 0);
        assert(padded(n, 4)[0] != '.');
    }
    reveal_strlit("%Y-%m-%d");
    reveal_strlit("%Y%m%d");
    assert("%Y%m%d"@.len() != "%Y-%m-%d"@.len());
    assert(label_of(now)[0] == year[0]);
}

/// The name of a backup: its label, and a running number behind the first.
pub open spec fn backup_name(label: Seq<char>, index: nat) -> Seq<char> {
    if index == 0 {
        label
    } else {
        label + seq!['-'] + decimal(index)
    }
}

/// The name under which a backup is written before it is complete.
pub open spec fn temporary_name(label: Seq<char>, index: nat, process: nat) -> Seq<char> {
    seq!['.'] + backup_name(label, index) + ".tmp-"@ + decimal(process) + seq!['-'] + decimal(index)
}

/// The name of a backup.
pub fn backup_dir_name(label: &str, index: usize) -> (r: String)
    ensures
        r@ == backup_name(label@, index as nat),
{
    let mut out = label.to_owned();
    if index > 0 {
        out.push('-');
        push_decimal(index as u64, &mut out);
        assert(out@ =~= backup_name(label@, index as nat));
    }
    out
}

/// The name under which a backup is written before it is complete.
pub fn backup_temp_name(label: &str, index: usize, process: u32) -> (r: String)
    ensures
        r@ == temporary_name(label@, index as nat, process as nat),
{
    let mut out = String::new();
    out.push('.');
    out.append(&backup_dir_name(label, index));
    out.append(".tmp-");
    push_decimal(process as u64, &mut out);
    out.push('-');
    push_decimal(index as u64, &mut out);
    assert(out@ =~= temporary_name(label@, index as nat, process as nat));
    out
}

/// Backups of one label are kept apart by their numbers.
pub proof fn backup_names_differ(label: Seq<char>, i: nat, j: nat)
    requires
        i != j,
    ensures
        backup_name(label, i) != backup_name(label, j),
{
    crate::text::lemma_decimal_value(i);
    crate::text::lemma_decimal_value(j);
    let a = backup_name(label, i);
    let b = backup_name(label, j);
    if i > 0 {
        assert(a.skip(label.len() as int + 1) =~= decimal(i));
    }
    if j > 0 {
        assert(b.skip(label.len() as int + 1) =~= decimal(j));
    }
    if i == 0 || j == 0 {
        assert(a.len() != b.len());
    }
}

/// A backup that is still being written is never taken for one that can go.
pub proof fn unfinished_backups_are_hidden(
    entry: BackupEntry,
    label: Seq<char>,
    index: nat,
    process: nat,
)
    requires
        entry.name@ == temporary_name(label, index, process),
    ensures
        !is_backup(entry),
{
    assert(temporary_name(label, index, process)[0] == '.');
}

/// Only backups go: what is pruned is a real directory whose name does not
/// start with a full stop, and as many stay as are wanted.
pub proof fn pruning_takes_only_backups(entries: Seq<BackupEntry>, name: String)
    requires
        backup_names(entries).contains(name),
    ensures
        exists|i: int| 0 <= i < entries.len() && is_backup(#[trigger] entries[i]) && entries[i].name
            == name,
    decreases entries.len(),
{
    if entries.len() > 0 {
        let d = entries.drop_last();
        if is_backup(entries.last()) && entries.last().name == name {
            assert(is_backup(entries[entries.len() - 1]));
        } else {
            let k = backup_names(entries).index_of(name);
            assert(backup_names(d)[k] == name);
            pruning_takes_only_backups(d, name);
            let i = choose|i: int|
                0 <= i < d.len() && is_backup(#[trigger] d[i]) && d[i].name == name;
            assert(is_backup(entries[i]));
        }
    }
}

/// The path that a path resolves to, or the path itself where it does not.
pub open spec fn resolved_or(path: Seq<char>, resolved: Option<&str>) -> Seq<char> {
    match resolved {
        Some(r) => r@,
        None => path,
    }
}

/// Whether a path is the folder of an artist or lies below it, after both were
/// resolved as far as they can be.
pub fn path_under_artist(
    path: &str,
    path_resolved: Option<&str>,
    artist: &str,
    artist_resolved: Option<&str>,
) -> (r: bool)
    ensures
        r == lies_below(resolved_or(path@, path_resolved), resolved_or(artist@, artist_resolved)),
{
    let p = match path_resolved {
        Some(r) => r,
        None => path,
    };
    let a = match artist_resolved {
        Some(r) => r,
        None => artist,
    };
    is_below(p, a)
}

/// Whether the nearest folder above a target that is there is a folder of the
/// artist. The probes go from the parent of the target upward.
pub fn target_parent_under_artist(probes: &[AncestorProbe]) -> (r: bool)
    ensures
        r == nearest_accepted(probes@),
{
    nearest_is_accepted(probes)
}

/// The authorized root of a path and what is left of the path below it: the
/// deepest root that the path lies strictly below without going up, the last of
/// those. `None` where there is none. Roots that cannot be resolved are `None`.
pub fn authorized_root_relative(path: &str, roots: &[Option<String>]) -> (r: Option<
    (usize, String),
>)
    ensures
        match r {
            Some((i, rest)) => deepest_root(path@, root_views(roots@), true, i as int) && rest@
                == joined(
                path_components(path@).skip(
                    path_components(root_views(roots@)[i as int]->Some_0).len() as int,
                ),
                "/"@,
            ),
            None => forall|j: int|
                0 <= j < roots@.len() ==> !qualifies(path@, #[trigger] root_views(roots@)[j], true),
        },
{
    let i = match deepest(path, roots, true) {
        Some(i) => i,
        None => {
            return None;
        },
    };
    assert(qualifies(path@, root_views(roots@)[i as int], true));
    let parts = split_path(path);
    let head = match &roots[i] {
        Some(root) => split_path(root),
        None => Vec::new(),
    };
    let ghost all = texts(parts@);
    let n = head.len();
    proof {
        assert(root_views(roots@)[i as int] is Some);
        assert(texts(head@).len() == n);
    }
    let mut rest: Vec<String> = Vec::new();
    let mut k: usize = n;
    assert(texts(rest@) =~= all.skip(n as int).take(0));
    while k < parts.len()
        invariant
            n <= k <= parts@.len(),
            all == texts(parts@),
            texts(rest@) == all.skip(n as int).take(k - n),
        decreases parts@.len() - k,
    {
        let ghost before = texts(rest@);
        rest.push(parts[k].clone());
        assert(texts(rest@) =~= before.push(parts@[k as int]@));
        assert(texts(rest@) =~= all.skip(n as int).take(k + 1 - n));
        k += 1;
    }
    assert(texts(rest@) =~= all.skip(n as int));
    Some((i, join_texts(&rest, "/")))
}

/// The folders between the folder of an artist and a folder below it, from the
/// top, each to be made where it is not there.
#[derive(Debug)]
pub struct ParentSteps {
    /// The folders, up to the first component that goes up.
    pub folders: Vec<String>,
    /// Whether there is such a component.
    pub goes_up: bool,
}

/// The folders from a base on along components, up to the first that goes up.
pub open spec fn folders_along(base: Seq<char>, parts: Seq<Seq<char>>) -> Seq<Seq<char>>
    decreases parts.len(),
{
    if parts.len() == 0 || parts[0] == ".."@ {
        Seq::empty()
    } else {
        let next = path_joined(base, parts[0]);
        seq![next] + folders_along(next, parts.skip(1))
    }
}

/// The folders between the folder of an artist and the parent of a target. `None`
/// where the parent does not lie below the folder.
pub fn ensure_target_parent_under_artist(parent: &str, artist: &str) -> (r: Option<ParentSteps>)
    ensures
        ({
            let rest = path_components(parent@).skip(path_components(artist@).len() as int);
            match r {
                None => !lies_below(parent@, artist@),
                Some(s) => lies_below(parent@, artist@) && texts(s.folders@) == folders_along(
                    artist@,
                    rest,
                ) && s.goes_up == rest.contains(".."@),
            }
        }),
{
    if !is_below(parent, artist) {
        return None;
    }
    let parts = split_path(parent);
    let n = split_path(artist).len();
    let ghost all = texts(parts@);
    let ghost rest = path_components(parent@).skip(path_components(artist@).len() as int);
    proof {
        assert(path_components(artist@).len() == n);
        assert(rest == all.skip(n as int));
    }
    let mut folders: Vec<String> = Vec::new();
    let mut base = artist.to_owned();
    let mut k: usize = n;
    proof {
        assert(rest.skip(0) =~= rest);
        assert(texts(folders@) + folders_along(base@, rest.skip(0)) =~= folders_along(
            artist@,
            rest,
        ));
    }
    while k < parts.len()
        invariant
            n <= k <= parts@.len(),
            all == texts(parts@),
            rest == all.skip(n as int),
            lies_below(parent@, artist@),
            rest == path_components(parent@).skip(path_components(artist@).len() as int),
            forall|j: int| 0 <= j < k - n ==> #[trigger] rest[j] != ".."@,
            texts(folders@) + folders_along(base@, rest.skip(k - n)) == folders_along(
                artist@,
                rest,
            ),
        decreases parts@.len() - k,
    {
        let ghost left = rest.skip(k - n);
        let ghost before = texts(folders@);
        assert(left[0] == parts@[k as int]@);
        assert(rest[k - n] == left[0]);
        if same_text(&parts[k], "..") {
            assert(before + Seq::<Seq<char>>::empty() =~= before);
            assert(rest.contains(".."@));
            return Some(ParentSteps { folders, goes_up: true });
        }
        base = join_path(&base, &parts[k]);
        folders.push(base.clone());
        proof {
            assert(left.skip(1) =~= rest.skip(k + 1 - n));
            assert(texts(folders@) =~= before.push(base@));
            assert(texts(folders@) + folders_along(base@, rest.skip(k + 1 - n)) =~= before + (seq![
                base@,
            ] + folders_along(base@, left.skip(1))));
        }
        k += 1;
    }
    proof {
        assert(rest.skip(k - n) =~= Seq::<Seq<char>>::empty());
        assert(texts(folders@) + Seq::<Seq<char>>::empty() =~= texts(folders@));
        if rest.contains(".."@) {
            let j = rest.index_of(".."@);
            assert(rest[j] == ".."@);
        }
    }
    Some(ParentSteps { folders, goes_up: false })
}

/// What is kept with a plan whose undo could not be taken back, besides the time.
pub open spec fn undo_failure_members(
    source: Seq<char>,
    target: Seq<char>,
    backup: Seq<char>,
    error: Seq<char>,
    rollback_error: Seq<char>,
) -> Seq<(Seq<char>, JsonTree)> {
    seq![
        ("status"@, JsonTree::Text("failed"@)),
        ("reason"@, JsonTree::Text("rollback_failed"@)),
        ("message"@, JsonTree::Text(failure_message("rollback_failed"@))),
        ("operation"@, JsonTree::Text("folder_rename_undo"@)),
        ("source"@, JsonTree::Text(source)),
        ("target"@, JsonTree::Text(target)),
        ("backup"@, JsonTree::Text(backup)),
        ("error"@, JsonTree::Text(error)),
        ("rollback_error"@, JsonTree::Text(rollback_error)),
        ("automatic"@, JsonTree::Bool(false)),
    ]
}

/// The log of a plan with one entry more.
fn with_entry(log: Vec<Json>, members: Vec<(String, Json)>) -> (r: Vec<Json>)
    ensures
        doc_trees(r@) == doc_trees(log@).push(JsonTree::Object(entry_views(members@))),
{
    let ghost before = doc_trees(log@);
    let mut out = log;
    out.push(object(members));
    assert(doc_trees(out@) =~= before.push(JsonTree::Object(entry_views(members@))));
    out
}

/// The log of a plan whose undo could not be taken back, besides the time: the failure
/// comes behind what was there. Only a plan that was carried out gets it.
pub fn record_undo_reconciliation_failure(
    status: &str,
    log: Vec<Json>,
    source: &str,
    target: &str,
    backup: &str,
    error: &str,
    rollback_error: &str,
) -> (r: Result<Vec<Json>, String>)
    ensures
        if status@ == "executed"@ {
            r is Ok && doc_trees(r->Ok_0@) == doc_trees(log@).push(
                JsonTree::Object(
                    undo_failure_members(source@, target@, backup@, error@, rollback_error@),
                ),
            )
        } else {
            r is Err && r->Err_0@
                == "plan state changed while recording undo reconciliation failure"@
        },
{
    if !same_text(status, "executed") {
        return Err(
            "plan state changed while recording undo reconciliation failure".to_owned(),
        );
    }
    let mut members: Vec<(String, Json)> = Vec::new();
    members.push(text_member("status", "failed"));
    members.push(text_member("reason", "rollback_failed"));
    members.push(text_member("message", archive_failure_message("rollback_failed")));
    members.push(text_member("operation", "folder_rename_undo"));
    members.push(text_member("source", source));
    members.push(text_member("target", target));
    members.push(text_member("backup", backup));
    members.push(text_member("error", error));
    members.push(text_member("rollback_error", rollback_error));
    members.push(entry("automatic", Json::Bool(false)));
    assert(entry_views(members@) =~= undo_failure_members(
        source@,
        target@,
        backup@,
        error@,
        rollback_error@,
    ));
    Ok(with_entry(log, members))
}

/// The log of a plan that was carried out, besides the time: this entry alone.
pub fn execution_log(source: &str, target: &str, backup: &str, updated_items: u64) -> (r: Vec<Json>)
    ensures
        doc_trees(r@) == seq![
            JsonTree::Object(
                seq![
                    ("status"@, JsonTree::Text("executed"@)),
                    ("source"@, JsonTree::Text(source@)),
                    ("target"@, JsonTree::Text(target@)),
                    ("backup"@, JsonTree::Text(backup@)),
                    ("updated_items"@, JsonTree::Number(decimal(updated_items as nat))),
                ],
            ),
        ],
{
    let mut members: Vec<(String, Json)> = Vec::new();
    members.push(text_member("status", "executed"));
    members.push(text_member("source", source));
    members.push(text_member("target", target));
    members.push(text_member("backup", backup));
    members.push(entry("updated_items", number(updated_items)));
    assert(entry_views(members@) =~= seq![
        ("status"@, JsonTree::Text("executed"@)),
        ("source"@, JsonTree::Text(source@)),
        ("target"@, JsonTree::Text(target@)),
        ("backup"@, JsonTree::Text(backup@)),
        ("updated_items"@, JsonTree::Number(decimal(updated_items as nat))),
    ]);
    let r = with_entry(Vec::new(), members);
    assert(doc_trees(r@) =~= seq![JsonTree::Object(entry_views(members@))]);
    r
}

/// What is kept with a plan that was taken back, and what is answered, besides the time
/// and the plan.
pub open spec fn undo_members(
    source: Seq<char>,
    target: Seq<char>,
    updated_items: u64,
    backup: Seq<char>,
) -> Seq<(Seq<char>, JsonTree)> {
    seq![
        ("status"@, JsonTree::Text("reverted"@)),
        ("reason"@, JsonTree::Text("folder_rename_undo"@)),
        ("source"@, JsonTree::Text(source)),
        ("target"@, JsonTree::Text(target)),
        ("updated_items"@, JsonTree::Number(decimal(updated_items as nat))),
        ("backup"@, JsonTree::Text(backup)),
    ]
}

/// What is kept with a plan that was taken back, and what is answered.
fn make_undo_members(source: &str, target: &str, updated_items: u64, backup: &str) -> (r: Vec<
    (String, Json),
>)
    ensures
        entry_views(r@) == undo_members(source@, target@, updated_items, backup@),
{
    let mut members: Vec<(String, Json)> = Vec::new();
    members.push(text_member("status", "reverted"));
    members.push(text_member("reason", "folder_rename_undo"));
    members.push(text_member("source", source));
    members.push(text_member("target", target));
    members.push(entry("updated_items", number(updated_items)));
    members.push(text_member("backup", backup));
    assert(entry_views(members@) =~= undo_members(source@, target@, updated_items, backup@));
    members
}

/// The log of a plan that was taken back, besides the time: the undo comes behind what
/// was there. `source` is where the folder stood, `target` where it stands again.
pub fn undo_log(
    log: Vec<Json>,
    source: &str,
    target: &str,
    updated_items: u64,
    backup: &str,
) -> (r: Vec<Json>)
    ensures
        doc_trees(r@) == doc_trees(log@).push(
            JsonTree::Object(undo_members(source@, target@, updated_items, backup@)),
        ),
{
    with_entry(log, make_undo_members(source, target, updated_items, backup))
}

/// The answer of an undo.
pub fn undo_reply(
    plan_id: i64,
    source: &str,
    target: &str,
    updated_items: u64,
    backup: &str,
) -> (r: Json)
    ensures
        r.tree() == JsonTree::Object(
            undo_members(source@, target@, updated_items, backup@).push(
                ("ok"@, JsonTree::Bool(true)),
            ).push(("plan_id"@, JsonTree::Int(plan_id))),
        ),
{
    let mut members = make_undo_members(source, target, updated_items, backup);
    let ghost base = entry_views(members@);
    members.push(entry("ok", Json::Bool(true)));
    members.push(entry("plan_id", Json::Int(plan_id)));
    assert(entry_views(members@) =~= base.push(("ok"@, JsonTree::Bool(true))).push(
        ("plan_id"@, JsonTree::Int(plan_id)),
    ));
    object(members)
}

/// Where two items of a folder do not carry the same tags, an open plan of the folder is
/// blocked: its status says that the tags disagree, and it has no target. So it is neither
/// ready nor can it be carried out.
pub proof fn disagreeing_tags_block_a_plan(
    folder: Seq<char>,
    date: Seq<char>,
    items: Seq<Seq<i64>>,
    ids: Seq<i64>,
    existing: (Seq<char>, Seq<char>, Seq<char>),
    i: int,
    j: int,
)
    requires
        trimmed(folder).len() > 0,
        0 <= i < items.len(),
        0 <= j < items.len(),
        items[i] != items[j],
        existing.0 != "confirmed"@,
        existing.0 != "executed"@,
    ensures
        discovered(folder, date, items, ids, Some(existing)) matches DiscoverView::Update(
            _,
            _,
            status,
            target,
        ) && status == "inconsistent_tags"@ && status != "ready"@ && target.len() == 0,
{
    assert(any_tags(items)) by {
        if items[i].len() == 0 && items[j].len() == 0 {
            assert(items[i] =~= items[j]);
        } else if items[i].len() > 0 {
            assert(items[i].len() > 0);
        } else {
            assert(items[j].len() > 0);
        }
    }
    assert(!same_tags(items)) by {
        if same_tags(items) {
            assert(items[i] == items[0] && items[j] == items[0]);
        }
    }
    reveal_strlit("inconsistent_tags");
    reveal_strlit("ready");
    assert("inconsistent_tags"@.len() != "ready"@.len());
}

/// An open plan of a folder whose items all carry the same tags keeps its target. It keeps
/// its status too, unless it was blocked over its tags: then it is a draft again.
pub proof fn agreeing_tags_keep_a_plan(
    folder: Seq<char>,
    date: Seq<char>,
    items: Seq<Seq<i64>>,
    tags: Seq<i64>,
    existing: (Seq<char>, Seq<char>, Seq<char>),
)
    requires
        trimmed(folder).len() > 0,
        items.len() > 0,
        tags.len() > 0,
        forall|i: int| 0 <= i < items.len() ==> #[trigger] items[i] == tags,
        existing.0 != "confirmed"@,
        existing.0 != "executed"@,
    ensures
        discovered(folder, date, items, tags, Some(existing)) matches DiscoverView::Update(
            _,
            selected,
            status,
            target,
        ) && selected == id_list_text(tags) && target == existing.2 && status == (if existing.0
            == "inconsistent_tags"@ {
            "draft"@
        } else {
            existing.0
        }),
{
    assert(items[0] == tags);
    assert(items[0].len() > 0);
}

/// A folder without a plan whose items have tags gets one: a draft where all items carry the
/// same tags, and a blocked one where two do not.
pub proof fn tagged_folders_get_a_plan(
    folder: Seq<char>,
    date: Seq<char>,
    items: Seq<Seq<i64>>,
    ids: Seq<i64>,
    i: int,
)
    requires
        trimmed(folder).len() > 0,
        0 <= i < items.len(),
        items[i].len() > 0,
    ensures
        discovered(folder, date, items, ids, None) matches DiscoverView::Insert(
            found,
            selected,
            status,
        ) && found == date && selected == id_list_text(ids) && (status == "draft"@ <==> forall|
            j: int,
        |
            0 <= j < items.len() ==> #[trigger] items[j] == items[i]) && (status
            == "inconsistent_tags"@ <==> exists|j: int|
            0 <= j < items.len() && #[trigger] items[j] != items[i]),
{
    assert(items[i].len() > 0);
    reveal_strlit("inconsistent_tags");
    reveal_strlit("draft");
    assert("inconsistent_tags"@.len() != "draft"@.len());
    if same_tags(items) {
        assert(items[i] == items[0]);
    } else if forall|j: int| 0 <= j < items.len() ==> #[trigger] items[j] == items[i] {
        assert(items[0] == items[i]);
    }
}

/// A plan selects the tags that some item of its folder carries, and no others.
pub proof fn plans_select_the_tags_of_their_items(items: Seq<Seq<i64>>, ids: Seq<i64>, tag: i64)
    requires
        selects(items, ids),
    ensures
        ids.contains(tag) <==> exists|i: int|
            0 <= i < items.len() && (#[trigger] items[i]).contains(tag),
{
    if same_tags(items) {
        if ids.contains(tag) {
            assert(items[0].contains(tag));
        }
        if exists|i: int| 0 <= i < items.len() && (#[trigger] items[i]).contains(tag) {
            let i = choose|i: int| 0 <= i < items.len() && (#[trigger] items[i]).contains(tag);
            assert(items[i] == items[0]);
        }
    } else {
        assert(ids.contains(tag) <==> tagged_with(items, tag));
    }
}

/// The date of a plan that has one stays. Else it is the date in the folder's name, and
/// where that names none, the first day of the items, unless its year is unknown.
pub proof fn plans_keep_their_date(
    folder: Seq<char>,
    folder_date: Seq<char>,
    day: Seq<char>,
    rest: Seq<char>,
    items: Seq<Seq<i64>>,
    ids: Seq<i64>,
    existing: Option<(Seq<char>, Seq<char>, Seq<char>)>,
)
    requires
        day.len() == 10,
        forall|i: int| 0 <= i < 10 ==> #[trigger] day[i] <= '\u{7f}',
        !starts_with(day, "0000"@),
    ensures
        folder_date.len() > 0 ==> discovered_date(folder_date, day + rest) == folder_date,
        folder_date.len() == 0 ==> discovered_date(folder_date, day + rest) == day,
        discovered(
            folder,
            discovered_date(folder_date, day + rest),
            items,
            ids,
            existing,
        ) matches DiscoverView::Update(date, _, _, _) ==> existing is Some && date == (
        if existing->Some_0.1.len() > 0 {
            existing->Some_0.1
        } else if folder_date.len() > 0 {
            folder_date
        } else {
            day
        }),
{
    let s = day + rest;
    assert forall|i: int| 0 <= i < 10 implies #[trigger] s[i] <= '\u{7f}' by {
        assert(s[i] == day[i]);
    }
    crate::text::lemma_ascii_prefix(s, 10);
    assert(s.take(10) =~= day);
    reveal_strlit("0000");
    assert(starts_with(s, "0000"@) == starts_with(day, "0000"@)) by {
        assert(s.take(4) =~= day.take(4));
    }
}

}
