//! What the library has stored of an artist, and of other artists at the place that
//! the artist's folder is to move to.

use vstd::prelude::*;
use crate::tables::first;
use crate::text::{chars_of, lower, lower_char, same_chars, to_lower, to_lower_char};

verus! {

/// An artist and the folder.
#[derive(Debug)]
pub struct IndexedArtist {
    /// The artist.
    pub id: i64,
    /// The folder.
    pub path: String,
}

/// An item and its file.
#[derive(Debug)]
pub struct IndexedItem {
    /// The item.
    pub id: i64,
    /// The artist.
    pub artist_id: i64,
    /// The file.
    pub path: String,
    /// The size of the file.
    pub file_size: i64,
    /// Whether the file is gone.
    pub missing: bool,
}

/// A row of another artist that is in the way.
#[derive(Debug)]
pub struct PathConflict {
    /// The item; none where it is the artist's folder.
    pub item_id: Option<i64>,
    /// The artist.
    pub artist_id: i64,
    /// The path.
    pub path: String,
}

/// How many items in the way are told of.
pub const MAX_ITEM_CONFLICTS: usize = 20;

/// Whether a text matches a pattern in which `%` stands for any characters, `_` for
/// one, and every other character for itself; ASCII letters match in either case.
pub open spec fn like(pattern: Seq<char>, text: Seq<char>) -> bool
    decreases pattern.len() + text.len(),
{
    if pattern.len() == 0 {
        text.len() == 0
    } else if pattern[0] == '%' {
        like(pattern.skip(1), text) || (text.len() > 0 && like(pattern, text.skip(1)))
    } else {
        &&& text.len() > 0
        &&& pattern[0] == '_' || lower_char(pattern[0]) == lower_char(text[0])
        &&& like(pattern.skip(1), text.skip(1))
    }
}

/// Whether the rest of a text matches the rest of a pattern.
fn matches_from(pattern: &[char], p: usize, text: &[char], t: usize) -> (r: bool)
    requires
        p <= pattern@.len(),
        t <= text@.len(),
    ensures
        r == like(pattern@.skip(p as int), text@.skip(t as int)),
    decreases (pattern@.len() - p) + (text@.len() - t),
{
    let ghost rest = pattern@.skip(p as int);
    let ghost left = text@.skip(t as int);
    if p == pattern.len() {
        return t == text.len();
    }
    assert(rest.skip(1) =~= pattern@.skip(p as int + 1));
    if t < text.len() {
        assert(left.skip(1) =~= text@.skip(t as int + 1));
    }
    if pattern[p] == '%' {
        matches_from(pattern, p + 1, text, t) || (t < text.len() && matches_from(
            pattern,
            p,
            text,
            t + 1,
        ))
    } else {
        t < text.len() && (pattern[p] == '_' || to_lower_char(pattern[p])
            == to_lower_char(text[t])) && matches_from(pattern, p + 1, text, t + 1)
    }
}

/// Whether a text matches a pattern.
pub fn is_like(pattern: &str, text: &str) -> (r: bool)
    ensures
        r == like(pattern@, text@),
{
    let p = chars_of(pattern);
    let t = chars_of(text);
    assert(p@.skip(0) =~= p@);
    assert(t@.skip(0) =~= t@);
    matches_from(&p, 0, &t, 0)
}

/// Whether two paths are the same but for the case of ASCII letters.
pub open spec fn same_path(a: Seq<char>, b: Seq<char>) -> bool {
    lower(a) == lower(b)
}

/// Whether two paths are the same but for the case of ASCII letters.
fn is_same_path(a: &str, b: &str) -> (r: bool)
    ensures
        r == same_path(a@, b@),
{
    same_chars(&to_lower(&chars_of(a)), &to_lower(&chars_of(b)))
}

/// Whether an item is in the way of a target: its file is the target, or is matched by the
/// pattern of the target and everything below it. In a pattern `_` stands for any character
/// and `%` for any text, so a target with one of them in its name matches siblings too.
pub open spec fn in_the_way(path: Seq<char>, target: Seq<char>) -> bool {
    same_path(path, target) || like(target + "/%"@, path)
}

/// The folder of another artist that is the target, if there is one.
pub open spec fn artist_conflicts(
    artists: Seq<IndexedArtist>,
    target: Seq<char>,
    artist_id: i64,
) -> Seq<(Option<i64>, i64, Seq<char>)> {
    match first(artists, |a: IndexedArtist| a.id != artist_id && same_path(a.path@, target)) {
        Some(a) => seq![(None::<i64>, a.id, a.path@)],
        None => Seq::empty(),
    }
}

/// The first items of other artists that are in the way.
pub open spec fn item_conflicts(
    items: Seq<IndexedItem>,
    target: Seq<char>,
    artist_id: i64,
) -> Seq<(Option<i64>, i64, Seq<char>)>
    decreases items.len(),
{
    if items.len() == 0 {
        Seq::empty()
    } else {
        let before = item_conflicts(items.drop_last(), target, artist_id);
        let i = items.last();
        if i.artist_id != artist_id && in_the_way(i.path@, target) && before.len()
            < MAX_ITEM_CONFLICTS {
            before.push((Some(i.id), i.artist_id, i.path@))
        } else {
            before
        }
    }
}

/// What is in the way of a move: the folder of another artist, then items.
pub open spec fn conflicts(
    artists: Seq<IndexedArtist>,
    items: Seq<IndexedItem>,
    target: Seq<char>,
    artist_id: i64,
) -> Seq<(Option<i64>, i64, Seq<char>)> {
    artist_conflicts(artists, target, artist_id) + item_conflicts(items, target, artist_id)
}

/// The values of conflicts.
pub open spec fn conflict_views(list: Seq<PathConflict>) -> Seq<(Option<i64>, i64, Seq<char>)> {
    list.map_values(|c: PathConflict| (c.item_id, c.artist_id, c.path@))
}

/// The first artist whose folder is the target.
fn find_artist_conflict(artists: &[IndexedArtist], target: &str, artist_id: i64) -> (r: Vec<
    PathConflict,
>)
    ensures
        conflict_views(r@) == artist_conflicts(artists@, target@, artist_id),
{
    let ghost wanted = |a: IndexedArtist| a.id != artist_id && same_path(a.path@, target@);
    let mut out: Vec<PathConflict> = Vec::new();
    let mut i: usize = 0;
    while i < artists.len()
        invariant
            i <= artists@.len(),
            wanted == (|a: IndexedArtist| a.id != artist_id && same_path(a.path@, target@)),
            out@.len() == 0,
            first(artists@.take(i as int), wanted) is None,
        decreases artists@.len() - i,
    {
        assert(artists@.take(i as int + 1).drop_last() =~= artists@.take(i as int));
        if artists[i].id != artist_id && is_same_path(&artists[i].path, target) {
            proof {
                crate::tables::lemma_first_stays(artists@, wanted, i as int + 1);
            }
            let ghost found = (None::<i64>, artists@[i as int].id, artists@[i as int].path@);
            out.push(
                PathConflict {
                    item_id: None,
                    artist_id: artists[i].id,
                    path: artists[i].path.clone(),
                },
            );
            assert(conflict_views(out@) =~= seq![found]);
            return out;
        }
        i += 1;
    }
    assert(artists@.take(artists@.len() as int) =~= artists@);
    assert(conflict_views(out@) =~= Seq::empty());
    out
}

/// What the library has stored of other artists at a target or below it: the folder
/// of one artist and a bounded number of items.
pub fn indexed_conflicts(
    artists: &[IndexedArtist],
    items: &[IndexedItem],
    target: &str,
    artist_id: i64,
) -> (r: Vec<PathConflict>)
    ensures
        conflict_views(r@) == conflicts(artists@, items@, target@, artist_id),
{
    let mut out = find_artist_conflict(artists, target, artist_id);
    let ghost front = conflict_views(out@);
    let mut below = String::new();
    below.append(target);
    below.append("/%");
    assert(below@ =~= target@ + "/%"@);
    let mut found: usize = 0;
    let mut i: usize = 0;
    assert(front + item_conflicts(items@.take(0), target@, artist_id) =~= front);
    while i < items.len()
        invariant
            i <= items@.len(),
            below@ == target@ + "/%"@,
            front == artist_conflicts(artists@, target@, artist_id),
            found == item_conflicts(items@.take(i as int), target@, artist_id).len(),
            found <= MAX_ITEM_CONFLICTS,
            conflict_views(out@) == front + item_conflicts(
                items@.take(i as int),
                target@,
                artist_id,
            ),
        decreases items@.len() - i,
    {
        let ghost now = items@.take(i as int + 1);
        assert(now.drop_last() =~= items@.take(i as int));
        assert(now.last() == items@[i as int]);
        if found < MAX_ITEM_CONFLICTS && items[i].artist_id != artist_id && (is_same_path(
            &items[i].path,
            target,
        ) || is_like(&below, &items[i].path)) {
            let ghost before = conflict_views(out@);
            let ghost v = (Some(items@[i as int].id), items@[i as int].artist_id, items@[i as int].path@);
            out.push(
                PathConflict {
                    item_id: Some(items[i].id),
                    artist_id: items[i].artist_id,
                    path: items[i].path.clone(),
                },
            );
            found += 1;
            assert(conflict_views(out@) =~= before.push(v));
            assert(conflict_views(out@) =~= front + item_conflicts(now, target@, artist_id));
        }
        i += 1;
    }
    assert(items@.take(items@.len() as int) =~= items@);
    out
}

/// A text matches itself with anything behind it.
proof fn lemma_like_itself(front: Seq<char>, rest: Seq<char>)
    ensures
        like(front + seq!['%'], front + rest),
    decreases front.len(),
{
    let pattern = front + seq!['%'];
    let text = front + rest;
    if front.len() == 0 {
        assert(pattern =~= seq!['%']);
        assert(text =~= rest);
        lemma_like_anything(rest);
    } else {
        let tail = front.skip(1);
        lemma_like_itself(tail, rest);
        assert(pattern.skip(1) =~= tail + seq!['%']);
        assert(text.skip(1) =~= tail + rest);
        if front[0] == '%' {
            assert(like(pattern, text.skip(1)));
        }
    }
}

/// The percent sign matches anything.
proof fn lemma_like_anything(text: Seq<char>)
    ensures
        like(seq!['%'], text),
    decreases text.len(),
{
    if text.len() == 0 {
        reveal_with_fuel(like, 2);
    } else {
        lemma_like_anything(text.skip(1));
    }
}

/// Where there are no item conflicts no item of another artist is in the way.
proof fn lemma_no_item_conflicts(
    items: Seq<IndexedItem>,
    target: Seq<char>,
    artist_id: i64,
    k: int,
)
    requires
        item_conflicts(items, target, artist_id).len() == 0,
        0 <= k < items.len(),
    ensures
        items[k].artist_id == artist_id || !in_the_way(items[k].path@, target),
    decreases items.len(),
{
    if k < items.len() - 1 {
        lemma_no_item_conflicts(items.drop_last(), target, artist_id, k);
        assert(items.drop_last()[k] == items[k]);
    }
}

/// A target without conflicts is not used by any other artist: it is no other
/// artist's folder, and no item of another artist lies at it or below it.
pub proof fn targets_without_conflicts_are_unused(
    artists: Seq<IndexedArtist>,
    items: Seq<IndexedItem>,
    target: Seq<char>,
    artist_id: i64,
)
    requires
        conflicts(artists, items, target, artist_id).len() == 0,
    ensures
        forall|i: int|
            0 <= i < artists.len() && (#[trigger] artists[i]).id != artist_id ==> artists[i].path@
                != target,
        forall|i: int|
            0 <= i < items.len() && (#[trigger] items[i]).artist_id != artist_id
                ==> items[i].path@ != target && !(exists|rest: Seq<char>|
                items[i].path@ == #[trigger] (target + seq!['/'] + rest)),
{
    let wanted = |a: IndexedArtist| a.id != artist_id && same_path(a.path@, target);
    crate::tables::lemma_first(artists, wanted);
    assert forall|i: int| 0 <= i < artists.len() && (#[trigger] artists[i]).id != artist_id implies
        artists[i].path@ != target by {
        assert(!wanted(artists[i]));
    }
    assert forall|i: int| 0 <= i < items.len() && (#[trigger] items[i]).artist_id != artist_id implies
        items[i].path@ != target && !(exists|rest: Seq<char>|
        items[i].path@ == #[trigger] (target + seq!['/'] + rest)) by {
        lemma_no_item_conflicts(items, target, artist_id, i);
        if exists|rest: Seq<char>| items[i].path@ == #[trigger] (target + seq!['/'] + rest) {
            let rest = choose|rest: Seq<char>|
                items[i].path@ == #[trigger] (target + seq!['/'] + rest);
            let front = target + seq!['/'];
            lemma_like_itself(front, rest);
            reveal_strlit("/%");
            assert(front + seq!['%'] =~= target + "/%"@);
        }
    }
}

/// The total size of the artist's files that are there; `None` where the running
/// sum leaves the range.
pub open spec fn size_total(items: Seq<IndexedItem>, artist_id: i64) -> Option<int>
    decreases items.len(),
{
    if items.len() == 0 {
        Some(0)
    } else {
        let i = items.last();
        match size_total(items.drop_last(), artist_id) {
            Some(sum) => if i.artist_id != artist_id || i.missing {
                Some(sum)
            } else if i64::MIN <= sum + i.file_size <= i64::MAX {
                Some(sum + i.file_size)
            } else {
                None
            },
            None => None,
        }
    }
}

/// How many files of the artist are there.
pub open spec fn file_total(items: Seq<IndexedItem>, artist_id: i64) -> nat {
    crate::tables::tally(items, |i: IndexedItem| i.artist_id == artist_id && !i.missing)
}

/// Once the sum has left the range it stays out.
proof fn lemma_size_total_stays(items: Seq<IndexedItem>, artist_id: i64, n: int)
    requires
        0 <= n <= items.len(),
        size_total(items.take(n), artist_id) is None,
    ensures
        size_total(items, artist_id) is None,
    decreases items.len() - n,
{
    if n == items.len() {
        assert(items.take(n) =~= items);
    } else {
        assert(items.take(n + 1).drop_last() =~= items.take(n));
        lemma_size_total_stays(items, artist_id, n + 1);
    }
}

/// The number and the total size of the artist's files that are there; `None` where
/// the sum leaves the range.
pub fn item_summary(items: &[IndexedItem], artist_id: i64) -> (r: Option<(usize, i64)>)
    ensures
        match r {
            Some((count, size)) => count == file_total(items@, artist_id) && size_total(
                items@,
                artist_id,
            ) == Some(size as int),
            None => size_total(items@, artist_id) is None,
        },
{
    let ghost there = |i: IndexedItem| i.artist_id == artist_id && !i.missing;
    let mut count: usize = 0;
    let mut size: i64 = 0;
    let mut i: usize = 0;
    while i < items.len()
        invariant
            i <= items@.len(),
            there == (|i: IndexedItem| i.artist_id == artist_id && !i.missing),
            count <= i,
            count == crate::tables::kept(items@.take(i as int), there).len(),
            size_total(items@.take(i as int), artist_id) == Some(size as int),
        decreases items@.len() - i,
    {
        assert(items@.take(i as int + 1).drop_last() =~= items@.take(i as int));
        assert(items@.take(i as int + 1).last() == items@[i as int]);
        if items[i].artist_id == artist_id && !items[i].missing {
            count += 1;
            match size.checked_add(items[i].file_size) {
                Some(sum) => {
                    size = sum;
                },
                None => {
                    proof {
                        lemma_size_total_stays(items@, artist_id, i as int + 1);
                    }
                    return None;
                },
            }
        }
        i += 1;
    }
    assert(items@.take(items@.len() as int) =~= items@);
    Some((count, size))
}

/// A pattern without wildcards matches what differs from it in case alone, and nothing else.
pub proof fn patterns_without_wildcards_match_themselves(pattern: Seq<char>, text: Seq<char>)
    requires
        !pattern.contains('%'),
        !pattern.contains('_'),
    ensures
        like(pattern, text) <==> lower(pattern) == lower(text),
    decreases pattern.len(),
{
    if pattern.len() == 0 {
        if text.len() == 0 {
            assert(pattern =~= text);
        } else {
            assert(lower(pattern).len() != lower(text).len());
        }
    } else {
        let p = pattern.skip(1);
        assert(pattern.contains(pattern[0]));
        assert(!p.contains('%')) by {
            if p.contains('%') {
                let i = p.index_of('%');
                assert(pattern[i + 1] == '%');
            }
        }
        assert(!p.contains('_')) by {
            if p.contains('_') {
                let i = p.index_of('_');
                assert(pattern[i + 1] == '_');
            }
        }
        if text.len() > 0 {
            let t = text.skip(1);
            patterns_without_wildcards_match_themselves(p, t);
            if like(pattern, text) {
                assert(lower(p) == lower(t));
                assert(lower(p).len() == lower(t).len());
                assert(lower_char(pattern[0]) == lower_char(text[0]));
                assert forall|i: int| 0 <= i < lower(pattern).len() implies lower(pattern)[i]
                    == #[trigger] lower(text)[i] by {
                    if i > 0 {
                        assert(lower(p)[i - 1] == lower(t)[i - 1]);
                        assert(p[i - 1] == pattern[i] && t[i - 1] == text[i]);
                    }
                }
                assert(lower(pattern) =~= lower(text));
            }
            if lower(pattern) == lower(text) {
                assert(lower(pattern)[0] == lower(text)[0]);
                assert(lower(pattern).len() == lower(text).len());
                assert forall|i: int| 0 <= i < lower(p).len() implies lower(p)[i]
                    == #[trigger] lower(t)[i] by {
                    assert(lower(pattern)[i + 1] == lower(text)[i + 1]);
                }
                assert(lower(p) =~= lower(t));
            }
        } else {
            assert(lower(pattern).len() != lower(text).len());
        }
    }
}

/// A pattern without wildcards in front of a percent sign matches whatever begins with it,
/// without regard to case.
pub proof fn prefixes_match_what_begins_with_them(prefix: Seq<char>, text: Seq<char>)
    requires
        !prefix.contains('%'),
        !prefix.contains('_'),
    ensures
        like(prefix + seq!['%'], text) <==> prefix.len() <= text.len() && lower(
            text.take(prefix.len() as int),
        ) == lower(prefix),
    decreases prefix.len(),
{
    let pattern = prefix + seq!['%'];
    if prefix.len() == 0 {
        assert(pattern =~= seq!['%']);
        lemma_percent(text);
        assert(text.take(0) =~= prefix);
    } else {
        let p = prefix.skip(1);
        assert(prefix.contains(prefix[0]));
        assert(!p.contains('%')) by {
            if p.contains('%') {
                let i = p.index_of('%');
                assert(prefix[i + 1] == '%');
            }
        }
        assert(!p.contains('_')) by {
            if p.contains('_') {
                let i = p.index_of('_');
                assert(prefix[i + 1] == '_');
            }
        }
        assert(pattern[0] == prefix[0]);
        assert(pattern.skip(1) =~= p + seq!['%']);
        if text.len() > 0 {
            let t = text.skip(1);
            prefixes_match_what_begins_with_them(p, t);
            if prefix.len() <= text.len() {
                let head = text.take(prefix.len() as int);
                assert(head.skip(1) =~= t.take(p.len() as int));
                if lower(head) == lower(prefix) {
                    assert(lower(head)[0] == lower(prefix)[0]);
                    assert forall|i: int| 0 <= i < p.len() implies lower(p)[i] == #[trigger] lower(
                        t.take(p.len() as int),
                    )[i] by {
                        assert(lower(head)[i + 1] == lower(prefix)[i + 1]);
                        assert(head.skip(1)[i] == t.take(p.len() as int)[i]);
                    }
                    assert(lower(t.take(p.len() as int)) =~= lower(p));
                }
                if like(pattern, text) {
                    assert forall|i: int| 0 <= i < prefix.len() implies lower(prefix)[i]
                        == #[trigger] lower(head)[i] by {
                        if i > 0 {
                            assert(lower(t.take(p.len() as int))[i - 1] == lower(p)[i - 1]);
                            assert(head.skip(1)[i - 1] == t.take(p.len() as int)[i - 1]);
                        }
                    }
                    assert(lower(head) =~= lower(prefix));
                }
            }
        }
    }
}

/// A percent sign matches anything.
proof fn lemma_percent(text: Seq<char>)
    ensures
        like(seq!['%'], text),
    decreases text.len(),
{
    let p = seq!['%'];
    if text.len() > 0 {
        lemma_percent(text.skip(1));
    } else {
        assert(like(p.skip(1), text));
    }
}

/// Another artist's folder at the target, and another artist's item at or below it, are
/// conflicts: each item up to twenty of them.
pub proof fn conflicts_are_found(
    artists: Seq<IndexedArtist>,
    items: Seq<IndexedItem>,
    target: Seq<char>,
    artist_id: i64,
    i: int,
)
    requires
        0 <= i,
    ensures
        i < artists.len() && artists[i].id != artist_id && lower(artists[i].path@) == lower(target)
            ==> artist_conflicts(artists, target, artist_id).len() == 1,
        i < items.len() && items[i].artist_id != artist_id && lower(items[i].path@) == lower(target)
            && item_conflicts(items, target, artist_id).len() < 20 ==> item_conflicts(
            items,
            target,
            artist_id,
        ).contains((Some(items[i].id), items[i].artist_id, items[i].path@)),
        item_conflicts(items, target, artist_id).len() <= 20,
        forall|k: int|
            0 <= k < conflicts(artists, items, target, artist_id).len() ==> (#[trigger] conflicts(
                artists,
                items,
                target,
                artist_id,
            )[k]).1 != artist_id,
    decreases items.len(),
{
    let wanted = |a: IndexedArtist| a.id != artist_id && same_path(a.path@, target);
    crate::tables::lemma_first(artists, wanted);
    if i < artists.len() && wanted(artists[i]) {
        assert(first(artists, wanted) is Some);
    }
    if items.len() > 0 {
        let d = items.drop_last();
        conflicts_are_found(artists, d, target, artist_id, i);
        let before = item_conflicts(d, target, artist_id);
        let now = item_conflicts(items, target, artist_id);
        if i < items.len() && items[i].artist_id != artist_id && lower(items[i].path@) == lower(
            target,
        ) && now.len() < 20 {
            let row = (Some(items[i].id), items[i].artist_id, items[i].path@);
            if i < d.len() {
                assert(d[i] == items[i]);
                assert(before.contains(row));
                let k = before.index_of(row);
                assert(now[k] == row);
            } else {
                assert(now[before.len() as int] == row);
            }
        }
    }
    let found = artist_conflicts(artists, target, artist_id);
    let all = conflicts(artists, items, target, artist_id);
    assert forall|k: int| 0 <= k < all.len() implies (#[trigger] all[k]).1 != artist_id by {
        if k < found.len() {
            assert(all[k] == found[k]);
        } else if items.len() > 0 {
            let d = items.drop_last();
            let j = k - found.len();
            assert(all[k] == item_conflicts(items, target, artist_id)[j]);
            if j < item_conflicts(d, target, artist_id).len() {
                assert(conflicts(artists, d, target, artist_id)[k] == item_conflicts(
                    d,
                    target,
                    artist_id,
                )[j]);
            }
        }
    }
}

/// The summary of an artist counts the artist's items that are there, and adds up their sizes.
pub proof fn summaries_count_what_is_there(
    items: Seq<IndexedItem>,
    item: IndexedItem,
    artist_id: i64,
)
    requires
        size_total(items.push(item), artist_id) is Some,
    ensures
        size_total(items, artist_id) is Some,
        ({
            let counts = item.artist_id == artist_id && !item.missing;
            &&& file_total(items.push(item), artist_id) == file_total(items, artist_id)
                + if counts {
                1int
            } else {
                0
            }
            &&& size_total(items.push(item), artist_id)->Some_0 == size_total(
                items,
                artist_id,
            )->Some_0 + if counts {
                item.file_size as int
            } else {
                0
            }
        }),
        size_total(Seq::empty(), artist_id) == Some(0int),
        file_total(Seq::empty(), artist_id) == 0,
{
    assert(items.push(item).drop_last() =~= items);
}

/// In a pattern an underscore stands for any one character, a percent sign for any text, and
/// every other character for itself without regard to ASCII case.
pub proof fn wildcards_stand_for_what_they_should(
    pattern: Seq<char>,
    text: Seq<char>,
    a: char,
    c: char,
)
    ensures
        like(seq!['_'] + pattern, seq![c] + text) <==> like(pattern, text),
        !like(seq!['_'] + pattern, Seq::empty()),
        like(seq!['%'], text),
        like(pattern, text) ==> like(seq!['%'] + pattern, text),
        a != '%' && a != '_' ==> (like(seq![a] + pattern, seq![c] + text) <==> lower_char(a)
            == lower_char(c) && like(pattern, text)),
        like(Seq::empty(), text) <==> text.len() == 0,
    decreases text.len(),
{
    assert((seq!['_'] + pattern).skip(1) =~= pattern);
    assert((seq![a] + pattern).skip(1) =~= pattern);
    assert((seq!['%'] + pattern).skip(1) =~= pattern);
    assert((seq![c] + text).skip(1) =~= text);
    assert(seq!['%'].skip(1) =~= Seq::<char>::empty());
    assert(like(Seq::empty(), Seq::<char>::empty()));
    if text.len() > 0 {
        wildcards_stand_for_what_they_should(pattern, text.skip(1), a, c);
    } else {
        assert(text =~= Seq::empty());
        assert(like(seq!['%'].skip(1), text));
    }
}

}
