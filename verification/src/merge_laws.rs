//! What joining two artists does to what belongs to them.

use vstd::prelude::*;
use crate::artist_merge::{
    added, artist_documents_moved, artist_merged, artist_shift, artists_joined, belongings_given,
    entry_moved, item_placed, links_moved, moves_given, plan_mapped, plans_are_distinct,
    plans_mapped, plans_moved, real_path, rebased, recycled_mapped, recycled_moved, scans_given,
    tag_folded, tags_folded, under_root, FoldedTags, MergeError, Migration,
};
use crate::artist_profile_links::LinkView;
use crate::item_merge::{
    concerns_reference, items_joined, moved_references_leave_nothing,
    moved_suggestions_leave_nothing, references_moved,
};
use crate::json::JsonTree;
use crate::library_tables::{
    ArtistView, DocumentView, ItemTag, ItemView, LibraryView, MoveView, PlanView, RecycleView,
    ScanView, TagView,
};
use crate::tables::{first, folded, kept, tried};
use crate::text::starts_with;

verus! {

/// A path below a root lies below the real root under the same names; a root that is only the
/// start of a name is none.
pub proof fn rebased_paths_keep_their_rest(
    root: Seq<char>,
    real_root: Seq<char>,
    rest: Seq<char>,
    c: char,
)
    requires
        c != '/',
    ensures
        under_root(root, root),
        under_root(root + seq!['/'] + rest, root),
        !under_root(root + seq![c] + rest, root),
        rebased(root, root, real_root) == real_root,
        rebased(root + seq!['/'] + rest, root, real_root) == real_root + seq!['/'] + rest,
{
    let p = root + seq!['/'] + rest;
    let n = root.len() as int;
    assert(p.take(n + 1) =~= root + seq!['/']);
    assert(p.skip(n) =~= seq!['/'] + rest);
    assert(real_root + (seq!['/'] + rest) =~= real_root + seq!['/'] + rest);
    assert(root.skip(n) =~= Seq::<char>::empty());
    assert(real_root + Seq::<char>::empty() =~= real_root);
    let q = root + seq![c] + rest;
    assert(q.len() != root.len());
    if starts_with(q, root + seq!['/']) {
        assert(q.take(n + 1)[n] == c);
        assert((root + seq!['/'])[n] == '/');
    }
}

/// Whether an entry of the recycle bin goes with an artist.
pub open spec fn goes_with(e: RecycleView, source: i64) -> bool {
    e.artist_id == source && e.active
}

/// The open entries of the joined artist go to the other one, in the record and in its copy,
/// and nothing else of any entry changes; where a copy cannot be read or names another artist,
/// nothing goes at all.
pub proof fn recycled_entries_go_over(entries: Seq<RecycleView>, source: i64, target: i64)
    ensures
        recycled_moved(entries, source, target) is Ok <==> forall|i: int|
            0 <= i < entries.len() && goes_with(#[trigger] entries[i], source) ==> (
            entries[i].snapshot matches Some(copy) && copy.get("artist_id"@) == Some(
                JsonTree::Int(source),
            )),
        recycled_moved(entries, source, target) matches Ok(rows) ==> {
            &&& rows.len() == entries.len()
            &&& forall|i: int|
                0 <= i < rows.len() ==> (#[trigger] rows[i]) == if goes_with(entries[i], source) {
                    RecycleView {
                        artist_id: target,
                        snapshot: Some(
                            entries[i].snapshot->Some_0.with(
                                "artist_id"@,
                                JsonTree::Int(target),
                            ),
                        ),
                        ..entries[i]
                    }
                } else {
                    entries[i]
                }
        },
    decreases entries.len(),
{
    let step = |done: Seq<RecycleView>, e: RecycleView|
        match entry_moved(e, source, target) {
            Ok(q) => Ok(done.push(q)),
            Err(x) => Err(x),
        };
    if entries.len() > 0 {
        let d = entries.drop_last();
        recycled_entries_go_over(d, source, target);
        assert(recycled_moved(d, source, target) == tried(Seq::<RecycleView>::empty(), d, step));
        let last = entries.last();
        assert(entries[entries.len() - 1] == last);
        let fine = forall|i: int|
            0 <= i < entries.len() && goes_with(#[trigger] entries[i], source) ==> (
            entries[i].snapshot matches Some(copy) && copy.get("artist_id"@) == Some(
                JsonTree::Int(source),
            ));
        if fine {
            assert forall|i: int| 0 <= i < d.len() && goes_with(#[trigger] d[i], source) implies (
            d[i].snapshot matches Some(copy) && copy.get("artist_id"@) == Some(
                JsonTree::Int(source),
            )) by {
                assert(d[i] == entries[i]);
            }
        }
        if recycled_moved(d, source, target) is Ok {
            assert forall|i: int|
                0 <= i < d.len() && goes_with(#[trigger] entries[i], source) implies (
            entries[i].snapshot matches Some(copy) && copy.get("artist_id"@) == Some(
                JsonTree::Int(source),
            )) by {
                assert(d[i] == entries[i]);
            }
        }
        if recycled_moved(entries, source, target) is Ok {
            let before = recycled_moved(d, source, target)->Ok_0;
            let rows = recycled_moved(entries, source, target)->Ok_0;
            assert(rows == before.push(entry_moved(last, source, target)->Ok_0));
            assert forall|i: int| 0 <= i < rows.len() implies (#[trigger] rows[i]) == if goes_with(
                entries[i],
                source,
            ) {
                RecycleView {
                    artist_id: target,
                    snapshot: Some(
                        entries[i].snapshot->Some_0.with("artist_id"@, JsonTree::Int(target)),
                    ),
                    ..entries[i]
                }
            } else {
                entries[i]
            } by {
                if i < d.len() {
                    assert(rows[i] == before[i]);
                    assert(d[i] == entries[i]);
                }
            }
        }
    }
}

/// Only the plans of the joined artist change, each in its chosen tags alone.
pub proof fn plans_change_in_their_tags_alone(
    plans: Seq<PlanView>,
    became: Seq<(i64, i64)>,
    artist: i64,
)
    ensures
        plans_mapped(plans, became, artist) matches Ok(rows) ==> {
            &&& rows.len() == plans.len()
            &&& forall|i: int|
                0 <= i < rows.len() ==> {
                    let (p, q) = (plans[i], #[trigger] rows[i]);
                    &&& q == (PlanView { selected_tag_ids: q.selected_tag_ids, ..p })
                    &&& p.artist_id != artist || p.selected_tag_ids is None || became.len() == 0
                        ==> q == p
                    &&& p.selected_tag_ids is Some ==> q.selected_tag_ids is Some
                }
        },
    decreases plans.len(),
{
    let step = |done: Seq<PlanView>, p: PlanView|
        match plan_mapped(p, became, artist) {
            Ok(q) => Ok(done.push(q)),
            Err(e) => Err(e),
        };
    if plans.len() > 0 && became.len() > 0 && plans_mapped(plans, became, artist) is Ok {
        let d = plans.drop_last();
        plans_change_in_their_tags_alone(d, became, artist);
        assert(plans_mapped(d, became, artist) == tried(Seq::<PlanView>::empty(), d, step));
        let before = plans_mapped(d, became, artist)->Ok_0;
        let rows = plans_mapped(plans, became, artist)->Ok_0;
        assert(rows == before.push(plan_mapped(plans.last(), became, artist)->Ok_0));
        assert forall|i: int| 0 <= i < rows.len() implies {
            let (p, q) = (plans[i], #[trigger] rows[i]);
            &&& q == (PlanView { selected_tag_ids: q.selected_tag_ids, ..p })
            &&& p.artist_id != artist || p.selected_tag_ids is None || became.len() == 0 ==> q == p
            &&& p.selected_tag_ids is Some ==> q.selected_tag_ids is Some
        } by {
            if i < d.len() {
                assert(rows[i] == before[i]);
                assert(d[i] == plans[i]);
            }
        }
    }
}

/// A chain of steps, each of which settles its row and unsettles none, settles every row.
proof fn lemma_steps_settle<V>(
    rows: Seq<V>,
    open: spec_fn(V) -> bool,
    id: spec_fn(V) -> i64,
    step: spec_fn(Seq<V>, V) -> Seq<V>,
    n: int,
)
    requires
        0 <= n <= kept(rows, open).len(),
        forall|s: Seq<V>, r: V, x: V| #[trigger]
            step(s, r).contains(x) && open(x) ==> s.contains(x) && id(x) != id(r),
    ensures
        forall|x: V| #[trigger]
            folded(rows, kept(rows, open).take(n), step).contains(x) && open(x) ==> rows.contains(x)
                && forall|k: int| 0 <= k < n ==> id(#[trigger] kept(rows, open)[k]) != id(x),
    decreases n,
{
    let going = kept(rows, open);
    let now = folded(rows, going.take(n), step);
    if n > 0 {
        lemma_steps_settle(rows, open, id, step, n - 1);
        let t = going.take(n);
        assert(t.drop_last() =~= going.take(n - 1));
        assert(t.last() == going[n - 1]);
        let before = folded(rows, going.take(n - 1), step);
        assert(now == step(before, going[n - 1]));
        assert forall|x: V| #[trigger] now.contains(x) && open(x) implies rows.contains(x)
            && forall|k: int| 0 <= k < n ==> id(#[trigger] going[k]) != id(x) by {
            assert(before.contains(x) && id(x) != id(going[n - 1]));
        }
    } else {
        assert(going.take(0) =~= Seq::<V>::empty());
        assert(now == rows);
    }
}

/// After every row that was open, none is.
proof fn lemma_all_settled<V>(
    rows: Seq<V>,
    open: spec_fn(V) -> bool,
    id: spec_fn(V) -> i64,
    step: spec_fn(Seq<V>, V) -> Seq<V>,
)
    requires
        forall|s: Seq<V>, r: V, x: V| #[trigger]
            step(s, r).contains(x) && open(x) ==> s.contains(x) && id(x) != id(r),
    ensures
        forall|x: V| #[trigger] folded(rows, kept(rows, open), step).contains(x) ==> !open(x),
{
    let going = kept(rows, open);
    lemma_steps_settle(rows, open, id, step, going.len() as int);
    assert(going.take(going.len() as int) =~= going);
    crate::tables::lemma_kept(rows, open);
    assert forall|x: V| #[trigger] folded(rows, going, step).contains(x) implies !open(x) by {
        if open(x) {
            assert(rows.contains(x));
            assert(going.contains(x));
            let k = going.index_of(x);
            assert(id(going[k]) != id(x));
        }
    }
}

/// No link of the joined artist is left.
pub proof fn moved_links_leave_nothing(links: Seq<LinkView>, source: i64, target: i64, i: int)
    requires
        source != target,
        0 <= i < links_moved(links, source, target).len(),
    ensures
        links_moved(links, source, target)[i].artist_id != source,
{
    let open = |l: LinkView| l.artist_id == source;
    let id = |l: LinkView| l.id;
    let step = |s: Seq<LinkView>, l: LinkView| crate::artist_merge::link_moved(s, l, target);
    assert forall|s: Seq<LinkView>, r: LinkView, x: LinkView| #[trigger]
        step(s, r).contains(x) && open(x) implies s.contains(x) && id(x) != id(r) by {
        let now = step(s, r);
        let k = now.index_of(x);
        let stays = |l: LinkView| l.id != r.id;
        crate::tables::lemma_kept(s, stays);
        if now == kept(s, stays) {
            assert(kept(s, stays).contains(x));
        } else {
            assert(now[k] == x);
            assert(s[k] == x);
        }
    }
    lemma_all_settled(links, open, id, step);
    let all = links_moved(links, source, target);
    assert(all == folded(links, kept(links, open), step));
    assert(all.contains(all[i]));
}

/// No document of the joined artist is left.
pub proof fn moved_documents_leave_nothing(
    documents: Seq<DocumentView>,
    source: i64,
    target: i64,
    i: int,
)
    requires
        source != target,
        0 <= i < artist_documents_moved(documents, source, target).len(),
    ensures
        artist_documents_moved(documents, source, target)[i].artist_id != source,
{
    let open = |d: DocumentView| d.artist_id == source;
    let id = |d: DocumentView| d.id;
    let step = |s: Seq<DocumentView>, d: DocumentView|
        crate::artist_merge::document_moved(s, d, target);
    assert forall|s: Seq<DocumentView>, r: DocumentView, x: DocumentView| #[trigger]
        step(s, r).contains(x) && open(x) implies s.contains(x) && id(x) != id(r) by {
        let now = step(s, r);
        let k = now.index_of(x);
        let stays = |d: DocumentView| d.id != r.id;
        crate::tables::lemma_kept(s, stays);
        if now == kept(s, stays) {
            assert(kept(s, stays).contains(x));
        } else {
            assert(now[k] == x);
            assert(s[k] == x);
        }
    }
    lemma_all_settled(documents, open, id, step);
    let all = artist_documents_moved(documents, source, target);
    assert(all == folded(documents, kept(documents, open), step));
    assert(all.contains(all[i]));
}

/// A link goes over to the other artist, unless that has the same one: the double goes; no
/// link but those with its number changes.
pub proof fn links_go_over_once(links: Seq<LinkView>, row: LinkView, target: i64, k: int)
    requires
        0 <= k < links.len(),
        row.artist_id != target,
    ensures
        ({
            let now = crate::artist_merge::link_moved(links, row, target);
            let twin = exists|j: int|
                0 <= j < links.len() && (#[trigger] links[j]).artist_id == target && links[j].kind
                    == row.kind && links[j].url == row.url;
            &&& links[k].id != row.id ==> now.contains(links[k])
            &&& links[k].id == row.id && !twin ==> now.contains(
                LinkView { artist_id: target, ..links[k] },
            )
            &&& links[k].id == row.id && twin ==> !now.contains(links[k])
        }),
{
    let now = crate::artist_merge::link_moved(links, row, target);
    let same = |l: LinkView| l.artist_id == target && l.kind == row.kind && l.url == row.url;
    let stays = |l: LinkView| l.id != row.id;
    crate::tables::lemma_first(links, same);
    crate::tables::lemma_kept(links, stays);
    let twin = exists|j: int|
        0 <= j < links.len() && (#[trigger] links[j]).artist_id == target && links[j].kind
            == row.kind && links[j].url == row.url;
    if twin {
        let j = choose|j: int|
            0 <= j < links.len() && (#[trigger] links[j]).artist_id == target && links[j].kind
                == row.kind && links[j].url == row.url;
        assert(same(links[j]));
        assert(crate::tables::first(links, same) is Some);
        assert(now == kept(links, stays));
        assert(links.contains(links[k]));
    } else {
        if crate::tables::first(links, same) is Some {
            let other = crate::tables::first(links, same)->Some_0;
            let j = links.index_of(other);
            assert(links[j].artist_id == target);
        }
        assert(now[k] == if links[k].id == row.id {
            LinkView { artist_id: target, ..links[k] }
        } else {
            links[k]
        });
    }
}

/// No tag of the joined artist is left, and for each it is told which tag it became.
pub proof fn folded_tags_leave_nothing(
    tags: Seq<TagView>,
    item_tags: Seq<ItemTag>,
    source: i64,
    target: i64,
)
    requires
        source != target,
    ensures
        ({
            let f = tags_folded(tags, item_tags, source, target);
            let going = kept(tags, |t: TagView| t.artist_id == source);
            &&& forall|i: int| 0 <= i < f.tags.len() ==> (#[trigger] f.tags[i]).artist_id != source
            &&& f.became.len() == going.len()
            &&& forall|k: int| 0 <= k < going.len() ==> (#[trigger] f.became[k]).0 == going[k].id
        }),
{
    let own = |t: TagView| t.artist_id == source;
    let going = kept(tags, own);
    lemma_tags_settle(tags, item_tags, source, target, going.len() as int);
    assert(going.take(going.len() as int) =~= going);
    crate::tables::lemma_kept(tags, own);
    let f = tags_folded(tags, item_tags, source, target);
    assert forall|i: int| 0 <= i < f.tags.len() implies (#[trigger] f.tags[i]).artist_id
        != source by {
        let t = f.tags[i];
        if t.artist_id == source {
            assert(tags.contains(t));
            assert(going.contains(t));
            let k = going.index_of(t);
            assert(going[k].id != t.id);
        }
    }
}

/// After each tag, one more is settled.
proof fn lemma_tags_settle(
    tags: Seq<TagView>,
    item_tags: Seq<ItemTag>,
    source: i64,
    target: i64,
    n: int,
)
    requires
        source != target,
        0 <= n <= kept(tags, |t: TagView| t.artist_id == source).len(),
    ensures
        ({
            let going = kept(tags, |t: TagView| t.artist_id == source);
            let f = folded(
                FoldedTags { tags, item_tags, became: Seq::empty() },
                going.take(n),
                |s: FoldedTags, t: TagView| tag_folded(s, t, target),
            );
            &&& forall|i: int|
                0 <= i < f.tags.len() && (#[trigger] f.tags[i]).artist_id == source
                    ==> tags.contains(f.tags[i]) && forall|k: int|
                    0 <= k < n ==> (#[trigger] going[k]).id != f.tags[i].id
            &&& f.became.len() == n
            &&& forall|k: int| 0 <= k < n ==> (#[trigger] f.became[k]).0 == going[k].id
        }),
    decreases n,
{
    let going = kept(tags, |t: TagView| t.artist_id == source);
    let start = FoldedTags { tags, item_tags, became: Seq::<(i64, i64)>::empty() };
    let step = |s: FoldedTags, t: TagView| tag_folded(s, t, target);
    let f = folded(start, going.take(n), step);
    if n > 0 {
        lemma_tags_settle(tags, item_tags, source, target, n - 1);
        let t = going.take(n);
        assert(t.drop_last() =~= going.take(n - 1));
        assert(t.last() == going[n - 1]);
        let b = folded(start, going.take(n - 1), step);
        let row = going[n - 1];
        assert(f == tag_folded(b, row, target));
        let stays = |x: TagView| x.id != row.id;
        crate::tables::lemma_kept(b.tags, stays);
        assert forall|i: int|
            0 <= i < f.tags.len() && (#[trigger] f.tags[i]).artist_id == source implies tags.contains(
            f.tags[i],
        ) && forall|k: int| 0 <= k < n ==> (#[trigger] going[k]).id != f.tags[i].id by {
            let x = f.tags[i];
            if f.tags == kept(b.tags, stays) {
                assert(kept(b.tags, stays).contains(x));
                assert(b.tags.contains(x));
                let j = b.tags.index_of(x);
                assert(b.tags[j] == x);
            } else {
                assert(b.tags[i] == x);
            }
        }
        assert forall|k: int| 0 <= k < n implies (#[trigger] f.became[k]).0 == going[k].id by {
            if k < n - 1 {
                assert(f.became[k] == b.became[k]);
            }
        }
    } else {
        assert(going.take(0) =~= Seq::<TagView>::empty());
        assert(f == start);
        assert forall|i: int|
            0 <= i < f.tags.len() && (#[trigger] f.tags[i]).artist_id == source implies tags.contains(
            f.tags[i],
        ) by {
            assert(tags[i] == f.tags[i]);
        }
    }
}

/// A tag goes over to the other artist under its own number, unless that has one of the same
/// name: then it becomes that one, and its rows with it.
pub proof fn tags_go_over_or_join(s: FoldedTags, tag: TagView, target: i64, k: int)
    requires
        0 <= k < s.tags.len(),
    ensures
        ({
            let now = tag_folded(s, tag, target);
            let twin = exists|j: int|
                0 <= j < s.tags.len() && (#[trigger] s.tags[j]).artist_id == target
                    && s.tags[j].name == tag.name;
            &&& s.tags[k].id != tag.id ==> now.tags.contains(s.tags[k])
            &&& s.tags[k].id == tag.id && !twin ==> now.tags.contains(
                TagView { artist_id: target, ..s.tags[k] },
            )
            &&& !twin ==> now.became.last() == (tag.id, tag.id) && now.item_tags == s.item_tags
            &&& twin ==> exists|j: int|
                0 <= j < s.tags.len() && (#[trigger] s.tags[j]).artist_id == target
                    && s.tags[j].name == tag.name && now.became.last() == (tag.id, s.tags[j].id)
            &&& twin ==> forall|i: int|
                0 <= i < now.item_tags.len() ==> (#[trigger] now.item_tags[i]).tag_id != tag.id
        }),
{
    let now = tag_folded(s, tag, target);
    let same = |t: TagView| t.artist_id == target && t.name == tag.name;
    let stays = |t: TagView| t.id != tag.id;
    crate::tables::lemma_first(s.tags, same);
    crate::tables::lemma_kept(s.tags, stays);
    let twin = exists|j: int|
        0 <= j < s.tags.len() && (#[trigger] s.tags[j]).artist_id == target && s.tags[j].name
            == tag.name;
    if twin {
        let j = choose|j: int|
            0 <= j < s.tags.len() && (#[trigger] s.tags[j]).artist_id == target && s.tags[j].name
                == tag.name;
        assert(same(s.tags[j]));
        let other = crate::tables::first(s.tags, same)->Some_0;
        let m = s.tags.index_of(other);
        assert(s.tags[m] == other);
        assert(s.tags.contains(s.tags[k]));
        let left = |t: ItemTag| t.tag_id != tag.id;
        let more = crate::item_merge::with_tags(
            s.item_tags,
            crate::artist_merge::tag_rows_for(s.item_tags, tag.id, other.id),
        );
        crate::tables::lemma_kept(more, left);
        assert(now.item_tags == kept(more, left));
    } else {
        if crate::tables::first(s.tags, same) is Some {
            let other = crate::tables::first(s.tags, same)->Some_0;
            let m = s.tags.index_of(other);
            assert(s.tags[m].artist_id == target);
        }
        assert(now.tags[k] == if s.tags[k].id == tag.id {
            TagView { artist_id: target, ..s.tags[k] }
        } else {
            s.tags[k]
        });
    }
}

/// An item is put at a path that no other item has: it gets the path and the artist, no other
/// item changes, and one more update is counted.
pub proof fn items_are_put_where_nothing_stands(
    m: Migration,
    item: i64,
    path: Seq<char>,
    artist: Option<i64>,
    k: int,
)
    requires
        0 <= k < m.library.items.len(),
        forall|j: int|
            0 <= j < m.library.items.len() && (#[trigger] m.library.items[j]).path == path
                ==> m.library.items[j].id == item,
        m.counts.updated < u64::MAX,
    ensures
        ({
            let now = item_placed(m, item, path, artist);
            let (old, new) = (m.library.items[k], now.library.items[k]);
            &&& now.library.items.len() == m.library.items.len()
            &&& old.id != item ==> new == old
            &&& old.id == item ==> new.path == path && new.normal_path == path && new.id == item
                && new.artist_id == match artist {
                Some(a) => a,
                None => old.artist_id,
            }
            &&& now.counts.updated == m.counts.updated + 1
            &&& now.counts.merged_items == m.counts.merged_items
        }),
{
    let items = m.library.items;
    let other = |i: ItemView| i.path == path && i.id != item;
    crate::tables::lemma_first(items, other);
    if crate::tables::first(items, other) is Some {
        let x = crate::tables::first(items, other)->Some_0;
        let j = items.index_of(x);
        assert(items[j].path == path);
    }
}

/// An item that is put where another stands joins it: its own row goes, and a joined item more
/// is counted.
pub proof fn items_join_what_stands(
    m: Migration,
    item: i64,
    path: Seq<char>,
    artist: Option<i64>,
    k: int,
    i: int,
)
    requires
        0 <= k < m.library.items.len(),
        m.library.items[k].path == path,
        m.library.items[k].id != item,
        m.counts.merged_items < u64::MAX,
        0 <= i < item_placed(m, item, path, artist).library.items.len(),
    ensures
        item_placed(m, item, path, artist).library.items[i].id != item,
        item_placed(m, item, path, artist).counts.merged_items == m.counts.merged_items + 1,
        item_placed(m, item, path, artist).counts.updated == m.counts.updated,
{
    let items = m.library.items;
    let other = |i: ItemView| i.path == path && i.id != item;
    crate::tables::lemma_first(items, other);
    assert(other(items[k]));
    let x = crate::tables::first(items, other)->Some_0;
    let joined = crate::item_merge::item_merged(m.library, item, x.id, artist);
    let stays = |i: ItemView| i.id != item;
    crate::tables::lemma_kept(joined.items, stays);
    assert(item_placed(m, item, path, artist).library.items == kept(joined.items, stays));
}

/// The joined artist is gone, every other one stays, and no row of a scan or a move names the
/// joined one any more.
pub proof fn joined_artists_leave_nothing(
    artists: Seq<ArtistView>,
    scans: Seq<ScanView>,
    moves: Seq<MoveView>,
    source: i64,
    target: i64,
    i: int,
)
    requires
        source != target,
        0 <= i,
    ensures
        i < artists_joined(artists, source, target).len() ==> artists_joined(
            artists,
            source,
            target,
        )[i].id != source,
        i < artists.len() && artists[i].id != source && artists[i].id != target
            ==> artists_joined(artists, source, target).contains(artists[i]),
        scans_given(scans, source, target).len() == scans.len(),
        i < scans.len() ==> scans_given(scans, source, target)[i].artist_id != Some(source)
            && scans_given(scans, source, target)[i] == (ScanView {
            artist_id: if scans[i].artist_id == Some(source) {
                Some(target)
            } else {
                scans[i].artist_id
            },
            ..scans[i]
        }),
        moves_given(moves, source, target).len() == moves.len(),
        i < moves.len() ==> moves_given(moves, source, target)[i].artist_id != Some(source)
            && moves_given(moves, source, target)[i] == (MoveView {
            artist_id: if moves[i].artist_id == Some(source) {
                Some(target)
            } else {
                moves[i].artist_id
            },
            ..moves[i]
        }),
{
    let stays = |a: ArtistView| a.id != source;
    let there = artists.map_values(
        |a: ArtistView|
            if a.id == target {
                ArtistView { missing: false, missing_at: None, ..a }
            } else {
                a
            },
    );
    crate::tables::lemma_kept(artists, stays);
    crate::tables::lemma_kept(there, stays);
    let all = artists_joined(artists, source, target);
    assert(all == kept(artists, stays) || all == kept(there, stays));
    if i < artists.len() && artists[i].id != source && artists[i].id != target {
        assert(there[i] == artists[i]);
        assert(there.contains(there[i]));
        assert(artists.contains(artists[i]));
    }
}

/// Whether an error tells which row stopped the joining.
pub open spec fn names_row(e: MergeError, id: i64) -> bool {
    match e {
        MergeError::PlanTags { plan } => plan == id,
        MergeError::RecycleTags { entry } => entry == id,
        MergeError::PlanConflict { plan, .. } => plan == id,
        MergeError::SnapshotMalformed { entry } => entry == id,
        MergeError::SnapshotMismatch { entry } => entry == id,
    }
}

/// What stops a joining names the row that did.
pub proof fn stopped_joinings_name_the_row(
    e: RecycleView,
    p: PlanView,
    became: Seq<(i64, i64)>,
    source: i64,
    target: i64,
)
    ensures
        entry_moved(e, source, target) matches Err(x) ==> names_row(x, e.id) && e.artist_id
            == source,
        plan_mapped(p, became, source) matches Err(x) ==> names_row(x, p.id) && p.artist_id
            == source,
{
}

/// Counts stop at what they can hold.
pub proof fn counts_stop_at_their_limit(n: u64, more: int)
    requires
        more >= 0,
    ensures
        added(n, more) >= n,
        n + more <= u64::MAX ==> added(n, more) == n + more,
        n + more > u64::MAX ==> added(n, more) == u64::MAX,
{
}

/// Where items have been given to another artist, every item that is still with the first was
/// there from the start and has not had its turn; the other tables of the artist are untouched.
proof fn lemma_items_given(
    m: Migration,
    rows: Seq<ItemView>,
    source: i64,
    target: i64,
    root: Seq<char>,
    real_root: Seq<char>,
)
    requires
        source != target,
    ensures
        ({
            let step = |s: Migration, i: ItemView|
                item_placed(s, i.id, real_path(i, root, real_root), Some(target));
            let r = folded(m, rows, step);
            &&& forall|k: int|
                0 <= k < r.library.items.len() && (#[trigger] r.library.items[k]).artist_id
                    == source ==> (exists|o: int|
                    0 <= o < m.library.items.len() && (#[trigger] m.library.items[o]).id
                        == r.library.items[k].id && m.library.items[o].artist_id == source) && (
                forall|j: int|
                    0 <= j < rows.len() ==> (#[trigger] rows[j]).id != r.library.items[k].id)
            &&& r.library.tags == m.library.tags
            &&& r.library.artists == m.library.artists
            &&& r.library.plans == m.library.plans
            &&& r.library.recycled == m.library.recycled
            &&& r.library.scan_seen == m.library.scan_seen
            &&& r.library.scan_candidates == m.library.scan_candidates
            &&& r.library.scan_states == m.library.scan_states
            &&& r.counts.merged_artists == m.counts.merged_artists
        }),
    decreases rows.len(),
{
    let step = |s: Migration, i: ItemView|
        item_placed(s, i.id, real_path(i, root, real_root), Some(target));
    if rows.len() > 0 {
        let d = rows.drop_last();
        lemma_items_given(m, d, source, target, root, real_root);
        let s = folded(m, d, step);
        let row = rows.last();
        let r = folded(m, rows, step);
        assert(r == step(s, row));
        lemma_item_placed(s, row.id, real_path(row, root, real_root), source, target);
        assert forall|k: int|
            0 <= k < r.library.items.len() && (#[trigger] r.library.items[k]).artist_id
                == source implies (exists|o: int|
            0 <= o < m.library.items.len() && (#[trigger] m.library.items[o]).id
                == r.library.items[k].id && m.library.items[o].artist_id == source) && (forall|
            j: int,
        |
            0 <= j < rows.len() ==> (#[trigger] rows[j]).id != r.library.items[k].id) by {
            let it = r.library.items[k];
            assert(s.library.items.contains(it));
            let n = s.library.items.index_of(it);
            assert(s.library.items[n].artist_id == source);
            assert forall|j: int| 0 <= j < rows.len() implies (#[trigger] rows[j]).id != it.id by {
                if j < d.len() {
                    assert(d[j] == rows[j]);
                }
            }
        }
    }
}

/// An item that has been given its place is no longer with its first artist, and one that still
/// is has not changed.
proof fn lemma_item_placed(s: Migration, item: i64, path: Seq<char>, source: i64, target: i64)
    requires
        source != target,
    ensures
        ({
            let r = item_placed(s, item, path, Some(target));
            &&& forall|k: int|
                0 <= k < r.library.items.len() && (#[trigger] r.library.items[k]).artist_id
                    == source ==> s.library.items.contains(r.library.items[k])
                    && r.library.items[k].id != item
            &&& r.library.tags == s.library.tags
            &&& r.library.artists == s.library.artists
            &&& r.library.plans == s.library.plans
            &&& r.library.recycled == s.library.recycled
            &&& r.library.scan_seen == s.library.scan_seen
            &&& r.library.scan_candidates == s.library.scan_candidates
            &&& r.library.scan_states == s.library.scan_states
            &&& r.counts.merged_artists == s.counts.merged_artists
        }),
{
    let items = s.library.items;
    let r = item_placed(s, item, path, Some(target));
    let wanted = |i: ItemView| i.path == path && i.id != item;
    match first(items, wanted) {
        Some(other) => {
            let both = items_joined(items, item, other.id, Some(target));
            let stays = |i: ItemView| i.id != item;
            crate::tables::lemma_kept(both, stays);
            assert forall|k: int|
                0 <= k < r.library.items.len() && (#[trigger] r.library.items[k]).artist_id
                    == source implies items.contains(r.library.items[k])
                && r.library.items[k].id != item by {
                let it = r.library.items[k];
                assert(kept(both, stays)[k] == it);
                assert(both.contains(it));
                let n = both.index_of(it);
                assert(items[n].id != other.id);
                assert(it == items[n]);
            }
        },
        None => {
            assert forall|k: int|
                0 <= k < r.library.items.len() && (#[trigger] r.library.items[k]).artist_id
                    == source implies items.contains(r.library.items[k])
                && r.library.items[k].id != item by {
                assert(r.library.items[k] == items[k]);
            }
        },
    }
}

/// Where an artist has been merged into another, nothing is with the first any more: neither
/// items nor tags, links, references, suggestions or documents, neither scans nor moves, and the
/// artist is gone. What scans have seen is kept, and one more merged artist is counted.
pub proof fn merged_artists_leave_nothing(
    m: Migration,
    source: i64,
    target: i64,
    root: Seq<char>,
    real_root: Seq<char>,
    comparable: bool,
)
    requires
        source != target,
        artist_merged(m, source, target, root, real_root, comparable) is Ok,
    ensures
        ({
            let r = artist_merged(m, source, target, root, real_root, comparable)->Ok_0;
            let l = r.library;
            &&& r.counts.merged_artists == if m.counts.merged_artists == u64::MAX {
                u64::MAX as int
            } else {
                m.counts.merged_artists + 1
            }
            &&& forall|i: int| 0 <= i < l.artists.len() ==> (#[trigger] l.artists[i]).id != source
            &&& forall|i: int| 0 <= i < l.items.len() ==> (#[trigger] l.items[i]).artist_id
                != source
            &&& forall|i: int| 0 <= i < l.tags.len() ==> (#[trigger] l.tags[i]).artist_id != source
            &&& forall|i: int|
                0 <= i < l.profile_links.len() ==> (#[trigger] l.profile_links[i]).artist_id
                    != source
            &&& forall|i: int|
                0 <= i < l.references.len() ==> (#[trigger] l.references[i]).artist_id != source
            &&& forall|i: int|
                0 <= i < l.suggestions.len() ==> (#[trigger] l.suggestions[i]).artist_id != Some(
                    source,
                )
            &&& forall|i: int|
                0 <= i < l.documents.len() ==> (#[trigger] l.documents[i]).artist_id != source
            &&& forall|i: int|
                0 <= i < l.scan_seen.len() ==> (#[trigger] l.scan_seen[i]).artist_id != Some(source)
            &&& forall|i: int|
                0 <= i < l.scan_candidates.len() ==> (#[trigger] l.scan_candidates[i]).artist_id
                    != Some(source)
            &&& forall|i: int|
                0 <= i < l.move_candidates.len() ==> (#[trigger] l.move_candidates[i]).artist_id
                    != Some(source)
            &&& forall|i: int|
                0 <= i < l.move_history.len() ==> (#[trigger] l.move_history[i]).artist_id != Some(
                    source,
                )
            &&& forall|i: int|
                0 <= i < l.scan_states.len() ==> (#[trigger] l.scan_states[i]).artist_id != Some(
                    source,
                )
            &&& forall|i: int|
                0 <= i < l.recycled.len() && (#[trigger] l.recycled[i]).active
                    ==> l.recycled[i].artist_id != source
            &&& !comparable || plans_are_distinct(m.library.plans) ==> forall|i: int|
                0 <= i < l.plans.len() ==> (#[trigger] l.plans[i]).artist_id != source
            &&& l.scan_seen.len() == m.library.scan_seen.len()
            &&& l.scan_candidates.len() == m.library.scan_candidates.len()
            &&& l.scan_states.len() == m.library.scan_states.len()
            &&& l.recycled.len() == m.library.recycled.len()
        }),
{
    let b = belongings_given(m, source, target, root, real_root)->Ok_0;
    let l = b.library;
    let t = tags_folded(m.library.tags, m.library.item_tags, source, target);
    let plans = plans_mapped(m.library.plans, t.became, source)->Ok_0;
    let bin = recycled_mapped(m.library.recycled, t.became, source)->Ok_0;
    let start = Migration {
        library: LibraryView {
            tags: t.tags,
            item_tags: t.item_tags,
            plans,
            recycled: bin,
            ..m.library
        },
        counts: m.counts,
    };
    let of_source = |i: ItemView| i.artist_id == source;
    let going = kept(start.library.items, of_source);
    lemma_items_given(start, going, source, target, root, real_root);
    folded_tags_leave_nothing(m.library.tags, m.library.item_tags, source, target);
    crate::tables::lemma_kept(start.library.items, of_source);
    let r = artist_merged(m, source, target, root, real_root, comparable)->Ok_0;
    assert forall|i: int| 0 <= i < r.library.items.len() implies (
    #[trigger] r.library.items[i]).artist_id != source by {
        let it = r.library.items[i];
        assert(it == l.items[i]);
        if it.artist_id == source {
            let o = choose|o: int|
                0 <= o < start.library.items.len() && (#[trigger] start.library.items[o]).id
                    == it.id && start.library.items[o].artist_id == source;
            assert(going.contains(start.library.items[o]));
            let j = going.index_of(start.library.items[o]);
            assert(going[j].id != it.id);
        }
    }
    plans_change_in_their_tags_alone(m.library.plans, t.became, source);
    let moved = plans_moved(l.plans, source, target, comparable)->Ok_0;
    if comparable && plans_are_distinct(m.library.plans) {
        assert(plans_are_distinct(l.plans)) by {
            assert forall|i: int, j: int| 0 <= i < j < l.plans.len() implies (
            #[trigger] l.plans[i]).id != (#[trigger] l.plans[j]).id && !(l.plans[i].artist_id
                == l.plans[j].artist_id && l.plans[i].source_folder == l.plans[j].source_folder) by {
                assert(m.library.plans[i].id != m.library.plans[j].id);
            }
        }
        crate::artist_merge::plans_go_or_conflict(l.plans, source, target);
        assert forall|i: int| 0 <= i < moved.len() implies (#[trigger] moved[i]).artist_id
            != source by {
            assert(moved.contains(moved[i]));
        }
    }
    let shift = artist_shift(source, target);
    let (references, matched) = references_moved(
        l.references,
        l.suggestions,
        kept(l.references, concerns_reference(shift)),
        shift,
    );
    assert forall|i: int| 0 <= i < r.library.references.len() implies (
    #[trigger] r.library.references[i]).artist_id != source by {
        moved_references_leave_nothing(l.references, l.suggestions, shift, i);
    }
    assert forall|i: int| 0 <= i < r.library.suggestions.len() implies (
    #[trigger] r.library.suggestions[i]).artist_id != Some(source) by {
        moved_suggestions_leave_nothing(matched, shift, i);
    }
    assert forall|i: int| 0 <= i < r.library.profile_links.len() implies (
    #[trigger] r.library.profile_links[i]).artist_id != source by {
        moved_links_leave_nothing(l.profile_links, source, target, i);
    }
    assert forall|i: int| 0 <= i < r.library.documents.len() implies (
    #[trigger] r.library.documents[i]).artist_id != source by {
        moved_documents_leave_nothing(l.documents, source, target, i);
    }
    assert forall|i: int| 0 <= i < r.library.artists.len() implies (
    #[trigger] r.library.artists[i]).id != source by {
        joined_artists_leave_nothing(l.artists, l.scan_seen, l.move_history, source, target, i);
    }
    recycled_entries_go_over(l.recycled, source, target);
    lemma_bin_mapped(m.library.recycled, t.became, source);
}

/// Entries of the bin stay as many when their tags are mapped.
proof fn lemma_bin_mapped(entries: Seq<RecycleView>, became: Seq<(i64, i64)>, artist: i64)
    ensures
        recycled_mapped(entries, became, artist) matches Ok(rows) ==> rows.len() == entries.len(),
    decreases entries.len(),
{
    if entries.len() > 0 && became.len() > 0 {
        lemma_bin_mapped(entries.drop_last(), became, artist);
    }
}

}
