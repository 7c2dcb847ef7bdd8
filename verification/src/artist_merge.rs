//! Merging an artist into another that stands for the same folder.

use vstd::prelude::*;
use crate::artist_profile_links::{ArtistProfileLink, LinkView};
use crate::id_list::{id_list_text, remap_stored, remapped, serde_id_list, Remap};
use crate::item_merge::{
    add_tags, concerns_reference, concerns_suggestion, item_merged, lemma_plain_tags,
    merge_item_into, references_moved, repoint, repoint_artist_references,
    repoint_artist_suggestions, repointed, suggestions_moved, with_tags, Shift, Side,
};
use crate::json::{Json, JsonTree};
use crate::library_tables::{
    ArtistRow, ArtistView, DocumentRow, DocumentView, ItemRow, ItemTag, ItemView, Library,
    LibraryView, MoveRow, MoveView, PlanRow, PlanView, RecycleRow, RecycleView, ScanRow, ScanState,
    ScanView, TagRow, TagView,
};
use crate::plan_columns::{plans_agree, same_cells};
use crate::tables::{
    find_row, first, folded, keep_rows, kept, lemma_tried_stops, map_rows, tried, views,
};
use crate::text::{
    chars_of, decimal_int, has_prefix, push_decimal_int, same_text, starts_with, sub_chars, text_of,
};

verus! {

/// Why artists cannot be merged.
#[derive(Clone, Copy, PartialEq, Eq, Debug, Structural)]
pub enum MergeError {
    /// The chosen tags of a plan cannot be read.
    PlanTags {
        /// The plan.
        plan: i64,
    },
    /// The tags of a deleted item cannot be read.
    RecycleTags {
        /// The entry.
        entry: i64,
    },
    /// Two plans for one folder differ.
    PlanConflict {
        /// The plan of the merged artist.
        plan: i64,
        /// The merged artist.
        artist: i64,
        /// The plan of the kept artist.
        other: i64,
        /// The kept artist.
        target: i64,
    },
    /// The copy of a deleted item cannot be read.
    SnapshotMalformed {
        /// The entry.
        entry: i64,
    },
    /// The copy of a deleted item names another artist than its entry.
    SnapshotMismatch {
        /// The entry.
        entry: i64,
    },
}

/// The plan with an id.
pub open spec fn plan_with(id: i64) -> spec_fn(PlanView) -> bool {
    |p: PlanView| p.id == id
}

/// The source folder of the plan with an id.
pub open spec fn folder_of(plans: Seq<PlanView>, id: i64) -> Seq<char> {
    match first(plans, plan_with(id)) {
        Some(p) => p.source_folder,
        None => Seq::empty(),
    }
}

impl MergeError {
    /// The error in words. The plans are those among which it came up.
    pub open spec fn told(self, plans: Seq<PlanView>) -> Seq<char> {
        match self {
            MergeError::PlanTags { plan } => "parse selected_tag_ids of folder plan "@
                + decimal_int(plan as int),
            MergeError::RecycleTags { entry } => "parse tag_ids_snapshot of recycle entry "@
                + decimal_int(entry as int),
            MergeError::PlanConflict { plan, artist, other, target } =>
                "folder plan conflict: plan "@ + decimal_int(plan as int) + " of artist "@
                + decimal_int(artist as int) + " and plan "@ + decimal_int(other as int)
                + " of artist "@ + decimal_int(target as int) + " share source folder "@
                + folder_of(plans, plan)
                + " but differ in semantic fields; refusing to merge"@,
            MergeError::SnapshotMalformed { entry } => "parse item_snapshot of recycle entry "@
                + decimal_int(entry as int),
            MergeError::SnapshotMismatch { entry } => "recycle entry "@ + decimal_int(
                entry as int,
            ) + " item_snapshot artist does not match its record"@,
        }
    }

    /// The error in words. The plans are those among which it came up.
    pub fn message(self, plans: &Vec<PlanRow>) -> (r: String)
        ensures
            r@ == self.told(views(plans@)),
    {
        let mut out = String::new();
        match self {
            MergeError::PlanTags { plan } => {
                out.append("parse selected_tag_ids of folder plan ");
                push_decimal_int(plan, &mut out);
            },
            MergeError::RecycleTags { entry } => {
                out.append("parse tag_ids_snapshot of recycle entry ");
                push_decimal_int(entry, &mut out);
            },
            MergeError::PlanConflict { plan, artist, other, target } => {
                out.append("folder plan conflict: plan ");
                push_decimal_int(plan, &mut out);
                out.append(" of artist ");
                push_decimal_int(artist, &mut out);
                out.append(" and plan ");
                push_decimal_int(other, &mut out);
                out.append(" of artist ");
                push_decimal_int(target, &mut out);
                out.append(" share source folder ");
                let ghost model = plan_with(plan);
                let wanted = |p: &PlanRow| -> (b: bool)
                    ensures
                        b == model(p@),
                    { p.id == plan };
                if let Some(i) = find_row(plans, wanted, Ghost(model)) {
                    out.append(&plans[i].source_folder);
                }
                out.append(" but differ in semantic fields; refusing to merge");
            },
            MergeError::SnapshotMalformed { entry } => {
                out.append("parse item_snapshot of recycle entry ");
                push_decimal_int(entry, &mut out);
            },
            MergeError::SnapshotMismatch { entry } => {
                out.append("recycle entry ");
                push_decimal_int(entry, &mut out);
                out.append(" item_snapshot artist does not match its record");
            },
        }
        assert(out@ =~= self.told(views(plans@)));
        out
    }
}

/// How much a migration has done. The numbers stop at the largest of their type.
#[derive(Clone, Copy, PartialEq, Eq, Debug, Structural)]
pub struct Counts {
    /// How many rows were changed.
    pub updated: u64,
    /// How many artists were merged.
    pub merged_artists: u64,
    /// How many items were merged.
    pub merged_items: u64,
    /// How many documents were merged.
    pub merged_link_documents: u64,
}

/// A number with another added, up to the largest.
pub open spec fn added(n: u64, more: int) -> u64 {
    if n + more > u64::MAX {
        u64::MAX
    } else {
        (n + more) as u64
    }
}

/// A number with another added, up to the largest.
pub fn add_count(n: u64, more: usize) -> (r: u64)
    ensures
        r == added(n, more as int),
{
    let limit: u64 = u64::MAX - n;
    if more as u64 > limit {
        u64::MAX
    } else {
        n + more as u64
    }
}

/// Whether a path is a root or lies below it, letter by letter.
pub open spec fn under_root(path: Seq<char>, root: Seq<char>) -> bool {
    path == root || starts_with(path, root + seq!['/'])
}

/// Whether a path is a root or lies below it.
pub fn is_under_root(path: &str, root: &str) -> (r: bool)
    ensures
        r == under_root(path@, root@),
{
    if same_text(path, root) {
        return true;
    }
    let mut prefix = chars_of(root);
    prefix.push('/');
    assert(prefix@ =~= root@ + seq!['/']);
    has_prefix(&chars_of(path), &prefix)
}

/// A path with another root.
pub open spec fn rebased(path: Seq<char>, root: Seq<char>, real_root: Seq<char>) -> Seq<char> {
    real_root + path.skip(root.len() as int)
}

/// A path with another root.
pub fn rebase(path: &str, root: &str, real_root: &str) -> (r: String)
    requires
        under_root(path@, root@),
    ensures
        r@ == rebased(path@, root@, real_root@),
{
    let p = chars_of(path);
    let n = chars_of(root).len();
    proof {
        if path@ != root@ {
            assert((root@ + seq!['/']).len() == root@.len() + 1);
        }
    }
    let mut out = real_root.to_owned();
    out.append(&text_of(&sub_chars(&p, n, p.len())));
    assert(p@.subrange(n as int, p@.len() as int) =~= p@.skip(n as int));
    out
}

/// The tags, the tags of items, and what each tag has become.
#[verifier::ext_equal]
pub struct FoldedTags {
    /// The tags.
    pub tags: Seq<TagView>,
    /// The tags of items.
    pub item_tags: Seq<ItemTag>,
    /// Pairs of a tag and what it has become.
    pub became: Seq<(i64, i64)>,
}

/// The rows of a tag for another tag.
pub open spec fn tag_rows_for(rows: Seq<ItemTag>, tag: i64, target: i64) -> Seq<ItemTag> {
    kept(rows, |t: ItemTag| t.tag_id == tag).map_values(
        |t: ItemTag| ItemTag { item_id: t.item_id, tag_id: target },
    )
}

/// What becomes of one tag when its artist is merged: where the other artist has
/// a tag of that name, its items get that tag and it is dropped; else it becomes
/// a tag of the other artist.
pub open spec fn tag_folded(s: FoldedTags, tag: TagView, target: i64) -> FoldedTags {
    match first(s.tags, |t: TagView| t.artist_id == target && t.name == tag.name) {
        Some(other) => FoldedTags {
            tags: kept(s.tags, |t: TagView| t.id != tag.id),
            item_tags: kept(
                with_tags(s.item_tags, tag_rows_for(s.item_tags, tag.id, other.id)),
                |t: ItemTag| t.tag_id != tag.id,
            ),
            became: s.became.push((tag.id, other.id)),
        },
        None => FoldedTags {
            tags: s.tags.map_values(
                |t: TagView|
                    if t.id == tag.id {
                        TagView { artist_id: target, ..t }
                    } else {
                        t
                    },
            ),
            item_tags: s.item_tags,
            became: s.became.push((tag.id, tag.id)),
        },
    }
}

/// What becomes of the tags when an artist is merged.
pub open spec fn tags_folded(tags: Seq<TagView>, item_tags: Seq<ItemTag>, source: i64, target: i64) -> FoldedTags {
    folded(
        FoldedTags { tags, item_tags, became: Seq::empty() },
        kept(tags, |t: TagView| t.artist_id == source),
        |s: FoldedTags, t: TagView| tag_folded(s, t, target),
    )
}

/// Gives the items of a tag another tag and drops the tag.
fn replace_tag(item_tags: &mut Vec<ItemTag>, tag: i64, target: i64)
    ensures
        final(item_tags)@ == kept(
            with_tags(old(item_tags)@, tag_rows_for(old(item_tags)@, tag, target)),
            |t: ItemTag| t.tag_id != tag,
        ),
{
    let ghost before = item_tags@;
    let ghost wanted = |t: ItemTag| t.tag_id == tag;
    let ghost moved = |t: ItemTag| ItemTag { item_id: t.item_id, tag_id: target };
    let mut more: Vec<ItemTag> = Vec::new();
    let mut i: usize = 0;
    assert(more@ =~= kept(before.take(0), wanted).map_values(moved));
    while i < item_tags.len()
        invariant
            i <= item_tags@.len(),
            item_tags@ == before,
            wanted == (|t: ItemTag| t.tag_id == tag),
            moved == (|t: ItemTag| ItemTag { item_id: t.item_id, tag_id: target }),
            more@ == kept(before.take(i as int), wanted).map_values(moved),
        decreases item_tags@.len() - i,
    {
        let ghost now = before.take(i as int + 1);
        assert(now.drop_last() =~= before.take(i as int));
        assert(now.last() == before[i as int]);
        if item_tags[i].tag_id == tag {
            more.push(ItemTag { item_id: item_tags[i].item_id, tag_id: target });
            assert(more@ =~= kept(now, wanted).map_values(moved));
        }
        i += 1;
    }
    assert(before.take(before.len() as int) =~= before);
    add_tags(item_tags, &more);
    let ghost model = |t: ItemTag| t.tag_id != tag;
    let stays = |t: &ItemTag| -> (b: bool)
        ensures
            b == model(t@),
        { t.tag_id != tag };
    proof {
        lemma_plain_tags(item_tags@);
    }
    keep_rows(item_tags, stays, Ghost(model));
    proof {
        lemma_plain_tags(item_tags@);
    }
}

/// Folds one tag into the tags of another artist. What it has become comes back.
fn fold_tag(tags: &mut Vec<TagRow>, item_tags: &mut Vec<ItemTag>, tag: &TagRow, target: i64) -> (r:
    i64)
    ensures
        forall|became: Seq<(i64, i64)>| #[trigger]
            tag_folded(
                FoldedTags { tags: views(old(tags)@), item_tags: old(item_tags)@, became },
                tag@,
                target,
            ) == (FoldedTags {
                tags: views(final(tags)@),
                item_tags: final(item_tags)@,
                became: became.push((tag.id, r)),
            }),
{
    let ghost model = |t: TagView| t.artist_id == target && t.name == tag@.name;
    let wanted = |t: &TagRow| -> (b: bool)
        ensures
            b == model(t@),
        { t.artist_id == target && same_text(&t.name, &tag.name) };
    let tag_id: i64 = tag.id;
    match find_row(tags, wanted, Ghost(model)) {
        Some(i) => {
            let other: i64 = tags[i].id;
            replace_tag(item_tags, tag_id, other);
            let ghost model = |t: TagView| t.id != tag_id;
            let stays = |t: &TagRow| -> (b: bool)
                ensures
                    b == model(t@),
                { t.id != tag_id };
            keep_rows(tags, stays, Ghost(model));
            other
        },
        None => {
            let ghost model = |t: TagView|
                if t.id == tag_id {
                    TagView { artist_id: target, ..t }
                } else {
                    t
                };
            let change = |t: &TagRow| -> (o: TagRow)
                ensures
                    o@ == model(t@),
                {
                    let mut row = t.duplicate();
                    if t.id == tag_id {
                        row.artist_id = target;
                    }
                    row
                };
            *tags = map_rows(tags, change, Ghost(model));
            tag_id
        },
    }
}

/// Folds the tags of an artist into those of another. Pairs of a tag and what it
/// has become come back.
pub fn merge_artist_tags(
    tags: &mut Vec<TagRow>,
    item_tags: &mut Vec<ItemTag>,
    source: i64,
    target: i64,
) -> (r: Vec<(i64, i64)>)
    ensures
        tags_folded(views(old(tags)@), old(item_tags)@, source, target) == (FoldedTags {
            tags: views(final(tags)@),
            item_tags: final(item_tags)@,
            became: r@,
        }),
{
    let ghost all = views(tags@);
    let ghost wanted = |t: TagView| t.artist_id == source;
    let ghost step = |s: FoldedTags, t: TagView| tag_folded(s, t, target);
    let ghost start = FoldedTags { tags: all, item_tags: item_tags@, became: Seq::empty() };
    let ghost same = |t: TagView| t;
    let copy = |t: &TagRow| -> (o: TagRow)
        ensures
            o@ == same(t@),
        { t.duplicate() };
    let mut rows = map_rows(tags, copy, Ghost(same));
    assert(views(rows@) =~= all);
    let is_wanted = |t: &TagRow| -> (b: bool)
        ensures
            b == wanted(t@),
        { t.artist_id == source };
    keep_rows(&mut rows, is_wanted, Ghost(wanted));
    let ghost selected = views(rows@);
    let mut became: Vec<(i64, i64)> = Vec::new();
    let mut i: usize = 0;
    assert(selected.take(0) =~= Seq::<TagView>::empty());
    assert(became@ =~= Seq::<(i64, i64)>::empty());
    while i < rows.len()
        invariant
            i <= rows@.len(),
            selected == views(rows@),
            step == (|s: FoldedTags, t: TagView| tag_folded(s, t, target)),
            folded(start, selected.take(i as int), step) == (FoldedTags {
                tags: views(tags@),
                item_tags: item_tags@,
                became: became@,
            }),
        decreases rows@.len() - i,
    {
        assert(selected.take(i as int + 1).drop_last() =~= selected.take(i as int));
        assert(selected.take(i as int + 1).last() == rows@[i as int]@);
        let tag_id: i64 = rows[i].id;
        let n = fold_tag(tags, item_tags, &rows[i], target);
        became.push((tag_id, n));
        i += 1;
    }
    assert(selected.take(selected.len() as int) =~= selected);
    became
}

/// A stored list of tags with every tag replaced by what it has become.
pub open spec fn tag_list_mapped(raw: Seq<char>, became: Seq<(i64, i64)>) -> Option<Seq<char>> {
    match serde_id_list(raw) {
        None => None,
        Some(ids) => Some(id_list_text(remapped(ids, became))),
    }
}

/// A stored list of tags with every tag replaced by what it has become.
fn map_tag_list(raw: &str, became: &Vec<(i64, i64)>) -> (r: Option<String>)
    ensures
        match r {
            Some(t) => tag_list_mapped(raw@, became@) == Some(t@),
            None => tag_list_mapped(raw@, became@) is None,
        },
{
    match remap_stored(raw, became) {
        Remap::Malformed => None,
        Remap::Unchanged => Some(raw.to_owned()),
        Remap::Changed(t) => Some(t),
    }
}

/// One plan with its chosen tags replaced, where it is one of the artist.
pub open spec fn plan_mapped(p: PlanView, became: Seq<(i64, i64)>, artist: i64) -> Result<
    PlanView,
    MergeError,
> {
    match p.selected_tag_ids {
        Some(raw) => if p.artist_id == artist {
            match tag_list_mapped(raw, became) {
                Some(t) => Ok(PlanView { selected_tag_ids: Some(t), ..p }),
                None => Err(MergeError::PlanTags { plan: p.id }),
            }
        } else {
            Ok(p)
        },
        None => Ok(p),
    }
}

/// The plans with the chosen tags of an artist's plans replaced. The plans of
/// others are not read.
pub open spec fn plans_mapped(plans: Seq<PlanView>, became: Seq<(i64, i64)>, artist: i64) -> Result<
    Seq<PlanView>,
    MergeError,
> {
    if became.len() == 0 {
        Ok(plans)
    } else {
        tried(
            Seq::empty(),
            plans,
            |done: Seq<PlanView>, p: PlanView|
                match plan_mapped(p, became, artist) {
                    Ok(q) => Ok(done.push(q)),
                    Err(e) => Err(e),
                },
        )
    }
}

/// Whether an outcome on rows is that of a model: the rows change only on
/// success.
pub open spec fn rows_outcome<V>(
    r: Result<(), MergeError>,
    before: Seq<V>,
    after: Seq<V>,
    model: Result<Seq<V>, MergeError>,
) -> bool {
    match model {
        Ok(rows) => r is Ok && after == rows,
        Err(e) => r is Err && r->Err_0 == e && after == before,
    }
}

/// Replaces the chosen tags in the plans of an artist.
pub fn remap_folder_plan_tag_ids(
    plans: &mut Vec<PlanRow>,
    became: &Vec<(i64, i64)>,
    artist: i64,
) -> (r: Result<(), MergeError>)
    ensures
        rows_outcome(
            r,
            views(old(plans)@),
            views(final(plans)@),
            plans_mapped(views(old(plans)@), became@, artist),
        ),
{
    if became.len() == 0 {
        return Ok(());
    }
    let ghost all = views(plans@);
    let ghost step = |done: Seq<PlanView>, p: PlanView|
        match plan_mapped(p, became@, artist) {
            Ok(q) => Ok(done.push(q)),
            Err(e) => Err(e),
        };
    let mut out: Vec<PlanRow> = Vec::new();
    let mut i: usize = 0;
    assert(all.take(0) =~= Seq::<PlanView>::empty());
    assert(views(out@) =~= Seq::<PlanView>::empty());
    while i < plans.len()
        invariant
            i <= plans@.len(),
            all == views(plans@),
            all == views(old(plans)@),
            became@.len() > 0,
            step == (|done: Seq<PlanView>, p: PlanView|
                match plan_mapped(p, became@, artist) {
                    Ok(q) => Ok(done.push(q)),
                    Err(e) => Err(e),
                }),
            tried(Seq::empty(), all.take(i as int), step) == Ok::<Seq<PlanView>, MergeError>(
                views(out@),
            ),
        decreases plans@.len() - i,
    {
        let ghost done = views(out@);
        proof {
            assert(all.take(i as int + 1).drop_last() =~= all.take(i as int));
            assert(all.take(i as int + 1).last() == plans@[i as int]@);
        }
        let mut row = plans[i].duplicate();
        if row.artist_id == artist {
            let mapped = match &row.selected_tag_ids {
                Some(raw) => match map_tag_list(raw, became) {
                    Some(t) => Some(t),
                    None => {
                        proof {
                            lemma_tried_stops(Seq::empty(), all, step, i as int + 1);
                        }
                        return Err(MergeError::PlanTags { plan: row.id });
                    },
                },
                None => None,
            };
            row.selected_tag_ids = mapped;
        }
        proof {
            assert(plan_mapped(plans@[i as int]@, became@, artist) == Ok::<PlanView, MergeError>(
                row@,
            ));
        }
        let ghost value = row@;
        out.push(row);
        assert(views(out@) =~= done.push(value));
        i += 1;
    }
    assert(all.take(all.len() as int) =~= all);
    *plans = out;
    Ok(())
}

/// One deleted item with its tags replaced, where it is one of the artist and
/// waits to be restored.
pub open spec fn entry_mapped(e: RecycleView, became: Seq<(i64, i64)>, artist: i64) -> Result<
    RecycleView,
    MergeError,
> {
    match e.tag_ids {
        Some(raw) => if e.artist_id == artist && e.active {
            match tag_list_mapped(raw, became) {
                Some(t) => Ok(RecycleView { tag_ids: Some(t), ..e }),
                None => Err(MergeError::RecycleTags { entry: e.id }),
            }
        } else {
            Ok(e)
        },
        None => Ok(e),
    }
}

/// The deleted items with the tags of an artist's items replaced.
pub open spec fn recycled_mapped(
    entries: Seq<RecycleView>,
    became: Seq<(i64, i64)>,
    artist: i64,
) -> Result<Seq<RecycleView>, MergeError> {
    if became.len() == 0 {
        Ok(entries)
    } else {
        tried(
            Seq::empty(),
            entries,
            |done: Seq<RecycleView>, e: RecycleView|
                match entry_mapped(e, became, artist) {
                    Ok(q) => Ok(done.push(q)),
                    Err(x) => Err(x),
                },
        )
    }
}

/// Replaces the tags in the deleted items of an artist.
pub fn remap_recycle_tag_ids(
    entries: &mut Vec<RecycleRow>,
    became: &Vec<(i64, i64)>,
    artist: i64,
) -> (r: Result<(), MergeError>)
    ensures
        rows_outcome(
            r,
            views(old(entries)@),
            views(final(entries)@),
            recycled_mapped(views(old(entries)@), became@, artist),
        ),
{
    if became.len() == 0 {
        return Ok(());
    }
    let ghost all = views(entries@);
    let ghost step = |done: Seq<RecycleView>, e: RecycleView|
        match entry_mapped(e, became@, artist) {
            Ok(q) => Ok(done.push(q)),
            Err(x) => Err(x),
        };
    let mut out: Vec<RecycleRow> = Vec::new();
    let mut i: usize = 0;
    assert(all.take(0) =~= Seq::<RecycleView>::empty());
    assert(views(out@) =~= Seq::<RecycleView>::empty());
    while i < entries.len()
        invariant
            i <= entries@.len(),
            all == views(entries@),
            all == views(old(entries)@),
            became@.len() > 0,
            step == (|done: Seq<RecycleView>, e: RecycleView|
                match entry_mapped(e, became@, artist) {
                    Ok(q) => Ok(done.push(q)),
                    Err(x) => Err(x),
                }),
            tried(Seq::empty(), all.take(i as int), step) == Ok::<Seq<RecycleView>, MergeError>(
                views(out@),
            ),
        decreases entries@.len() - i,
    {
        let ghost done = views(out@);
        proof {
            assert(all.take(i as int + 1).drop_last() =~= all.take(i as int));
            assert(all.take(i as int + 1).last() == entries@[i as int]@);
        }
        let mut row = entries[i].duplicate();
        if row.artist_id == artist && row.active {
            let mapped = match &row.tag_ids {
                Some(raw) => match map_tag_list(raw, became) {
                    Some(t) => Some(t),
                    None => {
                        proof {
                            lemma_tried_stops(Seq::empty(), all, step, i as int + 1);
                        }
                        return Err(MergeError::RecycleTags { entry: row.id });
                    },
                },
                None => None,
            };
            row.tag_ids = mapped;
        }
        proof {
            assert(entry_mapped(entries@[i as int]@, became@, artist) == Ok::<
                RecycleView,
                MergeError,
            >(row@));
        }
        let ghost value = row@;
        out.push(row);
        assert(views(out@) =~= done.push(value));
        i += 1;
    }
    assert(all.take(all.len() as int) =~= all);
    *entries = out;
    Ok(())
}

/// The plans when one of them goes to another artist: where that artist has a
/// plan for the folder that says the same, it is dropped.
pub open spec fn plan_moved(plans: Seq<PlanView>, row: PlanView, target: i64) -> Result<
    Seq<PlanView>,
    MergeError,
> {
    match first(
        plans,
        |p: PlanView| p.artist_id == target && p.source_folder == row.source_folder,
    ) {
        Some(other) => if plans_agree(row, other) {
            Ok(kept(plans, |p: PlanView| p.id != row.id))
        } else {
            Err(
                MergeError::PlanConflict {
                    plan: row.id,
                    artist: row.artist_id,
                    other: other.id,
                    target,
                },
            )
        },
        None => Ok(
            plans.map_values(
                |p: PlanView|
                    if p.id == row.id {
                        PlanView { artist_id: target, ..p }
                    } else {
                        p
                    },
            ),
        ),
    }
}

/// The plans when the plans of an artist go to another. Where the table holds
/// nothing to compare, they go as they are.
pub open spec fn plans_moved(plans: Seq<PlanView>, source: i64, target: i64, comparable: bool) -> Result<
    Seq<PlanView>,
    MergeError,
> {
    if !comparable {
        Ok(
            plans.map_values(
                |p: PlanView|
                    if p.artist_id == source {
                        PlanView { artist_id: target, ..p }
                    } else {
                        p
                    },
            ),
        )
    } else {
        tried(
            plans,
            kept(plans, |p: PlanView| p.artist_id == source),
            |s: Seq<PlanView>, p: PlanView| plan_moved(s, p, target),
        )
    }
}

/// Whether two optional texts are the same.
fn same_optional(a: &Option<String>, b: &Option<String>) -> (r: bool)
    ensures
        r == ((match a {
            Some(t) => Some(t@),
            None => None,
        }) == (match b {
            Some(t) => Some(t@),
            None => None,
        })),
{
    match (a, b) {
        (Some(x), Some(y)) => same_text(x, y),
        (None, None) => true,
        _ => false,
    }
}

/// Gives one plan to another artist. On failure nothing changes.
fn move_plan(plans: &mut Vec<PlanRow>, row: &PlanRow, target: i64) -> (r: Result<(), MergeError>)
    ensures
        rows_outcome(
            r,
            views(old(plans)@),
            views(final(plans)@),
            plan_moved(views(old(plans)@), row@, target),
        ),
{
    let ghost model = |p: PlanView| p.artist_id == target && p.source_folder == row@.source_folder;
    let wanted = |p: &PlanRow| -> (b: bool)
        ensures
            b == model(p@),
        { p.artist_id == target && same_text(&p.source_folder, &row.source_folder) };
    let plan_id: i64 = row.id;
    match find_row(plans, wanted, Ghost(model)) {
        Some(i) => {
            if same_cells(&row.fields, &plans[i].fields) && same_optional(
                &row.selected_tag_ids,
                &plans[i].selected_tag_ids,
            ) {
                let ghost model = |p: PlanView| p.id != plan_id;
                let stays = |p: &PlanRow| -> (b: bool)
                    ensures
                        b == model(p@),
                    { p.id != plan_id };
                keep_rows(plans, stays, Ghost(model));
                Ok(())
            } else {
                let artist: i64 = row.artist_id;
                Err(MergeError::PlanConflict { plan: plan_id, artist, other: plans[i].id, target })
            }
        },
        None => {
            let ghost model = |p: PlanView|
                if p.id == plan_id {
                    PlanView { artist_id: target, ..p }
                } else {
                    p
                };
            let change = |p: &PlanRow| -> (o: PlanRow)
                ensures
                    o@ == model(p@),
                {
                    let mut row = p.duplicate();
                    if p.id == plan_id {
                        row.artist_id = target;
                    }
                    row
                };
            *plans = map_rows(plans, change, Ghost(model));
            Ok(())
        },
    }
}

/// Gives the plans of an artist to another. A plan for a folder for which the
/// other artist has one is dropped where both agree, and refused where they do
/// not. After a refusal the plans are of no use: the caller keeps a copy.
pub fn merge_artist_folder_plans(
    plans: &mut Vec<PlanRow>,
    source: i64,
    target: i64,
    comparable: bool,
) -> (r: Result<(), MergeError>)
    ensures
        match plans_moved(views(old(plans)@), source, target, comparable) {
            Ok(rows) => r is Ok && views(final(plans)@) == rows,
            Err(e) => r is Err && r->Err_0 == e,
        },
{
    let ghost all = views(plans@);
    if !comparable {
        let ghost model = |p: PlanView|
            if p.artist_id == source {
                PlanView { artist_id: target, ..p }
            } else {
                p
            };
        let change = |p: &PlanRow| -> (o: PlanRow)
            ensures
                o@ == model(p@),
            {
                let mut row = p.duplicate();
                if p.artist_id == source {
                    row.artist_id = target;
                }
                row
            };
        *plans = map_rows(plans, change, Ghost(model));
        return Ok(());
    }
    let ghost wanted = |p: PlanView| p.artist_id == source;
    let ghost step = |s: Seq<PlanView>, p: PlanView| plan_moved(s, p, target);
    let ghost same = |p: PlanView| p;
    let copy = |p: &PlanRow| -> (o: PlanRow)
        ensures
            o@ == same(p@),
        { p.duplicate() };
    let mut rows = map_rows(plans, copy, Ghost(same));
    assert(views(rows@) =~= all);
    let is_wanted = |p: &PlanRow| -> (b: bool)
        ensures
            b == wanted(p@),
        { p.artist_id == source };
    keep_rows(&mut rows, is_wanted, Ghost(wanted));
    let ghost selected = views(rows@);
    let mut i: usize = 0;
    assert(selected.take(0) =~= Seq::<PlanView>::empty());
    while i < rows.len()
        invariant
            i <= rows@.len(),
            comparable,
            all == views(old(plans)@),
            selected == views(rows@),
            selected == kept(all, wanted),
            wanted == (|p: PlanView| p.artist_id == source),
            step == (|s: Seq<PlanView>, p: PlanView| plan_moved(s, p, target)),
            tried(all, selected.take(i as int), step) == Ok::<Seq<PlanView>, MergeError>(
                views(plans@),
            ),
        decreases rows@.len() - i,
    {
        proof {
            assert(selected.take(i as int + 1).drop_last() =~= selected.take(i as int));
            assert(selected.take(i as int + 1).last() == rows@[i as int]@);
        }
        match move_plan(plans, &rows[i], target) {
            Ok(()) => {},
            Err(e) => {
                proof {
                    lemma_tried_stops(all, selected, step, i as int + 1);
                }
                return Err(e);
            },
        }
        i += 1;
    }
    assert(selected.take(selected.len() as int) =~= selected);
    Ok(())
}

/// The links when one of them goes to another artist: where that artist has it
/// already, it is dropped.
pub open spec fn link_moved(links: Seq<LinkView>, row: LinkView, target: i64) -> Seq<LinkView> {
    if first(
        links,
        |l: LinkView| l.artist_id == target && l.kind == row.kind && l.url == row.url,
    ) is Some {
        kept(links, |l: LinkView| l.id != row.id)
    } else {
        links.map_values(
            |l: LinkView|
                if l.id == row.id {
                    LinkView { artist_id: target, ..l }
                } else {
                    l
                },
        )
    }
}

/// The links when the links of an artist go to another.
pub open spec fn links_moved(links: Seq<LinkView>, source: i64, target: i64) -> Seq<LinkView> {
    folded(
        links,
        kept(links, |l: LinkView| l.artist_id == source),
        |s: Seq<LinkView>, l: LinkView| link_moved(s, l, target),
    )
}

/// Gives one link to another artist.
fn move_link(links: &mut Vec<ArtistProfileLink>, row: &ArtistProfileLink, target: i64)
    ensures
        views(final(links)@) == link_moved(views(old(links)@), row@, target),
{
    let ghost model = |l: LinkView|
        l.artist_id == target && l.kind == row@.kind && l.url == row@.url;
    let wanted = |l: &ArtistProfileLink| -> (b: bool)
        ensures
            b == model(l@),
        { l.artist_id == target && l.kind == row.kind && same_text(&l.url, &row.url) };
    let link_id: i64 = row.id;
    if find_row(links, wanted, Ghost(model)).is_some() {
        let ghost model = |l: LinkView| l.id != link_id;
        let stays = |l: &ArtistProfileLink| -> (b: bool)
            ensures
                b == model(l@),
            { l.id != link_id };
        keep_rows(links, stays, Ghost(model));
    } else {
        let ghost model = |l: LinkView|
            if l.id == link_id {
                LinkView { artist_id: target, ..l }
            } else {
                l
            };
        let change = |l: &ArtistProfileLink| -> (o: ArtistProfileLink)
            ensures
                o@ == model(l@),
            {
                let mut row = l.duplicate();
                if l.id == link_id {
                    row.artist_id = target;
                }
                row
            };
        *links = map_rows(links, change, Ghost(model));
    }
}

/// Gives the links of an artist to another.
fn merge_links(links: &mut Vec<ArtistProfileLink>, source: i64, target: i64)
    ensures
        views(final(links)@) == links_moved(views(old(links)@), source, target),
{
    let ghost all = views(links@);
    let ghost wanted = |l: LinkView| l.artist_id == source;
    let ghost step = |s: Seq<LinkView>, l: LinkView| link_moved(s, l, target);
    let ghost same = |l: LinkView| l;
    let copy = |l: &ArtistProfileLink| -> (o: ArtistProfileLink)
        ensures
            o@ == same(l@),
        { l.duplicate() };
    let mut rows = map_rows(links, copy, Ghost(same));
    assert(views(rows@) =~= all);
    let is_wanted = |l: &ArtistProfileLink| -> (b: bool)
        ensures
            b == wanted(l@),
        { l.artist_id == source };
    keep_rows(&mut rows, is_wanted, Ghost(wanted));
    let ghost selected = views(rows@);
    let mut i: usize = 0;
    assert(selected.take(0) =~= Seq::<LinkView>::empty());
    while i < rows.len()
        invariant
            i <= rows@.len(),
            selected == views(rows@),
            step == (|s: Seq<LinkView>, l: LinkView| link_moved(s, l, target)),
            views(links@) == folded(all, selected.take(i as int), step),
        decreases rows@.len() - i,
    {
        assert(selected.take(i as int + 1).drop_last() =~= selected.take(i as int));
        assert(selected.take(i as int + 1).last() == rows@[i as int]@);
        move_link(links, &rows[i], target);
        i += 1;
    }
    assert(selected.take(selected.len() as int) =~= selected);
}

/// The documents when one of them goes to another artist: where that artist has
/// a document of the file already, it is dropped.
pub open spec fn document_moved(documents: Seq<DocumentView>, row: DocumentView, target: i64) -> Seq<
    DocumentView,
> {
    if first(
        documents,
        |d: DocumentView| d.artist_id == target && d.path == row.path && d.id != row.id,
    ) is Some {
        kept(documents, |d: DocumentView| d.id != row.id)
    } else {
        documents.map_values(
            |d: DocumentView|
                if d.id == row.id {
                    DocumentView { artist_id: target, ..d }
                } else {
                    d
                },
        )
    }
}

/// The documents when the documents of an artist go to another.
pub open spec fn artist_documents_moved(documents: Seq<DocumentView>, source: i64, target: i64) -> Seq<
    DocumentView,
> {
    folded(
        documents,
        kept(documents, |d: DocumentView| d.artist_id == source),
        |s: Seq<DocumentView>, d: DocumentView| document_moved(s, d, target),
    )
}

/// Gives one document to another artist.
fn move_document(documents: &mut Vec<DocumentRow>, row: &DocumentRow, target: i64)
    ensures
        views(final(documents)@) == document_moved(views(old(documents)@), row@, target),
{
    let ghost model = |d: DocumentView|
        d.artist_id == target && d.path == row@.path && d.id != row@.id;
    let wanted = |d: &DocumentRow| -> (b: bool)
        ensures
            b == model(d@),
        { d.artist_id == target && same_text(&d.path, &row.path) && d.id != row.id };
    let document_id: i64 = row.id;
    if find_row(documents, wanted, Ghost(model)).is_some() {
        let ghost model = |d: DocumentView| d.id != document_id;
        let stays = |d: &DocumentRow| -> (b: bool)
            ensures
                b == model(d@),
            { d.id != document_id };
        keep_rows(documents, stays, Ghost(model));
    } else {
        let ghost model = |d: DocumentView|
            if d.id == document_id {
                DocumentView { artist_id: target, ..d }
            } else {
                d
            };
        let change = |d: &DocumentRow| -> (o: DocumentRow)
            ensures
                o@ == model(d@),
            {
                let mut row = d.duplicate();
                if d.id == document_id {
                    row.artist_id = target;
                }
                row
            };
        *documents = map_rows(documents, change, Ghost(model));
    }
}

/// Gives the documents of an artist to another.
fn merge_documents(documents: &mut Vec<DocumentRow>, source: i64, target: i64)
    ensures
        views(final(documents)@) == artist_documents_moved(
            views(old(documents)@),
            source,
            target,
        ),
{
    let ghost all = views(documents@);
    let ghost wanted = |d: DocumentView| d.artist_id == source;
    let ghost step = |s: Seq<DocumentView>, d: DocumentView| document_moved(s, d, target);
    let ghost same = |d: DocumentView| d;
    let copy = |d: &DocumentRow| -> (o: DocumentRow)
        ensures
            o@ == same(d@),
        { d.duplicate() };
    let mut rows = map_rows(documents, copy, Ghost(same));
    assert(views(rows@) =~= all);
    let is_wanted = |d: &DocumentRow| -> (b: bool)
        ensures
            b == wanted(d@),
        { d.artist_id == source };
    keep_rows(&mut rows, is_wanted, Ghost(wanted));
    let ghost selected = views(rows@);
    let mut i: usize = 0;
    assert(selected.take(0) =~= Seq::<DocumentView>::empty());
    while i < rows.len()
        invariant
            i <= rows@.len(),
            selected == views(rows@),
            step == (|s: Seq<DocumentView>, d: DocumentView| document_moved(s, d, target)),
            views(documents@) == folded(all, selected.take(i as int), step),
        decreases rows@.len() - i,
    {
        assert(selected.take(i as int + 1).drop_last() =~= selected.take(i as int));
        assert(selected.take(i as int + 1).last() == rows@[i as int]@);
        move_document(documents, &rows[i], target);
        i += 1;
    }
    assert(selected.take(selected.len() as int) =~= selected);
}

/// One deleted item with another artist, where it is one of the artist and waits
/// to be restored: the entry and the copy of the item have to agree. Of the copy nothing
/// but the artist changes.
pub open spec fn entry_moved(e: RecycleView, source: i64, target: i64) -> Result<
    RecycleView,
    MergeError,
> {
    if e.artist_id == source && e.active {
        match e.snapshot {
            None => Err(MergeError::SnapshotMalformed { entry: e.id }),
            Some(copy) => if copy.get("artist_id"@) == Some(JsonTree::Int(source)) {
                Ok(
                    RecycleView {
                        artist_id: target,
                        snapshot: Some(copy.with("artist_id"@, JsonTree::Int(target))),
                        ..e
                    },
                )
            } else {
                Err(MergeError::SnapshotMismatch { entry: e.id })
            },
        }
    } else {
        Ok(e)
    }
}

/// The deleted items when those of an artist go to another. What was restored
/// stays as it is.
pub open spec fn recycled_moved(entries: Seq<RecycleView>, source: i64, target: i64) -> Result<
    Seq<RecycleView>,
    MergeError,
> {
    tried(
        Seq::empty(),
        entries,
        |done: Seq<RecycleView>, e: RecycleView|
            match entry_moved(e, source, target) {
                Ok(q) => Ok(done.push(q)),
                Err(x) => Err(x),
            },
    )
}

/// Gives the deleted items of an artist to another.
pub fn remap_recycle_entries_artist(entries: &mut Vec<RecycleRow>, source: i64, target: i64) -> (r:
    Result<(), MergeError>)
    ensures
        rows_outcome(
            r,
            views(old(entries)@),
            views(final(entries)@),
            recycled_moved(views(old(entries)@), source, target),
        ),
{
    let ghost all = views(entries@);
    let ghost step = |done: Seq<RecycleView>, e: RecycleView|
        match entry_moved(e, source, target) {
            Ok(q) => Ok(done.push(q)),
            Err(x) => Err(x),
        };
    let mut out: Vec<RecycleRow> = Vec::new();
    let mut i: usize = 0;
    assert(all.take(0) =~= Seq::<RecycleView>::empty());
    assert(views(out@) =~= Seq::<RecycleView>::empty());
    while i < entries.len()
        invariant
            i <= entries@.len(),
            all == views(entries@),
            all == views(old(entries)@),
            step == (|done: Seq<RecycleView>, e: RecycleView|
                match entry_moved(e, source, target) {
                    Ok(q) => Ok(done.push(q)),
                    Err(x) => Err(x),
                }),
            tried(Seq::empty(), all.take(i as int), step) == Ok::<Seq<RecycleView>, MergeError>(
                views(out@),
            ),
        decreases entries@.len() - i,
    {
        let ghost done = views(out@);
        proof {
            assert(all.take(i as int + 1).drop_last() =~= all.take(i as int));
            assert(all.take(i as int + 1).last() == entries@[i as int]@);
        }
        let mut row = entries[i].duplicate();
        if row.artist_id == source && row.active {
            let copy = match &row.snapshot {
                None => Err(MergeError::SnapshotMalformed { entry: row.id }),
                Some(copy) => match copy.get("artist_id") {
                    Some(Json::Int(a)) => if *a == source {
                        Ok(copy.with("artist_id", Json::Int(target)))
                    } else {
                        Err(MergeError::SnapshotMismatch { entry: row.id })
                    },
                    _ => Err(MergeError::SnapshotMismatch { entry: row.id }),
                },
            };
            match copy {
                Err(e) => {
                    proof {
                        lemma_tried_stops(Seq::empty(), all, step, i as int + 1);
                    }
                    return Err(e);
                },
                Ok(copy) => {
                    row.artist_id = target;
                    row.snapshot = Some(copy);
                },
            }
        }
        proof {
            assert(entry_moved(entries@[i as int]@, source, target) == Ok::<
                RecycleView,
                MergeError,
            >(row@));
        }
        let ghost value = row@;
        out.push(row);
        assert(views(out@) =~= done.push(value));
        i += 1;
    }
    assert(all.take(all.len() as int) =~= all);
    *entries = out;
    Ok(())
}

/// That an artist takes the place of another.
pub open spec fn artist_shift(source: i64, target: i64) -> Shift {
    Shift { side: Side::Artist, source, target }
}

/// What becomes of the records of an artist when it is merged into another:
/// links, references, suggestions, documents, scans and deleted items.
pub open spec fn relationships_merged(l: LibraryView, source: i64, target: i64) -> Result<
    LibraryView,
    MergeError,
> {
    let shift = artist_shift(source, target);
    let (references, matched) = references_moved(
        l.references,
        l.suggestions,
        kept(l.references, concerns_reference(shift)),
        shift,
    );
    match recycled_moved(l.recycled, source, target) {
        Err(e) => Err(e),
        Ok(recycled) => Ok(
            LibraryView {
                profile_links: links_moved(l.profile_links, source, target),
                references,
                suggestions: suggestions_moved(
                    matched,
                    kept(matched, concerns_suggestion(shift)),
                    shift,
                ),
                documents: artist_documents_moved(l.documents, source, target),
                scan_states: l.scan_states.map_values(
                    |s: ScanState|
                        ScanState { artist_id: repointed(s.artist_id, source, target) },
                ),
                recycled,
                ..l
            },
        ),
    }
}

/// Merges the records of an artist into another. After a refusal the library is
/// of no use: the caller keeps a copy.
pub fn merge_artist_relationships(library: &mut Library, source: i64, target: i64) -> (r: Result<
    (),
    MergeError,
>)
    ensures
        match relationships_merged(old(library)@, source, target) {
            Ok(l) => r is Ok && final(library)@ == l,
            Err(e) => r is Err && r->Err_0 == e,
        },
{
    let shift = Shift { side: Side::Artist, source, target };
    merge_links(&mut library.profile_links, source, target);
    repoint_artist_references(&mut library.references, &mut library.suggestions, shift);
    repoint_artist_suggestions(&mut library.suggestions, shift);
    merge_documents(&mut library.documents, source, target);
    let ghost model = |s: ScanState|
        ScanState { artist_id: repointed(s.artist_id, source, target) };
    let change = |s: &ScanState| -> (o: ScanState)
        ensures
            o@ == model(s@),
        { ScanState { artist_id: repoint(s.artist_id, source, target) } };
    library.scan_states = map_rows(&library.scan_states, change, Ghost(model));
    remap_recycle_entries_artist(&mut library.recycled, source, target)
}

/// A library and how much was done to it.
#[verifier::ext_equal]
pub struct Migration {
    /// The library.
    pub library: LibraryView,
    /// How much was done.
    pub counts: Counts,
}

/// What giving an item a new path leaves, and a new artist where one is given:
/// where another item has the path already, the item is merged into it.
pub open spec fn item_placed(m: Migration, item: i64, path: Seq<char>, artist: Option<i64>) -> Migration {
    let l = m.library;
    match first(l.items, |i: ItemView| i.path == path && i.id != item) {
        Some(other) => {
            let joined = item_merged(l, item, other.id, artist);
            Migration {
                library: LibraryView {
                    items: kept(joined.items, |i: ItemView| i.id != item),
                    ..joined
                },
                counts: Counts { merged_items: added(m.counts.merged_items, 1), ..m.counts },
            }
        },
        None => Migration {
            library: LibraryView {
                items: l.items.map_values(
                    |i: ItemView|
                        if i.id == item {
                            ItemView {
                                artist_id: match artist {
                                    Some(a) => a,
                                    None => i.artist_id,
                                },
                                path,
                                normal_path: path,
                                ..i
                            }
                        } else {
                            i
                        },
                ),
                ..l
            },
            counts: Counts { updated: added(m.counts.updated, 1), ..m.counts },
        },
    }
}

/// Gives an item a new path, and a new artist where one is given; where another
/// item has the path already, merges the item into it.
pub fn place_item(
    library: &mut Library,
    counts: &mut Counts,
    item: i64,
    path: &str,
    artist: Option<i64>,
)
    ensures
        (Migration { library: final(library)@, counts: *final(counts) }) == item_placed(
            Migration { library: old(library)@, counts: *old(counts) },
            item,
            path@,
            artist,
        ),
{
    let ghost before = library@;
    let ghost model = |i: ItemView| i.path == path@ && i.id != item;
    let wanted = |i: &ItemRow| -> (b: bool)
        ensures
            b == model(i@),
        { same_text(&i.path, path) && i.id != item };
    match find_row(&library.items, wanted, Ghost(model)) {
        Some(k) => {
            let other: i64 = library.items[k].id;
            merge_item_into(library, item, other, artist);
            let ghost joined = library@;
            let ghost model = |i: ItemView| i.id != item;
            let stays = |i: &ItemRow| -> (b: bool)
                ensures
                    b == model(i@),
                { i.id != item };
            keep_rows(&mut library.items, stays, Ghost(model));
            counts.merged_items = add_count(counts.merged_items, 1);
            assert(library@ =~= LibraryView { items: kept(joined.items, model), ..joined });
        },
        None => {
            let ghost model = |i: ItemView|
                if i.id == item {
                    ItemView {
                        artist_id: match artist {
                            Some(a) => a,
                            None => i.artist_id,
                        },
                        path: path@,
                        normal_path: path@,
                        ..i
                    }
                } else {
                    i
                };
            let change = |i: &ItemRow| -> (o: ItemRow)
                ensures
                    o@ == model(i@),
                {
                    if i.id == item {
                        ItemRow {
                            id: i.id,
                            artist_id: match artist {
                                Some(a) => a,
                                None => i.artist_id,
                            },
                            path: path.to_owned(),
                            normal_path: path.to_owned(),
                            missing: i.missing,
                            missing_at: i.missing_at,
                        }
                    } else {
                        i.duplicate()
                    }
                };
            library.items = map_rows(&library.items, change, Ghost(model));
            counts.updated = add_count(counts.updated, 1);
            assert(library@ =~= LibraryView { items: before.items.map_values(model), ..before });
        },
    }
}

/// The real path of an item: its path with the real root where it lies below the
/// given one, else its normal form.
pub open spec fn real_path(i: ItemView, root: Seq<char>, real_root: Seq<char>) -> Seq<char> {
    if under_root(i.path, root) {
        rebased(i.path, root, real_root)
    } else {
        i.normal_path
    }
}

/// What giving the items of an artist to another leaves.
pub open spec fn items_given(
    m: Migration,
    source: i64,
    target: i64,
    root: Seq<char>,
    real_root: Seq<char>,
) -> Migration {
    folded(
        m,
        kept(m.library.items, |i: ItemView| i.artist_id == source),
        |s: Migration, i: ItemView|
            item_placed(s, i.id, real_path(i, root, real_root), Some(target)),
    )
}

/// Gives the items of an artist to another.
fn give_items(
    library: &mut Library,
    counts: &mut Counts,
    source: i64,
    target: i64,
    root: &str,
    real_root: &str,
)
    ensures
        (Migration { library: final(library)@, counts: *final(counts) }) == items_given(
            Migration { library: old(library)@, counts: *old(counts) },
            source,
            target,
            root@,
            real_root@,
        ),
{
    let ghost start = Migration { library: library@, counts: *counts };
    let ghost all = library@.items;
    let ghost wanted = |i: ItemView| i.artist_id == source;
    let ghost step = |s: Migration, i: ItemView|
        item_placed(s, i.id, real_path(i, root@, real_root@), Some(target));
    let ghost same = |i: ItemView| i;
    let copy = |i: &ItemRow| -> (o: ItemRow)
        ensures
            o@ == same(i@),
        { i.duplicate() };
    let mut rows = map_rows(&library.items, copy, Ghost(same));
    assert(views(rows@) =~= all);
    let is_wanted = |i: &ItemRow| -> (b: bool)
        ensures
            b == wanted(i@),
        { i.artist_id == source };
    keep_rows(&mut rows, is_wanted, Ghost(wanted));
    let ghost selected = views(rows@);
    let mut i: usize = 0;
    assert(selected.take(0) =~= Seq::<ItemView>::empty());
    while i < rows.len()
        invariant
            i <= rows@.len(),
            selected == views(rows@),
            step == (|s: Migration, i: ItemView|
                item_placed(s, i.id, real_path(i, root@, real_root@), Some(target))),
            (Migration { library: library@, counts: *counts }) == folded(
                start,
                selected.take(i as int),
                step,
            ),
        decreases rows@.len() - i,
    {
        assert(selected.take(i as int + 1).drop_last() =~= selected.take(i as int));
        assert(selected.take(i as int + 1).last() == rows@[i as int]@);
        let path = if is_under_root(&rows[i].path, root) {
            rebase(&rows[i].path, root, real_root)
        } else {
            rows[i].normal_path.clone()
        };
        place_item(library, counts, rows[i].id, &path, Some(target));
        i += 1;
    }
    assert(selected.take(selected.len() as int) =~= selected);
}

/// The scanned files with another artist for one.
pub open spec fn scans_given(rows: Seq<ScanView>, source: i64, target: i64) -> Seq<ScanView> {
    rows.map_values(
        |s: ScanView| ScanView { artist_id: repointed(s.artist_id, source, target), ..s },
    )
}

/// Replaces an artist in scanned files.
fn give_scans(rows: &mut Vec<ScanRow>, source: i64, target: i64)
    ensures
        views(final(rows)@) == scans_given(views(old(rows)@), source, target),
{
    let ghost model = |s: ScanView|
        ScanView { artist_id: repointed(s.artist_id, source, target), ..s };
    let change = |s: &ScanRow| -> (o: ScanRow)
        ensures
            o@ == model(s@),
        { ScanRow { artist_id: repoint(s.artist_id, source, target), path: s.path.clone() } };
    *rows = map_rows(rows, change, Ghost(model));
}

/// The moves with another artist for one.
pub open spec fn moves_given(rows: Seq<MoveView>, source: i64, target: i64) -> Seq<MoveView> {
    rows.map_values(
        |m: MoveView| MoveView { artist_id: repointed(m.artist_id, source, target), ..m },
    )
}

/// Replaces an artist in moves.
fn give_moves(rows: &mut Vec<MoveRow>, source: i64, target: i64)
    ensures
        views(final(rows)@) == moves_given(views(old(rows)@), source, target),
{
    let ghost model = |m: MoveView|
        MoveView { artist_id: repointed(m.artist_id, source, target), ..m };
    let change = |m: &MoveRow| -> (o: MoveRow)
        ensures
            o@ == model(m@),
        {
            let mut row = m.duplicate();
            row.artist_id = repoint(m.artist_id, source, target);
            row
        };
    *rows = map_rows(rows, change, Ghost(model));
}

/// Whether an artist is there and its folder is not gone.
pub open spec fn active_artist(artists: Seq<ArtistView>, id: i64) -> bool {
    first(artists, |a: ArtistView| a.id == id && !a.missing) is Some
}

/// What becomes of the artists when one is merged into another: the other is
/// there and has no time of going if one of the two was there, and the merged one is
/// dropped.
pub open spec fn artists_joined(artists: Seq<ArtistView>, source: i64, target: i64) -> Seq<ArtistView> {
    kept(
        if active_artist(artists, source) || active_artist(artists, target) {
            artists.map_values(
                |a: ArtistView|
                    if a.id == target {
                        ArtistView { missing: false, missing_at: None, ..a }
                    } else {
                        a
                    },
            )
        } else {
            artists
        },
        |a: ArtistView| a.id != source,
    )
}

/// Joins two artists.
fn join_artists(artists: &mut Vec<ArtistRow>, source: i64, target: i64)
    ensures
        views(final(artists)@) == artists_joined(views(old(artists)@), source, target),
{
    let ghost of_source = |a: ArtistView| a.id == source && !a.missing;
    let ghost of_target = |a: ArtistView| a.id == target && !a.missing;
    let at_source = |a: &ArtistRow| -> (b: bool)
        ensures
            b == of_source(a@),
        { a.id == source && !a.missing };
    let at_target = |a: &ArtistRow| -> (b: bool)
        ensures
            b == of_target(a@),
        { a.id == target && !a.missing };
    if find_row(artists, at_source, Ghost(of_source)).is_some() || find_row(
        artists,
        at_target,
        Ghost(of_target),
    ).is_some() {
        let ghost model = |a: ArtistView|
            if a.id == target {
                ArtistView { missing: false, missing_at: None, ..a }
            } else {
                a
            };
        let change = |a: &ArtistRow| -> (o: ArtistRow)
            ensures
                o@ == model(a@),
            {
                let mut row = a.duplicate();
                if a.id == target {
                    row.missing = false;
                    row.missing_at = None;
                }
                row
            };
        *artists = map_rows(artists, change, Ghost(model));
    }
    let ghost model = |a: ArtistView| a.id != source;
    let stays = |a: &ArtistRow| -> (b: bool)
        ensures
            b == model(a@),
        { a.id != source };
    keep_rows(artists, stays, Ghost(model));
}

/// The library when the tags and items of an artist were given to another.
pub open spec fn belongings_given(
    m: Migration,
    source: i64,
    target: i64,
    root: Seq<char>,
    real_root: Seq<char>,
) -> Result<Migration, MergeError> {
    let l = m.library;
    let t = tags_folded(l.tags, l.item_tags, source, target);
    match plans_mapped(l.plans, t.became, source) {
        Err(e) => Err(e),
        Ok(plans) => match recycled_mapped(l.recycled, t.became, source) {
            Err(e) => Err(e),
            Ok(recycled) => Ok(
                items_given(
                    Migration {
                        library: LibraryView {
                            tags: t.tags,
                            item_tags: t.item_tags,
                            plans,
                            recycled,
                            ..l
                        },
                        counts: m.counts,
                    },
                    source,
                    target,
                    root,
                    real_root,
                ),
            ),
        },
    }
}

/// What merging an artist into another leaves.
pub open spec fn artist_merged(
    m: Migration,
    source: i64,
    target: i64,
    root: Seq<char>,
    real_root: Seq<char>,
    comparable: bool,
) -> Result<Migration, MergeError> {
    match belongings_given(m, source, target, root, real_root) {
        Err(e) => Err(e),
        Ok(g) => {
            let l = g.library;
            match plans_moved(l.plans, source, target, comparable) {
                Err(e) => Err(e),
                Ok(plans) => match relationships_merged(
                    LibraryView {
                        scan_seen: scans_given(l.scan_seen, source, target),
                        scan_candidates: scans_given(l.scan_candidates, source, target),
                        move_candidates: moves_given(l.move_candidates, source, target),
                        move_history: moves_given(l.move_history, source, target),
                        plans,
                        ..l
                    },
                    source,
                    target,
                ) {
                    Err(e) => Err(e),
                    Ok(r) => Ok(
                        Migration {
                            library: LibraryView {
                                artists: artists_joined(r.artists, source, target),
                                ..r
                            },
                            counts: Counts {
                                merged_artists: added(g.counts.merged_artists, 1),
                                ..g.counts
                            },
                        },
                    ),
                },
            }
        },
    }
}

/// Merges an artist into another: tags, items, plans and every other record. The
/// virtual root and the real one tell the real paths of the items. After a
/// refusal the library is of no use: the caller keeps a copy.
pub fn merge_artist(
    library: &mut Library,
    counts: &mut Counts,
    source: i64,
    target: i64,
    root: &str,
    real_root: &str,
    comparable: bool,
) -> (r: Result<(), MergeError>)
    ensures
        match artist_merged(
            Migration { library: old(library)@, counts: *old(counts) },
            source,
            target,
            root@,
            real_root@,
            comparable,
        ) {
            Ok(m) => r is Ok && (Migration { library: final(library)@, counts: *final(counts) })
                == m,
            Err(e) => r is Err && r->Err_0 == e,
        },
{
    let ghost start = library@;
    proof {
        lemma_plain_tags(library.item_tags@);
    }
    let became = merge_artist_tags(&mut library.tags, &mut library.item_tags, source, target);
    proof {
        lemma_plain_tags(library.item_tags@);
    }
    match remap_folder_plan_tag_ids(&mut library.plans, &became, source) {
        Ok(()) => {},
        Err(e) => {
            return Err(e);
        },
    }
    match remap_recycle_tag_ids(&mut library.recycled, &became, source) {
        Ok(()) => {},
        Err(e) => {
            return Err(e);
        },
    }
    give_items(library, counts, source, target, root, real_root);
    give_scans(&mut library.scan_seen, source, target);
    give_scans(&mut library.scan_candidates, source, target);
    give_moves(&mut library.move_candidates, source, target);
    give_moves(&mut library.move_history, source, target);
    match merge_artist_folder_plans(&mut library.plans, source, target, comparable) {
        Ok(()) => {},
        Err(e) => {
            return Err(e);
        },
    }
    match merge_artist_relationships(library, source, target) {
        Ok(()) => {},
        Err(e) => {
            return Err(e);
        },
    }
    join_artists(&mut library.artists, source, target);
    counts.merged_artists = add_count(counts.merged_artists, 1);
    Ok(())
}

/// Folding a tag loses none of its items: each has what the tag has become.
pub proof fn folded_tags_keep_their_items(s: FoldedTags, tag: TagView, target: i64, item: i64)
    requires
        s.item_tags.contains(ItemTag { item_id: item, tag_id: tag.id }),
        forall|i: int|
            0 <= i < s.tags.len() && (#[trigger] s.tags[i]).artist_id == target ==> s.tags[i].id
                != tag.id,
    ensures
        ({
            let now = tag_folded(s, tag, target);
            now.item_tags.contains(ItemTag { item_id: item, tag_id: now.became.last().1 })
        }),
{
    let named = |t: TagView| t.artist_id == target && t.name == tag.name;
    crate::tables::lemma_first(s.tags, named);
    match first(s.tags, named) {
        Some(other) => {
            let at = s.tags.index_of(other);
            assert(s.tags[at] == other);
            let had = ItemTag { item_id: item, tag_id: tag.id };
            let has = ItemTag { item_id: item, tag_id: other.id };
            let of_tag = |t: ItemTag| t.tag_id == tag.id;
            let mine = kept(s.item_tags, of_tag);
            let more = tag_rows_for(s.item_tags, tag.id, other.id);
            crate::tables::lemma_kept(s.item_tags, of_tag);
            assert(mine.contains(had));
            let i = mine.index_of(had);
            assert(more[i] == has);
            crate::item_merge::lemma_with_tags(s.item_tags, more, has);
            crate::tables::lemma_kept(
                with_tags(s.item_tags, more),
                |t: ItemTag| t.tag_id != tag.id,
            );
        },
        None => {},
    }
}

/// Whether no two plans have one id, and no artist has two plans for one folder.
pub open spec fn plans_are_distinct(plans: Seq<PlanView>) -> bool {
    forall|i: int, j: int|
        0 <= i < j < plans.len() ==> (#[trigger] plans[i]).id != (#[trigger] plans[j]).id && !(
        plans[i].artist_id == plans[j].artist_id && plans[i].source_folder
            == plans[j].source_folder)
}

/// Whether an artist has a plan for the folder of a plan.
pub open spec fn has_twin(plans: Seq<PlanView>, row: PlanView, target: i64) -> bool {
    exists|j: int|
        0 <= j < plans.len() && (#[trigger] plans[j]).artist_id == target && plans[j].source_folder
            == row.source_folder
}

/// Whether an artist has a plan for the folder of a plan that says something else.
pub open spec fn has_rival(plans: Seq<PlanView>, row: PlanView, target: i64) -> bool {
    exists|j: int|
        0 <= j < plans.len() && (#[trigger] plans[j]).artist_id == target && plans[j].source_folder
            == row.source_folder && !plans_agree(row, plans[j])
}

/// Whether a plan is there once some of the plans of an artist went to another: it is of
/// another artist, or its turn has not come, or it went because the other artist had no
/// plan for its folder.
spec fn stands(
    plans: Seq<PlanView>,
    going: Seq<PlanView>,
    source: i64,
    target: i64,
    n: int,
    p: PlanView,
) -> bool {
    ||| plans.contains(p) && p.artist_id != source
    ||| exists|k: int| n <= k < going.len() && #[trigger] going[k] == p
    ||| exists|k: int|
        0 <= k < n && !has_twin(plans, #[trigger] going[k], target) && p == (PlanView {
            artist_id: target,
            ..going[k]
        })
}

/// Whether no two plans have one id.
spec fn ids_are_distinct(plans: Seq<PlanView>) -> bool {
    forall|i: int, j: int|
        0 <= i < j < plans.len() ==> (#[trigger] plans[i]).id != (#[trigger] plans[j]).id
}

/// The plans of an artist are distinct plans of it.
proof fn lemma_going(plans: Seq<PlanView>, source: i64)
    requires
        plans_are_distinct(plans),
    ensures
        ({
            let going = kept(plans, |p: PlanView| p.artist_id == source);
            &&& forall|k: int|
                0 <= k < going.len() ==> plans.contains(#[trigger] going[k])
                    && going[k].artist_id == source
            &&& forall|i: int, j: int|
                0 <= i < j < going.len() ==> (#[trigger] going[i]).id != (#[trigger] going[j]).id
                    && going[i].source_folder != going[j].source_folder
            &&& forall|i: int|
                0 <= i < plans.len() && (#[trigger] plans[i]).artist_id == source
                    ==> going.contains(plans[i])
        }),
{
    let wanted = |p: PlanView| p.artist_id == source;
    let going = kept(plans, wanted);
    crate::tables::lemma_kept(plans, wanted);
    let places = crate::tables::lemma_kept_places(plans, wanted);
    assert forall|i: int, j: int| 0 <= i < j < going.len() implies (#[trigger] going[i]).id != (
    #[trigger] going[j]).id && going[i].source_folder != going[j].source_folder by {
        assert(places[i] < places[j]);
        assert(wanted(going[i]) && wanted(going[j]));
        assert(going[i] == plans[places[i]] && going[j] == plans[places[j]]);
    }
    assert forall|k: int| 0 <= k < going.len() implies plans.contains(#[trigger] going[k])
        && going[k].artist_id == source by {
        assert(wanted(going[k]));
    }
    assert forall|i: int|
        0 <= i < plans.len() && (#[trigger] plans[i]).artist_id == source implies going.contains(
        plans[i],
    ) by {
        assert(wanted(plans[i]));
        assert(plans.contains(plans[i]));
    }
}

/// What one plan that goes leaves, from what the plans in front of it have left.
proof fn lemma_plan_goes(
    plans: Seq<PlanView>,
    now: Seq<PlanView>,
    source: i64,
    target: i64,
    n: int,
)
    requires
        plans_are_distinct(plans),
        source != target,
        ids_are_distinct(now),
        ({
            let going = kept(plans, |p: PlanView| p.artist_id == source);
            &&& 0 <= n < going.len()
            &&& forall|p: PlanView|
                #[trigger] now.contains(p) <==> stands(plans, going, source, target, n, p)
        }),
    ensures
        ({
            let going = kept(plans, |p: PlanView| p.artist_id == source);
            let after = plan_moved(now, going[n], target);
            &&& after is Err <==> has_rival(plans, going[n], target)
            &&& after is Ok ==> ids_are_distinct(after->Ok_0) && forall|p: PlanView|
                #[trigger] after->Ok_0.contains(p) <==> stands(
                    plans,
                    going,
                    source,
                    target,
                    n + 1,
                    p,
                )
        }),
{
    let going = kept(plans, |p: PlanView| p.artist_id == source);
    let row = going[n];
    let wanted = |p: PlanView| p.artist_id == target && p.source_folder == row.source_folder;
    lemma_going(plans, source);
    crate::tables::lemma_first(now, wanted);
    assert(stands(plans, going, source, target, n, row));
    assert(now.contains(row));
    let found = first(now, wanted);
    let gone = PlanView { artist_id: target, ..row };
    let own = plans.index_of(row);
    assert(plans[own] == row);
    // The twin, where there is one, is a plan that was there before.
    if found is Some {
        let other = found->Some_0;
        assert(wanted(other) && now.contains(other));
        assert(stands(plans, going, source, target, n, other));
        if !(plans.contains(other) && other.artist_id != source) {
            if exists|k: int| n <= k < going.len() && #[trigger] going[k] == other {
                let k = choose|k: int| n <= k < going.len() && #[trigger] going[k] == other;
                assert(going[k].artist_id == source);
            } else {
                let k = choose|k: int|
                    0 <= k < n && !has_twin(plans, #[trigger] going[k], target) && other == (
                    PlanView { artist_id: target, ..going[k] });
                assert(going[k].source_folder != going[n].source_folder);
            }
            assert(false);
        }
        let at = plans.index_of(other);
        assert(plans[at] == other);
        assert(has_twin(plans, row, target));
        assert(has_rival(plans, row, target) <==> !plans_agree(row, other)) by {
            if has_rival(plans, row, target) {
                let j = choose|j: int|
                    0 <= j < plans.len() && (#[trigger] plans[j]).artist_id == target
                        && plans[j].source_folder == row.source_folder && !plans_agree(
                        row,
                        plans[j],
                    );
                if j < at {
                    assert(plans[j].id != plans[at].id);
                } else if at < j {
                    assert(plans[at].id != plans[j].id);
                }
            }
        }
    } else {
        if has_twin(plans, row, target) {
            let j = choose|j: int|
                0 <= j < plans.len() && (#[trigger] plans[j]).artist_id == target
                    && plans[j].source_folder == row.source_folder;
            assert(plans.contains(plans[j]));
            assert(stands(plans, going, source, target, n, plans[j]));
            assert(now.contains(plans[j]));
            let at = now.index_of(plans[j]);
            assert(wanted(now[at]));
            assert(false);
        }
        if has_rival(plans, row, target) {
            let j = choose|j: int|
                0 <= j < plans.len() && (#[trigger] plans[j]).artist_id == target
                    && plans[j].source_folder == row.source_folder && !plans_agree(row, plans[j]);
            assert(has_twin(plans, row, target));
        }
    }
    let after = plan_moved(now, row, target);
    if after is Ok {
        let rows = after->Ok_0;
        let twin = has_twin(plans, row, target);
        // The rows but for the plan itself, and the plan with its new artist.
        assert forall|p: PlanView| #[trigger] rows.contains(p) <==> (now.contains(p) && p.id
            != row.id) || (!twin && p == gone) by {
            if found is Some {
                let stays = |p: PlanView| p.id != row.id;
                crate::tables::lemma_kept(now, stays);
                assert(rows == kept(now, stays));
            } else {
                let change = |p: PlanView|
                    if p.id == row.id {
                        PlanView { artist_id: target, ..p }
                    } else {
                        p
                    };
                assert(rows == now.map_values(change));
                let at = now.index_of(row);
                assert(now[at] == row);
                if rows.contains(p) {
                    let i = rows.index_of(p);
                    assert(rows[i] == change(now[i]));
                    if now[i].id == row.id {
                        if i < at {
                            assert(now[i].id != now[at].id);
                        } else if at < i {
                            assert(now[at].id != now[i].id);
                        }
                    } else {
                        assert(now.contains(now[i]));
                    }
                }
                if now.contains(p) && p.id != row.id {
                    let i = now.index_of(p);
                    assert(rows[i] == p);
                }
                if p == gone {
                    assert(rows[at] == gone);
                }
            }
        }
        assert forall|p: PlanView| #[trigger] rows.contains(p) <==> stands(
            plans,
            going,
            source,
            target,
            n + 1,
            p,
        ) by {
            lemma_stands_on(plans, source, target, n, p);
            assert(now.contains(p) <==> stands(plans, going, source, target, n, p));
        }
        assert(ids_are_distinct(rows)) by {
            if found is Some {
                let stays = |p: PlanView| p.id != row.id;
                let places = crate::tables::lemma_kept_places(now, stays);
                assert forall|i: int, j: int| 0 <= i < j < rows.len() implies (
                #[trigger] rows[i]).id != (#[trigger] rows[j]).id by {
                    assert(places[i] < places[j]);
                    assert(now[places[i]].id != now[places[j]].id);
                }
            } else {
                assert forall|i: int, j: int| 0 <= i < j < rows.len() implies (
                #[trigger] rows[i]).id != (#[trigger] rows[j]).id by {
                    assert(now[i].id != now[j].id);
                }
            }
        }
    }
}

/// Which plans are there when the turn of one more has come.
proof fn lemma_stands_on(plans: Seq<PlanView>, source: i64, target: i64, n: int, p: PlanView)
    requires
        plans_are_distinct(plans),
        source != target,
        0 <= n < kept(plans, |p: PlanView| p.artist_id == source).len(),
    ensures
        ({
            let going = kept(plans, |p: PlanView| p.artist_id == source);
            let row = going[n];
            stands(plans, going, source, target, n + 1, p) <==> (stands(
                plans,
                going,
                source,
                target,
                n,
                p,
            ) && p.id != row.id) || (!has_twin(plans, row, target) && p == (PlanView {
                artist_id: target,
                ..row
            }))
        }),
{
    let going = kept(plans, |p: PlanView| p.artist_id == source);
    let row = going[n];
    lemma_going(plans, source);
    let own = plans.index_of(row);
    assert(plans[own] == row);
    if plans.contains(p) && p.artist_id != source {
        let at = plans.index_of(p);
        assert(plans[at] == p);
        if at < own {
            assert(plans[at].id != plans[own].id);
        } else {
            assert(plans[own].id != plans[at].id);
        }
    }
    assert forall|k: int| 0 <= k < going.len() && k != n implies (#[trigger] going[k]).id
        != row.id by {
        if k < n {
            assert(going[k].id != going[n].id);
        } else {
            assert(going[n].id != going[k].id);
        }
    }
    if stands(plans, going, source, target, n + 1, p) && !(plans.contains(p) && p.artist_id
        != source) {
        if exists|k: int| n + 1 <= k < going.len() && #[trigger] going[k] == p {
            let k = choose|k: int| n + 1 <= k < going.len() && #[trigger] going[k] == p;
            assert(going[k] == p);
        } else {
            let k = choose|k: int|
                0 <= k < n + 1 && !has_twin(plans, #[trigger] going[k], target) && p == (PlanView {
                    artist_id: target,
                    ..going[k]
                });
            assert(k < n ==> going[k].id != row.id);
        }
    }
    if stands(plans, going, source, target, n, p) && p.id != row.id && !(plans.contains(p)
        && p.artist_id != source) {
        if exists|k: int| n <= k < going.len() && #[trigger] going[k] == p {
            let k = choose|k: int| n <= k < going.len() && #[trigger] going[k] == p;
            assert(k != n);
        } else {
            let k = choose|k: int|
                0 <= k < n && !has_twin(plans, #[trigger] going[k], target) && p == (PlanView {
                    artist_id: target,
                    ..going[k]
                });
            assert(k < n + 1);
        }
    }
}

/// What the plans of an artist that went so far have left.
proof fn lemma_plans_go(plans: Seq<PlanView>, source: i64, target: i64, n: int)
    requires
        plans_are_distinct(plans),
        source != target,
        0 <= n <= kept(plans, |p: PlanView| p.artist_id == source).len(),
    ensures
        ({
            let going = kept(plans, |p: PlanView| p.artist_id == source);
            let after = tried(
                plans,
                going.take(n),
                |s: Seq<PlanView>, p: PlanView| plan_moved(s, p, target),
            );
            &&& after is Err <==> exists|k: int|
                0 <= k < n && has_rival(plans, #[trigger] going[k], target)
            &&& after is Ok ==> ids_are_distinct(after->Ok_0) && forall|p: PlanView|
                #[trigger] after->Ok_0.contains(p) <==> stands(
                    plans,
                    going,
                    source,
                    target,
                    n,
                    p,
                )
        }),
    decreases n,
{
    let going = kept(plans, |p: PlanView| p.artist_id == source);
    let step = |s: Seq<PlanView>, p: PlanView| plan_moved(s, p, target);
    lemma_going(plans, source);
    if n == 0 {
        assert(going.take(0) =~= Seq::<PlanView>::empty());
        assert forall|p: PlanView| #[trigger] plans.contains(p) <==> stands(
            plans,
            going,
            source,
            target,
            0,
            p,
        ) by {
            if plans.contains(p) && p.artist_id == source {
                let i = plans.index_of(p);
                assert(plans[i] == p);
                assert(going.contains(p));
                let k = going.index_of(p);
                assert(going[k] == p);
            }
        }
    } else {
        lemma_plans_go(plans, source, target, n - 1);
        assert(going.take(n).drop_last() =~= going.take(n - 1));
        assert(going.take(n).last() == going[n - 1]);
        let before = tried(plans, going.take(n - 1), step);
        if before is Ok {
            lemma_plan_goes(plans, before->Ok_0, source, target, n - 1);
        } else {
            let k = choose|k: int|
                0 <= k < n - 1 && has_rival(plans, #[trigger] going[k], target);
            assert(0 <= k < n && has_rival(plans, going[k], target));
        }
    }
}

/// Giving the plans of an artist to another is refused if and only if both have a plan for
/// one folder and the two do not agree. Otherwise the first artist has no plan left; its
/// plans for folders for which the other has none belong to the other and are else as they
/// were; and the plans of every other artist are as they were.
pub proof fn plans_go_or_conflict(plans: Seq<PlanView>, source: i64, target: i64)
    requires
        plans_are_distinct(plans),
        source != target,
    ensures
        plans_moved(plans, source, target, true) is Err <==> exists|i: int|
            0 <= i < plans.len() && (#[trigger] plans[i]).artist_id == source && has_rival(
                plans,
                plans[i],
                target,
            ),
        plans_moved(plans, source, target, true) matches Ok(rows) ==> forall|p: PlanView|
            #[trigger] rows.contains(p) <==> (plans.contains(p) && p.artist_id != source) || exists|
                i: int,
            |
                0 <= i < plans.len() && (#[trigger] plans[i]).artist_id == source && !has_twin(
                    plans,
                    plans[i],
                    target,
                ) && p == (PlanView { artist_id: target, ..plans[i] }),
{
    let going = kept(plans, |p: PlanView| p.artist_id == source);
    lemma_going(plans, source);
    lemma_plans_go(plans, source, target, going.len() as int);
    assert(going.take(going.len() as int) =~= going);
    let after = plans_moved(plans, source, target, true);
    if after is Err {
        let k = choose|k: int|
            0 <= k < going.len() && has_rival(plans, #[trigger] going[k], target);
        let i = plans.index_of(going[k]);
        assert(plans[i] == going[k]);
    }
    if exists|i: int|
        0 <= i < plans.len() && (#[trigger] plans[i]).artist_id == source && has_rival(
            plans,
            plans[i],
            target,
        ) {
        let i = choose|i: int|
            0 <= i < plans.len() && (#[trigger] plans[i]).artist_id == source && has_rival(
                plans,
                plans[i],
                target,
            );
        assert(going.contains(plans[i]));
        let k = going.index_of(plans[i]);
        assert(has_rival(plans, going[k], target));
    }
    if after is Ok {
        let rows = after->Ok_0;
        assert forall|p: PlanView| #[trigger] rows.contains(p) <==> (plans.contains(p)
            && p.artist_id != source) || exists|i: int|
            0 <= i < plans.len() && (#[trigger] plans[i]).artist_id == source && !has_twin(
                plans,
                plans[i],
                target,
            ) && p == (PlanView { artist_id: target, ..plans[i] }) by {
            assert(rows.contains(p) <==> stands(
                plans,
                going,
                source,
                target,
                going.len() as int,
                p,
            ));
            if rows.contains(p) && !(plans.contains(p) && p.artist_id != source) {
                let k = choose|k: int|
                    0 <= k < going.len() && !has_twin(plans, #[trigger] going[k], target) && p == (
                    PlanView { artist_id: target, ..going[k] });
                let i = plans.index_of(going[k]);
                assert(plans[i] == going[k]);
            }
            if exists|i: int|
                0 <= i < plans.len() && (#[trigger] plans[i]).artist_id == source && !has_twin(
                    plans,
                    plans[i],
                    target,
                ) && p == (PlanView { artist_id: target, ..plans[i] }) {
                let i = choose|i: int|
                    0 <= i < plans.len() && (#[trigger] plans[i]).artist_id == source && !has_twin(
                        plans,
                        plans[i],
                        target,
                    ) && p == (PlanView { artist_id: target, ..plans[i] });
                assert(going.contains(plans[i]));
                let k = going.index_of(plans[i]);
                assert(going[k] == plans[i]);
            }
        }
    }
}

/// Of two artists that are merged the kept one is there and has no time of going, if one
/// of them was there; else it is as it was.
pub proof fn joined_artists_are_there(artists: Seq<ArtistView>, source: i64, target: i64, i: int)
    requires
        source != target,
        0 <= i < artists.len(),
        artists[i].id == target,
    ensures
        artists_joined(artists, source, target).contains(
            if exists|j: int|
                0 <= j < artists.len() && ((#[trigger] artists[j]).id == source || artists[j].id
                    == target) && !artists[j].missing {
                ArtistView { missing: false, missing_at: None, ..artists[i] }
            } else {
                artists[i]
            },
        ),
{
    let of_source = |a: ArtistView| a.id == source && !a.missing;
    let of_target = |a: ArtistView| a.id == target && !a.missing;
    crate::tables::lemma_first(artists, of_source);
    crate::tables::lemma_first(artists, of_target);
    let woken = |a: ArtistView|
        if a.id == target {
            ArtistView { missing: false, missing_at: None, ..a }
        } else {
            a
        };
    let awake = active_artist(artists, source) || active_artist(artists, target);
    let rows = if awake {
        artists.map_values(woken)
    } else {
        artists
    };
    crate::tables::lemma_kept(rows, |a: ArtistView| a.id != source);
    assert(rows.contains(rows[i]));
    if first(artists, of_source) is Some {
        let j = artists.index_of(first(artists, of_source)->Some_0);
        assert(of_source(artists[j]));
    }
    if first(artists, of_target) is Some {
        let j = artists.index_of(first(artists, of_target)->Some_0);
        assert(of_target(artists[j]));
    }
    if !awake {
        assert forall|j: int|
            0 <= j < artists.len() && ((#[trigger] artists[j]).id == source || artists[j].id
                == target) implies artists[j].missing by {
            assert(!of_source(artists[j]) && !of_target(artists[j]));
        }
    }
}

}
