//! The folders that an artist's items lie in.

use vstd::prelude::*;
use crate::order::{not_after, text_le};
use crate::tables::{kept, tally};
use crate::text::{same_text, texts};

verus! {

/// An item of an artist.
#[derive(Debug)]
pub struct FolderItem {
    /// The item.
    pub id: i64,
    /// The folder below the artist's; empty where it lies in that itself.
    pub folder: String,
    /// The date, as it is written; empty where it has none.
    pub date: String,
    /// Whether the file is gone.
    pub missing: bool,
}

/// A folder with items.
#[derive(Debug)]
pub struct ArtistFolder {
    /// The folder.
    pub folder: String,
    /// How many items are there.
    pub file_count: usize,
    /// The first date of the items.
    pub min_date: String,
    /// The tags of each item.
    pub tags: Vec<Vec<i64>>,
}

/// Whether an item is there and lies in a folder.
pub open spec fn lies_in(folder: Seq<char>) -> spec_fn(FolderItem) -> bool {
    |i: FolderItem| !i.missing && i.folder@ == folder
}

/// The folders of items that are there, each once, in the order of their first items.
pub open spec fn folders_of(items: Seq<FolderItem>) -> Seq<Seq<char>>
    decreases items.len(),
{
    if items.len() == 0 {
        Seq::empty()
    } else {
        let before = folders_of(items.drop_last());
        let i = items.last();
        if i.missing || i.folder@.len() == 0 || before.contains(i.folder@) {
            before
        } else {
            before.push(i.folder@)
        }
    }
}

/// The first date of items: the least text.
pub open spec fn first_date(items: Seq<FolderItem>) -> Seq<char>
    decreases items.len(),
{
    if items.len() == 0 {
        Seq::empty()
    } else if items.len() == 1 {
        items[0].date@
    } else {
        let before = first_date(items.drop_last());
        if text_le(before, items.last().date@) {
            before
        } else {
            items.last().date@
        }
    }
}

/// Whether a row of tags, an item and a tag, is that of an item.
pub open spec fn tagged(item: i64) -> spec_fn((i64, i64)) -> bool {
    |t: (i64, i64)| t.0 == item
}

/// The tags of an item.
pub open spec fn tags_of(rows: Seq<(i64, i64)>, item: i64) -> Seq<i64> {
    kept(rows, tagged(item)).map_values(|t: (i64, i64)| t.1)
}

/// The tags of items, one list for each.
pub open spec fn tag_lists(items: Seq<FolderItem>, rows: Seq<(i64, i64)>) -> Seq<Seq<i64>> {
    items.map_values(|i: FolderItem| tags_of(rows, i.id))
}

/// The values of lists of ids.
pub open spec fn list_views(lists: Seq<Vec<i64>>) -> Seq<Seq<i64>> {
    lists.map_values(|v: Vec<i64>| v@)
}

/// Whether a folder tells of the items that lie in it.
pub open spec fn tells_of_folder(
    f: ArtistFolder,
    folder: Seq<char>,
    items: Seq<FolderItem>,
    rows: Seq<(i64, i64)>,
) -> bool {
    let own = kept(items, lies_in(folder));
    &&& f.folder@ == folder
    &&& f.file_count == tally(items, lies_in(folder))
    &&& f.min_date@ == first_date(own)
    &&& list_views(f.tags@) == tag_lists(own, rows)
}

/// The tags of an item.
fn find_tags(rows: &[(i64, i64)], item: i64) -> (r: Vec<i64>)
    ensures
        r@ == tags_of(rows@, item),
{
    let ghost own = tagged(item);
    let ghost tag = |t: (i64, i64)| t.1;
    let mut out: Vec<i64> = Vec::new();
    let mut i: usize = 0;
    assert(kept(rows@.take(0), own).map_values(tag) =~= Seq::empty());
    while i < rows.len()
        invariant
            i <= rows@.len(),
            own == tagged(item),
            tag == (|t: (i64, i64)| t.1),
            out@ == kept(rows@.take(i as int), own).map_values(tag),
        decreases rows@.len() - i,
    {
        let ghost seen = rows@.take(i as int + 1);
        assert(seen.drop_last() =~= rows@.take(i as int));
        assert(seen.last() == rows@[i as int]);
        if rows[i].0 == item {
            out.push(rows[i].1);
        }
        assert(out@ =~= kept(seen, own).map_values(tag));
        i += 1;
    }
    assert(rows@.take(rows@.len() as int) =~= rows@);
    out
}

/// What is to be told of a folder.
fn look_at_folder(folder: &str, items: &[FolderItem], rows: &[(i64, i64)]) -> (r: ArtistFolder)
    ensures
        tells_of_folder(r, folder@, items@, rows@),
{
    let ghost inside = lies_in(folder@);
    let mut file_count: usize = 0;
    let mut min_date = String::new();
    let mut tags: Vec<Vec<i64>> = Vec::new();
    let mut i: usize = 0;
    assert(min_date@ =~= first_date(kept(items@.take(0), inside)));
    assert(list_views(tags@) =~= tag_lists(kept(items@.take(0), inside), rows@));
    while i < items.len()
        invariant
            i <= items@.len(),
            inside == lies_in(folder@),
            file_count <= i,
            file_count == kept(items@.take(i as int), inside).len(),
            min_date@ == first_date(kept(items@.take(i as int), inside)),
            list_views(tags@) == tag_lists(kept(items@.take(i as int), inside), rows@),
        decreases items@.len() - i,
    {
        let ghost seen = items@.take(i as int + 1);
        let ghost before = kept(items@.take(i as int), inside);
        assert(seen.drop_last() =~= items@.take(i as int));
        assert(seen.last() == items@[i as int]);
        if !items[i].missing && same_text(&items[i].folder, folder) {
            let ghost now = kept(seen, inside);
            assert(now == before.push(items@[i as int]));
            assert(now.drop_last() =~= before);
            if file_count == 0 || !not_after(&min_date, &items[i].date) {
                min_date = items[i].date.clone();
            }
            let own = find_tags(rows, items[i].id);
            let ghost lists = list_views(tags@);
            let ghost shown = own@;
            tags.push(own);
            file_count += 1;
            assert(list_views(tags@) =~= lists.push(shown));
            assert(tag_lists(now, rows@) =~= tag_lists(before, rows@).push(shown));
        }
        i += 1;
    }
    assert(items@.take(items@.len() as int) =~= items@);
    ArtistFolder { folder: folder.to_owned(), file_count, min_date, tags }
}

/// Whether a folder is listed.
fn is_listed(folders: &[String], folder: &str) -> (r: bool)
    ensures
        r == texts(folders@).contains(folder@),
{
    let ghost all = texts(folders@);
    let mut i: usize = 0;
    while i < folders.len()
        invariant
            i <= folders@.len(),
            all == texts(folders@),
            forall|k: int| 0 <= k < i ==> #[trigger] all[k] != folder@,
        decreases folders@.len() - i,
    {
        assert(all[i as int] == folders@[i as int]@);
        if same_text(&folders[i], folder) {
            return true;
        }
        i += 1;
    }
    false
}

/// The folders of items that are there.
fn find_folders(items: &[FolderItem]) -> (r: Vec<String>)
    ensures
        texts(r@) == folders_of(items@),
{
    let mut out: Vec<String> = Vec::new();
    let mut i: usize = 0;
    assert(texts(out@) =~= folders_of(items@.take(0)));
    while i < items.len()
        invariant
            i <= items@.len(),
            texts(out@) == folders_of(items@.take(i as int)),
        decreases items@.len() - i,
    {
        let ghost seen = items@.take(i as int + 1);
        assert(seen.drop_last() =~= items@.take(i as int));
        assert(seen.last() == items@[i as int]);
        if !items[i].missing && !items[i].folder.as_str().is_empty() && !is_listed(
            &out,
            &items[i].folder,
        ) {
            let ghost before = texts(out@);
            out.push(items[i].folder.clone());
            assert(texts(out@) =~= before.push(items@[i as int].folder@));
        }
        i += 1;
    }
    assert(items@.take(items@.len() as int) =~= items@);
    out
}

/// The folders of an artist and what is to be told of them. The items come in the
/// order of their ids, and the rows of tags in the order of the tags.
pub fn artist_folders(items: &[FolderItem], rows: &[(i64, i64)]) -> (r: Vec<ArtistFolder>)
    ensures
        r@.len() == folders_of(items@).len(),
        forall|k: int|
            0 <= k < r@.len() ==> tells_of_folder(
                #[trigger] r@[k],
                folders_of(items@)[k],
                items@,
                rows@,
            ),
{
    let folders = find_folders(items);
    let ghost all = folders_of(items@);
    let mut out: Vec<ArtistFolder> = Vec::new();
    let mut i: usize = 0;
    while i < folders.len()
        invariant
            i <= folders@.len(),
            all == texts(folders@),
            out@.len() == i,
            forall|k: int|
                0 <= k < i ==> tells_of_folder(#[trigger] out@[k], all[k], items@, rows@),
        decreases folders@.len() - i,
    {
        assert(all[i as int] == folders@[i as int]@);
        out.push(look_at_folder(&folders[i], items, rows));
        i += 1;
    }
    out
}

/// Every item that is there and lies in a folder is told of, under one folder and no
/// other.
pub proof fn items_lie_in_one_folder(items: Seq<FolderItem>, i: int)
    requires
        0 <= i < items.len(),
        !items[i].missing,
        items[i].folder@.len() > 0,
    ensures
        folders_of(items).contains(items[i].folder@),
        folders_of(items).no_duplicates(),
        kept(items, lies_in(items[i].folder@)).contains(items[i]),
{
    lemma_folders(items, i);
    crate::tables::lemma_kept(items, lies_in(items[i].folder@));
    assert(items.contains(items[i]));
}

/// The folders of items, each once.
proof fn lemma_folders(items: Seq<FolderItem>, i: int)
    requires
        0 <= i < items.len(),
    ensures
        !items[i].missing && items[i].folder@.len() > 0 ==> folders_of(items).contains(
            items[i].folder@,
        ),
        folders_of(items).no_duplicates(),
    decreases items.len(),
{
    let front = items.drop_last();
    let before = folders_of(front);
    let all = folders_of(items);
    if front.len() > 0 {
        let j = if i < front.len() {
            i
        } else {
            0
        };
        lemma_folders(front, j);
        assert(front[j] == items[j]);
    }
    if i < front.len() && before.contains(items[i].folder@) {
        let k = before.index_of(items[i].folder@);
        assert(all[k] == before[k]);
    }
    if all.len() > before.len() {
        assert(all[before.len() as int] == items.last().folder@);
    }
    if i == front.len() && before.contains(items[i].folder@) {
        assert(all == before);
    }
}

/// A folder is listed only where an item that is there lies in it.
pub proof fn listed_folders_hold_items(items: Seq<FolderItem>, folder: Seq<char>)
    requires
        folders_of(items).contains(folder),
    ensures
        folder.len() > 0,
        exists|i: int|
            0 <= i < items.len() && !(#[trigger] items[i]).missing && items[i].folder@ == folder,
    decreases items.len(),
{
    let d = items.drop_last();
    if folders_of(d).contains(folder) {
        listed_folders_hold_items(d, folder);
        let i = choose|i: int|
            0 <= i < d.len() && !(#[trigger] d[i]).missing && d[i].folder@ == folder;
        assert(items[i] == d[i]);
    } else {
        let k = folders_of(items).index_of(folder);
        assert(k == folders_of(d).len());
        assert(items[items.len() - 1].folder@ == folder);
    }
}

/// The date of a folder is the date of one of its items, and no item has an earlier one.
pub proof fn folders_bear_their_first_date(items: Seq<FolderItem>)
    requires
        items.len() > 0,
    ensures
        exists|i: int| 0 <= i < items.len() && (#[trigger] items[i]).date@ == first_date(items),
        forall|i: int|
            0 <= i < items.len() ==> text_le(first_date(items), (#[trigger] items[i]).date@),
    decreases items.len(),
{
    let d = items.drop_last();
    let now = first_date(items);
    if items.len() == 1 {
        crate::order::lemma_text_le_total(now, now);
        assert(items[0].date@ == now);
    } else {
        folders_bear_their_first_date(d);
        let before = first_date(d);
        let last = items.last().date@;
        crate::order::lemma_text_le_total(before, last);
        crate::order::lemma_text_le_total(last, last);
        let k = choose|k: int| 0 <= k < d.len() && (#[trigger] d[k]).date@ == before;
        assert(items[k] == d[k]);
        assert(items[items.len() - 1].date@ == last);
        assert forall|i: int| 0 <= i < items.len() implies text_le(
            now,
            (#[trigger] items[i]).date@,
        ) by {
            if i < d.len() {
                assert(d[i] == items[i]);
                assert(text_le(before, d[i].date@));
                if now == last {
                    crate::order::lemma_text_le_transitive(last, before, d[i].date@);
                }
            }
        }
    }
}

/// The tags of an item are those of its rows, and no others.
pub proof fn items_have_the_tags_of_their_rows(rows: Seq<(i64, i64)>, item: i64, tag: i64)
    ensures
        tags_of(rows, item).contains(tag) <==> rows.contains((item, tag)),
{
    let own = kept(rows, tagged(item));
    crate::tables::lemma_kept(rows, tagged(item));
    let tags = tags_of(rows, item);
    if tags.contains(tag) {
        let k = tags.index_of(tag);
        assert(own[k].1 == tag && own.contains(own[k]));
        assert(own[k] == (item, tag));
    }
    if rows.contains((item, tag)) {
        assert(own.contains((item, tag)));
        let k = own.index_of((item, tag));
        assert(tags[k] == tag);
    }
}

}
