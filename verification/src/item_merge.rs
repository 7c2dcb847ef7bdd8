//! Merging an item into another that stands for the same file: every record of
//! the one becomes a record of the other.

use vstd::prelude::*;
use crate::library_tables::{
    ArtistReference, ArtistSuggestion, CharacterReference, DocumentRow, DocumentView, Favorite,
    ItemRow, ItemTag, ItemView, Library, LibraryView, MoveRow, MoveView, Recognition,
};
use crate::tables::{find_row, first, keep_rows, kept, map_rows, views};
use crate::text::same_text;

verus! {

/// Rows with one more row, where it is not there yet.
pub open spec fn with_tag(tags: Seq<ItemTag>, tag: ItemTag) -> Seq<ItemTag> {
    if tags.contains(tag) {
        tags
    } else {
        tags.push(tag)
    }
}

/// Rows with more rows, each where it is not there yet.
pub open spec fn with_tags(tags: Seq<ItemTag>, more: Seq<ItemTag>) -> Seq<ItemTag>
    decreases more.len(),
{
    if more.len() == 0 {
        tags
    } else {
        with_tag(with_tags(tags, more.drop_last()), more.last())
    }
}

/// Whether a row is among rows.
fn has_tag(tags: &Vec<ItemTag>, tag: ItemTag) -> (r: bool)
    ensures
        r == tags@.contains(tag),
{
    let mut i: usize = 0;
    while i < tags.len()
        invariant
            i <= tags@.len(),
            forall|j: int| 0 <= j < i ==> tags@[j] != tag,
        decreases tags@.len() - i,
    {
        if tags[i] == tag {
            return true;
        }
        i += 1;
    }
    false
}

/// Adds rows, each where it is not there yet.
pub(crate) fn add_tags(tags: &mut Vec<ItemTag>, more: &Vec<ItemTag>)
    ensures
        final(tags)@ == with_tags(old(tags)@, more@),
{
    let ghost before = tags@;
    let mut i: usize = 0;
    while i < more.len()
        invariant
            i <= more@.len(),
            tags@ == with_tags(before, more@.take(i as int)),
        decreases more@.len() - i,
    {
        assert(more@.take(i as int + 1).drop_last() =~= more@.take(i as int));
        if !has_tag(tags, more[i]) {
            tags.push(more[i]);
        }
        i += 1;
    }
    assert(more@.take(more@.len() as int) =~= more@);
}

/// A table of plain rows is its own value.
pub(crate) proof fn lemma_plain_tags(tags: Seq<ItemTag>)
    ensures
        views(tags) == tags,
{
    assert(views(tags) =~= tags);
}

/// The tags of an item as tags of another item.
pub open spec fn tags_for(tags: Seq<ItemTag>, source: i64, keep: i64) -> Seq<ItemTag> {
    kept(tags, |t: ItemTag| t.item_id == source).map_values(
        |t: ItemTag| ItemTag { item_id: keep, tag_id: t.tag_id },
    )
}

/// What becomes of the tags of items when an item is merged: the other item gets
/// those it has not, and the merged one has none.
pub open spec fn tags_moved(tags: Seq<ItemTag>, source: i64, keep: i64) -> Seq<ItemTag> {
    kept(
        with_tags(tags, tags_for(tags, source, keep)),
        |t: ItemTag| t.item_id != source,
    )
}

/// Moves the tags of an item to another.
fn move_tags(tags: &mut Vec<ItemTag>, source: i64, keep: i64)
    ensures
        final(tags)@ == tags_moved(old(tags)@, source, keep),
{
    let ghost before = tags@;
    let ghost wanted = |t: ItemTag| t.item_id == source;
    let ghost moved = |t: ItemTag| ItemTag { item_id: keep, tag_id: t.tag_id };
    let mut more: Vec<ItemTag> = Vec::new();
    let mut i: usize = 0;
    assert(more@ =~= kept(before.take(0), wanted).map_values(moved));
    while i < tags.len()
        invariant
            i <= tags@.len(),
            tags@ == before,
            wanted == (|t: ItemTag| t.item_id == source),
            moved == (|t: ItemTag| ItemTag { item_id: keep, tag_id: t.tag_id }),
            more@ == kept(before.take(i as int), wanted).map_values(moved),
        decreases tags@.len() - i,
    {
        let ghost now = before.take(i as int + 1);
        assert(now.drop_last() =~= before.take(i as int));
        assert(now.last() == before[i as int]);
        let ghost so_far = more@;
        if tags[i].item_id == source {
            more.push(ItemTag { item_id: keep, tag_id: tags[i].tag_id });
            assert(more@ =~= kept(now, wanted).map_values(moved));
        }
        i += 1;
    }
    assert(before.take(before.len() as int) =~= before);
    add_tags(tags, &more);
    let ghost model = |t: ItemTag| t.item_id != source;
    let stays = |t: &ItemTag| -> (b: bool)
        ensures
            b == model(t@),
        { t.item_id != source };
    proof {
        lemma_plain_tags(tags@);
    }
    keep_rows(tags, stays, Ghost(model));
    proof {
        lemma_plain_tags(tags@);
    }
}

/// Favorites with one more, where the item is no favorite yet.
pub open spec fn with_favorite(favorites: Seq<Favorite>, favorite: Favorite) -> Seq<Favorite> {
    if first(favorites, |f: Favorite| f.item_id == favorite.item_id) is Some {
        favorites
    } else {
        favorites.push(favorite)
    }
}

/// Favorites with the favorites of an item for another item.
pub open spec fn with_favorites(favorites: Seq<Favorite>, more: Seq<Favorite>, keep: i64) -> Seq<
    Favorite,
>
    decreases more.len(),
{
    if more.len() == 0 {
        favorites
    } else {
        with_favorite(
            with_favorites(favorites, more.drop_last(), keep),
            Favorite { item_id: keep, created: more.last().created },
        )
    }
}

/// What becomes of the favorites when an item is merged: the other item is a
/// favorite if one of the two was, since its own time where it was one.
pub open spec fn favorites_moved(favorites: Seq<Favorite>, source: i64, keep: i64) -> Seq<Favorite> {
    kept(
        with_favorites(favorites, kept(favorites, |f: Favorite| f.item_id == source), keep),
        |f: Favorite| f.item_id != source,
    )
}

/// Moves the favorite of an item to another.
fn move_favorites(favorites: &mut Vec<Favorite>, source: i64, keep: i64)
    ensures
        views(final(favorites)@) == favorites_moved(views(old(favorites)@), source, keep),
{
    let ghost before = views(favorites@);
    let n = favorites.len();
    let ghost wanted = |f: Favorite| f.item_id == source;
    let ghost taken = |f: Favorite| f.item_id == keep;
    let mut i: usize = 0;
    assert(before.take(0) =~= Seq::<Favorite>::empty());
    while i < n
        invariant
            i <= n <= favorites@.len(),
            n == before.len(),
            wanted == (|f: Favorite| f.item_id == source),
            taken == (|f: Favorite| f.item_id == keep),
            forall|j: int| 0 <= j < n ==> #[trigger] favorites@[j] == before[j],
            views(favorites@) == with_favorites(
                before,
                kept(before.take(i as int), wanted),
                keep,
            ),
        decreases n - i,
    {
        let row = favorites[i];
        proof {
            assert(before.take(i as int + 1).drop_last() =~= before.take(i as int));
            assert(before.take(i as int + 1).last() == row);
        }
        if row.item_id == source {
            let ghost so_far = kept(before.take(i as int), wanted);
            let ghost table = views(favorites@);
            assert(so_far.push(row).drop_last() =~= so_far);
            let is_keep = |f: &Favorite| -> (b: bool)
                ensures
                    b == taken(f@),
                { f.item_id == keep };
            let found = find_row(favorites, is_keep, Ghost(taken));
            let more = Favorite { item_id: keep, created: row.created };
            assert(with_favorite(table, more) == if first(table, taken) is Some {
                table
            } else {
                table.push(more)
            });
            if found.is_none() {
                favorites.push(more);
                assert(views(favorites@) =~= table.push(more));
            }
        }
        i += 1;
    }
    assert(before.take(before.len() as int) =~= before);
    let ghost model = |f: Favorite| f.item_id != source;
    let stays = |f: &Favorite| -> (b: bool)
        ensures
            b == model(f@),
        { f.item_id != source };
    keep_rows(favorites, stays, Ghost(model));
}

/// An item where another item stood.
pub open spec fn repointed(id: Option<i64>, source: i64, target: i64) -> Option<i64> {
    if id == Some(source) {
        Some(target)
    } else {
        id
    }
}

/// An item where another item stood.
pub fn repoint(id: Option<i64>, source: i64, target: i64) -> (r: Option<i64>)
    ensures
        r == repointed(id, source, target),
{
    match id {
        Some(n) => if n == source {
            Some(target)
        } else {
            Some(n)
        },
        None => None,
    }
}

/// What becomes of the recognition results when an item is merged: the result of
/// the other item stays, and where it has none it gets the one of the merged item.
pub open spec fn recognitions_moved(rows: Seq<Recognition>, source: i64, keep: i64) -> Seq<
    Recognition,
> {
    if first(rows, |r: Recognition| r.item_id == source) is None {
        rows
    } else if first(rows, |r: Recognition| r.item_id == keep) is Some {
        kept(rows, |r: Recognition| r.item_id != source)
    } else {
        rows.map_values(
            |r: Recognition|
                if r.item_id == source {
                    Recognition { item_id: keep, ..r }
                } else {
                    r
                },
        )
    }
}

/// Moves the recognition result of an item to another.
fn move_recognitions(rows: &mut Vec<Recognition>, source: i64, keep: i64)
    ensures
        views(final(rows)@) == recognitions_moved(views(old(rows)@), source, keep),
{
    let ghost is_source = |r: Recognition| r.item_id == source;
    let ghost is_keep = |r: Recognition| r.item_id == keep;
    let at_source = |r: &Recognition| -> (b: bool)
        ensures
            b == is_source(r@),
        { r.item_id == source };
    let at_keep = |r: &Recognition| -> (b: bool)
        ensures
            b == is_keep(r@),
        { r.item_id == keep };
    if find_row(rows, at_source, Ghost(is_source)).is_none() {
        return;
    }
    if find_row(rows, at_keep, Ghost(is_keep)).is_some() {
        let ghost model = |r: Recognition| r.item_id != source;
        let stays = |r: &Recognition| -> (b: bool)
            ensures
                b == model(r@),
            { r.item_id != source };
        keep_rows(rows, stays, Ghost(model));
    } else {
        let ghost model = |r: Recognition|
            if r.item_id == source {
                Recognition { item_id: keep, ..r }
            } else {
                r
            };
        let change = |r: &Recognition| -> (o: Recognition)
            ensures
                o@ == model(r@),
            {
                if r.item_id == source {
                    Recognition { item_id: keep, content: r.content }
                } else {
                    *r
                }
            };
        *rows = map_rows(rows, change, Ghost(model));
    }
}

/// Which side of a record changes.
#[derive(Clone, Copy, PartialEq, Eq, Debug, Structural)]
pub enum Side {
    /// The item.
    Item,
    /// The artist.
    Artist,
}

/// That one item or artist takes the place of another.
#[derive(Clone, Copy, PartialEq, Eq, Debug, Structural)]
pub struct Shift {
    /// Whether it is an item or an artist.
    pub side: Side,
    /// What is replaced.
    pub source: i64,
    /// What takes its place.
    pub target: i64,
}

/// Whether a reference is concerned.
pub open spec fn concerns_reference(shift: Shift) -> spec_fn(ArtistReference) -> bool {
    |r: ArtistReference|
        match shift.side {
            Side::Item => r.item_id == Some(shift.source),
            Side::Artist => r.artist_id == shift.source,
        }
}

/// A reference with the new item or artist.
pub open spec fn shifted_reference(r: ArtistReference, shift: Shift) -> ArtistReference {
    match shift.side {
        Side::Item => ArtistReference { item_id: Some(shift.target), ..r },
        Side::Artist => ArtistReference { artist_id: shift.target, ..r },
    }
}

/// Whether a reference is another one for the same artist and item. Detached
/// references never are.
pub open spec fn rivals(moved: ArtistReference) -> spec_fn(ArtistReference) -> bool {
    |r: ArtistReference|
        moved.item_id is Some && r.id != moved.id && r.artist_id == moved.artist_id && r.item_id
            == moved.item_id
}

/// Whether a reference is newer than another.
pub open spec fn newer(a: ArtistReference, b: ArtistReference) -> bool {
    a.created > b.created || (a.created == b.created && a.id > b.id)
}

/// The references when one of them changes its item or artist: where there is a
/// rival it takes over the newer content, and the moved reference is dropped.
pub open spec fn reference_moved(
    refs: Seq<ArtistReference>,
    row: ArtistReference,
    shift: Shift,
) -> Seq<ArtistReference> {
    match first(refs, rivals(shifted_reference(row, shift))) {
        Some(rival) => kept(
            if newer(row, rival) {
                refs.map_values(
                    |r: ArtistReference|
                        if r.id == rival.id {
                            ArtistReference { created: row.created, content: row.content, ..r }
                        } else {
                            r
                        },
                )
            } else {
                refs
            },
            |r: ArtistReference| r.id != row.id,
        ),
        None => refs.map_values(
            |r: ArtistReference|
                if r.id == row.id {
                    shifted_reference(r, shift)
                } else {
                    r
                },
        ),
    }
}

/// The suggestions when a reference changes its item or artist: those that were
/// found by a dropped reference point to its rival.
pub open spec fn matches_moved(
    suggestions: Seq<ArtistSuggestion>,
    refs: Seq<ArtistReference>,
    row: ArtistReference,
    shift: Shift,
) -> Seq<ArtistSuggestion> {
    match first(refs, rivals(shifted_reference(row, shift))) {
        Some(rival) => suggestions.map_values(
            |s: ArtistSuggestion|
                ArtistSuggestion { matched_ref: repointed(s.matched_ref, row.id, rival.id), ..s },
        ),
        None => suggestions,
    }
}

/// The references and suggestions when references change their item or artist,
/// one after the other.
pub open spec fn references_moved(
    refs: Seq<ArtistReference>,
    suggestions: Seq<ArtistSuggestion>,
    rows: Seq<ArtistReference>,
    shift: Shift,
) -> (Seq<ArtistReference>, Seq<ArtistSuggestion>)
    decreases rows.len(),
{
    if rows.len() == 0 {
        (refs, suggestions)
    } else {
        let (r, s) = references_moved(refs, suggestions, rows.drop_last(), shift);
        (reference_moved(r, rows.last(), shift), matches_moved(s, r, rows.last(), shift))
    }
}

/// A reference with the new item or artist.
fn shift_reference(r: ArtistReference, shift: Shift) -> (o: ArtistReference)
    ensures
        o == shifted_reference(r, shift),
{
    match shift.side {
        Side::Item => ArtistReference {
            id: r.id,
            artist_id: r.artist_id,
            item_id: Some(shift.target),
            created: r.created,
            content: r.content,
        },
        Side::Artist => ArtistReference {
            id: r.id,
            artist_id: shift.target,
            item_id: r.item_id,
            created: r.created,
            content: r.content,
        },
    }
}

/// Changes the item or artist of one reference.
fn move_reference(
    refs: &mut Vec<ArtistReference>,
    suggestions: &mut Vec<ArtistSuggestion>,
    row: ArtistReference,
    shift: Shift,
)
    ensures
        views(final(refs)@) == reference_moved(views(old(refs)@), row, shift),
        views(final(suggestions)@) == matches_moved(
            views(old(suggestions)@),
            views(old(refs)@),
            row,
            shift,
        ),
{
    let moved = shift_reference(row, shift);
    let ghost rival_model = rivals(moved);
    let is_rival = |r: &ArtistReference| -> (b: bool)
        ensures
            b == rival_model(r@),
        {
            moved.item_id.is_some() && r.id != moved.id && r.artist_id == moved.artist_id
                && r.item_id == moved.item_id
        };
    match find_row(refs, is_rival, Ghost(rival_model)) {
        Some(i) => {
            let rival = refs[i];
            if row.created > rival.created || (row.created == rival.created && row.id > rival.id) {
                let ghost model = |r: ArtistReference|
                    if r.id == rival.id {
                        ArtistReference { created: row.created, content: row.content, ..r }
                    } else {
                        r
                    };
                let change = |r: &ArtistReference| -> (o: ArtistReference)
                    ensures
                        o@ == model(r@),
                    {
                        if r.id == rival.id {
                            ArtistReference {
                                id: r.id,
                                artist_id: r.artist_id,
                                item_id: r.item_id,
                                created: row.created,
                                content: row.content,
                            }
                        } else {
                            *r
                        }
                    };
                *refs = map_rows(refs, change, Ghost(model));
            }
            let ghost model = |r: ArtistReference| r.id != row.id;
            let stays = |r: &ArtistReference| -> (b: bool)
                ensures
                    b == model(r@),
                { r.id != row.id };
            keep_rows(refs, stays, Ghost(model));
            let ghost model = |s: ArtistSuggestion|
                ArtistSuggestion { matched_ref: repointed(s.matched_ref, row.id, rival.id), ..s };
            let change = |s: &ArtistSuggestion| -> (o: ArtistSuggestion)
                ensures
                    o@ == model(s@),
                {
                    ArtistSuggestion {
                        id: s.id,
                        item_id: s.item_id,
                        artist_id: s.artist_id,
                        priority: s.priority,
                        content: s.content,
                        matched_ref: repoint(s.matched_ref, row.id, rival.id),
                    }
                };
            *suggestions = map_rows(suggestions, change, Ghost(model));
        },
        None => {
            let ghost model = |r: ArtistReference|
                if r.id == row.id {
                    shifted_reference(r, shift)
                } else {
                    r
                };
            let change = |r: &ArtistReference| -> (o: ArtistReference)
                ensures
                    o@ == model(r@),
                {
                    if r.id == row.id {
                        shift_reference(*r, shift)
                    } else {
                        *r
                    }
                };
            *refs = map_rows(refs, change, Ghost(model));
        },
    }
}

/// Replaces an item or an artist in the references. Where two references then
/// stand for the same artist and item, the newer content stays, and what was
/// found by the dropped one counts as found by the other.
pub fn repoint_artist_references(
    refs: &mut Vec<ArtistReference>,
    suggestions: &mut Vec<ArtistSuggestion>,
    shift: Shift,
)
    ensures
        (views(final(refs)@), views(final(suggestions)@)) == references_moved(
            views(old(refs)@),
            views(old(suggestions)@),
            kept(views(old(refs)@), concerns_reference(shift)),
            shift,
        ),
{
    let ghost all = views(refs@);
    let ghost all_suggestions = views(suggestions@);
    let ghost concerned = concerns_reference(shift);
    let mut rows: Vec<ArtistReference> = refs.clone();
    assert(views(rows@) =~= all);
    let is_concerned = |r: &ArtistReference| -> (b: bool)
        ensures
            b == concerned(r@),
        {
            match shift.side {
                Side::Item => match r.item_id {
                    Some(n) => n == shift.source,
                    None => false,
                },
                Side::Artist => r.artist_id == shift.source,
            }
        };
    keep_rows(&mut rows, is_concerned, Ghost(concerned));
    let ghost selected = views(rows@);
    let mut i: usize = 0;
    assert(selected.take(0) =~= Seq::<ArtistReference>::empty());
    while i < rows.len()
        invariant
            i <= rows@.len(),
            selected == views(rows@),
            (views(refs@), views(suggestions@)) == references_moved(
                all,
                all_suggestions,
                selected.take(i as int),
                shift,
            ),
        decreases rows@.len() - i,
    {
        assert(selected.take(i as int + 1).drop_last() =~= selected.take(i as int));
        assert(selected.take(i as int + 1).last() == rows@[i as int]);
        move_reference(refs, suggestions, rows[i], shift);
        i += 1;
    }
    assert(selected.take(selected.len() as int) =~= selected);
}

/// How much a decision on a suggestion weighs: what a user said weighs more than
/// what was computed.
pub open spec fn status_priority(status: Seq<char>) -> int {
    if status == "confirmed"@ {
        3
    } else if status == "rejected"@ {
        2
    } else if status == "pending"@ || status == "suggested"@ {
        1
    } else {
        0
    }
}

/// How much a decision on a suggestion weighs.
pub fn suggestion_status_priority(status: &str) -> (r: i64)
    ensures
        r == status_priority(status@),
{
    if same_text(status, "confirmed") {
        3
    } else if same_text(status, "rejected") {
        2
    } else if same_text(status, "pending") || same_text(status, "suggested") {
        1
    } else {
        0
    }
}

/// Whether a suggestion is concerned.
pub open spec fn concerns_suggestion(shift: Shift) -> spec_fn(ArtistSuggestion) -> bool {
    |s: ArtistSuggestion|
        match shift.side {
            Side::Item => s.item_id == Some(shift.source),
            Side::Artist => s.artist_id == Some(shift.source),
        }
}

/// A suggestion with the new item or artist.
pub open spec fn shifted_suggestion(s: ArtistSuggestion, shift: Shift) -> ArtistSuggestion {
    match shift.side {
        Side::Item => ArtistSuggestion { item_id: Some(shift.target), ..s },
        Side::Artist => ArtistSuggestion { artist_id: Some(shift.target), ..s },
    }
}

/// Whether a suggestion is for the same item and artist as another.
pub open spec fn same_place(of: ArtistSuggestion) -> spec_fn(ArtistSuggestion) -> bool {
    |s: ArtistSuggestion| s.item_id == of.item_id && s.artist_id == of.artist_id
}

/// The suggestion that a moved suggestion meets: none where the item or the
/// artist is not known.
pub open spec fn met(suggestions: Seq<ArtistSuggestion>, moved: ArtistSuggestion) -> Option<
    ArtistSuggestion,
> {
    if moved.item_id is Some && moved.artist_id is Some {
        first(suggestions, same_place(moved))
    } else {
        None
    }
}

/// The suggestions when one of them changes its item or artist: where it meets
/// another, the weightier decision stays there, the one that was there first on
/// equal weight, and the moved suggestion is dropped.
pub open spec fn suggestion_moved(
    suggestions: Seq<ArtistSuggestion>,
    row: ArtistSuggestion,
    shift: Shift,
) -> Seq<ArtistSuggestion> {
    let moved = shifted_suggestion(row, shift);
    match met(suggestions, moved) {
        Some(other) => kept(
            if row.priority > other.priority {
                suggestions.map_values(
                    |s: ArtistSuggestion|
                        if same_place(moved)(s) {
                            ArtistSuggestion {
                                priority: row.priority,
                                content: row.content,
                                matched_ref: row.matched_ref,
                                ..s
                            }
                        } else {
                            s
                        },
                )
            } else {
                suggestions
            },
            |s: ArtistSuggestion| !same_place(row)(s),
        ),
        None => suggestions.map_values(
            |s: ArtistSuggestion|
                if same_place(row)(s) {
                    shifted_suggestion(s, shift)
                } else {
                    s
                },
        ),
    }
}

/// The suggestions when suggestions change their item or artist, one after the
/// other.
pub open spec fn suggestions_moved(
    suggestions: Seq<ArtistSuggestion>,
    rows: Seq<ArtistSuggestion>,
    shift: Shift,
) -> Seq<ArtistSuggestion>
    decreases rows.len(),
{
    if rows.len() == 0 {
        suggestions
    } else {
        suggestion_moved(
            suggestions_moved(suggestions, rows.drop_last(), shift),
            rows.last(),
            shift,
        )
    }
}

/// A suggestion with the new item or artist.
fn shift_suggestion(s: ArtistSuggestion, shift: Shift) -> (o: ArtistSuggestion)
    ensures
        o == shifted_suggestion(s, shift),
{
    match shift.side {
        Side::Item => ArtistSuggestion {
            id: s.id,
            item_id: Some(shift.target),
            artist_id: s.artist_id,
            priority: s.priority,
            content: s.content,
            matched_ref: s.matched_ref,
        },
        Side::Artist => ArtistSuggestion {
            id: s.id,
            item_id: s.item_id,
            artist_id: Some(shift.target),
            priority: s.priority,
            content: s.content,
            matched_ref: s.matched_ref,
        },
    }
}

/// Changes the item or artist of one suggestion.
fn move_suggestion(suggestions: &mut Vec<ArtistSuggestion>, row: ArtistSuggestion, shift: Shift)
    ensures
        views(final(suggestions)@) == suggestion_moved(views(old(suggestions)@), row, shift),
{
    let moved = shift_suggestion(row, shift);
    let ghost there = same_place(moved);
    let ghost here = same_place(row);
    let is_there = |s: &ArtistSuggestion| -> (b: bool)
        ensures
            b == there(s@),
        { s.item_id == moved.item_id && s.artist_id == moved.artist_id };
    let is_known = moved.item_id.is_some() && moved.artist_id.is_some();
    let found = if is_known {
        find_row(suggestions, is_there, Ghost(there))
    } else {
        None
    };
    match found {
        Some(i) => {
            let other = suggestions[i];
            if row.priority > other.priority {
                let ghost model = |s: ArtistSuggestion|
                    if same_place(moved)(s) {
                        ArtistSuggestion {
                            priority: row.priority,
                            content: row.content,
                            matched_ref: row.matched_ref,
                            ..s
                        }
                    } else {
                        s
                    };
                let change = |s: &ArtistSuggestion| -> (o: ArtistSuggestion)
                    ensures
                        o@ == model(s@),
                    {
                        if s.item_id == moved.item_id && s.artist_id == moved.artist_id {
                            ArtistSuggestion {
                                id: s.id,
                                item_id: s.item_id,
                                artist_id: s.artist_id,
                                priority: row.priority,
                                content: row.content,
                                matched_ref: row.matched_ref,
                            }
                        } else {
                            *s
                        }
                    };
                *suggestions = map_rows(suggestions, change, Ghost(model));
            }
            let ghost model = |s: ArtistSuggestion| !same_place(row)(s);
            let stays = |s: &ArtistSuggestion| -> (b: bool)
                ensures
                    b == model(s@),
                { !(s.item_id == row.item_id && s.artist_id == row.artist_id) };
            keep_rows(suggestions, stays, Ghost(model));
        },
        None => {
            let ghost model = |s: ArtistSuggestion|
                if same_place(row)(s) {
                    shifted_suggestion(s, shift)
                } else {
                    s
                };
            let change = |s: &ArtistSuggestion| -> (o: ArtistSuggestion)
                ensures
                    o@ == model(s@),
                {
                    if s.item_id == row.item_id && s.artist_id == row.artist_id {
                        shift_suggestion(*s, shift)
                    } else {
                        *s
                    }
                };
            *suggestions = map_rows(suggestions, change, Ghost(model));
        },
    }
}

/// Replaces an item or an artist in the suggestions. Where two suggestions then
/// stand for the same item and artist, the weightier decision stays.
pub fn repoint_artist_suggestions(suggestions: &mut Vec<ArtistSuggestion>, shift: Shift)
    ensures
        views(final(suggestions)@) == suggestions_moved(
            views(old(suggestions)@),
            kept(views(old(suggestions)@), concerns_suggestion(shift)),
            shift,
        ),
{
    let ghost all = views(suggestions@);
    let ghost concerned = concerns_suggestion(shift);
    let mut rows: Vec<ArtistSuggestion> = suggestions.clone();
    assert(views(rows@) =~= all);
    let is_concerned = |s: &ArtistSuggestion| -> (b: bool)
        ensures
            b == concerned(s@),
        {
            let id = match shift.side {
                Side::Item => s.item_id,
                Side::Artist => s.artist_id,
            };
            match id {
                Some(n) => n == shift.source,
                None => false,
            }
        };
    keep_rows(&mut rows, is_concerned, Ghost(concerned));
    let ghost selected = views(rows@);
    let mut i: usize = 0;
    assert(selected.take(0) =~= Seq::<ArtistSuggestion>::empty());
    while i < rows.len()
        invariant
            i <= rows@.len(),
            selected == views(rows@),
            views(suggestions@) == suggestions_moved(all, selected.take(i as int), shift),
        decreases rows@.len() - i,
    {
        assert(selected.take(i as int + 1).drop_last() =~= selected.take(i as int));
        assert(selected.take(i as int + 1).last() == rows@[i as int]);
        move_suggestion(suggestions, rows[i], shift);
        i += 1;
    }
    assert(selected.take(selected.len() as int) =~= selected);
}

/// What becomes of the documents when an item is merged: the document of the
/// other item stays and that of the merged item is dropped; where the other item
/// has none, the document gets the item, artist and path of that item.
pub open spec fn documents_moved(
    documents: Seq<DocumentView>,
    items: Seq<ItemView>,
    source: i64,
    keep: i64,
) -> Seq<DocumentView> {
    match first(documents, |d: DocumentView| d.item_id == Some(source)) {
        None => documents,
        Some(document) => if first(documents, |d: DocumentView| d.item_id == Some(keep)) is Some {
            kept(documents, |d: DocumentView| d.id != document.id)
        } else {
            match first(items, |i: ItemView| i.id == keep) {
                None => documents,
                Some(item) => documents.map_values(
                    |d: DocumentView|
                        if d.id == document.id {
                            DocumentView {
                                item_id: Some(keep),
                                artist_id: item.artist_id,
                                path: item.path,
                                ..d
                            }
                        } else {
                            d
                        },
                ),
            }
        },
    }
}

/// Moves the document of an item to another.
fn move_documents(documents: &mut Vec<DocumentRow>, items: &Vec<ItemRow>, source: i64, keep: i64)
    ensures
        views(final(documents)@) == documents_moved(
            views(old(documents)@),
            views(items@),
            source,
            keep,
        ),
{
    let ghost of_source = |d: DocumentView| d.item_id == Some(source);
    let ghost of_keep = |d: DocumentView| d.item_id == Some(keep);
    let ghost is_keep = |i: ItemView| i.id == keep;
    let at_source = |d: &DocumentRow| -> (b: bool)
        ensures
            b == of_source(d@),
        {
            match d.item_id {
                Some(n) => n == source,
                None => false,
            }
        };
    let at_keep = |d: &DocumentRow| -> (b: bool)
        ensures
            b == of_keep(d@),
        {
            match d.item_id {
                Some(n) => n == keep,
                None => false,
            }
        };
    let kept_item = |i: &ItemRow| -> (b: bool)
        ensures
            b == is_keep(i@),
        { i.id == keep };
    let document_id: i64 = match find_row(documents, at_source, Ghost(of_source)) {
        Some(i) => documents[i].id,
        None => {
            return;
        },
    };
    if find_row(documents, at_keep, Ghost(of_keep)).is_some() {
        let ghost model = |d: DocumentView| d.id != document_id;
        let stays = |d: &DocumentRow| -> (b: bool)
            ensures
                b == model(d@),
            { d.id != document_id };
        keep_rows(documents, stays, Ghost(model));
        return;
    }
    match find_row(items, kept_item, Ghost(is_keep)) {
        None => {},
        Some(k) => {
            let artist_id: i64 = items[k].artist_id;
            let path = items[k].path.clone();
            let ghost model = |d: DocumentView|
                if d.id == document_id {
                    DocumentView { item_id: Some(keep), artist_id, path: path@, ..d }
                } else {
                    d
                };
            let change = |d: &DocumentRow| -> (o: DocumentRow)
                ensures
                    o@ == model(d@),
                {
                    if d.id == document_id {
                        DocumentRow {
                            id: d.id,
                            artist_id,
                            item_id: Some(keep),
                            path: path.clone(),
                        }
                    } else {
                        d.duplicate()
                    }
                };
            *documents = map_rows(documents, change, Ghost(model));
        },
    }
}

/// Whether an item is there and its file is not gone.
pub open spec fn active_item(items: Seq<ItemView>, id: i64) -> bool {
    first(items, |i: ItemView| i.id == id && !i.missing) is Some
}

/// Whether an item is there and its file is not gone.
fn is_active_item(items: &Vec<ItemRow>, id: i64) -> (r: bool)
    ensures
        r == active_item(views(items@), id),
{
    let ghost model = |i: ItemView| i.id == id && !i.missing;
    let wanted = |i: &ItemRow| -> (b: bool)
        ensures
            b == model(i@),
        { i.id == id && !i.missing };
    find_row(items, wanted, Ghost(model)).is_some()
}

/// The items with another artist for one of them, where one is given.
pub open spec fn item_assigned(items: Seq<ItemView>, id: i64, artist: Option<i64>) -> Seq<ItemView> {
    match artist {
        None => items,
        Some(a) => items.map_values(
            |i: ItemView|
                if i.id == id {
                    ItemView { artist_id: a, ..i }
                } else {
                    i
                },
        ),
    }
}

/// What becomes of the items when one is merged into another: the other belongs
/// to the given artist, and is there and has no time of going if one of the two was there.
pub open spec fn items_joined(
    items: Seq<ItemView>,
    source: i64,
    keep: i64,
    artist: Option<i64>,
) -> Seq<ItemView> {
    let assigned = item_assigned(items, keep, artist);
    if active_item(assigned, source) || active_item(assigned, keep) {
        assigned.map_values(
            |i: ItemView|
                if i.id == keep {
                    ItemView { missing: false, missing_at: None, ..i }
                } else {
                    i
                },
        )
    } else {
        assigned
    }
}

/// Joins two items.
fn join_items(items: &mut Vec<ItemRow>, source: i64, keep: i64, artist: Option<i64>)
    ensures
        views(final(items)@) == items_joined(views(old(items)@), source, keep, artist),
{
    match artist {
        None => {},
        Some(a) => {
            let ghost model = |i: ItemView|
                if i.id == keep {
                    ItemView { artist_id: a, ..i }
                } else {
                    i
                };
            let change = |i: &ItemRow| -> (o: ItemRow)
                ensures
                    o@ == model(i@),
                {
                    let mut row = i.duplicate();
                    if i.id == keep {
                        row.artist_id = a;
                    }
                    row
                };
            *items = map_rows(items, change, Ghost(model));
        },
    }
    if is_active_item(items, source) || is_active_item(items, keep) {
        let ghost model = |i: ItemView|
            if i.id == keep {
                ItemView { missing: false, missing_at: None, ..i }
            } else {
                i
            };
        let change = |i: &ItemRow| -> (o: ItemRow)
            ensures
                o@ == model(i@),
            {
                let mut row = i.duplicate();
                if i.id == keep {
                    row.missing = false;
                    row.missing_at = None;
                }
                row
            };
        *items = map_rows(items, change, Ghost(model));
    }
}

/// The moves with another item for one.
pub open spec fn moves_repointed(moves: Seq<MoveView>, source: i64, keep: i64) -> Seq<MoveView> {
    moves.map_values(
        |m: MoveView| MoveView { item_id: repointed(m.item_id, source, keep), ..m },
    )
}

/// Replaces an item in moves.
fn repoint_moves(moves: &mut Vec<MoveRow>, source: i64, keep: i64)
    ensures
        views(final(moves)@) == moves_repointed(views(old(moves)@), source, keep),
{
    let ghost model = |m: MoveView| MoveView { item_id: repointed(m.item_id, source, keep), ..m };
    let change = |m: &MoveRow| -> (o: MoveRow)
        ensures
            o@ == model(m@),
        {
            let mut row = m.duplicate();
            row.item_id = repoint(m.item_id, source, keep);
            row
        };
    *moves = map_rows(moves, change, Ghost(model));
}

/// The references of characters with another item for one.
pub open spec fn characters_repointed(
    rows: Seq<CharacterReference>,
    source: i64,
    keep: i64,
) -> Seq<CharacterReference> {
    rows.map_values(
        |c: CharacterReference|
            CharacterReference { item_id: repointed(c.item_id, source, keep), ..c },
    )
}

/// Replaces an item in the references of characters.
fn repoint_characters(rows: &mut Vec<CharacterReference>, source: i64, keep: i64)
    ensures
        views(final(rows)@) == characters_repointed(views(old(rows)@), source, keep),
{
    let ghost model = |c: CharacterReference|
        CharacterReference { item_id: repointed(c.item_id, source, keep), ..c };
    let change = |c: &CharacterReference| -> (o: CharacterReference)
        ensures
            o@ == model(c@),
        { CharacterReference { id: c.id, item_id: repoint(c.item_id, source, keep) } };
    *rows = map_rows(rows, change, Ghost(model));
}

/// That an item takes the place of another.
pub open spec fn item_shift(source: i64, keep: i64) -> Shift {
    Shift { side: Side::Item, source, target: keep }
}

/// What merging an item into another leaves. The merged item itself is still
/// there, without records of its own.
pub open spec fn item_merged(l: LibraryView, source: i64, keep: i64, artist: Option<i64>) -> LibraryView {
    let shift = item_shift(source, keep);
    let items = items_joined(l.items, source, keep, artist);
    let (references, matched) = references_moved(
        l.references,
        l.suggestions,
        kept(l.references, concerns_reference(shift)),
        shift,
    );
    LibraryView {
        items,
        item_tags: tags_moved(l.item_tags, source, keep),
        favorites: favorites_moved(l.favorites, source, keep),
        character_references: characters_repointed(l.character_references, source, keep),
        recognitions: recognitions_moved(l.recognitions, source, keep),
        move_candidates: moves_repointed(l.move_candidates, source, keep),
        move_history: moves_repointed(l.move_history, source, keep),
        references,
        suggestions: suggestions_moved(matched, kept(matched, concerns_suggestion(shift)), shift),
        documents: documents_moved(l.documents, items, source, keep),
        ..l
    }
}

/// Merges every record of an item into another item. With an artist given, the
/// other item belongs to that artist from then on.
pub fn merge_item_into(library: &mut Library, source: i64, keep: i64, artist: Option<i64>)
    ensures
        final(library)@ == item_merged(old(library)@, source, keep, artist),
{
    let shift = Shift { side: Side::Item, source, target: keep };
    join_items(&mut library.items, source, keep, artist);
    proof {
        lemma_plain_tags(library.item_tags@);
    }
    move_tags(&mut library.item_tags, source, keep);
    proof {
        lemma_plain_tags(library.item_tags@);
    }
    move_favorites(&mut library.favorites, source, keep);
    repoint_characters(&mut library.character_references, source, keep);
    move_recognitions(&mut library.recognitions, source, keep);
    repoint_moves(&mut library.move_candidates, source, keep);
    repoint_moves(&mut library.move_history, source, keep);
    repoint_artist_references(&mut library.references, &mut library.suggestions, shift);
    repoint_artist_suggestions(&mut library.suggestions, shift);
    move_documents(&mut library.documents, &library.items, source, keep);
}

/// Of two items that are merged the kept one is there and has no time of going, if one of
/// them was there; else its marks are as they were. It belongs to the given artist, and
/// nothing else of it changes.
pub proof fn joined_items_are_there(
    items: Seq<ItemView>,
    source: i64,
    keep: i64,
    artist: Option<i64>,
    i: int,
)
    requires
        0 <= i < items.len(),
        items[i].id == keep,
    ensures
        items_joined(items, source, keep, artist).len() == items.len(),
        ({
            let found = exists|j: int|
                0 <= j < items.len() && ((#[trigger] items[j]).id == source || items[j].id == keep)
                    && !items[j].missing;
            items_joined(items, source, keep, artist)[i] == ItemView {
                artist_id: match artist {
                    Some(a) => a,
                    None => items[i].artist_id,
                },
                missing: items[i].missing && !found,
                missing_at: if found {
                    None
                } else {
                    items[i].missing_at
                },
                ..items[i]
            }
        }),
{
    let assigned = item_assigned(items, keep, artist);
    let of_source = |i: ItemView| i.id == source && !i.missing;
    let of_keep = |i: ItemView| i.id == keep && !i.missing;
    crate::tables::lemma_first(assigned, of_source);
    crate::tables::lemma_first(assigned, of_keep);
    assert forall|j: int| 0 <= j < items.len() implies (#[trigger] assigned[j]).id == items[j].id
        && assigned[j].missing == items[j].missing by {}
    if first(assigned, of_source) is Some {
        let j = assigned.index_of(first(assigned, of_source)->Some_0);
        assert(of_source(assigned[j]) && items[j].id == source);
    }
    if first(assigned, of_keep) is Some {
        let j = assigned.index_of(first(assigned, of_keep)->Some_0);
        assert(of_keep(assigned[j]) && items[j].id == keep);
    }
    if !active_item(assigned, source) && !active_item(assigned, keep) {
        assert forall|j: int|
            0 <= j < items.len() && ((#[trigger] items[j]).id == source || items[j].id
                == keep) implies items[j].missing by {
            assert(!of_source(assigned[j]) && !of_keep(assigned[j]));
        }
    }
}

/// Adding rows adds exactly those.
pub(crate) proof fn lemma_with_tags(tags: Seq<ItemTag>, more: Seq<ItemTag>, tag: ItemTag)
    ensures
        with_tags(tags, more).contains(tag) <==> tags.contains(tag) || more.contains(tag),
    decreases more.len(),
{
    if more.len() > 0 {
        let d = more.drop_last();
        let before = with_tags(tags, d);
        lemma_with_tags(tags, d, tag);
        let now = with_tags(tags, more);
        if before.contains(tag) {
            let i = before.index_of(tag);
            assert(now[i] == tag);
        }
        if d.contains(tag) {
            let i = d.index_of(tag);
            assert(more[i] == tag);
        }
        if more.contains(tag) {
            let i = more.index_of(tag);
            if i < d.len() {
                assert(d[i] == tag);
            } else if !before.contains(tag) {
                assert(now[before.len() as int] == tag);
            }
        }
        if tag == more.last() {
            assert(more[more.len() - 1] == tag);
        }
        if now.contains(tag) && !before.contains(tag) {
            let i = now.index_of(tag);
            if i < before.len() {
                assert(before[i] == tag);
            }
        }
    }
}

/// Merging an item loses no tag: the kept item has the tags of both, the merged
/// one has none, and every other item keeps its own.
pub proof fn merging_keeps_tags(tags: Seq<ItemTag>, source: i64, keep: i64, tag: ItemTag)
    requires
        source != keep,
    ensures
        tags_moved(tags, source, keep).contains(tag) <==> tag.item_id != source && (tags.contains(
            tag,
        ) || (tag.item_id == keep && tags.contains(ItemTag { item_id: source, ..tag }))),
{
    let of_source = |t: ItemTag| t.item_id == source;
    let renamed = |t: ItemTag| ItemTag { item_id: keep, tag_id: t.tag_id };
    let mine = kept(tags, of_source);
    let more = mine.map_values(renamed);
    let all = with_tags(tags, more);
    let stays = |t: ItemTag| t.item_id != source;
    crate::tables::lemma_kept(tags, of_source);
    crate::tables::lemma_kept(all, stays);
    lemma_with_tags(tags, more, tag);
    let other = ItemTag { item_id: source, ..tag };
    if tag.item_id == keep && tags.contains(other) {
        assert(mine.contains(other));
        let i = mine.index_of(other);
        assert(more[i] == tag);
    }
    if more.contains(tag) {
        let i = more.index_of(tag);
        assert(mine[i] == other);
        assert(of_source(mine[i]) && tags.contains(mine[i]));
    }
}

/// Changing references one by one leaves none with what was replaced.
proof fn lemma_references_moved(
    refs: Seq<ArtistReference>,
    suggestions: Seq<ArtistSuggestion>,
    n: int,
    shift: Shift,
)
    requires
        shift.source != shift.target,
        0 <= n <= kept(refs, concerns_reference(shift)).len(),
    ensures
        ({
            let selected = kept(refs, concerns_reference(shift));
            let now = references_moved(refs, suggestions, selected.take(n), shift).0;
            forall|i: int|
                #![trigger now[i]]
                0 <= i < now.len() && concerns_reference(shift)(now[i]) ==> (exists|k: int|
                    n <= k < selected.len() && (#[trigger] selected[k]).id == now[i].id) && (forall|
                    k: int,
                |
                    0 <= k < n ==> (#[trigger] selected[k]).id != now[i].id)
        }),
    decreases n,
{
    let concerned = concerns_reference(shift);
    let selected = kept(refs, concerned);
    let now = references_moved(refs, suggestions, selected.take(n), shift).0;
    if n == 0 {
        crate::tables::lemma_kept(refs, concerned);
        assert(selected.take(0) =~= Seq::<ArtistReference>::empty());
        assert forall|i: int|
            #![trigger now[i]]
            0 <= i < now.len() && concerned(now[i]) implies (exists|k: int|
            n <= k < selected.len() && (#[trigger] selected[k]).id == now[i].id) && (forall|k: int|
            0 <= k < n ==> (#[trigger] selected[k]).id != now[i].id) by {
            assert(refs[i] == now[i]);
            assert(selected.contains(now[i]));
            let k = selected.index_of(now[i]);
            assert(selected[k].id == now[i].id);
        }
    } else {
        lemma_references_moved(refs, suggestions, n - 1, shift);
        let before = references_moved(refs, suggestions, selected.take(n - 1), shift).0;
        let row = selected[n - 1];
        assert(selected.take(n).drop_last() =~= selected.take(n - 1));
        assert(selected.take(n).last() == row);
        lemma_reference_moved(before, row, shift);
        assert forall|i: int|
            #![trigger now[i]]
            0 <= i < now.len() && concerned(now[i]) implies (exists|k: int|
            n <= k < selected.len() && (#[trigger] selected[k]).id == now[i].id) && (forall|k: int|
            0 <= k < n ==> (#[trigger] selected[k]).id != now[i].id) by {
            let j = choose|j: int|
                0 <= j < before.len() && (#[trigger] before[j]).id == now[i].id && concerned(
                    before[j],
                );
            let k = choose|k: int|
                n - 1 <= k < selected.len() && (#[trigger] selected[k]).id == before[j].id;
            assert(k != n - 1);
            assert(selected[k].id == now[i].id);
        }
    }
}

/// Changing one reference leaves none with its id and what was replaced, and
/// every reference with what was replaced was one before.
proof fn lemma_reference_moved(refs: Seq<ArtistReference>, row: ArtistReference, shift: Shift)
    requires
        shift.source != shift.target,
    ensures
        ({
            let now = reference_moved(refs, row, shift);
            forall|i: int|
                #![trigger now[i]]
                0 <= i < now.len() && concerns_reference(shift)(now[i]) ==> now[i].id != row.id && (
                exists|j: int|
                    0 <= j < refs.len() && (#[trigger] refs[j]).id == now[i].id
                        && concerns_reference(shift)(refs[j]))
        }),
{
    let concerned = concerns_reference(shift);
    let now = reference_moved(refs, row, shift);
    match first(refs, rivals(shifted_reference(row, shift))) {
        Some(rival) => {
            let change = |r: ArtistReference|
                if r.id == rival.id {
                    ArtistReference { created: row.created, content: row.content, ..r }
                } else {
                    r
                };
            let table = if newer(row, rival) {
                refs.map_values(change)
            } else {
                refs
            };
            crate::tables::lemma_kept(table, |r: ArtistReference| r.id != row.id);
            assert forall|i: int|
                #![trigger now[i]]
                0 <= i < now.len() && concerned(now[i]) implies now[i].id != row.id && (exists|
                j: int,
            |
                0 <= j < refs.len() && (#[trigger] refs[j]).id == now[i].id && concerned(
                    refs[j],
                )) by {
                let j = table.index_of(now[i]);
                assert(table[j] == now[i]);
                assert(refs[j].id == now[i].id && concerned(refs[j]));
            }
        },
        None => {
            assert forall|i: int|
                #![trigger now[i]]
                0 <= i < now.len() && concerned(now[i]) implies now[i].id != row.id && (exists|
                j: int,
            |
                0 <= j < refs.len() && (#[trigger] refs[j]).id == now[i].id && concerned(
                    refs[j],
                )) by {
                assert(refs[i].id == now[i].id);
            }
        },
    }
}

/// Replacing an item or an artist in the references leaves no reference with
/// what was replaced.
pub proof fn moved_references_leave_nothing(
    refs: Seq<ArtistReference>,
    suggestions: Seq<ArtistSuggestion>,
    shift: Shift,
    i: int,
)
    requires
        shift.source != shift.target,
        0 <= i < references_moved(
            refs,
            suggestions,
            kept(refs, concerns_reference(shift)),
            shift,
        ).0.len(),
    ensures
        !concerns_reference(shift)(
            references_moved(refs, suggestions, kept(refs, concerns_reference(shift)), shift).0[i],
        ),
{
    let selected = kept(refs, concerns_reference(shift));
    lemma_references_moved(refs, suggestions, selected.len() as int, shift);
    assert(selected.take(selected.len() as int) =~= selected);
}

/// Changing one suggestion leaves none in its place, and every suggestion with
/// what was replaced was there before.
proof fn lemma_suggestion_moved(
    suggestions: Seq<ArtistSuggestion>,
    row: ArtistSuggestion,
    shift: Shift,
)
    requires
        shift.source != shift.target,
    ensures
        ({
            let now = suggestion_moved(suggestions, row, shift);
            forall|i: int|
                #![trigger now[i]]
                0 <= i < now.len() && concerns_suggestion(shift)(now[i]) ==> !same_place(row)(now[i])
                    && (exists|j: int|
                    0 <= j < suggestions.len() && same_place(now[i])(#[trigger] suggestions[j]))
        }),
{
    let concerned = concerns_suggestion(shift);
    let moved = shifted_suggestion(row, shift);
    let now = suggestion_moved(suggestions, row, shift);
    match met(suggestions, moved) {
        Some(other) => {
            let change = |s: ArtistSuggestion|
                if same_place(moved)(s) {
                    ArtistSuggestion {
                        priority: row.priority,
                        content: row.content,
                        matched_ref: row.matched_ref,
                        ..s
                    }
                } else {
                    s
                };
            let table = if row.priority > other.priority {
                suggestions.map_values(change)
            } else {
                suggestions
            };
            crate::tables::lemma_kept(table, |s: ArtistSuggestion| !same_place(row)(s));
            assert forall|i: int|
                #![trigger now[i]]
                0 <= i < now.len() && concerned(now[i]) implies !same_place(row)(now[i]) && (
            exists|j: int|
                0 <= j < suggestions.len() && same_place(now[i])(#[trigger] suggestions[j])) by {
                let j = table.index_of(now[i]);
                assert(table[j] == now[i]);
                assert(same_place(now[i])(suggestions[j]));
            }
        },
        None => {
            assert forall|i: int|
                #![trigger now[i]]
                0 <= i < now.len() && concerned(now[i]) implies !same_place(row)(now[i]) && (
            exists|j: int|
                0 <= j < suggestions.len() && same_place(now[i])(#[trigger] suggestions[j])) by {
                assert(same_place(now[i])(suggestions[i]));
            }
        },
    }
}

/// Changing suggestions one by one leaves none with what was replaced.
proof fn lemma_suggestions_moved(suggestions: Seq<ArtistSuggestion>, n: int, shift: Shift)
    requires
        shift.source != shift.target,
        0 <= n <= kept(suggestions, concerns_suggestion(shift)).len(),
    ensures
        ({
            let selected = kept(suggestions, concerns_suggestion(shift));
            let now = suggestions_moved(suggestions, selected.take(n), shift);
            forall|i: int|
                #![trigger now[i]]
                0 <= i < now.len() && concerns_suggestion(shift)(now[i]) ==> (exists|k: int|
                    n <= k < selected.len() && same_place(now[i])(#[trigger] selected[k])) && (
                forall|k: int| 0 <= k < n ==> !same_place(now[i])(#[trigger] selected[k]))
        }),
    decreases n,
{
    let concerned = concerns_suggestion(shift);
    let selected = kept(suggestions, concerned);
    let now = suggestions_moved(suggestions, selected.take(n), shift);
    if n == 0 {
        crate::tables::lemma_kept(suggestions, concerned);
        assert(selected.take(0) =~= Seq::<ArtistSuggestion>::empty());
        assert forall|i: int|
            #![trigger now[i]]
            0 <= i < now.len() && concerned(now[i]) implies (exists|k: int|
            n <= k < selected.len() && same_place(now[i])(#[trigger] selected[k])) && (forall|k: int|
            0 <= k < n ==> !same_place(now[i])(#[trigger] selected[k])) by {
            assert(suggestions[i] == now[i]);
            assert(selected.contains(now[i]));
            let k = selected.index_of(now[i]);
            assert(same_place(now[i])(selected[k]));
        }
    } else {
        lemma_suggestions_moved(suggestions, n - 1, shift);
        let before = suggestions_moved(suggestions, selected.take(n - 1), shift);
        let row = selected[n - 1];
        assert(selected.take(n).drop_last() =~= selected.take(n - 1));
        assert(selected.take(n).last() == row);
        lemma_suggestion_moved(before, row, shift);
        assert forall|i: int|
            #![trigger now[i]]
            0 <= i < now.len() && concerned(now[i]) implies (exists|k: int|
            n <= k < selected.len() && same_place(now[i])(#[trigger] selected[k])) && (forall|k: int|
            0 <= k < n ==> !same_place(now[i])(#[trigger] selected[k])) by {
            let j = choose|j: int|
                0 <= j < before.len() && same_place(now[i])(#[trigger] before[j]);
            assert(concerned(before[j]));
            let k = choose|k: int|
                n - 1 <= k < selected.len() && same_place(before[j])(#[trigger] selected[k]);
            assert(k != n - 1);
            assert(same_place(now[i])(selected[k]));
            assert forall|k: int| 0 <= k < n implies !same_place(now[i])(
                #[trigger] selected[k],
            ) by {
                if k < n - 1 {
                    assert(!same_place(before[j])(selected[k]));
                }
            }
        }
    }
}

/// Replacing an item or an artist in the suggestions leaves no suggestion with
/// what was replaced.
pub proof fn moved_suggestions_leave_nothing(
    suggestions: Seq<ArtistSuggestion>,
    shift: Shift,
    i: int,
)
    requires
        shift.source != shift.target,
        0 <= i < suggestions_moved(
            suggestions,
            kept(suggestions, concerns_suggestion(shift)),
            shift,
        ).len(),
    ensures
        !concerns_suggestion(shift)(
            suggestions_moved(suggestions, kept(suggestions, concerns_suggestion(shift)), shift)[i],
        ),
{
    let selected = kept(suggestions, concerns_suggestion(shift));
    lemma_suggestions_moved(suggestions, selected.len() as int, shift);
    assert(selected.take(selected.len() as int) =~= selected);
}

/// Whether no two references have one id, and no two stand for the same artist
/// and item.
pub open spec fn references_are_unique(refs: Seq<ArtistReference>) -> bool {
    forall|i: int, j: int|
        0 <= i < j < refs.len() ==> (#[trigger] refs[i]).id != (#[trigger] refs[j]).id && !rivals(
            refs[j],
        )(refs[i])
}

/// Changing one reference, which is as it was read, keeps the references unique.
proof fn lemma_reference_unique(refs: Seq<ArtistReference>, row: ArtistReference, shift: Shift)
    requires
        references_are_unique(refs),
        forall|i: int|
            0 <= i < refs.len() && (#[trigger] refs[i]).id == row.id ==> refs[i].artist_id
                == row.artist_id && refs[i].item_id == row.item_id,
    ensures
        references_are_unique(reference_moved(refs, row, shift)),
{
    let now = reference_moved(refs, row, shift);
    let moved = shifted_reference(row, shift);
    match first(refs, rivals(moved)) {
        Some(rival) => {
            let change = |r: ArtistReference|
                if r.id == rival.id {
                    ArtistReference { created: row.created, content: row.content, ..r }
                } else {
                    r
                };
            let table = if newer(row, rival) {
                refs.map_values(change)
            } else {
                refs
            };
            let places = crate::tables::lemma_kept_places(
                table,
                |r: ArtistReference| r.id != row.id,
            );
            assert forall|i: int, j: int| 0 <= i < j < now.len() implies (#[trigger] now[i]).id != (
            #[trigger] now[j]).id && !rivals(now[j])(now[i]) by {
                let (a, b) = (places[i], places[j]);
                assert(now[i] == table[a] && now[j] == table[b]);
                assert(refs[a].id != refs[b].id && !rivals(refs[b])(refs[a]));
            }
        },
        None => {
            crate::tables::lemma_first(refs, rivals(moved));
            assert forall|i: int, j: int| 0 <= i < j < now.len() implies (#[trigger] now[i]).id != (
            #[trigger] now[j]).id && !rivals(now[j])(now[i]) by {
                assert(refs[i].id != refs[j].id && !rivals(refs[j])(refs[i]));
                assert(!rivals(moved)(refs[i]) && !rivals(moved)(refs[j]));
            }
        },
    }
}

/// Changing references one by one keeps them unique, and those whose turn has not
/// come are as they were read.
proof fn lemma_references_unique(
    refs: Seq<ArtistReference>,
    suggestions: Seq<ArtistSuggestion>,
    n: int,
    shift: Shift,
)
    requires
        references_are_unique(refs),
        0 <= n <= kept(refs, concerns_reference(shift)).len(),
    ensures
        ({
            let selected = kept(refs, concerns_reference(shift));
            let now = references_moved(refs, suggestions, selected.take(n), shift).0;
            &&& references_are_unique(now)
            &&& forall|i: int, k: int|
                0 <= i < now.len() && n <= k < selected.len() && (#[trigger] now[i]).id == (
                #[trigger] selected[k]).id ==> now[i].artist_id == selected[k].artist_id
                    && now[i].item_id == selected[k].item_id
        }),
    decreases n,
{
    let concerned = concerns_reference(shift);
    let selected = kept(refs, concerned);
    let now = references_moved(refs, suggestions, selected.take(n), shift).0;
    let places = crate::tables::lemma_kept_places(refs, concerned);
    if n == 0 {
        assert(selected.take(0) =~= Seq::<ArtistReference>::empty());
        assert forall|i: int, k: int|
            0 <= i < now.len() && n <= k < selected.len() && (#[trigger] now[i]).id == (
            #[trigger] selected[k]).id implies now[i].artist_id == selected[k].artist_id
            && now[i].item_id == selected[k].item_id by {
            let p = places[k];
            assert(refs[p] == selected[k]);
            if i < p {
                assert(refs[i].id != refs[p].id);
            } else if p < i {
                assert(refs[p].id != refs[i].id);
            }
        }
    } else {
        lemma_references_unique(refs, suggestions, n - 1, shift);
        let before = references_moved(refs, suggestions, selected.take(n - 1), shift).0;
        let row = selected[n - 1];
        assert(selected.take(n).drop_last() =~= selected.take(n - 1));
        assert(selected.take(n).last() == row);
        lemma_reference_unique(before, row, shift);
        assert forall|i: int, k: int|
            0 <= i < now.len() && n <= k < selected.len() && (#[trigger] now[i]).id == (
            #[trigger] selected[k]).id implies now[i].artist_id == selected[k].artist_id
            && now[i].item_id == selected[k].item_id by {
            let (p, q) = (places[n - 1], places[k]);
            assert(refs[p] == row && refs[q] == selected[k]);
            assert(refs[p].id != refs[q].id);
            lemma_reference_others(before, row, shift, i);
            let j = choose|j: int|
                0 <= j < before.len() && (#[trigger] before[j]).id == now[i].id
                    && before[j].artist_id == now[i].artist_id && before[j].item_id
                    == now[i].item_id;
            assert(before[j].id == selected[k].id);
        }
    }
}

/// Changing one reference leaves the artist and item of every other.
proof fn lemma_reference_others(
    refs: Seq<ArtistReference>,
    row: ArtistReference,
    shift: Shift,
    i: int,
)
    requires
        0 <= i < reference_moved(refs, row, shift).len(),
        reference_moved(refs, row, shift)[i].id != row.id,
    ensures
        ({
            let now = reference_moved(refs, row, shift);
            exists|j: int|
                0 <= j < refs.len() && (#[trigger] refs[j]).id == now[i].id && refs[j].artist_id
                    == now[i].artist_id && refs[j].item_id == now[i].item_id
        }),
{
    let now = reference_moved(refs, row, shift);
    match first(refs, rivals(shifted_reference(row, shift))) {
        Some(rival) => {
            let change = |r: ArtistReference|
                if r.id == rival.id {
                    ArtistReference { created: row.created, content: row.content, ..r }
                } else {
                    r
                };
            let table = if newer(row, rival) {
                refs.map_values(change)
            } else {
                refs
            };
            let places = crate::tables::lemma_kept_places(
                table,
                |r: ArtistReference| r.id != row.id,
            );
            assert(now[i] == table[places[i]]);
            assert(refs[places[i]].id == now[i].id);
        },
        None => {
            assert(refs[i].id == now[i].id);
        },
    }
}

/// Replacing an item or an artist keeps the references unique: no two have one id
/// and no two stand for the same artist and item.
pub proof fn moved_references_stay_unique(
    refs: Seq<ArtistReference>,
    suggestions: Seq<ArtistSuggestion>,
    shift: Shift,
)
    requires
        references_are_unique(refs),
    ensures
        references_are_unique(
            references_moved(refs, suggestions, kept(refs, concerns_reference(shift)), shift).0,
        ),
{
    let selected = kept(refs, concerns_reference(shift));
    lemma_references_unique(refs, suggestions, selected.len() as int, shift);
    assert(selected.take(selected.len() as int) =~= selected);
}

/// Whether no record is one of an item.
pub open spec fn without_records(l: LibraryView, item: i64) -> bool {
    &&& forall|i: int| 0 <= i < l.item_tags.len() ==> (#[trigger] l.item_tags[i]).item_id != item
    &&& forall|i: int| 0 <= i < l.favorites.len() ==> (#[trigger] l.favorites[i]).item_id != item
    &&& forall|i: int|
        0 <= i < l.character_references.len() ==> (#[trigger] l.character_references[i]).item_id
            != Some(item)
    &&& forall|i: int|
        0 <= i < l.recognitions.len() ==> (#[trigger] l.recognitions[i]).item_id != item
    &&& forall|i: int|
        0 <= i < l.move_candidates.len() ==> (#[trigger] l.move_candidates[i]).item_id != Some(item)
    &&& forall|i: int|
        0 <= i < l.move_history.len() ==> (#[trigger] l.move_history[i]).item_id != Some(item)
    &&& forall|i: int|
        0 <= i < l.references.len() ==> (#[trigger] l.references[i]).item_id != Some(item)
    &&& forall|i: int|
        0 <= i < l.suggestions.len() ==> (#[trigger] l.suggestions[i]).item_id != Some(item)
    &&& forall|i: int|
        0 <= i < l.documents.len() ==> (#[trigger] l.documents[i]).item_id != Some(item)
}

/// Merging an item leaves no record behind that is still one of it: each has gone
/// over to the kept item or gave way to one of its records.
pub proof fn merged_items_leave_nothing(
    l: LibraryView,
    source: i64,
    keep: i64,
    artist: Option<i64>,
)
    requires
        source != keep,
        exists|i: int| 0 <= i < l.items.len() && (#[trigger] l.items[i]).id == keep,
        forall|i: int, j: int|
            0 <= i < j < l.documents.len() && (#[trigger] l.documents[i]).item_id is Some
                ==> l.documents[i].item_id != (#[trigger] l.documents[j]).item_id,
    ensures
        without_records(item_merged(l, source, keep, artist), source),
{
    let now = item_merged(l, source, keep, artist);
    let shift = item_shift(source, keep);
    crate::tables::lemma_kept(
        with_tags(l.item_tags, tags_for(l.item_tags, source, keep)),
        |t: ItemTag| t.item_id != source,
    );
    crate::tables::lemma_kept(
        with_favorites(
            l.favorites,
            kept(l.favorites, |f: Favorite| f.item_id == source),
            keep,
        ),
        |f: Favorite| f.item_id != source,
    );
    crate::tables::lemma_first(l.recognitions, |r: Recognition| r.item_id == source);
    crate::tables::lemma_kept(l.recognitions, |r: Recognition| r.item_id != source);
    assert forall|i: int| 0 <= i < now.recognitions.len() implies (
    #[trigger] now.recognitions[i]).item_id != source by {
        if first(l.recognitions, |r: Recognition| r.item_id == source) is None {
            let model = |r: Recognition| r.item_id == source;
            assert(!model(l.recognitions[i]));
        }
    }
    assert forall|i: int| 0 <= i < now.references.len() implies (
    #[trigger] now.references[i]).item_id != Some(source) by {
        moved_references_leave_nothing(l.references, l.suggestions, shift, i);
    }
    let matched = references_moved(
        l.references,
        l.suggestions,
        kept(l.references, concerns_reference(shift)),
        shift,
    ).1;
    assert forall|i: int| 0 <= i < now.suggestions.len() implies (
    #[trigger] now.suggestions[i]).item_id != Some(source) by {
        moved_suggestions_leave_nothing(matched, shift, i);
    }
    lemma_documents_moved(l.documents, now.items, source, keep);
    assert(exists|i: int| 0 <= i < now.items.len() && (#[trigger] now.items[i]).id == keep) by {
        let i = choose|i: int| 0 <= i < l.items.len() && (#[trigger] l.items[i]).id == keep;
        assert(now.items[i].id == keep);
    }
}

/// Where an item has one document at most, moving it leaves none.
proof fn lemma_documents_moved(
    documents: Seq<DocumentView>,
    items: Seq<ItemView>,
    source: i64,
    keep: i64,
)
    requires
        source != keep,
        forall|i: int, j: int|
            0 <= i < j < documents.len() && (#[trigger] documents[i]).item_id is Some
                ==> documents[i].item_id != (#[trigger] documents[j]).item_id,
    ensures
        (exists|i: int| 0 <= i < items.len() && (#[trigger] items[i]).id == keep) ==> forall|i: int|
            0 <= i < documents_moved(documents, items, source, keep).len() ==> (
            #[trigger] documents_moved(documents, items, source, keep)[i]).item_id != Some(source),
{
    let now = documents_moved(documents, items, source, keep);
    let of_source = |d: DocumentView| d.item_id == Some(source);
    let is_keep = |i: ItemView| i.id == keep;
    crate::tables::lemma_first(documents, of_source);
    crate::tables::lemma_first(items, is_keep);
    if exists|i: int| 0 <= i < items.len() && (#[trigger] items[i]).id == keep {
        let k = choose|i: int| 0 <= i < items.len() && (#[trigger] items[i]).id == keep;
        assert(is_keep(items[k]));
        assert forall|i: int| 0 <= i < now.len() implies (#[trigger] now[i]).item_id != Some(
            source,
        ) by {
            match first(documents, of_source) {
                None => {
                    assert(!of_source(documents[i]));
                },
                Some(document) => {
                    let p = documents.index_of(document);
                    assert(documents[p] == document);
                    if first(documents, |d: DocumentView| d.item_id == Some(keep)) is Some {
                        let stays = |d: DocumentView| d.id != document.id;
                        let places = crate::tables::lemma_kept_places(documents, stays);
                        crate::tables::lemma_kept(documents, stays);
                        let q = places[i];
                        assert(now[i] == documents[q]);
                        assert(stays(now[i]));
                        if documents[q].item_id == Some(source) && q != p {
                            if q < p {
                                assert(documents[q].item_id != documents[p].item_id);
                            } else {
                                assert(documents[p].item_id != documents[q].item_id);
                            }
                        }
                    } else {
                        if documents[i].item_id == Some(source) && i != p {
                            if i < p {
                                assert(documents[i].item_id != documents[p].item_id);
                            } else {
                                assert(documents[p].item_id != documents[i].item_id);
                            }
                        }
                    }
                },
            }
        }
    }
}

}
