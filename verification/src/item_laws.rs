//! What joining two items does to what belongs to them.

use vstd::prelude::*;
use crate::item_merge::{
    characters_repointed, documents_moved, favorites_moved, item_assigned, matches_moved,
    moves_repointed, newer,
    recognitions_moved, reference_moved, rivals, shifted_reference, shifted_suggestion,
    status_priority, suggestion_moved, with_favorites, Shift,
};
use crate::library_tables::{
    ArtistReference, ArtistSuggestion, CharacterReference, DocumentView, Favorite, ItemView,
    MoveView, Recognition,
};
use crate::tables::{first, kept};

verus! {

/// Whether an item is among the favorites.
pub open spec fn favored(favorites: Seq<Favorite>, item: i64) -> bool {
    exists|i: int| 0 <= i < favorites.len() && (#[trigger] favorites[i]).item_id == item
}

/// The favorites with more of them for one item.
proof fn lemma_more_favorites(favorites: Seq<Favorite>, more: Seq<Favorite>, keep: i64)
    ensures
        ({
            let all = with_favorites(favorites, more, keep);
            &&& all.len() >= favorites.len()
            &&& all.take(favorites.len() as int) == favorites
            &&& forall|i: int|
                favorites.len() <= i < all.len() ==> (#[trigger] all[i]).item_id == keep
            &&& more.len() > 0 ==> favored(all, keep)
            &&& more.len() == 0 ==> all == favorites
        }),
    decreases more.len(),
{
    let all = with_favorites(favorites, more, keep);
    if more.len() > 0 {
        let before = with_favorites(favorites, more.drop_last(), keep);
        lemma_more_favorites(favorites, more.drop_last(), keep);
        let same = |f: Favorite| f.item_id == keep;
        crate::tables::lemma_first(before, same);
        if first(before, same) is Some {
            let x = first(before, same)->Some_0;
            let k = before.index_of(x);
            assert(before[k].item_id == keep);
            assert(all == before);
        } else {
            assert(all[before.len() as int].item_id == keep);
            assert(all.take(favorites.len() as int) =~= before.take(favorites.len() as int));
        }
    } else {
        assert(all.take(favorites.len() as int) =~= favorites);
    }
}

/// The kept item is a favorite exactly where one of the two was; the other is none any more,
/// and every other favorite stays.
pub proof fn favorites_go_over(favorites: Seq<Favorite>, source: i64, keep: i64, item: i64)
    requires
        source != keep,
    ensures
        favored(favorites_moved(favorites, source, keep), item) <==> (item == keep && (favored(
            favorites,
            source,
        ) || favored(favorites, keep))) || (item != keep && item != source && favored(
            favorites,
            item,
        )),
        forall|i: int|
            0 <= i < favorites.len() && (#[trigger] favorites[i]).item_id != source
                ==> favorites_moved(favorites, source, keep).contains(favorites[i]),
{
    let own = |f: Favorite| f.item_id == source;
    let stays = |f: Favorite| f.item_id != source;
    let more = kept(favorites, own);
    let all = with_favorites(favorites, more, keep);
    let now = favorites_moved(favorites, source, keep);
    lemma_more_favorites(favorites, more, keep);
    crate::tables::lemma_kept(favorites, own);
    crate::tables::lemma_kept(all, stays);
    assert(now == kept(all, stays));
    let n = favorites.len() as int;
    assert forall|i: int|
        0 <= i < favorites.len() && (
        #[trigger] favorites[i]).item_id != source implies now.contains(favorites[i]) by {
        assert(all.take(n)[i] == favorites[i]);
        assert(all[i] == favorites[i]);
        assert(all.contains(favorites[i]));
    }
    if favored(now, item) {
        let i = choose|i: int| 0 <= i < now.len() && (#[trigger] now[i]).item_id == item;
        let x = now[i];
        assert(all.contains(x) && stays(x));
        let k = all.index_of(x);
        if k < n {
            assert(all.take(n)[k] == favorites[k]);
            assert(favorites[k].item_id == item);
        } else {
            assert(all[k].item_id == keep);
            if more.len() > 0 {
                assert(favorites.contains(more[0]) && own(more[0]));
                let j = favorites.index_of(more[0]);
                assert(favorites[j].item_id == source);
            }
        }
    }
    if item == keep && favored(favorites, source) {
        let j = choose|j: int|
            0 <= j < favorites.len() && (#[trigger] favorites[j]).item_id == source;
        assert(favorites.contains(favorites[j]));
        assert(more.contains(favorites[j]));
        assert(favored(all, keep));
        let k = choose|k: int| 0 <= k < all.len() && (#[trigger] all[k]).item_id == keep;
        assert(all.contains(all[k]));
        assert(now.contains(all[k]));
        let m = now.index_of(all[k]);
        assert(now[m].item_id == keep);
    }
    if item != source && favored(favorites, item) {
        let j = choose|j: int|
            0 <= j < favorites.len() && (#[trigger] favorites[j]).item_id == item;
        assert(now.contains(favorites[j]));
        let m = now.index_of(favorites[j]);
        assert(now[m].item_id == item);
    }
}

/// The kept item keeps its own recognition and gets the other's where it has none; the other
/// item has none any more, and those of other items stay.
pub proof fn recognitions_go_over(rows: Seq<Recognition>, source: i64, keep: i64, k: int)
    requires
        source != keep,
        0 <= k < rows.len(),
    ensures
        ({
            let now = recognitions_moved(rows, source, keep);
            let own = exists|j: int| 0 <= j < rows.len() && (#[trigger] rows[j]).item_id == keep;
            &&& forall|i: int| 0 <= i < now.len() ==> (#[trigger] now[i]).item_id != source
            &&& rows[k].item_id != source ==> now.contains(rows[k])
            &&& rows[k].item_id == source && !own ==> now.contains(
                Recognition { item_id: keep, content: rows[k].content },
            )
            &&& rows[k].item_id == source && own ==> now.len() < rows.len()
        }),
{
    let now = recognitions_moved(rows, source, keep);
    let from = |r: Recognition| r.item_id == source;
    let to = |r: Recognition| r.item_id == keep;
    let stays = |r: Recognition| r.item_id != source;
    crate::tables::lemma_first(rows, from);
    crate::tables::lemma_first(rows, to);
    crate::tables::lemma_kept(rows, stays);
    assert(rows.contains(rows[k]));
    let own = exists|j: int| 0 <= j < rows.len() && (#[trigger] rows[j]).item_id == keep;
    if own {
        let j = choose|j: int| 0 <= j < rows.len() && (#[trigger] rows[j]).item_id == keep;
        assert(to(rows[j]));
    }
    if first(rows, to) is Some {
        let x = first(rows, to)->Some_0;
        let j = rows.index_of(x);
        assert(rows[j].item_id == keep);
    }
    if first(rows, from) is None {
        assert(!from(rows[k]));
        assert forall|i: int| 0 <= i < now.len() implies (#[trigger] now[i]).item_id != source by {
            assert(!from(rows[i]));
        }
    } else if first(rows, to) is Some {
        assert(now == kept(rows, stays));
        assert forall|i: int| 0 <= i < now.len() implies (#[trigger] now[i]).item_id != source by {
            assert(stays(kept(rows, stays)[i]));
        }
        let x = first(rows, from)->Some_0;
        let j = rows.index_of(x);
        lemma_fewer(rows, source, j);
    } else {
        assert(now[k] == if rows[k].item_id == source {
            Recognition { item_id: keep, content: rows[k].content }
        } else {
            rows[k]
        });
    }
}

/// A row that goes is one row less.
proof fn lemma_fewer(rows: Seq<Recognition>, source: i64, k: int)
    requires
        0 <= k < rows.len(),
        rows[k].item_id == source,
    ensures
        kept(rows, |r: Recognition| r.item_id != source).len() < rows.len(),
    decreases rows.len(),
{
    let stays = |r: Recognition| r.item_id != source;
    let d = rows.drop_last();
    crate::tables::lemma_kept(d, stays);
    if k < d.len() {
        assert(d[k] == rows[k]);
        lemma_fewer(d, source, k);
    }
}

/// A reference goes over; where it meets one of the same artist and item, one of the two is
/// left, with what the newer one holds, and suggestions that named the one that went name the
/// other.
pub proof fn references_go_over_or_join(
    refs: Seq<ArtistReference>,
    suggestions: Seq<ArtistSuggestion>,
    row: ArtistReference,
    shift: Shift,
    k: int,
)
    requires
        0 <= k < refs.len(),
    ensures
        ({
            let now = reference_moved(refs, row, shift);
            let moved = shifted_reference(row, shift);
            let old = refs[k];
            match first(refs, rivals(moved)) {
                None => {
                    &&& old.id == row.id ==> now.contains(shifted_reference(old, shift))
                    &&& old.id != row.id ==> now.contains(old)
                    &&& matches_moved(suggestions, refs, row, shift) == suggestions
                },
                Some(rival) => {
                    let fresh = row.created > rival.created || (row.created == rival.created
                        && row.id > rival.id);
                    &&& rival.id != row.id && rival.artist_id == moved.artist_id && rival.item_id
                        == moved.item_id && refs.contains(rival)
                    &&& forall|i: int| 0 <= i < now.len() ==> (#[trigger] now[i]).id != row.id
                    &&& old.id == rival.id && fresh ==> now.contains(
                        ArtistReference { created: row.created, content: row.content, ..old },
                    )
                    &&& old.id == rival.id && !fresh ==> now.contains(old)
                    &&& old.id != rival.id && old.id != row.id ==> now.contains(old)
                    &&& forall|i: int|
                        0 <= i < suggestions.len() ==> (#[trigger] matches_moved(
                            suggestions,
                            refs,
                            row,
                            shift,
                        )[i]) == (ArtistSuggestion {
                            matched_ref: if suggestions[i].matched_ref == Some(row.id) {
                                Some(rival.id)
                            } else {
                                suggestions[i].matched_ref
                            },
                            ..suggestions[i]
                        })
                },
            }
        }),
{
    let now = reference_moved(refs, row, shift);
    let moved = shifted_reference(row, shift);
    crate::tables::lemma_first(refs, rivals(moved));
    match first(refs, rivals(moved)) {
        None => {
            assert(now[k] == if refs[k].id == row.id {
                shifted_reference(refs[k], shift)
            } else {
                refs[k]
            });
        },
        Some(rival) => {
            let fresh = newer(row, rival);
            let changed = refs.map_values(
                |r: ArtistReference|
                    if r.id == rival.id {
                        ArtistReference { created: row.created, content: row.content, ..r }
                    } else {
                        r
                    },
            );
            let base = if fresh {
                changed
            } else {
                refs
            };
            let stays = |r: ArtistReference| r.id != row.id;
            crate::tables::lemma_kept(base, stays);
            assert(now == kept(base, stays));
            assert(base.contains(base[k]));
            assert forall|i: int| 0 <= i < now.len() implies (#[trigger] now[i]).id != row.id by {
                assert(stays(kept(base, stays)[i]));
            }
        },
    }
}

/// A confirmed suggestion counts more than a rejected one, that more than a pending or a
/// suggested one, and those more than any other.
pub proof fn confirmed_suggestions_count_most(status: Seq<char>)
    ensures
        status_priority("confirmed"@) > status_priority("rejected"@),
        status_priority("rejected"@) > status_priority("pending"@),
        status_priority("pending"@) == status_priority("suggested"@),
        status != "confirmed"@ && status != "rejected"@ && status != "pending"@ && status
            != "suggested"@ ==> status_priority(status) < status_priority("pending"@),
{
    reveal_strlit("confirmed");
    reveal_strlit("rejected");
    reveal_strlit("pending");
    reveal_strlit("suggested");
    assert("confirmed"@[0] == 'c' && "rejected"@[0] == 'r' && "pending"@[0] == 'p'
        && "suggested"@[0] == 's');
}

/// A suggestion goes over; where it meets one at the same place, that one is left, with what
/// the one of the higher priority holds.
pub proof fn suggestions_go_over_or_join(
    suggestions: Seq<ArtistSuggestion>,
    row: ArtistSuggestion,
    shift: Shift,
    k: int,
)
    requires
        0 <= k < suggestions.len(),
        shifted_suggestion(row, shift).item_id is Some,
        shifted_suggestion(row, shift).artist_id is Some,
        row.item_id != shifted_suggestion(row, shift).item_id || row.artist_id
            != shifted_suggestion(row, shift).artist_id,
    ensures
        ({
            let now = suggestion_moved(suggestions, row, shift);
            let moved = shifted_suggestion(row, shift);
            let s = suggestions[k];
            let at_row = s.item_id == row.item_id && s.artist_id == row.artist_id;
            let at_target = s.item_id == moved.item_id && s.artist_id == moved.artist_id;
            let met = exists|j: int|
                0 <= j < suggestions.len() && (#[trigger] suggestions[j]).item_id == moved.item_id
                    && suggestions[j].artist_id == moved.artist_id;
            &&& !at_row && !at_target ==> now.contains(s)
            &&& at_row && !met ==> now.contains(shifted_suggestion(s, shift))
            &&& at_row ==> !now.contains(s)
            &&& at_target && (forall|j: int|
                0 <= j < suggestions.len() && (#[trigger] suggestions[j]).item_id == moved.item_id
                    && suggestions[j].artist_id == moved.artist_id ==> j == k) ==> now.contains(
                if row.priority > s.priority {
                    ArtistSuggestion {
                        priority: row.priority,
                        content: row.content,
                        matched_ref: row.matched_ref,
                        ..s
                    }
                } else {
                    s
                },
            )
        }),
{
    let now = suggestion_moved(suggestions, row, shift);
    let moved = shifted_suggestion(row, shift);
    let there = crate::item_merge::same_place(moved);
    crate::tables::lemma_first(suggestions, there);
    let s = suggestions[k];
    let met = exists|j: int|
        0 <= j < suggestions.len() && (#[trigger] suggestions[j]).item_id == moved.item_id
            && suggestions[j].artist_id == moved.artist_id;
    if met {
        let j = choose|j: int|
            0 <= j < suggestions.len() && (#[trigger] suggestions[j]).item_id == moved.item_id
                && suggestions[j].artist_id == moved.artist_id;
        assert(there(suggestions[j]));
        let other = first(suggestions, there)->Some_0;
        let o = suggestions.index_of(other);
        assert(suggestions[o] == other);
        let changed = suggestions.map_values(
            |s: ArtistSuggestion|
                if there(s) {
                    ArtistSuggestion {
                        priority: row.priority,
                        content: row.content,
                        matched_ref: row.matched_ref,
                        ..s
                    }
                } else {
                    s
                },
        );
        let base = if row.priority > other.priority {
            changed
        } else {
            suggestions
        };
        let stays = |s: ArtistSuggestion| !crate::item_merge::same_place(row)(s);
        crate::tables::lemma_kept(base, stays);
        assert(now =~= kept(base, stays)) by {
            assert(changed =~= suggestions.map_values(
                |s: ArtistSuggestion|
                    if crate::item_merge::same_place(moved)(s) {
                        ArtistSuggestion {
                            priority: row.priority,
                            content: row.content,
                            matched_ref: row.matched_ref,
                            ..s
                        }
                    } else {
                        s
                    },
            ));
        }
        assert(base.contains(base[k]));
        if s.item_id == row.item_id && s.artist_id == row.artist_id {
            assert(!stays(s));
        }
    } else {
        if first(suggestions, there) is Some {
            let x = first(suggestions, there)->Some_0;
            let j = suggestions.index_of(x);
            assert(suggestions[j].item_id == moved.item_id);
        }
        let at_row = s.item_id == row.item_id && s.artist_id == row.artist_id;
        assert(now[k] == if at_row {
            shifted_suggestion(s, shift)
        } else {
            s
        });
        if at_row && now.contains(s) {
            let j = now.index_of(s);
            let t = suggestions[j];
            if t.item_id == row.item_id && t.artist_id == row.artist_id {
                assert(now[j] == shifted_suggestion(t, shift));
                assert(now[j].item_id == moved.item_id && now[j].artist_id == moved.artist_id);
            } else {
                assert(now[j] == t);
            }
        }
    }
}

/// The document of the joined item goes to the kept one, with its artist and its path, unless
/// that has one: then it goes away. Documents of other items stay.
pub proof fn documents_go_over_once(
    documents: Seq<DocumentView>,
    items: Seq<ItemView>,
    source: i64,
    keep: i64,
    k: int,
)
    requires
        source != keep,
        0 <= k < documents.len(),
        forall|i: int, j: int|
            0 <= i < j < documents.len() ==> (#[trigger] documents[i]).id != (
            #[trigger] documents[j]).id,
        forall|i: int, j: int|
            0 <= i < j < documents.len() && (#[trigger] documents[i]).item_id == Some(source)
                ==> (#[trigger] documents[j]).item_id != Some(source),
    ensures
        ({
            let now = documents_moved(documents, items, source, keep);
            let d = documents[k];
            let own = exists|j: int|
                0 <= j < documents.len() && (#[trigger] documents[j]).item_id == Some(keep);
            let kept_item = first(items, |i: ItemView| i.id == keep);
            &&& d.item_id != Some(source) ==> now.contains(d)
            &&& d.item_id == Some(source) && own ==> !now.contains(d)
            &&& d.item_id == Some(source) && !own && kept_item is Some ==> now.contains(
                DocumentView {
                    id: d.id,
                    item_id: Some(keep),
                    artist_id: kept_item->Some_0.artist_id,
                    path: kept_item->Some_0.path,
                },
            )
        }),
{
    let now = documents_moved(documents, items, source, keep);
    let from = |d: DocumentView| d.item_id == Some(source);
    let to = |d: DocumentView| d.item_id == Some(keep);
    crate::tables::lemma_first(documents, from);
    crate::tables::lemma_first(documents, to);
    let d = documents[k];
    assert(documents.contains(d));
    let own = exists|j: int|
        0 <= j < documents.len() && (#[trigger] documents[j]).item_id == Some(keep);
    if own {
        let j = choose|j: int|
            0 <= j < documents.len() && (#[trigger] documents[j]).item_id == Some(keep);
        assert(to(documents[j]));
    }
    if first(documents, to) is Some {
        let x = first(documents, to)->Some_0;
        let j = documents.index_of(x);
        assert(documents[j].item_id == Some(keep));
    }
    if first(documents, from) is Some {
        let document = first(documents, from)->Some_0;
        let f = documents.index_of(document);
        assert(documents[f] == document);
        if d.item_id == Some(source) {
            if f < k {
                assert(documents[k].item_id != Some(source));
            } else if k < f {
                assert(documents[f].item_id != Some(source));
            }
            assert(d == document);
        } else {
            assert(f != k);
            if f < k {
                assert(documents[f].id != documents[k].id);
            } else {
                assert(documents[k].id != documents[f].id);
            }
        }
        let stays = |x: DocumentView| x.id != document.id;
        crate::tables::lemma_kept(documents, stays);
        if !own && first(items, |i: ItemView| i.id == keep) is Some {
            let item = first(items, |i: ItemView| i.id == keep)->Some_0;
            assert(now[k] == if d.id == document.id {
                DocumentView {
                    item_id: Some(keep),
                    artist_id: item.artist_id,
                    path: item.path,
                    ..d
                }
            } else {
                d
            });
        }
    } else {
        assert(!from(documents[k]));
    }
}

/// Moves and references to characters name the kept item where they named the other, and
/// change in nothing else.
pub proof fn rows_name_the_kept_item(
    moves: Seq<MoveView>,
    characters: Seq<CharacterReference>,
    source: i64,
    keep: i64,
    i: int,
)
    requires
        source != keep,
        0 <= i,
    ensures
        moves_repointed(moves, source, keep).len() == moves.len(),
        i < moves.len() ==> moves_repointed(moves, source, keep)[i] == (MoveView {
            item_id: if moves[i].item_id == Some(source) {
                Some(keep)
            } else {
                moves[i].item_id
            },
            ..moves[i]
        }),
        characters_repointed(characters, source, keep).len() == characters.len(),
        i < characters.len() ==> characters_repointed(characters, source, keep)[i] == (
        CharacterReference {
            id: characters[i].id,
            item_id: if characters[i].item_id == Some(source) {
                Some(keep)
            } else {
                characters[i].item_id
            },
        }),
{
}

/// Of two references one is the newer: the one that was made later, and of two made at once the
/// one with the greater number.
pub proof fn one_reference_is_the_newer(a: ArtistReference, b: ArtistReference)
    ensures
        a.created > b.created ==> newer(a, b),
        a.created == b.created && a.id > b.id ==> newer(a, b),
        !(newer(a, b) && newer(b, a)),
        !newer(a, b) && !newer(b, a) ==> a.created == b.created && a.id == b.id,
        newer(a, b) ==> a.created >= b.created,
{
}

/// An item that is given to an artist changes in its artist alone, and no other item changes.
pub proof fn given_items_change_in_their_artist(items: Seq<ItemView>, id: i64, artist: i64, k: int)
    requires
        0 <= k < items.len(),
    ensures
        item_assigned(items, id, None) == items,
        item_assigned(items, id, Some(artist)).len() == items.len(),
        items[k].id != id ==> item_assigned(items, id, Some(artist))[k] == items[k],
        items[k].id == id ==> item_assigned(items, id, Some(artist))[k] == (ItemView {
            artist_id: artist,
            ..items[k]
        }),
{
}

}
