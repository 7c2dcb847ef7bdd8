//! What moving a library from virtual roots to real ones does.

use vstd::prelude::*;
use crate::artist_folder_move::without_end_slashes;
use crate::artist_merge::{rebased, Counts, Migration};
use crate::db_identity::{
    artist_placed, document_moves, document_placed, documents_rewritten, goes_straight,
    has_path_under, is_alias, item_moves, items_rewritten, library_migrated, migration_run,
    move_rewritten, move_side_migrated, moves_migrated, moves_rewritten, pair_of, rewritable,
    rewritten, root_name, root_pairs, scans_migrated, scans_rewritten, traces_migrated,
    virtual_paths, CountedMoves, CountedScans, MigrationOutcome, PairView, RootView,
};
use crate::library_tables::{
    ArtistView, DocumentView, ItemView, LibraryView, MoveView, ScanView,
};
use crate::tables::{first, folded, kept};
use crate::text::{contains_text, replaced};

verus! {

/// A root is named with forward slashes and without slashes at its end.
pub proof fn roots_are_named_plainly(root: Seq<char>, slashes: Seq<char>)
    requires
        root.len() > 0,
        root.last() != '/',
        !root.contains('\\'),
        forall|j: int| 0 <= j < slashes.len() ==> #[trigger] slashes[j] == '/' || slashes[j] == '\\',
    ensures
        root_name(root + slashes) == root,
        root_name(root) == root,
{
    lemma_plain_name(root);
    lemma_ended(root, slashes);
}

/// A plain root stays.
proof fn lemma_plain_name(root: Seq<char>)
    requires
        root.len() > 0,
        root.last() != '/',
        !root.contains('\\'),
    ensures
        root_name(root) == root,
        replaced(root, '\\', '/') == root,
        without_end_slashes(root) == root,
{
    assert forall|j: int| 0 <= j < root.len() implies root[j] != '\\' by {
        assert(root.contains(root[j]));
    }
    assert(replaced(root, '\\', '/') =~= root);
    assert(root[root.len() - 1] != '\\');
}

/// Slashes at the end go.
proof fn lemma_ended(root: Seq<char>, slashes: Seq<char>)
    requires
        root.len() > 0,
        root.last() != '/',
        !root.contains('\\'),
        forall|j: int| 0 <= j < slashes.len() ==> #[trigger] slashes[j] == '/' || slashes[j] == '\\',
    ensures
        root_name(root + slashes) == root,
    decreases slashes.len(),
{
    lemma_plain_name(root);
    let s = root + slashes;
    let r = replaced(s, '\\', '/');
    if slashes.len() > 0 {
        let d = slashes.drop_last();
        assert forall|j: int| 0 <= j < d.len() implies #[trigger] d[j] == '/' || d[j] == '\\' by {
            assert(d[j] == slashes[j]);
        }
        lemma_ended(root, d);
        assert(s[s.len() - 1] == slashes[slashes.len() - 1]);
        assert(r.last() == '/');
        assert(r.drop_last() =~= replaced(root + d, '\\', '/'));
    } else {
        assert(s =~= root);
    }
}

/// A root leads elsewhere exactly where it is known to and both names are not empty; the pairs
/// of roots are those, in their order.
pub proof fn roots_that_lead_elsewhere_are_paired(roots: Seq<RootView>, r: RootView)
    ensures
        pair_of(r) is Some <==> (r.real_root matches Some(p) && root_name(r.root).len() > 0
            && root_name(p).len() > 0 && root_name(p) != root_name(r.root)),
        pair_of(r) matches Some(pair) ==> pair.root == root_name(r.root) && pair.real_root
            == root_name(r.real_root->Some_0),
        root_pairs(Seq::empty()).len() == 0,
        root_pairs(roots.push(r)) == match pair_of(r) {
            Some(pair) => root_pairs(roots).push(pair),
            None => root_pairs(roots),
        },
{
    assert(roots.push(r).drop_last() =~= roots);
}

/// A library has virtual paths exactly where a path lies below a root that leads elsewhere or
/// whose real place is not known.
pub proof fn virtual_paths_lie_below_aliases(l: LibraryView, roots: Seq<RootView>)
    ensures
        virtual_paths(l, roots) <==> exists|i: int|
            0 <= i < roots.len() && is_alias(#[trigger] roots[i]) && has_path_under(
                l,
                root_name(roots[i].root),
            ),
        forall|i: int|
            0 <= i < roots.len() ==> (is_alias(#[trigger] roots[i]) <==> root_name(
                roots[i].root,
            ).len() > 0 && (roots[i].real_root matches Some(p) ==> root_name(p) != root_name(
                roots[i].root,
            ))),
{
    let wanted = |r: RootView| is_alias(r) && has_path_under(l, root_name(r.root));
    crate::tables::lemma_first(roots, wanted);
    if first(roots, wanted) is Some {
        let x = first(roots, wanted)->Some_0;
        let k = roots.index_of(x);
        assert(roots[k] == x);
    }
    if exists|i: int|
        0 <= i < roots.len() && is_alias(#[trigger] roots[i]) && has_path_under(
            l,
            root_name(roots[i].root),
        ) {
        let i = choose|i: int|
            0 <= i < roots.len() && is_alias(#[trigger] roots[i]) && has_path_under(
                l,
                root_name(roots[i].root),
            );
        assert(wanted(roots[i]));
    }
}

/// A path of any kind below a root is found.
pub proof fn paths_below_a_root_are_found(l: LibraryView, root: Seq<char>, rest: Seq<char>, i: int)
    requires
        0 <= i,
    ensures
        ({
            let path = root + seq!['/'] + rest;
            ||| has_path_under(l, root)
            ||| {
                &&& i < l.artists.len() ==> l.artists[i].path != path && l.artists[i].path != root
                &&& i < l.items.len() ==> l.items[i].path != path && l.items[i].path != root
                &&& i < l.documents.len() ==> l.documents[i].path != path && l.documents[i].path
                    != root
                &&& i < l.scan_seen.len() ==> l.scan_seen[i].path != path
                &&& i < l.scan_candidates.len() ==> l.scan_candidates[i].path != path
                &&& i < l.move_candidates.len() ==> l.move_candidates[i].old_path != path
                    && l.move_candidates[i].new_path != path
                &&& i < l.move_history.len() ==> l.move_history[i].old_path != path
                    && l.move_history[i].new_path != path
            }
        }),
{
    crate::merge_laws::rebased_paths_keep_their_rest(root, root, rest, 'x');
    crate::tables::lemma_first(
        l.artists,
        |a: crate::library_tables::ArtistView| crate::artist_merge::under_root(a.path, root),
    );
    crate::tables::lemma_first(
        l.items,
        |i: ItemView| crate::artist_merge::under_root(i.path, root),
    );
    crate::tables::lemma_first(
        l.documents,
        |d: DocumentView| crate::artist_merge::under_root(d.path, root),
    );
    crate::tables::lemma_first(
        l.scan_seen,
        |s: ScanView| crate::artist_merge::under_root(s.path, root),
    );
    crate::tables::lemma_first(
        l.scan_candidates,
        |s: ScanView| crate::artist_merge::under_root(s.path, root),
    );
    crate::tables::lemma_first(
        l.move_candidates,
        |m: MoveView|
            crate::artist_merge::under_root(m.old_path, root) || crate::artist_merge::under_root(
                m.new_path,
                root,
            ),
    );
    crate::tables::lemma_first(
        l.move_history,
        |m: MoveView|
            crate::artist_merge::under_root(m.old_path, root) || crate::artist_merge::under_root(
                m.new_path,
                root,
            ),
    );
}

/// A path below a root is written below its real root, unless it goes up on its way; any other
/// path stays.
pub proof fn paths_are_rewritten_below_their_root(
    p: PairView,
    rest: Seq<char>,
    other: Seq<char>,
    front: Seq<char>,
)
    requires
        goes_straight(p.root + seq!['/'] + rest),
        !crate::artist_merge::under_root(other, p.root),
    ensures
        rewritten(p.root + seq!['/'] + rest, p) == p.real_root + seq!['/'] + rest,
        rewritten(other, p) == other,
        !goes_straight(front + "/../"@ + rest),
        !goes_straight(front + "/.."@),
{
    crate::merge_laws::rebased_paths_keep_their_rest(p.root, p.real_root, rest, 'x');
    crate::text_laws::parts_are_found(front, "/../"@, rest);
    crate::text_laws::parts_are_found(Seq::empty(), front, "/.."@);
    assert(contains_text(front + "/../"@ + rest, "/../"@));
}

/// Rows of scans and moves change in the paths that lie below the root, and in nothing else.
pub proof fn rows_change_in_their_paths_alone(
    s: CountedScans,
    m: MoveView,
    p: PairView,
    i: int,
)
    requires
        0 <= i < s.rows.len(),
    ensures
        scans_rewritten(s, p).rows.len() == s.rows.len(),
        scans_rewritten(s, p).rows[i] == (ScanView {
            artist_id: s.rows[i].artist_id,
            path: rewritten(s.rows[i].path, p),
        }),
        move_rewritten(m, p, true) == (MoveView { old_path: rewritten(m.old_path, p), ..m }),
        move_rewritten(m, p, false) == (MoveView { new_path: rewritten(m.new_path, p), ..m }),
{
}

/// An item is rewritten at once where its path lies below the root and no other item has the
/// real path; the number of such items is added to the updates.
pub proof fn items_are_rewritten_where_nothing_stands(m: Migration, p: PairView, i: int)
    requires
        0 <= i < m.library.items.len(),
    ensures
        ({
            let (old, new) = (m.library.items[i], items_rewritten(m, p).library.items[i]);
            let place = crate::artist_merge::rebased(old.path, p.root, p.real_root);
            let goes = crate::artist_merge::under_root(old.path, p.root) && goes_straight(old.path)
                && forall|j: int|
                0 <= j < m.library.items.len() && (#[trigger] m.library.items[j]).path == place
                    ==> m.library.items[j].id == old.id;
            &&& items_rewritten(m, p).library.items.len() == m.library.items.len()
            &&& goes ==> new == (ItemView { path: place, normal_path: place, ..old })
            &&& !goes ==> new == old
        }),
{
    let items = m.library.items;
    let old = items[i];
    let place = crate::artist_merge::rebased(old.path, p.root, p.real_root);
    let other = |o: ItemView| o.path == place && o.id != old.id;
    crate::tables::lemma_first(items, other);
    if first(items, other) is Some {
        let x = first(items, other)->Some_0;
        let j = items.index_of(x);
        assert(items[j].path == place && items[j].id != old.id);
    }
}

/// A document goes to its real path, unless its artist has one there: then it goes away; no
/// other document changes.
pub proof fn documents_are_placed_once(m: Migration, d: DocumentView, p: PairView, k: int)
    requires
        0 <= k < m.library.documents.len(),
    ensures
        ({
            let now = document_placed(m, d, p).library.documents;
            let place = crate::artist_merge::rebased(d.path, p.root, p.real_root);
            let old = m.library.documents[k];
            let twin = exists|j: int|
                0 <= j < m.library.documents.len() && (#[trigger] m.library.documents[j]).artist_id
                    == d.artist_id && m.library.documents[j].path == place
                    && m.library.documents[j].id != d.id;
            &&& old.id != d.id ==> now.contains(old)
            &&& old.id == d.id && !twin ==> now.contains(DocumentView { path: place, ..old })
            &&& old.id == d.id && twin ==> forall|i: int|
                0 <= i < now.len() ==> (#[trigger] now[i]).id != d.id
        }),
{
    let documents = m.library.documents;
    let now = document_placed(m, d, p).library.documents;
    let place = crate::artist_merge::rebased(d.path, p.root, p.real_root);
    let other = |o: DocumentView| o.artist_id == d.artist_id && o.path == place && o.id != d.id;
    let stays = |o: DocumentView| o.id != d.id;
    crate::tables::lemma_first(documents, other);
    crate::tables::lemma_kept(documents, stays);
    assert(documents.contains(documents[k]));
    let twin = exists|j: int|
        0 <= j < documents.len() && (#[trigger] documents[j]).artist_id == d.artist_id
            && documents[j].path == place && documents[j].id != d.id;
    if twin {
        let j = choose|j: int|
            0 <= j < documents.len() && (#[trigger] documents[j]).artist_id == d.artist_id
                && documents[j].path == place && documents[j].id != d.id;
        assert(other(documents[j]));
        assert(now == kept(documents, stays));
        assert forall|i: int| 0 <= i < now.len() implies (#[trigger] now[i]).id != d.id by {
            assert(stays(kept(documents, stays)[i]));
        }
    } else {
        if first(documents, other) is Some {
            let x = first(documents, other)->Some_0;
            let j = documents.index_of(x);
            assert(documents[j].path == place);
        }
        assert(now[k] == if documents[k].id == d.id {
            DocumentView { path: place, ..documents[k] }
        } else {
            documents[k]
        });
    }
}

/// A run changes nothing where it was made before, where there is no virtual path and where no
/// root leads elsewhere, and says which; otherwise the library is moved.
pub proof fn runs_say_why_they_change_nothing(
    l: LibraryView,
    roots: Seq<RootView>,
    applied: bool,
    comparable: bool,
)
    ensures
        ({
            let r = migration_run(l, roots, applied, comparable);
            &&& applied ==> r is Ok && r->Ok_0 == (l, MigrationOutcome::AlreadyApplied)
            &&& !applied && !virtual_paths(l, roots) ==> r is Ok && r->Ok_0 == (
                l,
                MigrationOutcome::NoVirtualPaths,
            )
            &&& !applied && virtual_paths(l, roots) && root_pairs(roots).len() == 0 ==> r is Ok
                && r->Ok_0 == (l, MigrationOutcome::NoPairs)
            &&& r matches Ok(done) ==> (done.1 is Migrated <==> !applied && virtual_paths(l, roots)
                && root_pairs(roots).len() > 0)
        }),
{
}

/// A path that is rewritten pair by pair.
pub open spec fn rewritten_along(path: Seq<char>, pairs: Seq<PairView>) -> Seq<char>
    decreases pairs.len(),
{
    if pairs.len() == 0 {
        path
    } else {
        rewritten(rewritten_along(path, pairs.drop_last()), pairs.last())
    }
}

/// Every trace of a scan or a move has its paths rewritten, in all four tables, and changes in
/// nothing else; no trace is lost, and what is no trace stays.
pub proof fn traces_are_rewritten_everywhere(m: Migration, pairs: Seq<PairView>, i: int)
    requires
        0 <= i,
    ensures
        ({
            let (l, r) = (m.library, traces_migrated(m, pairs).library);
            &&& r.scan_seen.len() == l.scan_seen.len()
            &&& r.scan_candidates.len() == l.scan_candidates.len()
            &&& r.move_candidates.len() == l.move_candidates.len()
            &&& r.move_history.len() == l.move_history.len()
            &&& i < l.scan_seen.len() ==> r.scan_seen[i] == (ScanView {
                path: rewritten_along(l.scan_seen[i].path, pairs),
                ..l.scan_seen[i]
            })
            &&& i < l.scan_candidates.len() ==> r.scan_candidates[i] == (ScanView {
                path: rewritten_along(l.scan_candidates[i].path, pairs),
                ..l.scan_candidates[i]
            })
            &&& i < l.move_candidates.len() ==> r.move_candidates[i] == (MoveView {
                old_path: rewritten_along(l.move_candidates[i].old_path, pairs),
                new_path: rewritten_along(l.move_candidates[i].new_path, pairs),
                ..l.move_candidates[i]
            })
            &&& i < l.move_history.len() ==> r.move_history[i] == (MoveView {
                old_path: rewritten_along(l.move_history[i].old_path, pairs),
                new_path: rewritten_along(l.move_history[i].new_path, pairs),
                ..l.move_history[i]
            })
            &&& r.items == l.items && r.artists == l.artists && r.documents == l.documents
            &&& r.plans == l.plans && r.tags == l.tags
        }),
{
    let l = m.library;
    let seen = scans_migrated(l.scan_seen, m.counts.updated, pairs);
    let waiting = scans_migrated(l.scan_candidates, seen.updated, pairs);
    let proposed = moves_migrated(l.move_candidates, waiting.updated, pairs);
    lemma_scans_along(CountedScans { rows: l.scan_seen, updated: m.counts.updated }, pairs, i);
    lemma_scans_along(CountedScans { rows: l.scan_candidates, updated: seen.updated }, pairs, i);
    lemma_moves_along(l.move_candidates, waiting.updated, pairs, i);
    lemma_moves_along(l.move_history, proposed.updated, pairs, i);
}

/// The traces of scans are rewritten along the pairs.
proof fn lemma_scans_along(s: CountedScans, pairs: Seq<PairView>, i: int)
    requires
        0 <= i,
    ensures
        ({
            let r = folded(s, pairs, |c: CountedScans, p: PairView| scans_rewritten(c, p));
            &&& r.rows.len() == s.rows.len()
            &&& i < s.rows.len() ==> r.rows[i] == (ScanView {
                path: rewritten_along(s.rows[i].path, pairs),
                ..s.rows[i]
            })
        }),
    decreases pairs.len(),
{
    if pairs.len() > 0 {
        lemma_scans_along(s, pairs.drop_last(), i);
    }
}

/// One side of the moves is rewritten along the pairs.
proof fn lemma_side_along(s: CountedMoves, pairs: Seq<PairView>, old_side: bool, i: int)
    requires
        0 <= i,
    ensures
        ({
            let r = move_side_migrated(s, pairs, old_side);
            &&& r.rows.len() == s.rows.len()
            &&& i < s.rows.len() ==> r.rows[i] == if old_side {
                MoveView {
                    old_path: rewritten_along(s.rows[i].old_path, pairs),
                    ..s.rows[i]
                }
            } else {
                MoveView {
                    new_path: rewritten_along(s.rows[i].new_path, pairs),
                    ..s.rows[i]
                }
            }
        }),
    decreases pairs.len(),
{
    if pairs.len() > 0 {
        let d = pairs.drop_last();
        lemma_side_along(s, d, old_side, i);
        let before = move_side_migrated(s, d, old_side);
        assert(move_side_migrated(s, pairs, old_side) == moves_rewritten(
            before,
            pairs.last(),
            old_side,
        ));
    }
}

/// Both sides of the moves are.
proof fn lemma_moves_along(rows: Seq<MoveView>, updated: u64, pairs: Seq<PairView>, i: int)
    requires
        0 <= i,
    ensures
        ({
            let r = moves_migrated(rows, updated, pairs);
            &&& r.rows.len() == rows.len()
            &&& i < rows.len() ==> r.rows[i] == (MoveView {
                old_path: rewritten_along(rows[i].old_path, pairs),
                new_path: rewritten_along(rows[i].new_path, pairs),
                ..rows[i]
            })
        }),
{
    let start = CountedMoves { rows, updated };
    lemma_side_along(start, pairs, true, i);
    lemma_side_along(move_side_migrated(start, pairs, true), pairs, false, i);
}

/// Every row that is rewritten counts once, a document that gives way to another counts as
/// merged, and no other count changes.
pub proof fn rewritten_rows_are_counted(m: Migration, d: DocumentView, s: CountedScans, p: PairView)
    requires
        m.counts.updated + m.library.items.len() + m.library.documents.len() < u64::MAX,
        m.counts.merged_link_documents < u64::MAX,
        s.updated + s.rows.len() < u64::MAX,
    ensures
        items_rewritten(m, p).counts == (Counts {
            updated: (m.counts.updated + kept(
                m.library.items,
                item_moves(m.library.items, p),
            ).len()) as u64,
            ..m.counts
        }),
        documents_rewritten(m, p).counts == (Counts {
            updated: (m.counts.updated + kept(
                m.library.documents,
                document_moves(m.library.documents, p),
            ).len()) as u64,
            ..m.counts
        }),
        scans_rewritten(s, p).updated == s.updated + kept(
            s.rows,
            |r: ScanView| rewritable(r.path, p.root),
        ).len(),
        ({
            let place = rebased(d.path, p.root, p.real_root);
            let twin = exists|j: int|
                0 <= j < m.library.documents.len() && (#[trigger] m.library.documents[j]).artist_id
                    == d.artist_id && m.library.documents[j].path == place
                    && m.library.documents[j].id != d.id;
            let now = document_placed(m, d, p).counts;
            &&& twin ==> now == (Counts {
                merged_link_documents: (m.counts.merged_link_documents + 1) as u64,
                ..m.counts
            })
            &&& !twin ==> now == (Counts { updated: (m.counts.updated + 1) as u64, ..m.counts })
        }),
{
    crate::tables::lemma_kept(m.library.items, item_moves(m.library.items, p));
    crate::tables::lemma_kept(m.library.documents, document_moves(m.library.documents, p));
    crate::tables::lemma_kept(s.rows, |r: ScanView| rewritable(r.path, p.root));
    let place = rebased(d.path, p.root, p.real_root);
    let same = |o: DocumentView| o.artist_id == d.artist_id && o.path == place && o.id != d.id;
    crate::tables::lemma_first(m.library.documents, same);
    if exists|j: int|
        0 <= j < m.library.documents.len() && (#[trigger] m.library.documents[j]).artist_id
            == d.artist_id && m.library.documents[j].path == place && m.library.documents[j].id
            != d.id {
        let j = choose|j: int|
            0 <= j < m.library.documents.len() && (#[trigger] m.library.documents[j]).artist_id
                == d.artist_id && m.library.documents[j].path == place && m.library.documents[j].id
                != d.id;
        assert(same(m.library.documents[j]));
    }
}

/// An artist whose path is free gets it and counts once; where the path stays, nothing happens.
pub proof fn artists_are_put_where_nobody_is(
    m: Migration,
    a: ArtistView,
    p: PairView,
    comparable: bool,
    k: int,
)
    requires
        0 <= k < m.library.artists.len(),
        m.counts.updated < u64::MAX,
        forall|j: int|
            0 <= j < m.library.artists.len() && (#[trigger] m.library.artists[j]).path == rebased(
                a.path,
                p.root,
                p.real_root,
            ) ==> m.library.artists[j].id == a.id,
    ensures
        artist_placed(m, a, p, comparable) is Ok,
        ({
            let path = rebased(a.path, p.root, p.real_root);
            let now = artist_placed(m, a, p, comparable)->Ok_0;
            let (old, new) = (m.library.artists[k], now.library.artists[k]);
            &&& path == a.path ==> now == m
            &&& path != a.path ==> now.counts == (Counts {
                updated: (m.counts.updated + 1) as u64,
                ..m.counts
            })
            &&& path != a.path && old.id == a.id ==> new == (ArtistView { path, ..old })
            &&& old.id != a.id ==> new == old
            &&& now.library.items == m.library.items
        }),
{
    let path = rebased(a.path, p.root, p.real_root);
    crate::tables::lemma_first(
        m.library.artists,
        |o: ArtistView| o.path == path && o.id != a.id,
    );
}

/// Without pairs of roots a library stays as it is, and nothing is counted.
pub proof fn libraries_without_pairs_stay(l: LibraryView, comparable: bool)
    ensures
        library_migrated(l, Seq::empty(), comparable) matches Ok(m) && m.library == l
            && m.counts.updated == 0 && m.counts.merged_artists == 0 && m.counts.merged_items == 0
            && m.counts.merged_link_documents == 0,
{
}

}
