//! Replacing virtual media roots by real ones in everything that is stored.
//!
//! The replacement runs once for a set of roots. Rows that then stand for the
//! same folder or file are merged.

use vstd::prelude::*;
use crate::artist_folder_move::{source_prefix, without_end_slashes};
use crate::artist_merge::{
    add_count, added, artist_merged, is_under_root, item_placed, merge_artist, place_item, rebase,
    rebased, under_root, Counts, MergeError, Migration,
};
use crate::json::{entry, entry_views, number, object, text_member, Json, JsonTree};
use crate::library_tables::{
    ArtistRow, ArtistView, DocumentRow, DocumentView, ItemRow, ItemView, Library, LibraryView,
    MoveRow, MoveView, ScanRow, ScanView,
};
use crate::paths::normalize_slashes;
use crate::tables::{
    find_row, first, folded, keep_rows, kept, lemma_tried_stops, map_rows, tally, tried, views,
};
use crate::text::{
    chars_of, contains_text, decimal, ends_with, has_suffix, has_text, replaced, same_text, texts,
};

verus! {

/// A configured root.
#[derive(Debug)]
pub struct MediaRoot {
    /// The root as it is configured.
    pub root: String,
    /// The folder it stands for, where that is known.
    pub real_root: Option<String>,
}

/// The value of a [`MediaRoot`].
#[verifier::ext_equal]
pub struct RootView {
    /// The root as it is configured.
    pub root: Seq<char>,
    /// The folder it stands for.
    pub real_root: Option<Seq<char>>,
}

impl View for MediaRoot {
    type V = RootView;

    open spec fn view(&self) -> RootView {
        RootView {
            root: self.root@,
            real_root: match self.real_root {
                Some(r) => Some(r@),
                None => None,
            },
        }
    }
}

/// The configured roots.
#[derive(Debug)]
pub struct MediaRoots {
    /// The roots in their order.
    pub roots: Vec<MediaRoot>,
    /// The configured real folders in their order.
    pub real_paths: Vec<String>,
}

/// A root in its normal form: with slashes that lean forward, and none at the
/// end.
pub open spec fn root_name(root: Seq<char>) -> Seq<char> {
    without_end_slashes(replaced(root, '\\', '/'))
}

/// A root in its normal form.
pub fn normalize_root(root: &str) -> (r: String)
    ensures
        r@ == root_name(root@),
{
    source_prefix(&normalize_slashes(root))
}

/// The text that `serde_json` writes for a list of texts.
pub uninterp spec fn serde_text_list(list: Seq<Seq<char>>) -> Seq<char>;

/// `serde_json::to_string` on texts, which cannot fail: the compact JSON array of
/// them. How characters are escaped is not spelled out: the outcome has a name.
#[verifier::external_body]
fn write_text_list(list: &Vec<String>) -> (r: String)
    ensures
        r@ == serde_text_list(texts(list@)),
{
    serde_json::to_string(list).unwrap()
}

/// The roots in their normal form.
pub open spec fn root_names(roots: Seq<MediaRoot>) -> Seq<Seq<char>> {
    roots.map_values(|r: MediaRoot| root_name(r.root@))
}

/// Paths in their normal form.
pub open spec fn path_names(paths: Seq<String>) -> Seq<Seq<char>> {
    paths.map_values(|p: String| root_name(p@))
}

/// The text that tells one set of roots from another, by the JSON of its lists.
pub open spec fn signature_text(roots: Seq<char>, real_paths: Seq<char>) -> Seq<char> {
    "{\"real_paths\":"@ + real_paths + ",\"roots\":"@ + roots + "}"@
}

/// The text that tells one set of roots from another.
pub open spec fn signature(roots: MediaRoots) -> Seq<char> {
    signature_text(
        serde_text_list(root_names(roots.roots@)),
        serde_text_list(path_names(roots.real_paths@)),
    )
}

/// The signature for the JSON of two lists.
pub fn compose_signature(roots: &str, real_paths: &str) -> (r: String)
    ensures
        r@ == signature_text(roots@, real_paths@),
{
    let mut out = "{\"real_paths\":".to_owned();
    out.append(real_paths);
    out.append(",\"roots\":");
    out.append(roots);
    out.append("}");
    out
}

/// The text that tells one set of roots from another.
pub fn media_path_migration_signature(roots: &MediaRoots) -> (r: String)
    ensures
        r@ == signature(*roots),
{
    let mut names: Vec<String> = Vec::new();
    let mut i: usize = 0;
    while i < roots.roots.len()
        invariant
            i <= roots.roots@.len(),
            names@.len() == i,
            forall|j: int|
                0 <= j < i ==> (#[trigger] names@[j])@ == root_name(roots.roots@[j].root@),
        decreases roots.roots@.len() - i,
    {
        names.push(normalize_root(&roots.roots[i].root));
        i += 1;
    }
    assert(texts(names@) =~= root_names(roots.roots@));
    let mut reals: Vec<String> = Vec::new();
    let mut i: usize = 0;
    while i < roots.real_paths.len()
        invariant
            i <= roots.real_paths@.len(),
            reals@.len() == i,
            forall|j: int|
                0 <= j < i ==> (#[trigger] reals@[j])@ == root_name(roots.real_paths@[j]@),
        decreases roots.real_paths@.len() - i,
    {
        reals.push(normalize_root(&roots.real_paths[i]));
        i += 1;
    }
    assert(texts(reals@) =~= path_names(roots.real_paths@));
    compose_signature(&write_text_list(&names), &write_text_list(&reals))
}

/// Whether a root stands for something else than itself.
pub open spec fn is_alias(r: RootView) -> bool {
    root_name(r.root).len() > 0 && !(match r.real_root {
        Some(p) => root_name(p) == root_name(r.root),
        None => false,
    })
}

/// Whether a path of the library is a root or lies below it.
pub open spec fn has_path_under(l: LibraryView, root: Seq<char>) -> bool {
    ||| first(l.artists, |a: ArtistView| under_root(a.path, root)) is Some
    ||| first(l.items, |i: ItemView| under_root(i.path, root)) is Some
    ||| first(l.documents, |d: DocumentView| under_root(d.path, root)) is Some
    ||| first(l.scan_seen, |s: ScanView| under_root(s.path, root)) is Some
    ||| first(l.scan_candidates, |s: ScanView| under_root(s.path, root)) is Some
    ||| first(
        l.move_candidates,
        |m: MoveView| under_root(m.old_path, root) || under_root(m.new_path, root),
    ) is Some
    ||| first(
        l.move_history,
        |m: MoveView| under_root(m.old_path, root) || under_root(m.new_path, root),
    ) is Some
}

/// Whether a path of the library is a root or lies below it.
fn any_path_under(library: &Library, root: &str) -> (r: bool)
    ensures
        r == has_path_under(library@, root@),
{
    let ghost of_artist = |a: ArtistView| under_root(a.path, root@);
    let ghost of_item = |i: ItemView| under_root(i.path, root@);
    let ghost of_document = |d: DocumentView| under_root(d.path, root@);
    let ghost of_scan = |s: ScanView| under_root(s.path, root@);
    let ghost of_move = |m: MoveView| under_root(m.old_path, root@) || under_root(m.new_path, root@);
    let artist = |a: &ArtistRow| -> (b: bool)
        ensures
            b == of_artist(a@),
        { is_under_root(&a.path, root) };
    let item = |i: &ItemRow| -> (b: bool)
        ensures
            b == of_item(i@),
        { is_under_root(&i.path, root) };
    let document = |d: &DocumentRow| -> (b: bool)
        ensures
            b == of_document(d@),
        { is_under_root(&d.path, root) };
    let scan = |s: &ScanRow| -> (b: bool)
        ensures
            b == of_scan(s@),
        { is_under_root(&s.path, root) };
    let a_move = |m: &MoveRow| -> (b: bool)
        ensures
            b == of_move(m@),
        { is_under_root(&m.old_path, root) || is_under_root(&m.new_path, root) };
    find_row(&library.artists, artist, Ghost(of_artist)).is_some() || find_row(
        &library.items,
        item,
        Ghost(of_item),
    ).is_some() || find_row(&library.documents, document, Ghost(of_document)).is_some() || find_row(
        &library.scan_seen,
        scan,
        Ghost(of_scan),
    ).is_some() || find_row(&library.scan_candidates, scan, Ghost(of_scan)).is_some() || find_row(
        &library.move_candidates,
        a_move,
        Ghost(of_move),
    ).is_some() || find_row(&library.move_history, a_move, Ghost(of_move)).is_some()
}

/// Whether a path of the library lies below a root that stands for something
/// else.
pub open spec fn virtual_paths(l: LibraryView, roots: Seq<RootView>) -> bool {
    first(roots, |r: RootView| is_alias(r) && has_path_under(l, root_name(r.root))) is Some
}

/// Whether a path of the library lies below a root that stands for something
/// else.
pub fn has_virtual_paths(library: &Library, roots: &Vec<MediaRoot>) -> (r: bool)
    ensures
        r == virtual_paths(library@, views(roots@)),
{
    let ghost l = library@;
    let ghost model = |r: RootView| is_alias(r) && has_path_under(l, root_name(r.root));
    let wanted = |r: &MediaRoot| -> (b: bool)
        ensures
            b == model(r@),
        {
            let name = normalize_root(&r.root);
            let same = match &r.real_root {
                Some(p) => same_text(&normalize_root(p), &name),
                None => false,
            };
            chars_of(&name).len() > 0 && !same && any_path_under(library, &name)
        };
    find_row(roots, wanted, Ghost(model)).is_some()
}

/// A virtual root and the real one.
#[derive(Debug)]
pub struct RootPair {
    /// The virtual root.
    pub root: String,
    /// The real root.
    pub real_root: String,
}

/// The value of a [`RootPair`].
#[verifier::ext_equal]
pub struct PairView {
    /// The virtual root.
    pub root: Seq<char>,
    /// The real root.
    pub real_root: Seq<char>,
}

impl View for RootPair {
    type V = PairView;

    open spec fn view(&self) -> PairView {
        PairView { root: self.root@, real_root: self.real_root@ }
    }
}

/// The pair of a root, where it stands for another folder.
pub open spec fn pair_of(r: RootView) -> Option<PairView> {
    match r.real_root {
        None => None,
        Some(p) => {
            let (root, real_root) = (root_name(r.root), root_name(p));
            if root.len() == 0 || real_root.len() == 0 || root == real_root {
                None
            } else {
                Some(PairView { root, real_root })
            }
        },
    }
}

/// The pairs of the roots.
pub open spec fn root_pairs(roots: Seq<RootView>) -> Seq<PairView> {
    folded(
        Seq::empty(),
        roots,
        |done: Seq<PairView>, r: RootView|
            match pair_of(r) {
                Some(p) => done.push(p),
                None => done,
            },
    )
}

/// The pairs of the roots.
pub fn migration_pairs(roots: &Vec<MediaRoot>) -> (r: Vec<RootPair>)
    ensures
        views(r@) == root_pairs(views(roots@)),
{
    let ghost all = views(roots@);
    let ghost step = |done: Seq<PairView>, r: RootView|
        match pair_of(r) {
            Some(p) => done.push(p),
            None => done,
        };
    let mut out: Vec<RootPair> = Vec::new();
    let mut i: usize = 0;
    assert(all.take(0) =~= Seq::<RootView>::empty());
    assert(views(out@) =~= Seq::<PairView>::empty());
    while i < roots.len()
        invariant
            i <= roots@.len(),
            all == views(roots@),
            step == (|done: Seq<PairView>, r: RootView|
                match pair_of(r) {
                    Some(p) => done.push(p),
                    None => done,
                }),
            views(out@) == folded(Seq::empty(), all.take(i as int), step),
        decreases roots@.len() - i,
    {
        let ghost done = views(out@);
        proof {
            assert(all.take(i as int + 1).drop_last() =~= all.take(i as int));
            assert(all.take(i as int + 1).last() == roots@[i as int]@);
        }
        match &roots[i].real_root {
            Some(p) => {
                let root = normalize_root(&roots[i].root);
                let real_root = normalize_root(p);
                if chars_of(&root).len() > 0 && chars_of(&real_root).len() > 0 && !same_text(
                    &root,
                    &real_root,
                ) {
                    let pair = RootPair { root, real_root };
                    let ghost value = pair@;
                    out.push(pair);
                    assert(views(out@) =~= done.push(value));
                }
            },
            None => {},
        }
        i += 1;
    }
    assert(all.take(all.len() as int) =~= all);
    out
}

/// What becomes of an artist below a virtual root: it gets the real path, or is
/// merged into the artist that has it.
pub open spec fn artist_placed(m: Migration, a: ArtistView, p: PairView, comparable: bool) -> Result<
    Migration,
    MergeError,
> {
    let l = m.library;
    let path = rebased(a.path, p.root, p.real_root);
    if path == a.path {
        Ok(m)
    } else {
        match first(l.artists, |o: ArtistView| o.path == path && o.id != a.id) {
            Some(other) => artist_merged(m, a.id, other.id, p.root, p.real_root, comparable),
            None => Ok(
                Migration {
                    library: LibraryView {
                        artists: l.artists.map_values(
                            |o: ArtistView|
                                if o.id == a.id {
                                    ArtistView { path, ..o }
                                } else {
                                    o
                                },
                        ),
                        ..l
                    },
                    counts: Counts { updated: added(m.counts.updated, 1), ..m.counts },
                },
            ),
        }
    }
}

/// Gives an artist below a virtual root its real path. After a refusal the
/// library is of no use.
fn place_artist(
    library: &mut Library,
    counts: &mut Counts,
    artist: &ArtistRow,
    pair: &RootPair,
    comparable: bool,
) -> (r: Result<(), MergeError>)
    requires
        under_root(artist@.path, pair@.root),
    ensures
        match artist_placed(
            Migration { library: old(library)@, counts: *old(counts) },
            artist@,
            pair@,
            comparable,
        ) {
            Ok(m) => r is Ok && (Migration { library: final(library)@, counts: *final(counts) })
                == m,
            Err(e) => r is Err && r->Err_0 == e,
        },
{
    let ghost before = library@;
    let path = rebase(&artist.path, &pair.root, &pair.real_root);
    if same_text(&path, &artist.path) {
        return Ok(());
    }
    let artist_id: i64 = artist.id;
    let ghost model = |o: ArtistView| o.path == path@ && o.id != artist_id;
    let wanted = |o: &ArtistRow| -> (b: bool)
        ensures
            b == model(o@),
        { same_text(&o.path, &path) && o.id != artist_id };
    match find_row(&library.artists, wanted, Ghost(model)) {
        Some(i) => {
            let other: i64 = library.artists[i].id;
            merge_artist(
                library,
                counts,
                artist_id,
                other,
                &pair.root,
                &pair.real_root,
                comparable,
            )
        },
        None => {
            let ghost model = |o: ArtistView|
                if o.id == artist_id {
                    ArtistView { path: path@, ..o }
                } else {
                    o
                };
            let change = |o: &ArtistRow| -> (n: ArtistRow)
                ensures
                    n@ == model(o@),
                {
                    if o.id == artist_id {
                        ArtistRow {
                            id: o.id,
                            path: path.clone(),
                            missing: o.missing,
                            missing_at: o.missing_at,
                        }
                    } else {
                        o.duplicate()
                    }
                };
            library.artists = map_rows(&library.artists, change, Ghost(model));
            counts.updated = add_count(counts.updated, 1);
            assert(library@ =~= LibraryView {
                artists: before.artists.map_values(model),
                ..before
            });
            Ok(())
        },
    }
}

/// What becomes of the artists below one virtual root.
pub open spec fn root_artists_placed(m: Migration, p: PairView, comparable: bool) -> Result<
    Migration,
    MergeError,
> {
    tried(
        m,
        kept(m.library.artists, |a: ArtistView| under_root(a.path, p.root)),
        |s: Migration, a: ArtistView| artist_placed(s, a, p, comparable),
    )
}

/// Gives the artists below one virtual root their real paths.
fn place_root_artists(
    library: &mut Library,
    counts: &mut Counts,
    pair: &RootPair,
    comparable: bool,
) -> (r: Result<(), MergeError>)
    ensures
        match root_artists_placed(
            Migration { library: old(library)@, counts: *old(counts) },
            pair@,
            comparable,
        ) {
            Ok(m) => r is Ok && (Migration { library: final(library)@, counts: *final(counts) })
                == m,
            Err(e) => r is Err && r->Err_0 == e,
        },
{
    let ghost start = Migration { library: library@, counts: *counts };
    let ghost all = library@.artists;
    let ghost root = pair@.root;
    let ghost wanted = |a: ArtistView| under_root(a.path, root);
    let ghost p = pair@;
    let ghost step = |s: Migration, a: ArtistView| artist_placed(s, a, p, comparable);
    let ghost same = |a: ArtistView| a;
    let copy = |a: &ArtistRow| -> (o: ArtistRow)
        ensures
            o@ == same(a@),
        { a.duplicate() };
    let mut rows = map_rows(&library.artists, copy, Ghost(same));
    assert(views(rows@) =~= all);
    let is_wanted = |a: &ArtistRow| -> (b: bool)
        ensures
            b == wanted(a@),
        { is_under_root(&a.path, &pair.root) };
    keep_rows(&mut rows, is_wanted, Ghost(wanted));
    let ghost selected = views(rows@);
    proof {
        crate::tables::lemma_kept(all, wanted);
    }
    let mut i: usize = 0;
    assert(selected.take(0) =~= Seq::<ArtistView>::empty());
    while i < rows.len()
        invariant
            i <= rows@.len(),
            p == pair@,
            selected == views(rows@),
            selected == kept(start.library.artists, wanted),
            wanted == (|a: ArtistView| under_root(a.path, p.root)),
            start == (Migration { library: old(library)@, counts: *old(counts) }),
            forall|j: int| 0 <= j < selected.len() ==> wanted(#[trigger] selected[j]),
            step == (|s: Migration, a: ArtistView| artist_placed(s, a, p, comparable)),
            tried(start, selected.take(i as int), step) == Ok::<Migration, MergeError>(
                Migration { library: library@, counts: *counts },
            ),
        decreases rows@.len() - i,
    {
        proof {
            assert(selected.take(i as int + 1).drop_last() =~= selected.take(i as int));
            assert(selected.take(i as int + 1).last() == rows@[i as int]@);
            assert(wanted(selected[i as int]));
        }
        match place_artist(library, counts, &rows[i], pair, comparable) {
            Ok(()) => {},
            Err(e) => {
                proof {
                    lemma_tried_stops(start, selected, step, i as int + 1);
                }
                return Err(e);
            },
        }
        i += 1;
    }
    assert(selected.take(selected.len() as int) =~= selected);
    Ok(())
}

/// What becomes of the artists below the virtual roots.
pub open spec fn artists_placed(m: Migration, pairs: Seq<PairView>, comparable: bool) -> Result<
    Migration,
    MergeError,
> {
    tried(m, pairs, |s: Migration, p: PairView| root_artists_placed(s, p, comparable))
}

/// Gives the artists below the virtual roots their real paths.
fn place_artists(
    library: &mut Library,
    counts: &mut Counts,
    pairs: &Vec<RootPair>,
    comparable: bool,
) -> (r: Result<(), MergeError>)
    ensures
        match artists_placed(
            Migration { library: old(library)@, counts: *old(counts) },
            views(pairs@),
            comparable,
        ) {
            Ok(m) => r is Ok && (Migration { library: final(library)@, counts: *final(counts) })
                == m,
            Err(e) => r is Err && r->Err_0 == e,
        },
{
    let ghost start = Migration { library: library@, counts: *counts };
    let ghost all = views(pairs@);
    let ghost step = |s: Migration, p: PairView| root_artists_placed(s, p, comparable);
    let mut i: usize = 0;
    assert(all.take(0) =~= Seq::<PairView>::empty());
    while i < pairs.len()
        invariant
            i <= pairs@.len(),
            all == views(pairs@),
            start == (Migration { library: old(library)@, counts: *old(counts) }),
            step == (|s: Migration, p: PairView| root_artists_placed(s, p, comparable)),
            tried(start, all.take(i as int), step) == Ok::<Migration, MergeError>(
                Migration { library: library@, counts: *counts },
            ),
        decreases pairs@.len() - i,
    {
        proof {
            assert(all.take(i as int + 1).drop_last() =~= all.take(i as int));
            assert(all.take(i as int + 1).last() == pairs@[i as int]@);
        }
        match place_root_artists(library, counts, &pairs[i], comparable) {
            Ok(()) => {},
            Err(e) => {
                proof {
                    lemma_tried_stops(start, all, step, i as int + 1);
                }
                return Err(e);
            },
        }
        i += 1;
    }
    assert(all.take(all.len() as int) =~= all);
    Ok(())
}

/// Whether a path goes up nowhere.
pub open spec fn goes_straight(path: Seq<char>) -> bool {
    !contains_text(path, "/../"@) && !ends_with(path, "/.."@)
}

/// Whether a path lies below a virtual root and goes up nowhere.
pub open spec fn rewritable(path: Seq<char>, root: Seq<char>) -> bool {
    under_root(path, root) && goes_straight(path)
}

/// Whether a path lies below a virtual root and goes up nowhere.
fn is_rewritable(path: &str, root: &str) -> (r: bool)
    ensures
        r == rewritable(path@, root@),
{
    let p = chars_of(path);
    is_under_root(path, root) && !has_text(&p, &chars_of("/../")) && !has_suffix(
        &p,
        &chars_of("/.."),
    )
}

/// Whether an item gets its real path at once: no other item has that path.
pub open spec fn item_moves(items: Seq<ItemView>, p: PairView) -> spec_fn(ItemView) -> bool {
    |i: ItemView|
        rewritable(i.path, p.root) && first(
            items,
            |o: ItemView| o.path == rebased(i.path, p.root, p.real_root) && o.id != i.id,
        ) is None
}

/// What becomes of the items that get their real path at once.
pub open spec fn items_rewritten(m: Migration, p: PairView) -> Migration {
    let items = m.library.items;
    let moves = item_moves(items, p);
    Migration {
        library: LibraryView {
            items: items.map_values(
                |i: ItemView|
                    if moves(i) {
                        ItemView {
                            path: rebased(i.path, p.root, p.real_root),
                            normal_path: rebased(i.path, p.root, p.real_root),
                            ..i
                        }
                    } else {
                        i
                    },
            ),
            ..m.library
        },
        counts: Counts { updated: added(m.counts.updated, tally(items, moves) as int), ..m.counts },
    }
}

/// Counts the rows that meet a condition.
fn count_rows<T: View, F: Fn(&T) -> bool>(
    rows: &Vec<T>,
    counted: F,
    Ghost(model): Ghost<spec_fn(T::V) -> bool>,
) -> (r: usize)
    requires
        forall|x: &T| #[trigger] counted.requires((x,)),
        forall|x: &T, y: bool| #[trigger] counted.ensures((x,), y) ==> y == model(x@),
    ensures
        r == tally(views(rows@), model),
{
    let ghost all = views(rows@);
    let mut n: usize = 0;
    let mut i: usize = 0;
    assert(all.take(0) =~= Seq::<T::V>::empty());
    while i < rows.len()
        invariant
            i <= rows@.len(),
            all == views(rows@),
            n <= i,
            n == tally(all.take(i as int), model),
            forall|x: &T| #[trigger] counted.requires((x,)),
            forall|x: &T, y: bool| #[trigger] counted.ensures((x,), y) ==> y == model(x@),
        decreases rows@.len() - i,
    {
        proof {
            assert(all.take(i as int + 1).drop_last() =~= all.take(i as int));
            assert(all.take(i as int + 1).last() == rows@[i as int]@);
        }
        if counted(&rows[i]) {
            n += 1;
        }
        i += 1;
    }
    assert(all.take(all.len() as int) =~= all);
    n
}

/// Whether an item gets its real path at once.
fn moves_at_once(items: &Vec<ItemRow>, i: &ItemRow, pair: &RootPair) -> (r: bool)
    ensures
        r == item_moves(views(items@), pair@)(i@),
{
    if !is_rewritable(&i.path, &pair.root) {
        return false;
    }
    let path = rebase(&i.path, &pair.root, &pair.real_root);
    let item_id: i64 = i.id;
    let ghost model = |o: ItemView|
        o.path == rebased(i@.path, pair@.root, pair@.real_root) && o.id != i@.id;
    let wanted = |o: &ItemRow| -> (b: bool)
        ensures
            b == model(o@),
        { same_text(&o.path, &path) && o.id != item_id };
    find_row(items, wanted, Ghost(model)).is_none()
}

/// Gives items their real path that get it at once.
fn rewrite_items(library: &mut Library, counts: &mut Counts, pair: &RootPair)
    ensures
        (Migration { library: final(library)@, counts: *final(counts) }) == items_rewritten(
            Migration { library: old(library)@, counts: *old(counts) },
            pair@,
        ),
{
    let ghost before = library@;
    let ghost moves = item_moves(before.items, pair@);
    let items = &library.items;
    let is_moving = |i: &ItemRow| -> (b: bool)
        ensures
            b == moves(i@),
        { moves_at_once(items, i, pair) };
    let n = count_rows(items, is_moving, Ghost(moves));
    let ghost p = pair@;
    let ghost model = |i: ItemView|
        if moves(i) {
            ItemView {
                path: rebased(i.path, p.root, p.real_root),
                normal_path: rebased(i.path, p.root, p.real_root),
                ..i
            }
        } else {
            i
        };
    let change = |i: &ItemRow| -> (o: ItemRow)
        ensures
            o@ == model(i@),
        {
            if moves_at_once(items, i, pair) {
                let path = rebase(&i.path, &pair.root, &pair.real_root);
                ItemRow {
                    id: i.id,
                    artist_id: i.artist_id,
                    path: path.clone(),
                    normal_path: path,
                    missing: i.missing,
                    missing_at: i.missing_at,
                }
            } else {
                i.duplicate()
            }
        };
    let rows = map_rows(items, change, Ghost(model));
    library.items = rows;
    counts.updated = add_count(counts.updated, n);
    assert(library@ =~= LibraryView { items: before.items.map_values(model), ..before });
}

/// What becomes of the items that are still below one virtual root.
pub open spec fn items_settled(m: Migration, p: PairView) -> Migration {
    folded(
        m,
        kept(m.library.items, |i: ItemView| under_root(i.path, p.root)),
        |s: Migration, i: ItemView|
            item_placed(s, i.id, rebased(i.path, p.root, p.real_root), None),
    )
}

/// Gives the items that are still below one virtual root their real path, or
/// merges them into the item that has it.
fn settle_items(library: &mut Library, counts: &mut Counts, pair: &RootPair)
    ensures
        (Migration { library: final(library)@, counts: *final(counts) }) == items_settled(
            Migration { library: old(library)@, counts: *old(counts) },
            pair@,
        ),
{
    let ghost start = Migration { library: library@, counts: *counts };
    let ghost all = library@.items;
    let ghost p = pair@;
    let ghost wanted = |i: ItemView| under_root(i.path, p.root);
    let ghost step = |s: Migration, i: ItemView|
        item_placed(s, i.id, rebased(i.path, p.root, p.real_root), None);
    let ghost same = |i: ItemView| i;
    let copy = |i: &ItemRow| -> (o: ItemRow)
        ensures
            o@ == same(i@),
        { i.duplicate() };
    let mut rows = map_rows(&library.items, copy, Ghost(same));
    assert(views(rows@) =~= all);
    let is_wanted = |i: &ItemRow| -> (b: bool)
        ensures
            b == wanted(i@),
        { is_under_root(&i.path, &pair.root) };
    keep_rows(&mut rows, is_wanted, Ghost(wanted));
    let ghost selected = views(rows@);
    proof {
        crate::tables::lemma_kept(all, wanted);
    }
    let mut i: usize = 0;
    assert(selected.take(0) =~= Seq::<ItemView>::empty());
    while i < rows.len()
        invariant
            i <= rows@.len(),
            p == pair@,
            selected == views(rows@),
            wanted == (|i: ItemView| under_root(i.path, p.root)),
            forall|j: int| 0 <= j < selected.len() ==> wanted(#[trigger] selected[j]),
            step == (|s: Migration, i: ItemView|
                item_placed(s, i.id, rebased(i.path, p.root, p.real_root), None)),
            (Migration { library: library@, counts: *counts }) == folded(
                start,
                selected.take(i as int),
                step,
            ),
        decreases rows@.len() - i,
    {
        proof {
            assert(selected.take(i as int + 1).drop_last() =~= selected.take(i as int));
            assert(selected.take(i as int + 1).last() == rows@[i as int]@);
            assert(wanted(selected[i as int]));
        }
        let path = rebase(&rows[i].path, &pair.root, &pair.real_root);
        place_item(library, counts, rows[i].id, &path, None);
        i += 1;
    }
    assert(selected.take(selected.len() as int) =~= selected);
}

/// What becomes of the items below the virtual roots.
pub open spec fn items_migrated(m: Migration, pairs: Seq<PairView>) -> Migration {
    folded(
        folded(m, pairs, |s: Migration, p: PairView| items_rewritten(s, p)),
        pairs,
        |s: Migration, p: PairView| items_settled(s, p),
    )
}

/// Gives the items below the virtual roots their real paths.
fn migrate_items(library: &mut Library, counts: &mut Counts, pairs: &Vec<RootPair>)
    ensures
        (Migration { library: final(library)@, counts: *final(counts) }) == items_migrated(
            Migration { library: old(library)@, counts: *old(counts) },
            views(pairs@),
        ),
{
    let ghost start = Migration { library: library@, counts: *counts };
    let ghost all = views(pairs@);
    let ghost step = |s: Migration, p: PairView| items_rewritten(s, p);
    let ghost last_step = |s: Migration, p: PairView| items_settled(s, p);
    let mut i: usize = 0;
    assert(all.take(0) =~= Seq::<PairView>::empty());
    while i < pairs.len()
        invariant
            i <= pairs@.len(),
            all == views(pairs@),
            step == (|s: Migration, p: PairView| items_rewritten(s, p)),
            (Migration { library: library@, counts: *counts }) == folded(
                start,
                all.take(i as int),
                step,
            ),
        decreases pairs@.len() - i,
    {
        assert(all.take(i as int + 1).drop_last() =~= all.take(i as int));
        assert(all.take(i as int + 1).last() == pairs@[i as int]@);
        rewrite_items(library, counts, &pairs[i]);
        i += 1;
    }
    assert(all.take(all.len() as int) =~= all);
    let ghost middle = Migration { library: library@, counts: *counts };
    let mut i: usize = 0;
    while i < pairs.len()
        invariant
            i <= pairs@.len(),
            all == views(pairs@),
            last_step == (|s: Migration, p: PairView| items_settled(s, p)),
            (Migration { library: library@, counts: *counts }) == folded(
                middle,
                all.take(i as int),
                last_step,
            ),
        decreases pairs@.len() - i,
    {
        assert(all.take(i as int + 1).drop_last() =~= all.take(i as int));
        assert(all.take(i as int + 1).last() == pairs@[i as int]@);
        settle_items(library, counts, &pairs[i]);
        i += 1;
    }
}

/// Whether a document gets its real path at once: no other document has it.
pub open spec fn document_moves(documents: Seq<DocumentView>, p: PairView) -> spec_fn(
    DocumentView,
) -> bool {
    |d: DocumentView|
        rewritable(d.path, p.root) && first(
            documents,
            |o: DocumentView| o.path == rebased(d.path, p.root, p.real_root) && o.id != d.id,
        ) is None
}

/// What becomes of the documents that get their real path at once.
pub open spec fn documents_rewritten(m: Migration, p: PairView) -> Migration {
    let documents = m.library.documents;
    let moves = document_moves(documents, p);
    Migration {
        library: LibraryView {
            documents: documents.map_values(
                |d: DocumentView|
                    if moves(d) {
                        DocumentView { path: rebased(d.path, p.root, p.real_root), ..d }
                    } else {
                        d
                    },
            ),
            ..m.library
        },
        counts: Counts {
            updated: added(m.counts.updated, tally(documents, moves) as int),
            ..m.counts
        },
    }
}

/// Whether a document gets its real path at once.
fn document_moves_at_once(documents: &Vec<DocumentRow>, d: &DocumentRow, pair: &RootPair) -> (r:
    bool)
    ensures
        r == document_moves(views(documents@), pair@)(d@),
{
    if !is_rewritable(&d.path, &pair.root) {
        return false;
    }
    let path = rebase(&d.path, &pair.root, &pair.real_root);
    let document_id: i64 = d.id;
    let ghost model = |o: DocumentView|
        o.path == rebased(d@.path, pair@.root, pair@.real_root) && o.id != d@.id;
    let wanted = |o: &DocumentRow| -> (b: bool)
        ensures
            b == model(o@),
        { same_text(&o.path, &path) && o.id != document_id };
    find_row(documents, wanted, Ghost(model)).is_none()
}

/// Gives documents their real path that get it at once.
fn rewrite_documents(library: &mut Library, counts: &mut Counts, pair: &RootPair)
    ensures
        (Migration { library: final(library)@, counts: *final(counts) }) == documents_rewritten(
            Migration { library: old(library)@, counts: *old(counts) },
            pair@,
        ),
{
    let ghost before = library@;
    let ghost moves = document_moves(before.documents, pair@);
    let documents = &library.documents;
    let is_moving = |d: &DocumentRow| -> (b: bool)
        ensures
            b == moves(d@),
        { document_moves_at_once(documents, d, pair) };
    let n = count_rows(documents, is_moving, Ghost(moves));
    let ghost p = pair@;
    let ghost model = |d: DocumentView|
        if moves(d) {
            DocumentView { path: rebased(d.path, p.root, p.real_root), ..d }
        } else {
            d
        };
    let change = |d: &DocumentRow| -> (o: DocumentRow)
        ensures
            o@ == model(d@),
        {
            let mut row = d.duplicate();
            if document_moves_at_once(documents, d, pair) {
                row.path = rebase(&d.path, &pair.root, &pair.real_root);
            }
            row
        };
    let rows = map_rows(documents, change, Ghost(model));
    library.documents = rows;
    counts.updated = add_count(counts.updated, n);
    assert(library@ =~= LibraryView { documents: before.documents.map_values(model), ..before });
}

/// What becomes of a document that is still below a virtual root: where its
/// artist has a document of the real file already, it is dropped.
pub open spec fn document_placed(m: Migration, d: DocumentView, p: PairView) -> Migration {
    let l = m.library;
    let path = rebased(d.path, p.root, p.real_root);
    if first(
        l.documents,
        |o: DocumentView| o.artist_id == d.artist_id && o.path == path && o.id != d.id,
    ) is Some {
        Migration {
            library: LibraryView {
                documents: kept(l.documents, |o: DocumentView| o.id != d.id),
                ..l
            },
            counts: Counts {
                merged_link_documents: added(m.counts.merged_link_documents, 1),
                ..m.counts
            },
        }
    } else {
        Migration {
            library: LibraryView {
                documents: l.documents.map_values(
                    |o: DocumentView|
                        if o.id == d.id {
                            DocumentView { path, ..o }
                        } else {
                            o
                        },
                ),
                ..l
            },
            counts: Counts { updated: added(m.counts.updated, 1), ..m.counts },
        }
    }
}

/// Gives a document that is still below a virtual root its real path.
fn place_document(library: &mut Library, counts: &mut Counts, d: &DocumentRow, pair: &RootPair)
    requires
        under_root(d@.path, pair@.root),
    ensures
        (Migration { library: final(library)@, counts: *final(counts) }) == document_placed(
            Migration { library: old(library)@, counts: *old(counts) },
            d@,
            pair@,
        ),
{
    let ghost before = library@;
    let path = rebase(&d.path, &pair.root, &pair.real_root);
    let document_id: i64 = d.id;
    let artist_id: i64 = d.artist_id;
    let ghost model = |o: DocumentView|
        o.artist_id == d@.artist_id && o.path == path@ && o.id != d@.id;
    let wanted = |o: &DocumentRow| -> (b: bool)
        ensures
            b == model(o@),
        { o.artist_id == artist_id && same_text(&o.path, &path) && o.id != document_id };
    if find_row(&library.documents, wanted, Ghost(model)).is_some() {
        let ghost model = |o: DocumentView| o.id != d@.id;
        let stays = |o: &DocumentRow| -> (b: bool)
            ensures
                b == model(o@),
            { o.id != document_id };
        keep_rows(&mut library.documents, stays, Ghost(model));
        counts.merged_link_documents = add_count(counts.merged_link_documents, 1);
        assert(library@ =~= LibraryView { documents: kept(before.documents, model), ..before });
    } else {
        let ghost model = |o: DocumentView|
            if o.id == d@.id {
                DocumentView { path: path@, ..o }
            } else {
                o
            };
        let change = |o: &DocumentRow| -> (n: DocumentRow)
            ensures
                n@ == model(o@),
            {
                let mut row = o.duplicate();
                if o.id == document_id {
                    row.path = path.clone();
                }
                row
            };
        library.documents = map_rows(&library.documents, change, Ghost(model));
        counts.updated = add_count(counts.updated, 1);
        assert(library@ =~= LibraryView {
            documents: before.documents.map_values(model),
            ..before
        });
    }
}

/// What becomes of the documents that are still below one virtual root.
pub open spec fn documents_settled(m: Migration, p: PairView) -> Migration {
    folded(
        m,
        kept(m.library.documents, |d: DocumentView| under_root(d.path, p.root)),
        |s: Migration, d: DocumentView| document_placed(s, d, p),
    )
}

/// Gives the documents that are still below one virtual root their real path.
fn settle_documents(library: &mut Library, counts: &mut Counts, pair: &RootPair)
    ensures
        (Migration { library: final(library)@, counts: *final(counts) }) == documents_settled(
            Migration { library: old(library)@, counts: *old(counts) },
            pair@,
        ),
{
    let ghost start = Migration { library: library@, counts: *counts };
    let ghost all = library@.documents;
    let ghost p = pair@;
    let ghost wanted = |d: DocumentView| under_root(d.path, p.root);
    let ghost step = |s: Migration, d: DocumentView| document_placed(s, d, p);
    let ghost same = |d: DocumentView| d;
    let copy = |d: &DocumentRow| -> (o: DocumentRow)
        ensures
            o@ == same(d@),
        { d.duplicate() };
    let mut rows = map_rows(&library.documents, copy, Ghost(same));
    assert(views(rows@) =~= all);
    let is_wanted = |d: &DocumentRow| -> (b: bool)
        ensures
            b == wanted(d@),
        { is_under_root(&d.path, &pair.root) };
    keep_rows(&mut rows, is_wanted, Ghost(wanted));
    let ghost selected = views(rows@);
    proof {
        crate::tables::lemma_kept(all, wanted);
    }
    let mut i: usize = 0;
    assert(selected.take(0) =~= Seq::<DocumentView>::empty());
    while i < rows.len()
        invariant
            i <= rows@.len(),
            p == pair@,
            selected == views(rows@),
            wanted == (|d: DocumentView| under_root(d.path, p.root)),
            forall|j: int| 0 <= j < selected.len() ==> wanted(#[trigger] selected[j]),
            step == (|s: Migration, d: DocumentView| document_placed(s, d, p)),
            (Migration { library: library@, counts: *counts }) == folded(
                start,
                selected.take(i as int),
                step,
            ),
        decreases rows@.len() - i,
    {
        proof {
            assert(selected.take(i as int + 1).drop_last() =~= selected.take(i as int));
            assert(selected.take(i as int + 1).last() == rows@[i as int]@);
            assert(wanted(selected[i as int]));
        }
        place_document(library, counts, &rows[i], pair);
        i += 1;
    }
    assert(selected.take(selected.len() as int) =~= selected);
}

/// What becomes of the documents below the virtual roots.
pub open spec fn documents_migrated(m: Migration, pairs: Seq<PairView>) -> Migration {
    folded(
        folded(m, pairs, |s: Migration, p: PairView| documents_rewritten(s, p)),
        pairs,
        |s: Migration, p: PairView| documents_settled(s, p),
    )
}

/// Gives the documents below the virtual roots their real paths.
fn migrate_documents(library: &mut Library, counts: &mut Counts, pairs: &Vec<RootPair>)
    ensures
        (Migration { library: final(library)@, counts: *final(counts) }) == documents_migrated(
            Migration { library: old(library)@, counts: *old(counts) },
            views(pairs@),
        ),
{
    let ghost start = Migration { library: library@, counts: *counts };
    let ghost all = views(pairs@);
    let ghost step = |s: Migration, p: PairView| documents_rewritten(s, p);
    let ghost last_step = |s: Migration, p: PairView| documents_settled(s, p);
    let mut i: usize = 0;
    assert(all.take(0) =~= Seq::<PairView>::empty());
    while i < pairs.len()
        invariant
            i <= pairs@.len(),
            all == views(pairs@),
            step == (|s: Migration, p: PairView| documents_rewritten(s, p)),
            (Migration { library: library@, counts: *counts }) == folded(
                start,
                all.take(i as int),
                step,
            ),
        decreases pairs@.len() - i,
    {
        assert(all.take(i as int + 1).drop_last() =~= all.take(i as int));
        assert(all.take(i as int + 1).last() == pairs@[i as int]@);
        rewrite_documents(library, counts, &pairs[i]);
        i += 1;
    }
    assert(all.take(all.len() as int) =~= all);
    let ghost middle = Migration { library: library@, counts: *counts };
    let mut i: usize = 0;
    while i < pairs.len()
        invariant
            i <= pairs@.len(),
            all == views(pairs@),
            last_step == (|s: Migration, p: PairView| documents_settled(s, p)),
            (Migration { library: library@, counts: *counts }) == folded(
                middle,
                all.take(i as int),
                last_step,
            ),
        decreases pairs@.len() - i,
    {
        assert(all.take(i as int + 1).drop_last() =~= all.take(i as int));
        assert(all.take(i as int + 1).last() == pairs@[i as int]@);
        settle_documents(library, counts, &pairs[i]);
        i += 1;
    }
}

/// A path with the real root, where it lies below the virtual one and goes up
/// nowhere.
pub open spec fn rewritten(path: Seq<char>, p: PairView) -> Seq<char> {
    if rewritable(path, p.root) {
        rebased(path, p.root, p.real_root)
    } else {
        path
    }
}

/// A path with the real root.
fn rewrite(path: &str, pair: &RootPair) -> (r: String)
    ensures
        r@ == rewritten(path@, pair@),
{
    if is_rewritable(path, &pair.root) {
        rebase(path, &pair.root, &pair.real_root)
    } else {
        path.to_owned()
    }
}

/// Rows and a count.
#[verifier::ext_equal]
pub struct CountedScans {
    /// The rows.
    pub rows: Seq<ScanView>,
    /// The count.
    pub updated: u64,
}

/// What becomes of scanned files below one virtual root.
pub open spec fn scans_rewritten(s: CountedScans, p: PairView) -> CountedScans {
    CountedScans {
        rows: s.rows.map_values(|r: ScanView| ScanView { path: rewritten(r.path, p), ..r }),
        updated: added(
            s.updated,
            tally(s.rows, |r: ScanView| rewritable(r.path, p.root)) as int,
        ),
    }
}

/// What becomes of scanned files below the virtual roots.
pub open spec fn scans_migrated(rows: Seq<ScanView>, updated: u64, pairs: Seq<PairView>) -> CountedScans {
    folded(
        CountedScans { rows, updated },
        pairs,
        |s: CountedScans, p: PairView| scans_rewritten(s, p),
    )
}

/// Gives scanned files below the virtual roots their real paths.
fn migrate_scans(rows: &mut Vec<ScanRow>, updated: &mut u64, pairs: &Vec<RootPair>)
    ensures
        (CountedScans { rows: views(final(rows)@), updated: *final(updated) }) == scans_migrated(
            views(old(rows)@),
            *old(updated),
            views(pairs@),
        ),
{
    let ghost start = CountedScans { rows: views(rows@), updated: *updated };
    let ghost all = views(pairs@);
    let ghost step = |s: CountedScans, p: PairView| scans_rewritten(s, p);
    let mut i: usize = 0;
    assert(all.take(0) =~= Seq::<PairView>::empty());
    while i < pairs.len()
        invariant
            i <= pairs@.len(),
            all == views(pairs@),
            step == (|s: CountedScans, p: PairView| scans_rewritten(s, p)),
            (CountedScans { rows: views(rows@), updated: *updated }) == folded(
                start,
                all.take(i as int),
                step,
            ),
        decreases pairs@.len() - i,
    {
        assert(all.take(i as int + 1).drop_last() =~= all.take(i as int));
        assert(all.take(i as int + 1).last() == pairs@[i as int]@);
        let pair = &pairs[i];
        let ghost p = pair@;
        let ghost counted = |r: ScanView| rewritable(r.path, p.root);
        let ghost model = |r: ScanView| ScanView { path: rewritten(r.path, p), ..r };
        let is_counted = |r: &ScanRow| -> (b: bool)
            ensures
                b == counted(r@),
            { is_rewritable(&r.path, &pair.root) };
        let change = |r: &ScanRow| -> (o: ScanRow)
            ensures
                o@ == model(r@),
            { ScanRow { artist_id: r.artist_id, path: rewrite(&r.path, pair) } };
        let n = count_rows(rows, is_counted, Ghost(counted));
        *rows = map_rows(rows, change, Ghost(model));
        *updated = add_count(*updated, n);
        i += 1;
    }
    assert(all.take(all.len() as int) =~= all);
}

/// Rows and a count.
#[verifier::ext_equal]
pub struct CountedMoves {
    /// The rows.
    pub rows: Seq<MoveView>,
    /// The count.
    pub updated: u64,
}

/// The path on one side of a move.
pub open spec fn side_of(m: MoveView, old_side: bool) -> Seq<char> {
    if old_side {
        m.old_path
    } else {
        m.new_path
    }
}

/// A move with the real root on one side.
pub open spec fn move_rewritten(m: MoveView, p: PairView, old_side: bool) -> MoveView {
    if old_side {
        MoveView { old_path: rewritten(m.old_path, p), ..m }
    } else {
        MoveView { new_path: rewritten(m.new_path, p), ..m }
    }
}

/// What becomes of one side of the moves below one virtual root.
pub open spec fn moves_rewritten(s: CountedMoves, p: PairView, old_side: bool) -> CountedMoves {
    CountedMoves {
        rows: s.rows.map_values(|m: MoveView| move_rewritten(m, p, old_side)),
        updated: added(
            s.updated,
            tally(s.rows, |m: MoveView| rewritable(side_of(m, old_side), p.root)) as int,
        ),
    }
}

/// What becomes of one side of the moves below the virtual roots.
pub open spec fn move_side_migrated(s: CountedMoves, pairs: Seq<PairView>, old_side: bool) -> CountedMoves {
    folded(s, pairs, |c: CountedMoves, p: PairView| moves_rewritten(c, p, old_side))
}

/// What becomes of the moves below the virtual roots.
pub open spec fn moves_migrated(rows: Seq<MoveView>, updated: u64, pairs: Seq<PairView>) -> CountedMoves {
    move_side_migrated(
        move_side_migrated(CountedMoves { rows, updated }, pairs, true),
        pairs,
        false,
    )
}

/// Gives one side of the moves below the virtual roots its real paths.
fn migrate_move_side(
    rows: &mut Vec<MoveRow>,
    updated: &mut u64,
    pairs: &Vec<RootPair>,
    old_side: bool,
)
    ensures
        (CountedMoves { rows: views(final(rows)@), updated: *final(updated) })
            == move_side_migrated(
            CountedMoves { rows: views(old(rows)@), updated: *old(updated) },
            views(pairs@),
            old_side,
        ),
{
    let ghost start = CountedMoves { rows: views(rows@), updated: *updated };
    let ghost all = views(pairs@);
    let ghost step = |s: CountedMoves, p: PairView| moves_rewritten(s, p, old_side);
    let mut i: usize = 0;
    assert(all.take(0) =~= Seq::<PairView>::empty());
    while i < pairs.len()
        invariant
            i <= pairs@.len(),
            all == views(pairs@),
            step == (|s: CountedMoves, p: PairView| moves_rewritten(s, p, old_side)),
            (CountedMoves { rows: views(rows@), updated: *updated }) == folded(
                start,
                all.take(i as int),
                step,
            ),
        decreases pairs@.len() - i,
    {
        assert(all.take(i as int + 1).drop_last() =~= all.take(i as int));
        assert(all.take(i as int + 1).last() == pairs@[i as int]@);
        let pair = &pairs[i];
        let ghost p = pair@;
        let ghost counted = |m: MoveView| rewritable(side_of(m, old_side), p.root);
        let ghost model = |m: MoveView| move_rewritten(m, p, old_side);
        let is_counted = |m: &MoveRow| -> (b: bool)
            ensures
                b == counted(m@),
            {
                if old_side {
                    is_rewritable(&m.old_path, &pair.root)
                } else {
                    is_rewritable(&m.new_path, &pair.root)
                }
            };
        let change = |m: &MoveRow| -> (o: MoveRow)
            ensures
                o@ == model(m@),
            {
                let mut row = m.duplicate();
                if old_side {
                    row.old_path = rewrite(&m.old_path, pair);
                } else {
                    row.new_path = rewrite(&m.new_path, pair);
                }
                row
            };
        let n = count_rows(rows, is_counted, Ghost(counted));
        *rows = map_rows(rows, change, Ghost(model));
        *updated = add_count(*updated, n);
        i += 1;
    }
    assert(all.take(all.len() as int) =~= all);
}

/// What becomes of the remaining paths: those of scans and moves.
pub open spec fn traces_migrated(m: Migration, pairs: Seq<PairView>) -> Migration {
    let l = m.library;
    let seen = scans_migrated(l.scan_seen, m.counts.updated, pairs);
    let waiting = scans_migrated(l.scan_candidates, seen.updated, pairs);
    let proposed = moves_migrated(l.move_candidates, waiting.updated, pairs);
    let made = moves_migrated(l.move_history, proposed.updated, pairs);
    Migration {
        library: LibraryView {
            scan_seen: seen.rows,
            scan_candidates: waiting.rows,
            move_candidates: proposed.rows,
            move_history: made.rows,
            ..l
        },
        counts: Counts { updated: made.updated, ..m.counts },
    }
}

/// Gives the remaining paths their real roots.
fn migrate_traces(library: &mut Library, counts: &mut Counts, pairs: &Vec<RootPair>)
    ensures
        (Migration { library: final(library)@, counts: *final(counts) }) == traces_migrated(
            Migration { library: old(library)@, counts: *old(counts) },
            views(pairs@),
        ),
{
    let mut updated: u64 = counts.updated;
    migrate_scans(&mut library.scan_seen, &mut updated, pairs);
    migrate_scans(&mut library.scan_candidates, &mut updated, pairs);
    migrate_move_side(&mut library.move_candidates, &mut updated, pairs, true);
    migrate_move_side(&mut library.move_candidates, &mut updated, pairs, false);
    migrate_move_side(&mut library.move_history, &mut updated, pairs, true);
    migrate_move_side(&mut library.move_history, &mut updated, pairs, false);
    counts.updated = updated;
}

/// What becomes of a library below virtual roots.
pub open spec fn library_migrated(l: LibraryView, pairs: Seq<PairView>, comparable: bool) -> Result<
    Migration,
    MergeError,
> {
    let nothing = Counts {
        updated: 0,
        merged_artists: 0,
        merged_items: 0,
        merged_link_documents: 0,
    };
    match artists_placed(Migration { library: l, counts: nothing }, pairs, comparable) {
        Err(e) => Err(e),
        Ok(m) => Ok(
            traces_migrated(documents_migrated(items_migrated(m, pairs), pairs), pairs),
        ),
    }
}

/// What a run came to.
#[derive(Clone, Copy, PartialEq, Eq, Debug, Structural)]
pub enum MigrationOutcome {
    /// It ran for these roots before.
    AlreadyApplied,
    /// No stored path lies below a virtual root.
    NoVirtualPaths,
    /// No virtual root has a real one.
    NoPairs,
    /// The paths were replaced.
    Migrated(Counts),
}

/// What a run comes to and leaves. `applied` says whether it was made before for
/// these roots.
pub open spec fn migration_run(
    l: LibraryView,
    roots: Seq<RootView>,
    applied: bool,
    comparable: bool,
) -> Result<(LibraryView, MigrationOutcome), MergeError> {
    let pairs = root_pairs(roots);
    if applied {
        Ok((l, MigrationOutcome::AlreadyApplied))
    } else if !virtual_paths(l, roots) {
        Ok((l, MigrationOutcome::NoVirtualPaths))
    } else if pairs.len() == 0 {
        Ok((l, MigrationOutcome::NoPairs))
    } else {
        match library_migrated(l, pairs, comparable) {
            Err(e) => Err(e),
            Ok(m) => Ok((m.library, MigrationOutcome::Migrated(m.counts))),
        }
    }
}

/// Replaces virtual roots by real ones, unless that was done before for these
/// roots: `applied` says so. Where artists cannot be merged the library stays as
/// it was.
pub fn migrate_media_paths(
    library: &mut Library,
    roots: &Vec<MediaRoot>,
    applied: bool,
    comparable: bool,
) -> (r: Result<MigrationOutcome, MergeError>)
    ensures
        match migration_run(old(library)@, views(roots@), applied, comparable) {
            Ok((l, outcome)) => r is Ok && r->Ok_0 == outcome && final(library)@ == l,
            Err(e) => r is Err && r->Err_0 == e && final(library)@ == old(library)@,
        },
{
    if applied {
        return Ok(MigrationOutcome::AlreadyApplied);
    }
    if !has_virtual_paths(library, roots) {
        return Ok(MigrationOutcome::NoVirtualPaths);
    }
    let pairs = migration_pairs(roots);
    assert(views(pairs@).len() == pairs@.len());
    if pairs.len() == 0 {
        return Ok(MigrationOutcome::NoPairs);
    }
    let mut working = library.duplicate();
    let mut counts = Counts {
        updated: 0,
        merged_artists: 0,
        merged_items: 0,
        merged_link_documents: 0,
    };
    match place_artists(&mut working, &mut counts, &pairs, comparable) {
        Ok(()) => {},
        Err(e) => {
            return Err(e);
        },
    }
    migrate_items(&mut working, &mut counts, &pairs);
    migrate_documents(&mut working, &mut counts, &pairs);
    migrate_traces(&mut working, &mut counts, &pairs);
    *library = working;
    Ok(MigrationOutcome::Migrated(counts))
}

/// The value of a stored marker.
pub open spec fn marker_view(marker: Option<String>) -> Option<Seq<char>> {
    match marker {
        Some(m) => Some(m@),
        None => None,
    }
}

/// What a run comes to and leaves, the marker included: it is the signature of the roots
/// for which the last run that was not refused was made.
pub open spec fn marked_run(
    l: LibraryView,
    marker: Option<Seq<char>>,
    roots: MediaRoots,
    comparable: bool,
) -> Result<(LibraryView, Option<Seq<char>>, MigrationOutcome), MergeError> {
    match migration_run(
        l,
        views(roots.roots@),
        marker == Some(signature(roots)),
        comparable,
    ) {
        Err(e) => Err(e),
        Ok((now, outcome)) => Ok((now, Some(signature(roots)), outcome)),
    }
}

/// Replaces virtual roots by real ones. `marker` is the signature that an earlier
/// run has stored. A run that was not refused leaves the signature of the roots there,
/// and a run that was refused leaves everything as it was.
pub fn normalize_configured_media_paths(
    library: &mut Library,
    marker: &mut Option<String>,
    roots: &MediaRoots,
    comparable: bool,
) -> (r: Result<MigrationOutcome, MergeError>)
    ensures
        match marked_run(old(library)@, marker_view(*old(marker)), *roots, comparable) {
            Ok((l, m, outcome)) => r is Ok && r->Ok_0 == outcome && final(library)@ == l
                && marker_view(*final(marker)) == m,
            Err(e) => r is Err && r->Err_0 == e && final(library)@ == old(library)@
                && marker_view(*final(marker)) == marker_view(*old(marker)),
        },
{
    let text = media_path_migration_signature(roots);
    let applied = match &*marker {
        Some(m) => same_text(m, &text),
        None => false,
    };
    let r = migrate_media_paths(library, &roots.roots, applied, comparable);
    match r {
        Ok(_) => {
            *marker = Some(text);
        },
        Err(_) => {},
    }
    r
}

/// The members of an answer that says why nothing was done.
pub open spec fn skip_members(reason: Seq<char>) -> Seq<(Seq<char>, JsonTree)> {
    seq![("updated"@, JsonTree::Number(decimal(0))), ("skipped"@, JsonTree::Text(reason))]
}

/// The answer that says what a run came to.
pub open spec fn migration_answer_tree(outcome: MigrationOutcome) -> JsonTree {
    match outcome {
        MigrationOutcome::AlreadyApplied => JsonTree::Object(skip_members("already_applied"@)),
        MigrationOutcome::NoVirtualPaths => JsonTree::Object(skip_members("no_virtual_paths"@)),
        MigrationOutcome::NoPairs => JsonTree::Object(skip_members("no_pairs"@)),
        MigrationOutcome::Migrated(c) => JsonTree::Object(
            seq![
                ("updated"@, JsonTree::Number(decimal(c.updated as nat))),
                ("merged_artists"@, JsonTree::Number(decimal(c.merged_artists as nat))),
                ("merged_items"@, JsonTree::Number(decimal(c.merged_items as nat))),
                (
                    "merged_link_documents"@,
                    JsonTree::Number(decimal(c.merged_link_documents as nat)),
                ),
            ],
        ),
    }
}

/// Says why nothing was done.
fn skip_answer(reason: &str) -> (r: Json)
    ensures
        r.tree() == JsonTree::Object(skip_members(reason@)),
{
    let mut members: Vec<(String, Json)> = Vec::new();
    members.push(entry("updated", number(0)));
    members.push(text_member("skipped", reason));
    assert(entry_views(members@) =~= skip_members(reason@));
    object(members)
}

/// Says what a run came to.
pub fn migration_answer(outcome: MigrationOutcome) -> (r: Json)
    ensures
        r.tree() == migration_answer_tree(outcome),
{
    match outcome {
        MigrationOutcome::AlreadyApplied => skip_answer("already_applied"),
        MigrationOutcome::NoVirtualPaths => skip_answer("no_virtual_paths"),
        MigrationOutcome::NoPairs => skip_answer("no_pairs"),
        MigrationOutcome::Migrated(c) => {
            let mut members: Vec<(String, Json)> = Vec::new();
            members.push(entry("updated", number(c.updated)));
            members.push(entry("merged_artists", number(c.merged_artists)));
            members.push(entry("merged_items", number(c.merged_items)));
            members.push(entry("merged_link_documents", number(c.merged_link_documents)));
            assert(entry_views(members@) =~= migration_answer_tree(outcome)->Object_0);
            object(members)
        },
    }
}

/// Of two roots that a path lies below one lies below the other.
proof fn lemma_roots_nest(path: Seq<char>, a: Seq<char>, b: Seq<char>)
    requires
        under_root(path, a),
        under_root(path, b),
    ensures
        under_root(a, b) || under_root(b, a),
{
    if a.len() <= b.len() {
        lemma_shorter_root(path, a, b);
    } else {
        lemma_shorter_root(path, b, a);
    }
}

/// Of two roots that a path lies below the longer lies below the shorter.
proof fn lemma_shorter_root(path: Seq<char>, a: Seq<char>, b: Seq<char>)
    requires
        under_root(path, a),
        under_root(path, b),
        a.len() <= b.len(),
    ensures
        under_root(b, a),
{
    let sep = seq!['/'];
    assert((a + sep).len() == a.len() + 1);
    assert((b + sep).len() == b.len() + 1);
    if path != b {
        assert(path.take(b.len() as int + 1) =~= b + sep);
        assert(path.take(b.len() as int) =~= b) by {
            assert forall|i: int| 0 <= i < b.len() implies path[i] == b[i] by {
                assert(path.take(b.len() as int + 1)[i] == (b + sep)[i]);
            }
        }
        assert(path != a);
        assert(path.take(a.len() as int + 1) =~= a + sep);
        if a.len() == b.len() {
            assert(a =~= b) by {
                assert forall|i: int| 0 <= i < b.len() implies a[i] == b[i] by {
                    assert(path.take(b.len() as int + 1)[i] == (b + sep)[i]);
                    assert(path.take(a.len() as int + 1)[i] == (a + sep)[i]);
                }
            }
        } else {
            assert(b.take(a.len() as int + 1) =~= a + sep) by {
                assert forall|i: int| 0 <= i < a.len() + 1 implies b[i] == (a + sep)[i] by {
                    assert(path.take(b.len() as int)[i] == b[i]);
                    assert(path.take(a.len() as int + 1)[i] == (a + sep)[i]);
                }
            }
        }
    }
}

/// A path with another root lies below that root.
proof fn lemma_rebased_under(path: Seq<char>, root: Seq<char>, real_root: Seq<char>)
    requires
        under_root(path, root),
    ensures
        under_root(rebased(path, root, real_root), real_root),
{
    let now = rebased(path, root, real_root);
    let sep = seq!['/'];
    assert((root + sep).len() == root.len() + 1);
    assert((real_root + sep).len() == real_root.len() + 1);
    if path == root {
        assert(now =~= real_root);
    } else {
        assert(path.take(root.len() as int + 1) =~= root + sep);
        assert(path[root.len() as int] == '/') by {
            assert(path.take(root.len() as int + 1)[root.len() as int] == (root + sep)[
                root.len() as int
            ]);
        }
        assert(now.take(real_root.len() as int + 1) =~= real_root + sep);
    }
}

/// Whether no virtual root lies in a real one, nor a real one in a virtual one.
pub open spec fn roots_are_separate(pairs: Seq<PairView>) -> bool {
    forall|i: int, j: int|
        0 <= i < pairs.len() && 0 <= j < pairs.len() ==> !under_root(
            (#[trigger] pairs[i]).root,
            (#[trigger] pairs[j]).real_root,
        ) && !under_root(pairs[j].real_root, pairs[i].root)
}

/// With separate roots a path with a real root lies below no virtual one.
proof fn lemma_rebased_is_real(path: Seq<char>, pairs: Seq<PairView>, i: int, j: int)
    requires
        roots_are_separate(pairs),
        0 <= i < pairs.len(),
        0 <= j < pairs.len(),
        under_root(path, pairs[j].root),
    ensures
        !under_root(rebased(path, pairs[j].root, pairs[j].real_root), pairs[i].root),
{
    let now = rebased(path, pairs[j].root, pairs[j].real_root);
    lemma_rebased_under(path, pairs[j].root, pairs[j].real_root);
    if under_root(now, pairs[i].root) {
        lemma_roots_nest(now, pairs[i].root, pairs[j].real_root);
    }
}

/// Giving an item a path changes the path of no other.
proof fn lemma_item_placed(m: Migration, item: i64, path: Seq<char>, artist: Option<i64>)
    ensures
        ({
            let items = m.library.items;
            let now = item_placed(m, item, path, artist).library.items;
            forall|i: int|
                #![trigger now[i]]
                0 <= i < now.len() ==> if now[i].id == item {
                    now[i].path == path
                } else {
                    exists|j: int|
                        0 <= j < items.len() && (#[trigger] items[j]).id == now[i].id
                            && items[j].path == now[i].path
                }
        }),
{
    let items = m.library.items;
    let now = item_placed(m, item, path, artist).library.items;
    match first(items, |i: ItemView| i.path == path && i.id != item) {
        Some(other) => {
            let joined = item_merged_items(items, item, other.id, artist);
            let stays = |i: ItemView| i.id != item;
            let places = crate::tables::lemma_kept_places(joined, stays);
            crate::tables::lemma_kept(joined, stays);
            assert forall|i: int| #![trigger now[i]] 0 <= i < now.len() implies if now[i].id
                == item {
                now[i].path == path
            } else {
                exists|j: int|
                    0 <= j < items.len() && (#[trigger] items[j]).id == now[i].id && items[j].path
                        == now[i].path
            } by {
                assert(stays(now[i]));
                let j = places[i];
                assert(now[i] == joined[j]);
                assert(items[j].id == now[i].id && items[j].path == now[i].path);
            }
        },
        None => {
            assert forall|i: int| #![trigger now[i]] 0 <= i < now.len() implies if now[i].id
                == item {
                now[i].path == path
            } else {
                exists|j: int|
                    0 <= j < items.len() && (#[trigger] items[j]).id == now[i].id && items[j].path
                        == now[i].path
            } by {
                assert(items[i].id == now[i].id);
            }
        },
    }
}

/// The items after an item was merged into another.
spec fn item_merged_items(items: Seq<ItemView>, source: i64, keep: i64, artist: Option<i64>) -> Seq<ItemView> {
    crate::item_merge::items_joined(items, source, keep, artist)
}

/// Whether no item lies below a root.
pub open spec fn no_item_under(items: Seq<ItemView>, root: Seq<char>) -> bool {
    forall|i: int| 0 <= i < items.len() ==> !under_root((#[trigger] items[i]).path, root)
}

/// The items that are still below a root after some of those below it were
/// settled are items whose turn has not come.
proof fn lemma_items_settle(m: Migration, pairs: Seq<PairView>, at: int, n: int)
    requires
        roots_are_separate(pairs),
        0 <= at < pairs.len(),
        0 <= n <= kept(
            m.library.items,
            |i: ItemView| under_root(i.path, pairs[at].root),
        ).len(),
    ensures
        ({
            let p = pairs[at];
            let wanted = |i: ItemView| under_root(i.path, p.root);
            let selected = kept(m.library.items, wanted);
            let step = |s: Migration, i: ItemView|
                item_placed(s, i.id, rebased(i.path, p.root, p.real_root), None);
            let now = folded(m, selected.take(n), step).library.items;
            &&& forall|i: int|
                #![trigger now[i]]
                0 <= i < now.len() && under_root(now[i].path, p.root) ==> (exists|k: int|
                    n <= k < selected.len() && (#[trigger] selected[k]).id == now[i].id) && (forall|
                    k: int,
                |
                    0 <= k < n ==> (#[trigger] selected[k]).id != now[i].id)
            &&& forall|q: int|
                0 <= q < pairs.len() && #[trigger] no_item_under(m.library.items, pairs[q].root)
                    ==> no_item_under(now, pairs[q].root)
        }),
    decreases n,
{
    let p = pairs[at];
    let wanted = |i: ItemView| under_root(i.path, p.root);
    let selected = kept(m.library.items, wanted);
    let step = |s: Migration, i: ItemView|
        item_placed(s, i.id, rebased(i.path, p.root, p.real_root), None);
    let now = folded(m, selected.take(n), step).library.items;
    crate::tables::lemma_kept(m.library.items, wanted);
    if n == 0 {
        assert(selected.take(0) =~= Seq::<ItemView>::empty());
        assert forall|i: int|
            #![trigger now[i]]
            0 <= i < now.len() && under_root(now[i].path, p.root) implies (exists|k: int|
            n <= k < selected.len() && (#[trigger] selected[k]).id == now[i].id) && (forall|k: int|
            0 <= k < n ==> (#[trigger] selected[k]).id != now[i].id) by {
            assert(m.library.items[i] == now[i]);
            assert(selected.contains(now[i]));
            let k = selected.index_of(now[i]);
            assert(selected[k].id == now[i].id);
        }
    } else {
        lemma_items_settle(m, pairs, at, n - 1);
        let before = folded(m, selected.take(n - 1), step);
        let row = selected[n - 1];
        let path = rebased(row.path, p.root, p.real_root);
        assert(selected.take(n).drop_last() =~= selected.take(n - 1));
        assert(selected.take(n).last() == row);
        assert(wanted(row));
        lemma_item_placed(before, row.id, path, None);
        lemma_rebased_is_real(row.path, pairs, at, at);
        let items = before.library.items;
        assert forall|i: int|
            #![trigger now[i]]
            0 <= i < now.len() && under_root(now[i].path, p.root) implies (exists|k: int|
            n <= k < selected.len() && (#[trigger] selected[k]).id == now[i].id) && (forall|k: int|
            0 <= k < n ==> (#[trigger] selected[k]).id != now[i].id) by {
            assert(now[i].id != row.id);
            let j = choose|j: int|
                0 <= j < items.len() && (#[trigger] items[j]).id == now[i].id && items[j].path
                    == now[i].path;
            let k = choose|k: int|
                n - 1 <= k < selected.len() && (#[trigger] selected[k]).id == items[j].id;
            assert(k != n - 1);
            assert(selected[k].id == now[i].id);
        }
        assert forall|q: int|
            0 <= q < pairs.len() && #[trigger] no_item_under(
                m.library.items,
                pairs[q].root,
            ) implies no_item_under(now, pairs[q].root) by {
            lemma_rebased_is_real(row.path, pairs, q, at);
            assert(no_item_under(items, pairs[q].root));
            assert forall|i: int| 0 <= i < now.len() implies !under_root(
                (#[trigger] now[i]).path,
                pairs[q].root,
            ) by {
                if now[i].id != row.id {
                    let j = choose|j: int|
                        0 <= j < items.len() && (#[trigger] items[j]).id == now[i].id
                            && items[j].path == now[i].path;
                    assert(!under_root(items[j].path, pairs[q].root));
                }
            }
        }
    }
}

/// After the items below some roots were settled none lies below these.
proof fn lemma_roots_settle(m: Migration, pairs: Seq<PairView>, n: int)
    requires
        roots_are_separate(pairs),
        0 <= n <= pairs.len(),
    ensures
        ({
            let now = folded(
                m,
                pairs.take(n),
                |s: Migration, p: PairView| items_settled(s, p),
            ).library.items;
            forall|q: int| 0 <= q < n ==> no_item_under(now, (#[trigger] pairs[q]).root)
        }),
    decreases n,
{
    let step = |s: Migration, p: PairView| items_settled(s, p);
    if n > 0 {
        lemma_roots_settle(m, pairs, n - 1);
        let before = folded(m, pairs.take(n - 1), step);
        let p = pairs[n - 1];
        assert(pairs.take(n).drop_last() =~= pairs.take(n - 1));
        assert(pairs.take(n).last() == p);
        let wanted = |i: ItemView| under_root(i.path, p.root);
        let selected = kept(before.library.items, wanted);
        lemma_items_settle(before, pairs, n - 1, selected.len() as int);
        assert(selected.take(selected.len() as int) =~= selected);
        let now = folded(m, pairs.take(n), step).library.items;
        assert forall|q: int| 0 <= q < n implies no_item_under(
            now,
            (#[trigger] pairs[q]).root,
        ) by {
            if q < n - 1 {
                assert(no_item_under(before.library.items, pairs[q].root));
            }
        }
    }
}

/// After the migration of items none lies below a virtual root.
proof fn lemma_items_are_real(m: Migration, pairs: Seq<PairView>, q: int)
    requires
        roots_are_separate(pairs),
        0 <= q < pairs.len(),
    ensures
        no_item_under(items_migrated(m, pairs).library.items, pairs[q].root),
{
    let start = folded(m, pairs, |s: Migration, p: PairView| items_rewritten(s, p));
    lemma_roots_settle(start, pairs, pairs.len() as int);
    assert(pairs.take(pairs.len() as int) =~= pairs);
}

/// Whether no two items have one id or one path.
pub open spec fn items_are_distinct(items: Seq<ItemView>) -> bool {
    forall|i: int, j: int|
        0 <= i < j < items.len() ==> (#[trigger] items[i]).id != (#[trigger] items[j]).id
            && items[i].path != items[j].path
}

/// Whether no two artists have one id or one path.
pub open spec fn artists_are_distinct(artists: Seq<ArtistView>) -> bool {
    forall|i: int, j: int|
        0 <= i < j < artists.len() ==> (#[trigger] artists[i]).id != (#[trigger] artists[j]).id
            && artists[i].path != artists[j].path
}

/// Whether no two items and no two artists have one id or one path.
pub open spec fn identities_are_distinct(l: LibraryView) -> bool {
    items_are_distinct(l.items) && artists_are_distinct(l.artists)
}

/// Giving an item a path keeps identities distinct.
proof fn lemma_item_placed_distinct(m: Migration, item: i64, path: Seq<char>, artist: Option<i64>)
    requires
        identities_are_distinct(m.library),
    ensures
        identities_are_distinct(item_placed(m, item, path, artist).library),
{
    let items = m.library.items;
    let now = item_placed(m, item, path, artist).library.items;
    let taken = |i: ItemView| i.path == path && i.id != item;
    match first(items, taken) {
        Some(other) => {
            let joined = item_merged_items(items, item, other.id, artist);
            let places = crate::tables::lemma_kept_places(joined, |i: ItemView| i.id != item);
            assert forall|i: int, j: int| 0 <= i < j < now.len() implies (#[trigger] now[i]).id != (
            #[trigger] now[j]).id && now[i].path != now[j].path by {
                let (a, b) = (places[i], places[j]);
                assert(now[i] == joined[a] && now[j] == joined[b]);
                assert(items[a].id != items[b].id && items[a].path != items[b].path);
            }
        },
        None => {
            crate::tables::lemma_first(items, taken);
            assert forall|i: int, j: int| 0 <= i < j < now.len() implies (#[trigger] now[i]).id != (
            #[trigger] now[j]).id && now[i].path != now[j].path by {
                assert(items[i].id != items[j].id && items[i].path != items[j].path);
                assert(!taken(items[i]) && !taken(items[j]));
            }
        },
    }
}

/// Giving items paths keeps identities distinct.
proof fn lemma_items_given_distinct(
    m: Migration,
    source: i64,
    target: i64,
    root: Seq<char>,
    real_root: Seq<char>,
)
    requires
        identities_are_distinct(m.library),
    ensures
        identities_are_distinct(
            crate::artist_merge::items_given(m, source, target, root, real_root).library,
        ),
{
    let rows = kept(m.library.items, |i: ItemView| i.artist_id == source);
    let step = |s: Migration, i: ItemView|
        item_placed(
            s,
            i.id,
            crate::artist_merge::real_path(i, root, real_root),
            Some(target),
        );
    let holds = |s: Migration| identities_are_distinct(s.library);
    assert forall|s: Migration, i: int| 0 <= i < rows.len() && #[trigger] holds(s) implies holds(
        step(s, #[trigger] rows[i]),
    ) by {
        lemma_item_placed_distinct(
            s,
            rows[i].id,
            crate::artist_merge::real_path(rows[i], root, real_root),
            Some(target),
        );
    }
    crate::tables::lemma_folded_keeps(m, rows, step, holds);
}

/// Merging artists keeps identities distinct.
proof fn lemma_artist_merged_distinct(
    m: Migration,
    source: i64,
    target: i64,
    p: PairView,
    comparable: bool,
)
    requires
        identities_are_distinct(m.library),
        artist_merged(m, source, target, p.root, p.real_root, comparable) is Ok,
    ensures
        identities_are_distinct(
            artist_merged(m, source, target, p.root, p.real_root, comparable)->Ok_0.library,
        ),
{
    let l = m.library;
    let t = crate::artist_merge::tags_folded(l.tags, l.item_tags, source, target);
    let plans = crate::artist_merge::plans_mapped(l.plans, t.became, source)->Ok_0;
    let recycled = crate::artist_merge::recycled_mapped(l.recycled, t.became, source)->Ok_0;
    let start = Migration {
        library: LibraryView {
            tags: t.tags,
            item_tags: t.item_tags,
            plans,
            recycled,
            ..l
        },
        counts: m.counts,
    };
    lemma_items_given_distinct(start, source, target, p.root, p.real_root);
    let g = crate::artist_merge::items_given(start, source, target, p.root, p.real_root).library;
    let artists = g.artists;
    let now = crate::artist_merge::artists_joined(artists, source, target);
    let woken = |a: ArtistView|
        if a.id == target {
            ArtistView { missing: false, missing_at: None, ..a }
        } else {
            a
        };
    let table = if crate::artist_merge::active_artist(artists, source)
        || crate::artist_merge::active_artist(artists, target) {
        artists.map_values(woken)
    } else {
        artists
    };
    let places = crate::tables::lemma_kept_places(table, |a: ArtistView| a.id != source);
    assert forall|i: int, j: int| 0 <= i < j < now.len() implies (#[trigger] now[i]).id != (
    #[trigger] now[j]).id && now[i].path != now[j].path by {
        let (a, b) = (places[i], places[j]);
        assert(now[i] == table[a] && now[j] == table[b]);
        assert(artists[a].id != artists[b].id && artists[a].path != artists[b].path);
    }
}

/// Giving an artist a path keeps identities distinct.
proof fn lemma_artist_placed_distinct(m: Migration, a: ArtistView, p: PairView, comparable: bool)
    requires
        identities_are_distinct(m.library),
        artist_placed(m, a, p, comparable) is Ok,
    ensures
        identities_are_distinct(artist_placed(m, a, p, comparable)->Ok_0.library),
{
    let artists = m.library.artists;
    let path = rebased(a.path, p.root, p.real_root);
    let taken = |o: ArtistView| o.path == path && o.id != a.id;
    if path != a.path {
        match first(artists, taken) {
            Some(other) => {
                lemma_artist_merged_distinct(m, a.id, other.id, p, comparable);
            },
            None => {
                crate::tables::lemma_first(artists, taken);
                let now = artist_placed(m, a, p, comparable)->Ok_0.library.artists;
                assert forall|i: int, j: int| 0 <= i < j < now.len() implies (
                #[trigger] now[i]).id != (#[trigger] now[j]).id && now[i].path != now[j].path by {
                    assert(artists[i].id != artists[j].id && artists[i].path != artists[j].path);
                    assert(!taken(artists[i]) && !taken(artists[j]));
                }
            },
        }
    }
}

/// Giving artists paths keeps identities distinct.
proof fn lemma_artists_placed_distinct(m: Migration, pairs: Seq<PairView>, comparable: bool)
    requires
        identities_are_distinct(m.library),
        artists_placed(m, pairs, comparable) is Ok,
    ensures
        identities_are_distinct(artists_placed(m, pairs, comparable)->Ok_0.library),
{
    let step = |s: Migration, p: PairView| root_artists_placed(s, p, comparable);
    let holds = |s: Migration| identities_are_distinct(s.library);
    assert forall|s: Migration, k: int|
        0 <= k < pairs.len() && #[trigger] holds(s) && step(s, #[trigger] pairs[k]) is Ok implies holds(
        step(s, pairs[k])->Ok_0,
    ) by {
        let p = pairs[k];
        let rows = kept(s.library.artists, |a: ArtistView| under_root(a.path, p.root));
        let one = |t: Migration, a: ArtistView| artist_placed(t, a, p, comparable);
        assert forall|t: Migration, i: int|
            0 <= i < rows.len() && #[trigger] holds(t) && one(t, #[trigger] rows[i]) is Ok implies holds(
            one(t, rows[i])->Ok_0,
        ) by {
            lemma_artist_placed_distinct(t, rows[i], p, comparable);
        }
        crate::tables::lemma_tried_keeps(s, rows, one, holds);
    }
    crate::tables::lemma_tried_keeps(m, pairs, step, holds);
}

/// Rewriting items at once keeps identities distinct.
proof fn lemma_items_rewritten_distinct(m: Migration, p: PairView)
    requires
        identities_are_distinct(m.library),
    ensures
        identities_are_distinct(items_rewritten(m, p).library),
{
    let items = m.library.items;
    let now = items_rewritten(m, p).library.items;
    let moves = item_moves(items, p);
    assert forall|i: int, j: int| 0 <= i < j < now.len() implies (#[trigger] now[i]).id != (
    #[trigger] now[j]).id && now[i].path != now[j].path by {
        assert(items[i].id != items[j].id && items[i].path != items[j].path);
        lemma_one_rewrite(items, p, i, j);
        lemma_one_rewrite(items, p, j, i);
        if moves(items[i]) && moves(items[j]) {
            let (x, y) = (items[i].path, items[j].path);
            if now[i].path == now[j].path {
                lemma_rebased_tells(x, y, p.root, p.real_root);
            }
        }
    }
}

/// The path that an item gets at once is that of no other item.
proof fn lemma_one_rewrite(items: Seq<ItemView>, p: PairView, i: int, j: int)
    requires
        0 <= i < items.len(),
        0 <= j < items.len(),
        items[i].id != items[j].id,
    ensures
        item_moves(items, p)(items[i]) ==> items[j].path != rebased(
            items[i].path,
            p.root,
            p.real_root,
        ),
{
    let taken = |o: ItemView|
        o.path == rebased(items[i].path, p.root, p.real_root) && o.id != items[i].id;
    crate::tables::lemma_first(items, taken);
    if item_moves(items, p)(items[i]) {
        assert(first(items, taken) is None);
        assert(!taken(items[j]));
    }
}

/// Different paths below a root stay different with another root.
proof fn lemma_rebased_tells(x: Seq<char>, y: Seq<char>, root: Seq<char>, real_root: Seq<char>)
    requires
        under_root(x, root),
        under_root(y, root),
        rebased(x, root, real_root) == rebased(y, root, real_root),
    ensures
        x == y,
{
    let n = root.len() as int;
    let sep = seq!['/'];
    assert((root + sep).len() == n + 1);
    let (a, b) = (rebased(x, root, real_root), rebased(y, root, real_root));
    assert(x.len() >= n && y.len() >= n);
    assert(x.len() == y.len()) by {
        assert(a.len() == real_root.len() + x.len() - n);
        assert(b.len() == real_root.len() + y.len() - n);
    }
    assert forall|i: int| 0 <= i < x.len() implies x[i] == y[i] by {
        if i < n {
            if x != root {
                assert(x.take(n + 1)[i] == (root + sep)[i]);
            }
            if y != root {
                assert(y.take(n + 1)[i] == (root + sep)[i]);
            }
        } else {
            assert(a[real_root.len() + i - n] == x[i]);
            assert(b[real_root.len() + i - n] == y[i]);
        }
    }
    assert(x =~= y);
}

/// A migration keeps identities distinct: no two items and no two artists ever
/// have one path.
pub proof fn migrations_keep_identities_distinct(
    l: LibraryView,
    pairs: Seq<PairView>,
    comparable: bool,
)
    requires
        identities_are_distinct(l),
        library_migrated(l, pairs, comparable) is Ok,
    ensures
        identities_are_distinct(library_migrated(l, pairs, comparable)->Ok_0.library),
{
    let nothing = Counts {
        updated: 0,
        merged_artists: 0,
        merged_items: 0,
        merged_link_documents: 0,
    };
    let start = Migration { library: l, counts: nothing };
    lemma_artists_placed_distinct(start, pairs, comparable);
    let m = artists_placed(start, pairs, comparable)->Ok_0;
    let holds = |s: Migration| identities_are_distinct(s.library);
    let rewriting = |s: Migration, p: PairView| items_rewritten(s, p);
    assert forall|s: Migration, k: int|
        0 <= k < pairs.len() && #[trigger] holds(s) implies holds(
        rewriting(s, #[trigger] pairs[k]),
    ) by {
        lemma_items_rewritten_distinct(s, pairs[k]);
    }
    crate::tables::lemma_folded_keeps(m, pairs, rewriting, holds);
    let middle = folded(m, pairs, rewriting);
    let settling = |s: Migration, p: PairView| items_settled(s, p);
    assert forall|s: Migration, k: int|
        0 <= k < pairs.len() && #[trigger] holds(s) implies holds(
        settling(s, #[trigger] pairs[k]),
    ) by {
        let p = pairs[k];
        let rows = kept(s.library.items, |i: ItemView| under_root(i.path, p.root));
        let one = |t: Migration, i: ItemView|
            item_placed(t, i.id, rebased(i.path, p.root, p.real_root), None);
        assert forall|t: Migration, i: int|
            0 <= i < rows.len() && #[trigger] holds(t) implies holds(
            one(t, #[trigger] rows[i]),
        ) by {
            lemma_item_placed_distinct(
                t,
                rows[i].id,
                rebased(rows[i].path, p.root, p.real_root),
                None,
            );
        }
        crate::tables::lemma_folded_keeps(s, rows, one, holds);
    }
    crate::tables::lemma_folded_keeps(middle, pairs, settling, holds);
    lemma_documents_leave_identities(items_migrated(m, pairs), pairs);
}

/// The migration of documents touches neither items nor artists.
proof fn lemma_documents_leave_identities(m: Migration, pairs: Seq<PairView>)
    ensures
        documents_migrated(m, pairs).library.items == m.library.items,
        documents_migrated(m, pairs).library.artists == m.library.artists,
{
    let holds = |s: Migration|
        s.library.items == m.library.items && s.library.artists == m.library.artists;
    let rewriting = |s: Migration, p: PairView| documents_rewritten(s, p);
    crate::tables::lemma_folded_keeps(m, pairs, rewriting, holds);
    let middle = folded(m, pairs, rewriting);
    let settling = |s: Migration, p: PairView| documents_settled(s, p);
    assert forall|s: Migration, k: int|
        0 <= k < pairs.len() && #[trigger] holds(s) implies holds(
        settling(s, #[trigger] pairs[k]),
    ) by {
        let p = pairs[k];
        let rows = kept(s.library.documents, |d: DocumentView| under_root(d.path, p.root));
        let one = |t: Migration, d: DocumentView| document_placed(t, d, p);
        crate::tables::lemma_folded_keeps(s, rows, one, holds);
    }
    crate::tables::lemma_folded_keeps(middle, pairs, settling, holds);
}

/// After a migration no item lies below a virtual root, where virtual and real
/// roots do not lie in each other.
pub proof fn migrated_items_are_real(
    l: LibraryView,
    pairs: Seq<PairView>,
    comparable: bool,
    q: int,
)
    requires
        roots_are_separate(pairs),
        0 <= q < pairs.len(),
        library_migrated(l, pairs, comparable) is Ok,
    ensures
        no_item_under(
            library_migrated(l, pairs, comparable)->Ok_0.library.items,
            pairs[q].root,
        ),
{
    let nothing = Counts {
        updated: 0,
        merged_artists: 0,
        merged_items: 0,
        merged_link_documents: 0,
    };
    let m = artists_placed(Migration { library: l, counts: nothing }, pairs, comparable)->Ok_0;
    lemma_items_are_real(m, pairs, q);
    lemma_documents_leave_identities(items_migrated(m, pairs), pairs);
}

/// Whether one row got a path and every other row is as it was, or gone.
spec fn one_placed(
    before: Seq<(i64, Seq<char>)>,
    after: Seq<(i64, Seq<char>)>,
    id: i64,
    path: Seq<char>,
) -> bool {
    forall|i: int|
        #![trigger after[i]]
        0 <= i < after.len() ==> if after[i].0 == id {
            after[i].1 == path
        } else {
            before.contains(after[i])
        }
}

/// Whether no path of a table lies below a root.
pub open spec fn no_path_under(rows: Seq<(i64, Seq<char>)>, root: Seq<char>) -> bool {
    forall|i: int| 0 <= i < rows.len() ==> !under_root((#[trigger] rows[i]).1, root)
}

/// The ids and the paths of artists.
pub open spec fn artist_paths(artists: Seq<ArtistView>) -> Seq<(i64, Seq<char>)> {
    artists.map_values(|a: ArtistView| (a.id, a.path))
}

/// The ids and the paths of documents.
pub open spec fn document_paths(documents: Seq<DocumentView>) -> Seq<(i64, Seq<char>)> {
    documents.map_values(|d: DocumentView| (d.id, d.path))
}

/// Where each row below a root gets a path that is not below it, the rows that are
/// still below it after some steps are rows whose turn has not come.
proof fn lemma_rows_settle<V>(
    start: Migration,
    rows: Seq<V>,
    step: spec_fn(Migration, V) -> Result<Migration, MergeError>,
    table: spec_fn(Migration) -> Seq<(i64, Seq<char>)>,
    given: spec_fn(V) -> (i64, Seq<char>),
    root: Seq<char>,
    n: int,
)
    requires
        0 <= n <= rows.len(),
        forall|s: Migration, k: int|
            0 <= k < rows.len() && (#[trigger] step(s, #[trigger] rows[k])) is Ok ==> one_placed(
                table(s),
                table(step(s, rows[k])->Ok_0),
                given(rows[k]).0,
                given(rows[k]).1,
            ),
        forall|k: int| 0 <= k < rows.len() ==> !under_root(given(#[trigger] rows[k]).1, root),
        forall|i: int|
            0 <= i < table(start).len() && under_root((#[trigger] table(start)[i]).1, root)
                ==> exists|k: int|
                0 <= k < rows.len() && given(#[trigger] rows[k]).0 == table(start)[i].0,
    ensures
        tried(start, rows.take(n), step) is Ok ==> {
            let now = table(tried(start, rows.take(n), step)->Ok_0);
            forall|i: int|
                #![trigger now[i]]
                0 <= i < now.len() && under_root(now[i].1, root) ==> exists|k: int|
                    n <= k < rows.len() && given(#[trigger] rows[k]).0 == now[i].0
        },
    decreases n,
{
    if n == 0 {
        assert(rows.take(0) =~= Seq::<V>::empty());
    } else {
        lemma_rows_settle(start, rows, step, table, given, root, n - 1);
        assert(rows.take(n).drop_last() =~= rows.take(n - 1));
        assert(rows.take(n).last() == rows[n - 1]);
        if tried(start, rows.take(n), step) is Ok {
            let s = tried(start, rows.take(n - 1), step)->Ok_0;
            let row = rows[n - 1];
            let before = table(s);
            let now = table(step(s, row)->Ok_0);
            assert forall|i: int|
                #![trigger now[i]]
                0 <= i < now.len() && under_root(now[i].1, root) implies exists|k: int|
                n <= k < rows.len() && given(#[trigger] rows[k]).0 == now[i].0 by {
                assert(now[i].0 != given(row).0);
                let j = before.index_of(now[i]);
                assert(before[j] == now[i]);
                let k = choose|k: int|
                    n - 1 <= k < rows.len() && given(#[trigger] rows[k]).0 == before[j].0;
                assert(k != n - 1);
                assert(given(rows[k]).0 == now[i].0);
            }
        }
    }
}

/// What giving an artist below a virtual root its real path does to the artists.
proof fn lemma_artist_placed(
    m: Migration,
    a: ArtistView,
    pairs: Seq<PairView>,
    at: int,
    comparable: bool,
)
    requires
        roots_are_separate(pairs),
        0 <= at < pairs.len(),
        under_root(a.path, pairs[at].root),
        artist_placed(m, a, pairs[at], comparable) is Ok,
    ensures
        one_placed(
            artist_paths(m.library.artists),
            artist_paths(artist_placed(m, a, pairs[at], comparable)->Ok_0.library.artists),
            a.id,
            rebased(a.path, pairs[at].root, pairs[at].real_root),
        ),
{
    let p = pairs[at];
    let path = rebased(a.path, p.root, p.real_root);
    lemma_rebased_is_real(a.path, pairs, at, at);
    assert(path != a.path);
    let artists = m.library.artists;
    let before = artist_paths(artists);
    let after = artist_placed(m, a, p, comparable)->Ok_0.library.artists;
    let now = artist_paths(after);
    match first(artists, |o: ArtistView| o.path == path && o.id != a.id) {
        Some(other) => {
            lemma_giving_leaves_artists(m, a.id, other.id, p.root, p.real_root);
            assert(after == crate::artist_merge::artists_joined(artists, a.id, other.id));
            let woken = |x: ArtistView|
                if x.id == other.id {
                    ArtistView { missing: false, missing_at: None, ..x }
                } else {
                    x
                };
            let table = if crate::artist_merge::active_artist(artists, a.id)
                || crate::artist_merge::active_artist(artists, other.id) {
                artists.map_values(woken)
            } else {
                artists
            };
            let stays = |x: ArtistView| x.id != a.id;
            let places = crate::tables::lemma_kept_places(table, stays);
            crate::tables::lemma_kept(table, stays);
            assert forall|i: int| #![trigger now[i]] 0 <= i < now.len() implies if now[i].0
                == a.id {
                now[i].1 == path
            } else {
                before.contains(now[i])
            } by {
                assert(stays(after[i]));
                let j = places[i];
                assert(after[i] == table[j]);
                assert(before[j] == now[i]);
            }
        },
        None => {
            assert forall|i: int| #![trigger now[i]] 0 <= i < now.len() implies if now[i].0
                == a.id {
                now[i].1 == path
            } else {
                before.contains(now[i])
            } by {
                assert(after[i].id == artists[i].id);
                if now[i].0 != a.id {
                    assert(before[i] == now[i]);
                }
            }
        },
    }
}

/// Giving the belongings of an artist to another leaves the artists.
proof fn lemma_giving_leaves_artists(
    m: Migration,
    source: i64,
    target: i64,
    root: Seq<char>,
    real_root: Seq<char>,
)
    requires
        crate::artist_merge::belongings_given(m, source, target, root, real_root) is Ok,
    ensures
        crate::artist_merge::belongings_given(
            m,
            source,
            target,
            root,
            real_root,
        )->Ok_0.library.artists == m.library.artists,
{
    let l = m.library;
    let t = crate::artist_merge::tags_folded(l.tags, l.item_tags, source, target);
    let plans = crate::artist_merge::plans_mapped(l.plans, t.became, source)->Ok_0;
    let recycled = crate::artist_merge::recycled_mapped(l.recycled, t.became, source)->Ok_0;
    let start = Migration {
        library: LibraryView {
            tags: t.tags,
            item_tags: t.item_tags,
            plans,
            recycled,
            ..l
        },
        counts: m.counts,
    };
    let holds = |s: Migration| s.library.artists == l.artists;
    let rows = kept(l.items, |i: ItemView| i.artist_id == source);
    let step = |s: Migration, i: ItemView|
        item_placed(
            s,
            i.id,
            crate::artist_merge::real_path(i, root, real_root),
            Some(target),
        );
    crate::tables::lemma_folded_keeps(start, rows, step, holds);
}

/// What giving the artists below one virtual root their real paths leaves: none below
/// that root, and none below another root where there was none.
proof fn lemma_root_artists_placed(m: Migration, pairs: Seq<PairView>, at: int, comparable: bool)
    requires
        roots_are_separate(pairs),
        0 <= at < pairs.len(),
        root_artists_placed(m, pairs[at], comparable) is Ok,
    ensures
        ({
            let now = artist_paths(
                root_artists_placed(m, pairs[at], comparable)->Ok_0.library.artists,
            );
            &&& no_path_under(now, pairs[at].root)
            &&& forall|q: int|
                0 <= q < pairs.len() && no_path_under(
                    artist_paths(m.library.artists),
                    (#[trigger] pairs[q]).root,
                ) ==> no_path_under(now, pairs[q].root)
        }),
{
    let p = pairs[at];
    let wanted = |a: ArtistView| under_root(a.path, p.root);
    let rows = kept(m.library.artists, wanted);
    let step = |s: Migration, a: ArtistView| artist_placed(s, a, p, comparable);
    let table = |s: Migration| artist_paths(s.library.artists);
    let given = |a: ArtistView| (a.id, rebased(a.path, p.root, p.real_root));
    crate::tables::lemma_kept(m.library.artists, wanted);
    assert forall|s: Migration, k: int|
        0 <= k < rows.len() && (#[trigger] step(s, #[trigger] rows[k])) is Ok implies one_placed(
        table(s),
        table(step(s, rows[k])->Ok_0),
        given(rows[k]).0,
        given(rows[k]).1,
    ) by {
        assert(wanted(rows[k]));
        lemma_artist_placed(s, rows[k], pairs, at, comparable);
    }
    assert forall|k: int| 0 <= k < rows.len() implies !under_root(
        given(#[trigger] rows[k]).1,
        p.root,
    ) by {
        assert(wanted(rows[k]));
        lemma_rebased_is_real(rows[k].path, pairs, at, at);
    }
    assert forall|i: int|
        0 <= i < table(m).len() && under_root((#[trigger] table(m)[i]).1, p.root) implies exists|
        k: int,
    |
        0 <= k < rows.len() && given(#[trigger] rows[k]).0 == table(m)[i].0 by {
        let a = m.library.artists[i];
        assert(rows.contains(a));
        let k = rows.index_of(a);
        assert(given(rows[k]).0 == table(m)[i].0);
    }
    lemma_rows_settle(m, rows, step, table, given, p.root, rows.len() as int);
    assert(rows.take(rows.len() as int) =~= rows);
    let now = table(root_artists_placed(m, p, comparable)->Ok_0);
    assert forall|q: int|
        0 <= q < pairs.len() && no_path_under(
            table(m),
            (#[trigger] pairs[q]).root,
        ) implies no_path_under(now, pairs[q].root) by {
        let holds = |s: Migration| no_path_under(table(s), pairs[q].root);
        assert forall|s: Migration, k: int|
            0 <= k < rows.len() && #[trigger] holds(s) && step(s, #[trigger] rows[k]) is Ok implies holds(
            step(s, rows[k])->Ok_0,
        ) by {
            assert(wanted(rows[k]));
            lemma_rebased_is_real(rows[k].path, pairs, q, at);
            lemma_artist_placed(s, rows[k], pairs, at, comparable);
            lemma_placed_keeps(
                table(s),
                table(step(s, rows[k])->Ok_0),
                rows[k].id,
                given(rows[k]).1,
                pairs[q].root,
            );
        }
        crate::tables::lemma_tried_keeps(m, rows, step, holds);
    }
}

/// A row that gets a path outside a root leaves no path below the root where there was
/// none.
proof fn lemma_placed_keeps(
    before: Seq<(i64, Seq<char>)>,
    after: Seq<(i64, Seq<char>)>,
    id: i64,
    path: Seq<char>,
    root: Seq<char>,
)
    requires
        one_placed(before, after, id, path),
        !under_root(path, root),
        no_path_under(before, root),
    ensures
        no_path_under(after, root),
{
    assert forall|i: int| 0 <= i < after.len() implies !under_root(
        (#[trigger] after[i]).1,
        root,
    ) by {
        if after[i].0 != id {
            let j = before.index_of(after[i]);
            assert(before[j] == after[i]);
        }
    }
}

/// After the artists below some roots got their paths none lies below these.
proof fn lemma_artists_settle(m: Migration, pairs: Seq<PairView>, comparable: bool, n: int)
    requires
        roots_are_separate(pairs),
        0 <= n <= pairs.len(),
        artists_placed(m, pairs.take(n), comparable) is Ok,
    ensures
        ({
            let now = artist_paths(
                artists_placed(m, pairs.take(n), comparable)->Ok_0.library.artists,
            );
            forall|q: int| 0 <= q < n ==> no_path_under(now, (#[trigger] pairs[q]).root)
        }),
    decreases n,
{
    if n > 0 {
        assert(pairs.take(n).drop_last() =~= pairs.take(n - 1));
        assert(pairs.take(n).last() == pairs[n - 1]);
        let before = artists_placed(m, pairs.take(n - 1), comparable)->Ok_0;
        lemma_artists_settle(m, pairs, comparable, n - 1);
        lemma_root_artists_placed(before, pairs, n - 1, comparable);
        let now = artist_paths(
            artists_placed(m, pairs.take(n), comparable)->Ok_0.library.artists,
        );
        assert forall|q: int| 0 <= q < n implies no_path_under(
            now,
            (#[trigger] pairs[q]).root,
        ) by {
            if q < n - 1 {
                assert(no_path_under(artist_paths(before.library.artists), pairs[q].root));
            }
        }
    }
}

/// The migration of items touches no artist.
proof fn lemma_items_leave_artists(m: Migration, pairs: Seq<PairView>)
    ensures
        items_migrated(m, pairs).library.artists == m.library.artists,
{
    let holds = |s: Migration| s.library.artists == m.library.artists;
    let rewriting = |s: Migration, p: PairView| items_rewritten(s, p);
    crate::tables::lemma_folded_keeps(m, pairs, rewriting, holds);
    let middle = folded(m, pairs, rewriting);
    let settling = |s: Migration, p: PairView| items_settled(s, p);
    assert forall|s: Migration, k: int|
        0 <= k < pairs.len() && #[trigger] holds(s) implies holds(
        settling(s, #[trigger] pairs[k]),
    ) by {
        let p = pairs[k];
        let rows = kept(s.library.items, |i: ItemView| under_root(i.path, p.root));
        let one = |t: Migration, i: ItemView|
            item_placed(t, i.id, rebased(i.path, p.root, p.real_root), None);
        crate::tables::lemma_folded_keeps(s, rows, one, holds);
    }
    crate::tables::lemma_folded_keeps(middle, pairs, settling, holds);
}

/// After a migration no artist lies below a virtual root, where virtual and real roots
/// do not lie in each other.
pub proof fn migrated_artists_are_real(
    l: LibraryView,
    pairs: Seq<PairView>,
    comparable: bool,
    q: int,
)
    requires
        roots_are_separate(pairs),
        0 <= q < pairs.len(),
        library_migrated(l, pairs, comparable) is Ok,
    ensures
        no_path_under(
            artist_paths(library_migrated(l, pairs, comparable)->Ok_0.library.artists),
            pairs[q].root,
        ),
{
    let nothing = Counts {
        updated: 0,
        merged_artists: 0,
        merged_items: 0,
        merged_link_documents: 0,
    };
    let start = Migration { library: l, counts: nothing };
    assert(pairs.take(pairs.len() as int) =~= pairs);
    lemma_artists_settle(start, pairs, comparable, pairs.len() as int);
    let m = artists_placed(start, pairs, comparable)->Ok_0;
    lemma_items_leave_artists(m, pairs);
    lemma_documents_leave_identities(items_migrated(m, pairs), pairs);
}

/// What giving a document below a virtual root its real path does to the documents.
proof fn lemma_document_placed(m: Migration, d: DocumentView, p: PairView)
    ensures
        one_placed(
            document_paths(m.library.documents),
            document_paths(document_placed(m, d, p).library.documents),
            d.id,
            rebased(d.path, p.root, p.real_root),
        ),
{
    let documents = m.library.documents;
    let path = rebased(d.path, p.root, p.real_root);
    let after = document_placed(m, d, p).library.documents;
    let before = document_paths(documents);
    let now = document_paths(after);
    let stays = |o: DocumentView| o.id != d.id;
    let places = crate::tables::lemma_kept_places(documents, stays);
    crate::tables::lemma_kept(documents, stays);
    let dropped = first(
        documents,
        |o: DocumentView| o.artist_id == d.artist_id && o.path == path && o.id != d.id,
    ) is Some;
    assert forall|i: int| #![trigger now[i]] 0 <= i < now.len() implies if now[i].0 == d.id {
        now[i].1 == path
    } else {
        before.contains(now[i])
    } by {
        if dropped {
            assert(stays(after[i]));
            let j = places[i];
            assert(after[i] == documents[j]);
            assert(before[j] == now[i]);
        } else {
            assert(after[i].id == documents[i].id);
            if now[i].0 != d.id {
                assert(before[i] == now[i]);
            }
        }
    }
}

/// Steps that never fail are tried as they are folded.
proof fn lemma_tried_is_folded<V>(
    start: Migration,
    rows: Seq<V>,
    step: spec_fn(Migration, V) -> Migration,
)
    ensures
        tried(start, rows, |s: Migration, v: V| Ok::<Migration, MergeError>(step(s, v))) == Ok::<
            Migration,
            MergeError,
        >(folded(start, rows, step)),
    decreases rows.len(),
{
    if rows.len() > 0 {
        lemma_tried_is_folded(start, rows.drop_last(), step);
    }
}

/// What giving the documents below one virtual root their real paths leaves: none below
/// that root, and none below another root where there was none.
proof fn lemma_root_documents_settled(m: Migration, pairs: Seq<PairView>, at: int)
    requires
        roots_are_separate(pairs),
        0 <= at < pairs.len(),
    ensures
        ({
            let now = document_paths(documents_settled(m, pairs[at]).library.documents);
            &&& no_path_under(now, pairs[at].root)
            &&& forall|q: int|
                0 <= q < pairs.len() && no_path_under(
                    document_paths(m.library.documents),
                    (#[trigger] pairs[q]).root,
                ) ==> no_path_under(now, pairs[q].root)
        }),
{
    let p = pairs[at];
    let wanted = |d: DocumentView| under_root(d.path, p.root);
    let rows = kept(m.library.documents, wanted);
    let one = |s: Migration, d: DocumentView| document_placed(s, d, p);
    let step = |s: Migration, d: DocumentView| Ok::<Migration, MergeError>(one(s, d));
    let table = |s: Migration| document_paths(s.library.documents);
    let given = |d: DocumentView| (d.id, rebased(d.path, p.root, p.real_root));
    crate::tables::lemma_kept(m.library.documents, wanted);
    lemma_tried_is_folded(m, rows, one);
    assert forall|s: Migration, k: int|
        0 <= k < rows.len() && (#[trigger] step(s, #[trigger] rows[k])) is Ok implies one_placed(
        table(s),
        table(step(s, rows[k])->Ok_0),
        given(rows[k]).0,
        given(rows[k]).1,
    ) by {
        lemma_document_placed(s, rows[k], p);
    }
    assert forall|k: int| 0 <= k < rows.len() implies !under_root(
        given(#[trigger] rows[k]).1,
        p.root,
    ) by {
        assert(wanted(rows[k]));
        lemma_rebased_is_real(rows[k].path, pairs, at, at);
    }
    assert forall|i: int|
        0 <= i < table(m).len() && under_root((#[trigger] table(m)[i]).1, p.root) implies exists|
        k: int,
    |
        0 <= k < rows.len() && given(#[trigger] rows[k]).0 == table(m)[i].0 by {
        let d = m.library.documents[i];
        assert(rows.contains(d));
        let k = rows.index_of(d);
        assert(given(rows[k]).0 == table(m)[i].0);
    }
    lemma_rows_settle(m, rows, step, table, given, p.root, rows.len() as int);
    assert(rows.take(rows.len() as int) =~= rows);
    assert(step =~= (|s: Migration, v: DocumentView| Ok::<Migration, MergeError>(one(s, v))));
    let now = table(documents_settled(m, p));
    assert(documents_settled(m, p) == folded(m, rows, one));
    assert forall|q: int|
        0 <= q < pairs.len() && no_path_under(
            table(m),
            (#[trigger] pairs[q]).root,
        ) implies no_path_under(now, pairs[q].root) by {
        let holds = |s: Migration| no_path_under(table(s), pairs[q].root);
        assert forall|s: Migration, k: int|
            0 <= k < rows.len() && #[trigger] holds(s) implies holds(
            one(s, #[trigger] rows[k]),
        ) by {
            assert(wanted(rows[k]));
            lemma_rebased_is_real(rows[k].path, pairs, q, at);
            lemma_document_placed(s, rows[k], p);
            lemma_placed_keeps(
                table(s),
                table(one(s, rows[k])),
                rows[k].id,
                given(rows[k]).1,
                pairs[q].root,
            );
        }
        crate::tables::lemma_folded_keeps(m, rows, one, holds);
    }
}

/// After the documents below some roots were settled none lies below these.
proof fn lemma_documents_settle(m: Migration, pairs: Seq<PairView>, n: int)
    requires
        roots_are_separate(pairs),
        0 <= n <= pairs.len(),
    ensures
        ({
            let now = document_paths(
                folded(
                    m,
                    pairs.take(n),
                    |s: Migration, p: PairView| documents_settled(s, p),
                ).library.documents,
            );
            forall|q: int| 0 <= q < n ==> no_path_under(now, (#[trigger] pairs[q]).root)
        }),
    decreases n,
{
    let step = |s: Migration, p: PairView| documents_settled(s, p);
    if n > 0 {
        lemma_documents_settle(m, pairs, n - 1);
        let before = folded(m, pairs.take(n - 1), step);
        assert(pairs.take(n).drop_last() =~= pairs.take(n - 1));
        assert(pairs.take(n).last() == pairs[n - 1]);
        lemma_root_documents_settled(before, pairs, n - 1);
        let now = document_paths(folded(m, pairs.take(n), step).library.documents);
        assert forall|q: int| 0 <= q < n implies no_path_under(
            now,
            (#[trigger] pairs[q]).root,
        ) by {
            if q < n - 1 {
                assert(no_path_under(document_paths(before.library.documents), pairs[q].root));
            }
        }
    }
}

/// After a migration no document lies below a virtual root, where virtual and real
/// roots do not lie in each other.
pub proof fn migrated_documents_are_real(
    l: LibraryView,
    pairs: Seq<PairView>,
    comparable: bool,
    q: int,
)
    requires
        roots_are_separate(pairs),
        0 <= q < pairs.len(),
        library_migrated(l, pairs, comparable) is Ok,
    ensures
        no_path_under(
            document_paths(library_migrated(l, pairs, comparable)->Ok_0.library.documents),
            pairs[q].root,
        ),
{
    let nothing = Counts {
        updated: 0,
        merged_artists: 0,
        merged_items: 0,
        merged_link_documents: 0,
    };
    let m = artists_placed(Migration { library: l, counts: nothing }, pairs, comparable)->Ok_0;
    let rewriting = |s: Migration, p: PairView| documents_rewritten(s, p);
    let middle = folded(items_migrated(m, pairs), pairs, rewriting);
    lemma_documents_settle(middle, pairs, pairs.len() as int);
    assert(pairs.take(pairs.len() as int) =~= pairs);
}

/// Whether an item has a path, wherever it stands.
pub open spec fn item_is_at(items: Seq<ItemView>, id: i64, path: Seq<char>) -> bool {
    forall|i: int| 0 <= i < items.len() && (#[trigger] items[i]).id == id ==> items[i].path == path
}

/// Giving another item a path leaves the path of an item.
proof fn lemma_placing_leaves(
    m: Migration,
    item: i64,
    new_path: Seq<char>,
    id: i64,
    path: Seq<char>,
)
    requires
        item != id,
        item_is_at(m.library.items, id, path),
    ensures
        item_is_at(item_placed(m, item, new_path, None).library.items, id, path),
{
    lemma_item_placed(m, item, new_path, None);
    let items = m.library.items;
    let now = item_placed(m, item, new_path, None).library.items;
    assert forall|j: int| 0 <= j < now.len() && (#[trigger] now[j]).id == id implies now[j].path
        == path by {
        let o = choose|o: int|
            0 <= o < items.len() && (#[trigger] items[o]).id == now[j].id && items[o].path
                == now[j].path;
        assert(items[o].path == path);
    }
}

/// Settling the items below a root leaves the path of an item that is not.
proof fn lemma_settling_leaves(m: Migration, p: PairView, id: i64, path: Seq<char>)
    requires
        !under_root(path, p.root),
        item_is_at(m.library.items, id, path),
    ensures
        item_is_at(items_settled(m, p).library.items, id, path),
{
    let holds = |s: Migration| item_is_at(s.library.items, id, path);
    let wanted = |i: ItemView| under_root(i.path, p.root);
    let rows = kept(m.library.items, wanted);
    let one = |t: Migration, i: ItemView|
        item_placed(t, i.id, rebased(i.path, p.root, p.real_root), None);
    crate::tables::lemma_kept(m.library.items, wanted);
    assert forall|t: Migration, i: int| 0 <= i < rows.len() && #[trigger] holds(t) implies holds(
        one(t, #[trigger] rows[i]),
    ) by {
        let row = rows[i];
        assert(wanted(row) && m.library.items.contains(row));
        let at = m.library.items.index_of(row);
        assert(m.library.items[at] == row);
        lemma_placing_leaves(t, row.id, rebased(row.path, p.root, p.real_root), id, path);
    }
    crate::tables::lemma_folded_keeps(m, rows, one, holds);
}

/// Rewriting the items below a root leaves the path of an item that is not.
proof fn lemma_rewriting_leaves(m: Migration, p: PairView, id: i64, path: Seq<char>)
    requires
        !under_root(path, p.root),
        item_is_at(m.library.items, id, path),
    ensures
        item_is_at(items_rewritten(m, p).library.items, id, path),
{
    let items = m.library.items;
    let now = items_rewritten(m, p).library.items;
    assert forall|i: int| 0 <= i < now.len() && (#[trigger] now[i]).id == id implies now[i].path
        == path by {
        assert(items[i].id == id);
    }
}

/// An item that lies below no virtual root keeps its path when the items are
/// migrated, however alike the names are: a root is compared letter by letter.
pub proof fn outside_items_keep_their_paths(
    m: Migration,
    pairs: Seq<PairView>,
    id: i64,
    path: Seq<char>,
)
    requires
        item_is_at(m.library.items, id, path),
        forall|k: int| 0 <= k < pairs.len() ==> !under_root(path, (#[trigger] pairs[k]).root),
    ensures
        item_is_at(items_migrated(m, pairs).library.items, id, path),
{
    let holds = |s: Migration| item_is_at(s.library.items, id, path);
    let rewriting = |s: Migration, p: PairView| items_rewritten(s, p);
    assert forall|s: Migration, k: int|
        0 <= k < pairs.len() && #[trigger] holds(s) implies holds(
        rewriting(s, #[trigger] pairs[k]),
    ) by {
        lemma_rewriting_leaves(s, pairs[k], id, path);
    }
    crate::tables::lemma_folded_keeps(m, pairs, rewriting, holds);
    let middle = folded(m, pairs, rewriting);
    let settling = |s: Migration, p: PairView| items_settled(s, p);
    assert forall|s: Migration, k: int|
        0 <= k < pairs.len() && #[trigger] holds(s) implies holds(
        settling(s, #[trigger] pairs[k]),
    ) by {
        lemma_settling_leaves(s, pairs[k], id, path);
    }
    crate::tables::lemma_folded_keeps(middle, pairs, settling, holds);
}

/// A run that was not refused leaves the signature of its roots as the marker. Another
/// run for the same roots behind it changes neither the library nor the marker, and is
/// answered that it was made already.
pub proof fn repeated_runs_change_nothing(
    l: LibraryView,
    marker: Option<Seq<char>>,
    roots: MediaRoots,
    comparable: bool,
    comparable_again: bool,
)
    requires
        marked_run(l, marker, roots, comparable) is Ok,
    ensures
        ({
            let (now, stored, _) = marked_run(l, marker, roots, comparable)->Ok_0;
            &&& stored == Some(signature(roots))
            &&& marked_run(now, stored, roots, comparable_again) == Ok::<
                (LibraryView, Option<Seq<char>>, MigrationOutcome),
                MergeError,
            >((now, stored, MigrationOutcome::AlreadyApplied))
            &&& migration_answer_tree(MigrationOutcome::AlreadyApplied) == JsonTree::Object(
                seq![
                    ("updated"@, JsonTree::Number(decimal(0))),
                    ("skipped"@, JsonTree::Text("already_applied"@)),
                ],
            )
        }),
{
}

/// Each pair comes from a root that stands for something else.
proof fn lemma_pairs_are_of_roots(roots: Seq<RootView>, q: int)
    requires
        0 <= q < root_pairs(roots).len(),
    ensures
        exists|i: int|
            0 <= i < roots.len() && is_alias(#[trigger] roots[i]) && root_name(roots[i].root)
                == root_pairs(roots)[q].root,
    decreases roots.len(),
{
    let before = root_pairs(roots.drop_last());
    if q < before.len() {
        lemma_pairs_are_of_roots(roots.drop_last(), q);
        let i = choose|i: int|
            0 <= i < roots.drop_last().len() && is_alias(#[trigger] roots.drop_last()[i])
                && root_name(roots.drop_last()[i].root) == before[q].root;
        assert(roots[i] == roots.drop_last()[i]);
    } else {
        assert(is_alias(roots[roots.len() - 1]));
    }
}

/// A run that is made and not refused leaves no artist, item or document below a virtual
/// root that has a real one, and the signature of the roots as the marker, where virtual
/// and real roots do not lie in each other.
pub proof fn finished_runs_leave_real_paths(
    l: LibraryView,
    marker: Option<Seq<char>>,
    roots: MediaRoots,
    comparable: bool,
    q: int,
)
    requires
        roots_are_separate(root_pairs(views(roots.roots@))),
        0 <= q < root_pairs(views(roots.roots@)).len(),
        marker != Some(signature(roots)),
        marked_run(l, marker, roots, comparable) is Ok,
    ensures
        ({
            let root = root_pairs(views(roots.roots@))[q].root;
            let (now, stored, _) = marked_run(l, marker, roots, comparable)->Ok_0;
            &&& no_path_under(artist_paths(now.artists), root)
            &&& no_item_under(now.items, root)
            &&& no_path_under(document_paths(now.documents), root)
            &&& stored == Some(signature(roots))
        }),
{
    let all = views(roots.roots@);
    let pairs = root_pairs(all);
    let root = pairs[q].root;
    if virtual_paths(l, all) {
        migrated_artists_are_real(l, pairs, comparable, q);
        migrated_items_are_real(l, pairs, comparable, q);
        migrated_documents_are_real(l, pairs, comparable, q);
    } else {
        lemma_pairs_are_of_roots(all, q);
        let i = choose|i: int|
            0 <= i < all.len() && is_alias(#[trigger] all[i]) && root_name(all[i].root) == root;
        let wanted = |r: RootView| is_alias(r) && has_path_under(l, root_name(r.root));
        crate::tables::lemma_first(all, wanted);
        assert(!wanted(all[i]));
        let of_artist = |a: ArtistView| under_root(a.path, root);
        let of_item = |i: ItemView| under_root(i.path, root);
        let of_document = |d: DocumentView| under_root(d.path, root);
        crate::tables::lemma_first(l.artists, of_artist);
        crate::tables::lemma_first(l.items, of_item);
        crate::tables::lemma_first(l.documents, of_document);
        assert forall|k: int| 0 <= k < l.artists.len() implies !under_root(
            (#[trigger] artist_paths(l.artists)[k]).1,
            root,
        ) by {
            assert(!of_artist(l.artists[k]));
        }
        assert forall|k: int| 0 <= k < l.items.len() implies !under_root(
            (#[trigger] l.items[k]).path,
            root,
        ) by {
            assert(!of_item(l.items[k]));
        }
        assert forall|k: int| 0 <= k < l.documents.len() implies !under_root(
            (#[trigger] document_paths(l.documents)[k]).1,
            root,
        ) by {
            assert(!of_document(l.documents[k]));
        }
    }
}

}
