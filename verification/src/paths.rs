//! Paths as text: their components, what lies below what, and names beside them.

use vstd::prelude::*;
use crate::text::{
    chars_of, replace_char, replaced, same_text, split, split_chars, sub_chars, text_of, texts,
    trim_end_chars, trim_end_of, CharClass,
};

verus! {

/// The components of a path: its pieces without the empty ones and `.`.
pub open spec fn components(pieces: Seq<Seq<char>>) -> Seq<Seq<char>>
    decreases pieces.len(),
{
    if pieces.len() == 0 {
        Seq::empty()
    } else if pieces.last().len() == 0 || pieces.last() == "."@ {
        components(pieces.drop_last())
    } else {
        components(pieces.drop_last()).push(pieces.last())
    }
}

/// The components of a path.
pub open spec fn path_components(path: Seq<char>) -> Seq<Seq<char>> {
    components(split(path, '/'))
}

/// The components of a path.
pub fn split_path(path: &str) -> (r: Vec<String>)
    ensures
        texts(r@) == path_components(path@),
{
    let pieces = split_chars(&chars_of(path), '/');
    let ghost all = texts(pieces@);
    let mut out: Vec<String> = Vec::new();
    let mut i: usize = 0;
    assert(texts(out@) =~= Seq::<Seq<char>>::empty());
    while i < pieces.len()
        invariant
            i <= pieces@.len(),
            all == texts(pieces@),
            texts(out@) == components(all.take(i as int)),
        decreases pieces@.len() - i,
    {
        let ghost now = all.take(i as int + 1);
        assert(now.drop_last() =~= all.take(i as int));
        assert(now.last() == pieces@[i as int]@);
        if !pieces[i].as_str().is_empty() && !same_text(&pieces[i], ".") {
            let ghost before = out@;
            out.push(pieces[i].clone());
            assert(texts(out@) =~= texts(before).push(pieces@[i as int]@));
        }
        i += 1;
    }
    assert(all.take(all.len() as int) =~= all);
    out
}

/// Whether a list of components starts with another.
pub open spec fn leads(head: Seq<Seq<char>>, all: Seq<Seq<char>>) -> bool {
    head.len() <= all.len() && all.take(head.len() as int) == head
}

/// Whether a path begins at the root of the file system.
pub open spec fn absolute(path: Seq<char>) -> bool {
    path.len() > 0 && path[0] == '/'
}

/// Whether a path is a folder or lies below it, component by component. An
/// absolute path lies below no relative one, nor the other way round, but for the
/// empty one.
pub open spec fn lies_below(path: Seq<char>, root: Seq<char>) -> bool {
    &&& leads(path_components(root), path_components(path))
    &&& absolute(path) == absolute(root) || (!absolute(root) && path_components(root).len() == 0)
}

/// Whether a path begins at the root of the file system.
fn is_absolute(path: &str) -> (r: bool)
    ensures
        r == absolute(path@),
{
    let p = chars_of(path);
    p.len() > 0 && p[0] == '/'
}

/// Whether a list of components starts with another.
pub fn is_led_by(all: &[String], head: &[String]) -> (r: bool)
    ensures
        r == leads(texts(head@), texts(all@)),
{
    if head.len() > all.len() {
        return false;
    }
    let ghost a = texts(all@);
    let ghost h = texts(head@);
    let mut i: usize = 0;
    while i < head.len()
        invariant
            i <= head@.len() <= all@.len(),
            a == texts(all@),
            h == texts(head@),
            forall|j: int| 0 <= j < i ==> a[j] == h[j],
        decreases head@.len() - i,
    {
        if !same_text(&all[i], &head[i]) {
            assert(a.take(h.len() as int)[i as int] != h[i as int]);
            return false;
        }
        assert(a[i as int] == h[i as int]);
        i += 1;
    }
    assert(a.take(h.len() as int) =~= h);
    true
}

/// Whether a path is a folder or lies below it.
pub fn is_below(path: &str, root: &str) -> (r: bool)
    ensures
        r == lies_below(path@, root@),
{
    let p = split_path(path);
    let h = split_path(root);
    assert(texts(h@).len() == h@.len());
    let (a, b) = (is_absolute(path), is_absolute(root));
    is_led_by(&p, &h) && (a == b || (!b && h.len() == 0))
}

/// Lying below carries over.
pub proof fn lying_below_is_transitive(a: Seq<char>, b: Seq<char>, c: Seq<char>)
    requires
        lies_below(a, b),
        lies_below(b, c),
    ensures
        lies_below(a, c),
{
    let (x, y, z) = (path_components(a), path_components(b), path_components(c));
    assert(x.take(z.len() as int) =~= z) by {
        assert forall|i: int| 0 <= i < z.len() implies x[i] == z[i] by {
            assert(x.take(y.len() as int)[i] == y[i]);
            assert(y.take(z.len() as int)[i] == z[i]);
        }
    }
}

/// Whether a root qualifies for a path: the path lies below it, and what is left
/// of the path is not empty and goes nowhere upward.
pub open spec fn qualifies(path: Seq<char>, root: Option<Seq<char>>, strictly: bool) -> bool {
    match root {
        None => false,
        Some(r) => lies_below(path, r) && (strictly ==> {
            let rest = path_components(path).skip(path_components(r).len() as int);
            rest.len() > 0 && forall|i: int| 0 <= i < rest.len() ==> #[trigger] rest[i] != ".."@
        }),
    }
}

/// The depth of a root.
pub open spec fn depth(root: Option<Seq<char>>) -> int {
    match root {
        None => -1,
        Some(r) => path_components(r).len() as int,
    }
}

/// The roots of a list, where they are there.
pub open spec fn root_views(roots: Seq<Option<String>>) -> Seq<Option<Seq<char>>> {
    roots.map_values(
        |r: Option<String>|
            match r {
                Some(s) => Some(s@),
                None => None,
            },
    )
}

/// Whether an index is that of the deepest root that qualifies, and the last of
/// those.
pub open spec fn deepest_root(
    path: Seq<char>,
    roots: Seq<Option<Seq<char>>>,
    strictly: bool,
    index: int,
) -> bool {
    &&& 0 <= index < roots.len()
    &&& qualifies(path, roots[index], strictly)
    &&& forall|j: int|
        0 <= j < roots.len() && qualifies(path, #[trigger] roots[j], strictly) ==> depth(roots[j])
            <= depth(roots[index]) && (j > index ==> depth(roots[j]) < depth(roots[index]))
}

/// Whether any component is `..`.
fn goes_up(parts: &[String], from: usize) -> (r: bool)
    requires
        from <= parts@.len(),
    ensures
        r == !(forall|i: int|
            0 <= i < texts(parts@).skip(from as int).len() ==> #[trigger] texts(parts@).skip(
                from as int,
            )[i] != ".."@),
{
    let ghost rest = texts(parts@).skip(from as int);
    let mut i: usize = from;
    while i < parts.len()
        invariant
            from <= i <= parts@.len(),
            rest == texts(parts@).skip(from as int),
            forall|j: int| 0 <= j < i - from ==> #[trigger] rest[j] != ".."@,
        decreases parts@.len() - i,
    {
        assert(rest[i - from] == parts@[i as int]@);
        if same_text(&parts[i], "..") {
            return true;
        }
        i += 1;
    }
    false
}

/// The deepest root that a path lies below, and the last of those where there
/// are several; a root that could not be resolved counts for nothing.
pub fn deepest(path: &str, roots: &[Option<String>], strictly: bool) -> (r: Option<usize>)
    ensures
        match r {
            Some(i) => deepest_root(path@, root_views(roots@), strictly, i as int),
            None => forall|j: int|
                0 <= j < roots@.len() ==> !qualifies(
                    path@,
                    #[trigger] root_views(roots@)[j],
                    strictly,
                ),
        },
{
    let parts = split_path(path);
    let ghost views = root_views(roots@);
    let mut best: Option<usize> = None;
    let mut best_depth: usize = 0;
    let mut i: usize = 0;
    while i < roots.len()
        invariant
            i <= roots@.len(),
            views == root_views(roots@),
            texts(parts@) == path_components(path@),
            match best {
                None => forall|j: int|
                    0 <= j < i ==> !qualifies(path@, #[trigger] views[j], strictly),
                Some(b) => b < i && qualifies(path@, views[b as int], strictly) && best_depth
                    == depth(views[b as int]) && forall|j: int|
                    0 <= j < i && qualifies(path@, #[trigger] views[j], strictly) ==> depth(
                        views[j],
                    ) <= best_depth && (j > b ==> depth(views[j]) < best_depth),
            },
        decreases roots@.len() - i,
    {
        match &roots[i] {
            None => {
                assert(views[i as int] is None);
            },
            Some(root) => {
                assert(views[i as int] == Some(root@));
                let head = split_path(root);
                assert(texts(head@).len() == head@.len());
                assert(texts(parts@).len() == parts@.len());
                let below = is_below(path, root);
                if below && (!strictly || (parts.len() > head.len() && !goes_up(
                    &parts,
                    head.len(),
                ))) {
                    assert(qualifies(path@, views[i as int], strictly));
                    let take = match best {
                        None => true,
                        Some(_) => head.len() >= best_depth,
                    };
                    if take {
                        best = Some(i);
                        best_depth = head.len();
                    }
                } else {
                    assert(!qualifies(path@, views[i as int], strictly));
                }
            },
        }
        i += 1;
    }
    best
}

/// A path with forward slashes.
pub fn normalize_slashes(path: &str) -> (r: String)
    ensures
        r@ == replaced(path@, '\\', '/'),
{
    text_of(&replace_char(&chars_of(path), '\\', '/'))
}

/// How many characters a text has up to and including its last slash.
pub open spec fn behind_last_slash(s: Seq<char>) -> int
    decreases s.len(),
{
    if s.len() == 0 || s.last() == '/' {
        s.len() as int
    } else {
        behind_last_slash(s.drop_last())
    }
}

/// Cutting at the last slash stays within the text.
pub proof fn lemma_behind_last_slash(s: Seq<char>)
    ensures
        0 <= behind_last_slash(s) <= s.len(),
    decreases s.len(),
{
    if s.len() > 0 && s.last() != '/' {
        lemma_behind_last_slash(s.drop_last());
    }
}

/// The path of another name in the same folder.
pub open spec fn sibling(path: Seq<char>, name: Seq<char>) -> Seq<char> {
    let p = trim_end_of(path, CharClass::Slash);
    if p.len() == 0 && path.len() > 0 {
        seq!['/'] + name
    } else {
        p.take(behind_last_slash(p)) + name
    }
}

/// The path of another name in the same folder.
pub fn sibling_path(path: &str, name: &str) -> (r: String)
    ensures
        r@ == sibling(path@, name@),
{
    let p = trim_end_chars(&chars_of(path), CharClass::Slash);
    let mut out = String::new();
    if p.len() == 0 && !path.is_empty() {
        out.push('/');
        out.append(name);
        assert(out@ =~= sibling(path@, name@));
        return out;
    }
    let mut n: usize = p.len();
    assert(p@.take(p@.len() as int) =~= p@);
    while n > 0 && p[n - 1] != '/'
        invariant
            n <= p@.len(),
            behind_last_slash(p@.take(n as int)) == behind_last_slash(p@),
        decreases n,
    {
        assert(p@.take(n as int).drop_last() =~= p@.take(n as int - 1));
        n -= 1;
    }
    out.append(&text_of(&sub_chars(&p, 0, n)));
    out.append(name);
    assert(out@ =~= sibling(path@, name@));
    out
}

/// What is known of a path and, one after the other, of the folders above it.
#[derive(Clone, Copy, PartialEq, Eq, Debug, Structural)]
pub struct AncestorProbe {
    /// Whether anything stands there.
    pub exists: bool,
    /// Whether what stands there is accepted: it resolves to a place inside the
    /// wanted folder, and is a directory where that is asked for.
    pub accepted: bool,
}

/// Whether the first ancestor that exists is accepted; without one, nothing is.
pub open spec fn nearest_accepted(probes: Seq<AncestorProbe>) -> bool
    decreases probes.len(),
{
    if probes.len() == 0 {
        false
    } else if probes[0].exists {
        probes[0].accepted
    } else {
        nearest_accepted(probes.skip(1))
    }
}

/// Whether the first ancestor that exists is accepted.
pub fn nearest_is_accepted(probes: &[AncestorProbe]) -> (r: bool)
    ensures
        r == nearest_accepted(probes@),
{
    let mut i: usize = 0;
    assert(probes@.skip(0) =~= probes@);
    while i < probes.len()
        invariant
            i <= probes@.len(),
            nearest_accepted(probes@.skip(i as int)) == nearest_accepted(probes@),
        decreases probes@.len() - i,
    {
        let ghost rest = probes@.skip(i as int);
        assert(rest[0] == probes@[i as int]);
        if probes[i].exists {
            return probes[i].accepted;
        }
        assert(rest.skip(1) =~= probes@.skip(i as int + 1));
        i += 1;
    }
    false
}

/// Pieces in front of other pieces keep their place.
proof fn lemma_components_added(a: Seq<Seq<char>>, b: Seq<Seq<char>>)
    ensures
        components(a + b) == components(a) + components(b),
    decreases b.len(),
{
    if b.len() > 0 {
        assert((a + b).drop_last() =~= a + b.drop_last());
        assert((a + b).last() == b.last());
        lemma_components_added(a, b.drop_last());
        assert(components(a + b) =~= components(a) + components(b));
    } else {
        assert(a + b =~= a);
        assert(components(a + b) =~= components(a) + components(b));
    }
}

/// A path put together from names has those names as its parts, in their order; empty parts
/// and single full stops count for nothing.
pub proof fn paths_have_their_names(names: Seq<Seq<char>>)
    requires
        names.len() > 0,
        forall|i: int| 0 <= i < names.len() ==> !(#[trigger] names[i]).contains('/'),
    ensures
        path_components(crate::text::joined(names, seq!['/'])) == components(names),
        (forall|i: int|
            0 <= i < names.len() ==> (#[trigger] names[i]).len() > 0 && names[i] != "."@)
            ==> components(names) == names,
        components(names.push(Seq::empty())) == components(names),
        components(names.push("."@)) == components(names),
    decreases names.len(),
{
    crate::folder_archive::lemma_split_join(names, '/');
    assert(names.push(Seq::empty()).drop_last() =~= names);
    assert(names.push("."@).drop_last() =~= names);
    if forall|i: int|
        0 <= i < names.len() ==> (#[trigger] names[i]).len() > 0 && names[i] != "."@ {
        lemma_plain_components(names);
    }
}

/// Plain names are all parts.
proof fn lemma_plain_components(names: Seq<Seq<char>>)
    requires
        forall|i: int|
            0 <= i < names.len() ==> (#[trigger] names[i]).len() > 0 && names[i] != "."@,
    ensures
        components(names) == names,
    decreases names.len(),
{
    if names.len() > 0 {
        let d = names.drop_last();
        assert forall|i: int| 0 <= i < d.len() implies (#[trigger] d[i]).len() > 0 && d[i]
            != "."@ by {
            assert(d[i] == names[i]);
        }
        lemma_plain_components(d);
        assert(names[names.len() - 1].len() > 0);
        assert(components(names) =~= names);
    } else {
        assert(components(names) =~= names);
    }
}

/// What stands behind a root and a slash lies below that root; a path with another part in
/// place of one of the root's does not.
pub proof fn what_follows_a_root_lies_below_it(root: Seq<Seq<char>>, rest: Seq<Seq<char>>)
    requires
        root.len() > 0,
        forall|i: int| 0 <= i < root.len() ==> !(#[trigger] root[i]).contains('/'),
        forall|i: int| 0 <= i < rest.len() ==> !(#[trigger] rest[i]).contains('/'),
    ensures
        lies_below(
            crate::text::joined(root + rest, seq!['/']),
            crate::text::joined(root, seq!['/']),
        ),
{
    let all = root + rest;
    assert forall|i: int| 0 <= i < all.len() implies !(#[trigger] all[i]).contains('/') by {
        if i < root.len() {
            assert(all[i] == root[i]);
        } else {
            assert(all[i] == rest[i - root.len()]);
        }
    }
    paths_have_their_names(all);
    paths_have_their_names(root);
    lemma_components_added(root, rest);
    let head = components(root);
    assert((head + components(rest)).take(head.len() as int) =~= head);
    lemma_joined_start(root, rest);
}

/// A longer path begins as its start does.
proof fn lemma_joined_start(root: Seq<Seq<char>>, rest: Seq<Seq<char>>)
    requires
        root.len() > 0,
    ensures
        ({
            let a = crate::text::joined(root, seq!['/']);
            let b = crate::text::joined(root + rest, seq!['/']);
            &&& b.len() >= a.len()
            &&& a.len() > 0 ==> b[0] == a[0]
            &&& a.len() == 0 && b.len() > 0 && rest.len() > 0 ==> b[0] == '/'
            &&& rest.len() > 0 ==> b.len() > 0
            &&& absolute(a) ==> absolute(b)
            &&& a.len() == 0 ==> components(root).len() == 0
        }),
    decreases rest.len(),
{
    if rest.len() > 0 {
        lemma_joined_start(root, rest.drop_last());
        assert((root + rest).drop_last() =~= root + rest.drop_last());
    } else {
        assert(root + rest =~= root);
        if root.len() == 1 {
            assert(root.drop_last() =~= Seq::<Seq<char>>::empty());
            assert(components(root.drop_last()).len() == 0);
        }
    }
}

/// A path that lies below a root has the root's parts as its first parts.
pub proof fn paths_below_begin_with_their_root(path: Seq<char>, root: Seq<char>, i: int)
    requires
        lies_below(path, root),
        0 <= i < path_components(root).len(),
    ensures
        i < path_components(path).len(),
        path_components(path)[i] == path_components(root)[i],
{
    let (a, b) = (path_components(root), path_components(path));
    assert(b.take(a.len() as int)[i] == a[i]);
}

/// The sibling of a path lies in the same folder under another name.
pub proof fn siblings_share_their_folder(
    folder: Seq<char>,
    old_name: Seq<char>,
    name: Seq<char>,
    slashes: Seq<char>,
)
    requires
        old_name.len() > 0,
        !old_name.contains('/'),
        forall|i: int| 0 <= i < slashes.len() ==> #[trigger] slashes[i] == '/',
    ensures
        sibling(folder + seq!['/'] + old_name + slashes, name) == folder + seq!['/'] + name,
        sibling(old_name + slashes, name) == name,
{
    assert(old_name.last() != '/') by {
        assert(old_name.contains(old_name.last()));
    }
    let p = folder + seq!['/'] + old_name;
    assert(p.last() == old_name.last());
    crate::text_laws::end_slashes_are_taken(p, slashes);
    crate::text_laws::end_slashes_are_taken(old_name, slashes);
    lemma_name_start(folder + seq!['/'], old_name);
    assert(p.take(folder.len() as int + 1) =~= folder + seq!['/']);
    lemma_name_start(Seq::empty(), old_name);
    assert(Seq::<char>::empty() + old_name =~= old_name);
    assert(old_name.take(0) + name =~= name);
}

/// A name begins behind the last slash.
pub proof fn lemma_name_start(front: Seq<char>, name: Seq<char>)
    requires
        !name.contains('/'),
        front.len() == 0 || front.last() == '/',
    ensures
        behind_last_slash(front + name) == front.len(),
    decreases name.len(),
{
    let s = front + name;
    if name.len() > 0 {
        assert(name.contains(name.last()));
        assert(s.last() == name.last());
        assert(s.drop_last() =~= front + name.drop_last());
        assert(!name.drop_last().contains('/')) by {
            if name.drop_last().contains('/') {
                let i = name.drop_last().index_of('/');
                assert(name[i] == '/');
            }
        }
        lemma_name_start(front, name.drop_last());
    } else {
        assert(s =~= front);
    }
}

/// The nearest ancestor that exists decides; where none exists nothing is accepted.
pub proof fn the_nearest_ancestor_decides(probes: Seq<AncestorProbe>, k: int)
    requires
        0 <= k <= probes.len(),
        forall|i: int| 0 <= i < k ==> !(#[trigger] probes[i]).exists,
        k < probes.len() ==> probes[k].exists,
    ensures
        nearest_accepted(probes) == (k < probes.len() && probes[k].accepted),
    decreases k,
{
    if k > 0 {
        assert(!probes[0].exists);
        let rest = probes.skip(1);
        assert forall|i: int| 0 <= i < k - 1 implies !(#[trigger] rest[i]).exists by {
            assert(rest[i] == probes[i + 1]);
        }
        if k < probes.len() {
            assert(rest[k - 1] == probes[k]);
        }
        the_nearest_ancestor_decides(rest, k - 1);
    }
}

/// The deepest root of a path lies at or below every other root that holds the path, and of
/// two equally deep ones the later counts.
pub proof fn deepest_roots_lie_below_the_others(
    path: Seq<char>,
    roots: Seq<Option<Seq<char>>>,
    strictly: bool,
    index: int,
    j: int,
)
    requires
        deepest_root(path, roots, strictly, index),
        0 <= j < roots.len(),
        qualifies(path, roots[j], strictly),
    ensures
        lies_below(path, roots[index]->Some_0),
        leads(path_components(roots[j]->Some_0), path_components(roots[index]->Some_0)),
        path_components(roots[j]->Some_0).len() == path_components(roots[index]->Some_0).len()
            ==> j <= index,
        strictly ==> path_components(path).len() > path_components(roots[index]->Some_0).len(),
{
    let all = path_components(path);
    let (a, b) = (path_components(roots[j]->Some_0), path_components(roots[index]->Some_0));
    assert(depth(roots[j]) <= depth(roots[index]));
    assert(a.len() <= b.len());
    assert(all.take(b.len() as int).take(a.len() as int) =~= all.take(a.len() as int));
    if strictly {
        assert(all.skip(b.len() as int).len() > 0);
    }
}

/// A root holds the paths that lie below it; strictly, only those that go on from it and never
/// step up.
pub proof fn roots_hold_what_lies_below(path: Seq<char>, root: Seq<char>, i: int)
    ensures
        qualifies(path, Some(root), false) <==> lies_below(path, root),
        !qualifies(path, None, false) && !qualifies(path, None, true),
        qualifies(path, Some(root), true) ==> lies_below(path, root) && path_components(path).len()
            > path_components(root).len(),
        qualifies(path, Some(root), true) && path_components(root).len() <= i < path_components(
            path,
        ).len() ==> path_components(path)[i] != ".."@,
{
    let n = path_components(root).len() as int;
    let rest = path_components(path).skip(n);
    if qualifies(path, Some(root), true) {
        assert(rest.len() > 0);
        if n <= i < path_components(path).len() {
            assert(rest[i - n] == path_components(path)[i]);
        }
    }
}

}
