//! Canonical paths where the file system cannot tell the final path of a handle.
//!
//! The answer of the system is taken wherever there is one. Where a driver
//! refuses the question, a path of the same shape is made from the logical path
//! alone: absolute, without `.` and `..`, and with the verbatim prefix.

use vstd::prelude::*;
use crate::text::{chars_of, has_prefix, starts_with, sub_chars, text_of};

verus! {

/// A component of a path.
#[derive(Debug)]
pub enum PathComponent {
    /// A drive or a share.
    Prefix(String),
    /// The root.
    RootDir,
    /// `.`.
    CurDir,
    /// `..`.
    ParentDir,
    /// A name.
    Normal(String),
}

/// The value of a [`PathComponent`].
pub enum ComponentView {
    /// A drive or a share.
    Prefix(Seq<char>),
    /// The root.
    RootDir,
    /// `.`.
    CurDir,
    /// `..`.
    ParentDir,
    /// A name.
    Normal(Seq<char>),
}

impl View for PathComponent {
    type V = ComponentView;

    open spec fn view(&self) -> ComponentView {
        match self {
            PathComponent::Prefix(s) => ComponentView::Prefix(s@),
            PathComponent::RootDir => ComponentView::RootDir,
            PathComponent::CurDir => ComponentView::CurDir,
            PathComponent::ParentDir => ComponentView::ParentDir,
            PathComponent::Normal(s) => ComponentView::Normal(s@),
        }
    }
}

/// The values of components.
pub open spec fn component_views(components: Seq<PathComponent>) -> Seq<ComponentView> {
    components.map_values(|c: PathComponent| c@)
}

/// The components of a path without `.` and `..`: each `..` takes the name in
/// front of it away, and nothing above the root.
pub open spec fn normalized(components: Seq<ComponentView>) -> Seq<ComponentView>
    decreases components.len(),
{
    if components.len() == 0 {
        Seq::empty()
    } else {
        let before = normalized(components.drop_last());
        match components.last() {
            ComponentView::CurDir => before,
            ComponentView::ParentDir => if before.len() > 0 && before.last() is Normal {
                before.drop_last()
            } else {
                before
            },
            c => before.push(c),
        }
    }
}

/// The components of a path without `.` and `..`.
pub fn normalize_components(components: Vec<PathComponent>) -> (r: Vec<PathComponent>)
    ensures
        component_views(r@) == normalized(component_views(components@)),
{
    let ghost all = component_views(components@);
    let mut out: Vec<PathComponent> = Vec::new();
    let mut i: usize = 0;
    assert(component_views(out@) =~= Seq::<ComponentView>::empty());
    while i < components.len()
        invariant
            i <= components@.len(),
            all == component_views(components@),
            component_views(out@) == normalized(all.take(i as int)),
        decreases components@.len() - i,
    {
        let ghost now = all.take(i as int + 1);
        let ghost before = out@;
        let ghost before_views = component_views(out@);
        assert(now.drop_last() =~= all.take(i as int));
        assert(now.last() == components@[i as int]@);
        match &components[i] {
            PathComponent::CurDir => {},
            PathComponent::ParentDir => {
                let n = out.len();
                let pops = if n > 0 {
                    assert(before_views.last() == out@[n - 1]@);
                    match &out[n - 1] {
                        PathComponent::Normal(_) => true,
                        _ => false,
                    }
                } else {
                    false
                };
                if pops {
                    let _ = out.pop();
                    assert(component_views(out@) =~= before_views.drop_last());
                }
            },
            PathComponent::Prefix(s) => {
                out.push(PathComponent::Prefix(s.clone()));
                assert(component_views(out@) =~= before_views.push(now.last()));
            },
            PathComponent::RootDir => {
                out.push(PathComponent::RootDir);
                assert(component_views(out@) =~= before_views.push(now.last()));
            },
            PathComponent::Normal(s) => {
                out.push(PathComponent::Normal(s.clone()));
                assert(component_views(out@) =~= before_views.push(now.last()));
            },
        }
        i += 1;
    }
    assert(all.take(all.len() as int) =~= all);
    out
}

/// Whether components hold neither `.` nor `..`.
pub open spec fn plain(components: Seq<ComponentView>) -> bool {
    forall|i: int|
        0 <= i < components.len() ==> !((#[trigger] components[i]) is CurDir)
            && !(components[i] is ParentDir)
}

/// A normalized path holds neither `.` nor `..`.
pub proof fn normalized_paths_are_plain(components: Seq<ComponentView>)
    ensures
        plain(normalized(components)),
    decreases components.len(),
{
    if components.len() > 0 {
        let before = normalized(components.drop_last());
        normalized_paths_are_plain(components.drop_last());
        let after = normalized(components);
        assert forall|i: int| 0 <= i < after.len() implies !((#[trigger] after[i]) is CurDir)
            && !(after[i] is ParentDir) by {
            if i < before.len() {
                assert(after[i] == before[i]);
            }
        }
    }
}

/// Normalizing a normalized path changes nothing.
pub proof fn normalizing_is_idempotent(components: Seq<ComponentView>)
    ensures
        normalized(normalized(components)) == normalized(components),
{
    normalized_paths_are_plain(components);
    lemma_plain_is_fixed(normalized(components));
}

/// A path without `.` and `..` is its own normalization.
proof fn lemma_plain_is_fixed(components: Seq<ComponentView>)
    requires
        plain(components),
    ensures
        normalized(components) == components,
    decreases components.len(),
{
    if components.len() == 0 {
        assert(normalized(components) =~= components);
    } else {
        let d = components.drop_last();
        assert forall|i: int| 0 <= i < d.len() implies !((#[trigger] d[i]) is CurDir) && !(
        d[i] is ParentDir) by {
            assert(d[i] == components[i]);
        }
        lemma_plain_is_fixed(d);
        assert(!(components[components.len() - 1] is CurDir));
        assert(normalized(components) =~= components);
    }
}

/// A path text with the verbatim prefix: one that has it stays, a share gets the
/// prefix of shares, anything else the plain one.
pub open spec fn verbatim(path: Seq<char>) -> Seq<char> {
    if starts_with(path, "\\\\?\\"@) {
        path
    } else if starts_with(path, "\\\\"@) {
        "\\\\?\\UNC\\"@ + path.skip(2)
    } else {
        "\\\\?\\"@ + path
    }
}

/// The fallback's path text: with the verbatim prefix on Windows, as it is
/// elsewhere.
pub fn fallback_canonicalize(path: &str, windows: bool) -> (r: String)
    ensures
        r@ == (if windows {
            verbatim(path@)
        } else {
            path@
        }),
{
    if !windows {
        return path.to_owned();
    }
    let p = chars_of(path);
    proof {
        reveal_strlit("\\\\");
    }
    if has_prefix(&p, &chars_of("\\\\?\\")) {
        return path.to_owned();
    }
    if has_prefix(&p, &chars_of("\\\\")) {
        let mut out = "\\\\?\\UNC\\".to_owned();
        out.append(&text_of(&sub_chars(&p, 2, p.len())));
        return out;
    }
    let mut out = "\\\\?\\".to_owned();
    out.append(path);
    out
}

/// The fallback is a fixed point: a path that went through it goes through it
/// unchanged, whether it names a drive or a share.
pub proof fn fallback_is_a_fixed_point(path: Seq<char>)
    ensures
        verbatim(verbatim(path)) == verbatim(path),
        starts_with(verbatim(path), "\\\\?\\"@),
{
    reveal_strlit("\\\\?\\");
    reveal_strlit("\\\\");
    reveal_strlit("\\\\?\\UNC\\");
    let prefix = "\\\\?\\"@;
    let share = "\\\\?\\UNC\\"@;
    assert(prefix.len() == 4 && share.len() == 8);
    let v = verbatim(path);
    assert(v.take(4) =~= prefix) by {
        assert(prefix[0] == '\\' && prefix[1] == '\\' && prefix[2] == '?' && prefix[3] == '\\');
        assert(share[0] == '\\' && share[1] == '\\' && share[2] == '?' && share[3] == '\\');
    }
}

/// Whether a system error says that the final path cannot be told: only then a
/// path is made up.
pub fn is_unsupported_final_path(raw_os_error: Option<i32>) -> (r: bool)
    ensures
        r == (raw_os_error == Some(1i32) || raw_os_error == Some(50i32)),
{
    match raw_os_error {
        Some(code) => code == 1 || code == 50,
        None => false,
    }
}

/// Why a path has no canonical form.
#[derive(Clone, Copy, PartialEq, Eq, Debug, Structural)]
pub struct PathError {
    /// The code of the system, where it gave one.
    pub raw_os_error: Option<i32>,
}

/// The text of an outcome.
pub open spec fn path_view(r: Result<String, PathError>) -> Result<Seq<char>, PathError> {
    match r {
        Ok(p) => Ok(p@),
        Err(e) => Err(e),
    }
}

/// Whether the system says that the final path cannot be told.
pub open spec fn cannot_tell(answer: Result<Seq<char>, PathError>) -> bool {
    match answer {
        Ok(_) => false,
        Err(e) => e.raw_os_error == Some(1i32) || e.raw_os_error == Some(50i32),
    }
}

/// The canonical path: the system's answer, or on Windows, where the system
/// cannot tell, the fallback of the logical path, which has to exist. Any other
/// error stays.
pub open spec fn canonical_path(
    answer: Result<Seq<char>, PathError>,
    windows: bool,
    logical: Result<Seq<char>, PathError>,
) -> Result<Seq<char>, PathError> {
    if windows && cannot_tell(answer) {
        match logical {
            Ok(p) => Ok(verbatim(p)),
            Err(missing) => Err(missing),
        }
    } else {
        answer
    }
}

/// The canonical path: the system's answer, or on Windows, where the system
/// cannot tell, the fallback of the logical path, which has to exist. Any other
/// error stays.
pub fn safe_canonicalize(
    answer: Result<String, PathError>,
    windows: bool,
    logical: Result<String, PathError>,
) -> (r: Result<String, PathError>)
    ensures
        path_view(r) == canonical_path(path_view(answer), windows, path_view(logical)),
{
    match answer {
        Ok(p) => Ok(p),
        Err(e) => if windows && is_unsupported_final_path(e.raw_os_error) {
            match logical {
                Ok(p) => Ok(fallback_canonicalize(&p, true)),
                Err(missing) => Err(missing),
            }
        } else {
            Err(e)
        },
    }
}

/// Whether components begin with a root, or with a drive or a share and a root.
pub open spec fn absolute(components: Seq<ComponentView>) -> bool {
    ||| components.len() > 0 && components[0] is RootDir
    ||| components.len() > 1 && components[0] is Prefix && components[1] is RootDir
}

/// An absolute path stays absolute when it is normalized.
pub proof fn normalized_paths_stay_absolute(components: Seq<ComponentView>)
    requires
        absolute(components),
    ensures
        absolute(normalized(components)),
    decreases components.len(),
{
    let d = components.drop_last();
    if absolute(d) {
        normalized_paths_stay_absolute(d);
    } else {
        assert(plain(components));
        lemma_plain_is_fixed(components);
    }
}

/// A canonical path is final, and its own canonical path; it is the system's answer
/// wherever there is one. `canonical` and `logical` are what a system that does not
/// change says of paths: its own answers are final and their own answers, and where it
/// cannot tell the final path of something, it cannot tell that of its fallback either,
/// which is its own logical path.
pub proof fn canonical_paths_are_final(
    path: Seq<char>,
    windows: bool,
    canonical: spec_fn(Seq<char>) -> Result<Seq<char>, PathError>,
    logical: spec_fn(Seq<char>) -> Result<Seq<char>, PathError>,
    is_final: spec_fn(Seq<char>) -> bool,
)
    requires
        forall|x: Seq<char>|
            (#[trigger] canonical(x)) matches Ok(q) ==> is_final(q) && canonical(q) == Ok::<
                Seq<char>,
                PathError,
            >(q),
        forall|x: Seq<char>|
            #![trigger logical(x)]
            windows && cannot_tell(canonical(x)) && logical(x) is Ok ==> {
                let q = verbatim(logical(x)->Ok_0);
                is_final(q) && cannot_tell(canonical(q)) && logical(q) == Ok::<
                    Seq<char>,
                    PathError,
                >(q)
            },
    ensures
        canonical_path(canonical(path), windows, logical(path)) matches Ok(p) ==> {
            &&& is_final(p)
            &&& canonical_path(canonical(p), windows, logical(p)) == Ok::<Seq<char>, PathError>(p)
            &&& canonical(path) is Ok ==> canonical(path) == Ok::<Seq<char>, PathError>(p)
        },
{
    if windows && cannot_tell(canonical(path)) && logical(path) is Ok {
        fallback_is_a_fixed_point(logical(path)->Ok_0);
    }
}

}
