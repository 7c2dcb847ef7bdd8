//! Canonical paths and their fallback.

use std::path::{Component, Path, PathBuf};

use gallery_accel::fs_util::{
    fallback_canonicalize, is_unsupported_final_path, normalize_components, safe_canonicalize,
    PathComponent, PathError,
};

fn components(path: &Path) -> Vec<PathComponent> {
    path.components()
        .map(|c| match c {
            Component::Prefix(p) => {
                PathComponent::Prefix(p.as_os_str().to_string_lossy().into_owned())
            }
            Component::RootDir => PathComponent::RootDir,
            Component::CurDir => PathComponent::CurDir,
            Component::ParentDir => PathComponent::ParentDir,
            Component::Normal(n) => PathComponent::Normal(n.to_string_lossy().into_owned()),
        })
        .collect()
}

fn path_of(components: &[PathComponent]) -> PathBuf {
    let mut out = PathBuf::new();
    for c in components {
        match c {
            PathComponent::Prefix(p) => out.push(p),
            PathComponent::RootDir => out.push("/"),
            PathComponent::CurDir => out.push("."),
            PathComponent::ParentDir => out.push(".."),
            PathComponent::Normal(n) => out.push(n),
        }
    }
    out
}

fn logical(path: &Path) -> Result<String, PathError> {
    let absolute = std::path::absolute(path).map_err(|e| PathError { raw_os_error: e.raw_os_error() })?;
    absolute.metadata().map_err(|e| PathError { raw_os_error: e.raw_os_error() })?;
    let plain = path_of(&normalize_components(components(&absolute)));
    Ok(plain.to_string_lossy().into_owned())
}

fn fallback(path: &Path) -> Result<PathBuf, PathError> {
    Ok(PathBuf::from(fallback_canonicalize(&logical(path)?, false)))
}

fn canonical(path: &Path) -> Result<PathBuf, PathError> {
    let answer = path
        .canonicalize()
        .map(|p| p.to_string_lossy().into_owned())
        .map_err(|e| PathError { raw_os_error: e.raw_os_error() });
    safe_canonicalize(answer, false, logical(path)).map(PathBuf::from)
}

#[test]
fn test_safe_canonicalize_existing_path() {
    let cur = PathBuf::from(".");
    let res = canonical(&cur).unwrap();
    assert!(res.exists());
}

#[test]
fn test_safe_canonicalize_nonexistent_fails() {
    let non_existent = Path::new("this_file_really_should_not_exist_xyz12345.tmp");
    assert!(canonical(non_existent).is_err());
}

#[test]
fn fallback_output_is_usable_and_self_consistent() {
    let dir = tempfile::tempdir().unwrap();
    let artist = tempfile::Builder::new().prefix("Artist").tempdir_in(dir.path()).unwrap();
    let file = tempfile::Builder::new().suffix("a.jpg").tempfile_in(artist.path()).unwrap();

    let root = fallback(dir.path()).unwrap();
    assert!(root.is_dir(), "fallback result must be a usable path");
    assert_eq!(
        root.read_dir().unwrap().count(),
        1,
        "fallback result must be readable through the OS"
    );

    let child = fallback(file.path()).unwrap();
    assert!(
        child.starts_with(&root),
        "a child canonicalized by the fallback must sit under its fallback root: {} vs {}",
        child.display(),
        root.display()
    );
}

#[test]
fn fallback_removes_dot_and_parent_segments() {
    let dir = tempfile::tempdir().unwrap();
    let artist = tempfile::Builder::new().prefix("Artist").tempdir_in(dir.path()).unwrap();

    let plain = fallback(dir.path()).unwrap();
    let round_trip = fallback(&artist.path().join("..")).unwrap();
    assert_eq!(plain, round_trip);
}

#[test]
fn fallback_keeps_the_existence_precondition() {
    let dir = tempfile::tempdir().unwrap();
    let missing = dir.path().join("safe_canonicalize_missing_xyz12345");
    assert!(fallback(&missing).is_err());
}

#[test]
fn fallback_is_idempotent() {
    let dir = tempfile::tempdir().unwrap();
    let once = fallback(dir.path()).unwrap();
    let twice = fallback(&once).unwrap();
    assert_eq!(
        once, twice,
        "canonicalizing an already canonical path must not change it"
    );

    let child = tempfile::Builder::new().suffix("a.jpg").tempfile_in(dir.path()).unwrap();
    let child_once = fallback(child.path()).unwrap();
    assert_eq!(child_once, fallback(&child_once).unwrap());
}

#[test]
fn windows_unsupported_final_path_is_narrow() {
    assert!(is_unsupported_final_path(std::io::Error::from_raw_os_error(1).raw_os_error()));
    assert!(is_unsupported_final_path(std::io::Error::from_raw_os_error(50).raw_os_error()));
    assert!(!is_unsupported_final_path(std::io::Error::from_raw_os_error(5).raw_os_error()));
    assert!(!is_unsupported_final_path(std::io::Error::from_raw_os_error(2).raw_os_error()));
    assert!(!is_unsupported_final_path(None));
}

#[test]
fn windows_fallback_matches_the_standard_verbatim_shape() {
    assert_eq!(fallback_canonicalize(r"C:\lib\a", true), r"\\?\C:\lib\a");
    assert_eq!(fallback_canonicalize(r"\\server\share\a", true), r"\\?\UNC\server\share\a");
    for path in [r"C:\lib", r"\\server\share", r"\\?\C:\lib"] {
        let once = fallback_canonicalize(path, true);
        assert!(once.starts_with(r"\\?\"));
        assert_eq!(fallback_canonicalize(&once, true), once);
    }
}

#[test]
fn the_fallback_is_used_only_where_the_system_cannot_tell() {
    let refused = || Err(PathError { raw_os_error: Some(50) });
    let logical = || Ok(r"C:\a".to_string());
    assert_eq!(safe_canonicalize(refused(), true, logical()).unwrap(), r"\\?\C:\a");
    assert_eq!(safe_canonicalize(refused(), false, logical()).unwrap_err().raw_os_error, Some(50));
    let denied = Err(PathError { raw_os_error: Some(5) });
    assert_eq!(safe_canonicalize(denied, true, logical()).unwrap_err().raw_os_error, Some(5));
    let missing = Err(PathError { raw_os_error: Some(2) });
    assert_eq!(safe_canonicalize(refused(), true, missing).unwrap_err().raw_os_error, Some(2));
    assert_eq!(safe_canonicalize(Ok("x".to_string()), true, logical()).unwrap(), "x");
}
