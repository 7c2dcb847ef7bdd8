use gallery_accel::names::{fresh_name, fresh_sibling, name_with_id, order_by, order_names};
use gallery_accel::paths::{
    deepest, is_below, nearest_is_accepted, normalize_slashes, sibling_path, split_path,
    AncestorProbe,
};

fn words(list: &[&str]) -> Vec<String> {
    list.iter().map(|word| word.to_string()).collect()
}

#[test]
fn fresh_names_differ() {
    let a = fresh_name(".gallery-copy-");
    let b = fresh_name(".gallery-copy-");
    assert_ne!(a, b);
    let id = a.strip_prefix(".gallery-copy-").unwrap();
    assert_eq!(id.len(), 32);
    assert!(id.chars().all(|c| c.is_ascii_digit() || ('a'..='f').contains(&c)));
    assert_eq!(name_with_id("x-", "1"), "x-1");
    assert!(fresh_sibling("/m/Artist", ".gallery-move-").starts_with("/m/.gallery-move-"));
}

#[test]
fn names_are_ordered_by_their_lower_case() {
    assert_eq!(order_names(&words(&["b", "A", "c", "Ä"])), words(&["A", "b", "c", "Ä"]));
    assert_eq!(order_by(&words(&["x", "y"]), &words(&["2", "1"])), words(&["y", "x"]));
    assert_eq!(order_names(&words(&["a", "A"])), words(&["a", "A"]));
}

#[test]
fn paths_are_compared_by_component() {
    assert_eq!(split_path("/a//b/"), words(&["a", "b"]));
    assert!(is_below("/a/b", "/a"));
    assert!(is_below("/a", "/a"));
    assert!(!is_below("/ab", "/a"));
    assert!(is_below("/a/b/c", "/a/b") && is_below("/a/b", "/a") && is_below("/a/b/c", "/a"));
    assert_eq!(normalize_slashes("a\\b"), "a/b");
    assert_eq!(sibling_path("/a/b", "c"), "/a/c");
    assert_eq!(deepest("/a/b/c", &[Some("/a".to_string()), Some("/a/b".to_string())], true), Some(1));
    assert_eq!(deepest("/a", &[Some("/a".to_string())], true), None);
}

#[test]
fn the_nearest_ancestor_decides() {
    let gone = AncestorProbe { exists: false, accepted: true };
    let good = AncestorProbe { exists: true, accepted: true };
    let bad = AncestorProbe { exists: true, accepted: false };
    assert!(nearest_is_accepted(&[gone, good, bad]));
    assert!(!nearest_is_accepted(&[gone, bad, good]));
    assert!(!nearest_is_accepted(&[gone]));
}
