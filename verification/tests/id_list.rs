use gallery_accel::id_list::{has_id, ids_text, remap_ids, remap_parsed, remap_stored, stored_ids, Remap};

#[test]
fn lists_are_read_and_written_as_json() {
    assert_eq!(stored_ids("[3, 1,-2]"), vec![3, 1, -2]);
    assert_eq!(stored_ids("[]"), Vec::<i64>::new());
    assert_eq!(stored_ids("not a list"), Vec::<i64>::new());
    assert_eq!(stored_ids("[1,\"2\"]"), Vec::<i64>::new());
    assert_eq!(ids_text(&vec![3, 1, -2]), "[3,1,-2]");
    assert_eq!(ids_text(&Vec::new()), "[]");
}

#[test]
fn remapped_lists_name_nothing_twice() {
    assert_eq!(remap_ids(&[1, 2, 3], &[(1, 2)]), vec![2, 3]);
    assert_eq!(remap_ids(&[5, 5], &[]), vec![5]);
    assert!(has_id(&[1, 2], 2));
    assert!(!has_id(&[1, 2], 3));
}

#[test]
fn stored_lists_are_only_written_where_they_change() {
    assert!(matches!(remap_stored("[1,3]", &[(1, 2)]), Remap::Changed(text) if text == "[2,3]"));
    assert!(matches!(remap_stored("[4]", &[(1, 2)]), Remap::Unchanged));
    assert!(matches!(remap_stored("nonsense", &[(1, 2)]), Remap::Malformed));
    assert!(matches!(remap_parsed("[1]", None, &[(1, 2)]), Remap::Malformed));
}
