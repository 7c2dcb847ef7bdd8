use gallery_accel::artist_merge::merge_artist_tags;
use gallery_accel::item_merge::{
    merge_item_into, repoint, repoint_artist_references, repoint_artist_suggestions,
    suggestion_status_priority, Shift, Side,
};
use gallery_accel::library_tables::{
    ArtistReference, ArtistSuggestion, Favorite, ItemRow, ItemTag, Library, TagRow,
};

fn reference(id: i64, artist_id: i64, item: i64, created: i64) -> ArtistReference {
    ArtistReference { id, artist_id, item_id: Some(item), created, content: id }
}

fn suggestion(id: i64, item: i64, artist: i64, status: &str) -> ArtistSuggestion {
    ArtistSuggestion {
        id,
        item_id: Some(item),
        artist_id: Some(artist),
        priority: suggestion_status_priority(status),
        content: id,
        matched_ref: None,
    }
}

#[test]
fn the_newer_reference_stays() {
    let mut references = vec![reference(1, 7, 10, 5), reference(2, 7, 11, 3)];
    let shift = Shift { side: Side::Item, source: 10, target: 11 };
    repoint_artist_references(&mut references, &mut Vec::new(), shift);
    assert_eq!(references.len(), 1);
    assert_eq!((references[0].id, references[0].content, references[0].created), (2, 1, 5));
    assert!(references.iter().all(|row| row.item_id != Some(10)));
}

#[test]
fn the_weightier_decision_stays() {
    let mut suggestions = vec![suggestion(1, 10, 7, "confirmed"), suggestion(2, 10, 8, "pending")];
    let shift = Shift { side: Side::Artist, source: 7, target: 8 };
    repoint_artist_suggestions(&mut suggestions, shift);
    assert_eq!(suggestions.len(), 1);
    assert_eq!((suggestions[0].id, suggestions[0].content), (2, 1));
    assert!(suggestion_status_priority("confirmed") > suggestion_status_priority("rejected"));
    assert!(suggestion_status_priority("rejected") > suggestion_status_priority("pending"));
}

#[test]
fn merged_items_leave_their_tags() {
    let item = |id: i64, path: &str| ItemRow {
        id,
        artist_id: 1,
        path: path.to_string(),
        normal_path: path.to_string(),
        missing: false,
        missing_at: None,
    };
    let mut library = Library::empty();
    library.items = vec![item(1, "/a"), item(2, "/b")];
    library.item_tags =
        vec![ItemTag { item_id: 1, tag_id: 5 }, ItemTag { item_id: 2, tag_id: 6 }];
    library.favorites = vec![Favorite { item_id: 1, created: 3 }];
    merge_item_into(&mut library, 1, 2, None);
    let mut tags: Vec<(i64, i64)> =
        library.item_tags.iter().map(|row| (row.item_id, row.tag_id)).collect();
    tags.sort();
    assert_eq!(tags, vec![(2, 5), (2, 6)]);
    assert_eq!(library.favorites, vec![Favorite { item_id: 2, created: 3 }]);
}

#[test]
fn tags_of_one_name_are_folded() {
    let tag = |id: i64, artist_id: i64, name: &str| TagRow {
        id,
        artist_id,
        name: name.to_string(),
    };
    let mut tags = vec![tag(1, 1, "miku"), tag(2, 2, "miku"), tag(3, 1, "rin")];
    let mut links = vec![ItemTag { item_id: 9, tag_id: 1 }];
    let became = merge_artist_tags(&mut tags, &mut links, 1, 2);
    assert_eq!(became, vec![(1, 2), (3, 3)]);
    assert_eq!(links, vec![ItemTag { item_id: 9, tag_id: 2 }]);
    assert_eq!(tags.len(), 2);
    assert_eq!(repoint(Some(1), 1, 2), Some(2));
    assert_eq!(repoint(None, 1, 2), None);
}
