//! The replacement of virtual paths by real ones, on a library in memory.

use gallery_accel::artist_merge::{merge_artist_folder_plans, Counts, MergeError};
use gallery_accel::artist_profile_links::{ArtistProfileLink, LinkKind};
use gallery_accel::db_identity::{
    media_path_migration_signature, migration_answer, migration_pairs,
    normalize_configured_media_paths, normalize_root, MediaRoot, MediaRoots, MigrationOutcome,
};
use gallery_accel::item_merge::suggestion_status_priority;
use gallery_accel::json::Json;
use gallery_accel::library_tables::{
    ArtistReference, ArtistRow, ArtistSuggestion, CharacterReference, DocumentRow, Favorite,
    ItemRow, ItemTag, Library, MoveRow, PlanRow, Recognition, RecycleRow, TagRow,
};
use gallery_accel::plan_columns::{folder_plan_semantic_columns, read_plan, Cell};

fn roots_of(root: &str, folder: &str) -> MediaRoots {
    MediaRoots {
        roots: vec![MediaRoot { root: root.to_string(), real_root: Some(folder.to_string()) }],
        real_paths: vec![folder.to_string()],
    }
}

fn pictures() -> MediaRoots {
    roots_of("/pictures1", "/real/pictures")
}

fn artist(id: i64, path: &str) -> ArtistRow {
    ArtistRow { id, path: path.to_string(), missing: false, missing_at: None }
}

fn tag(id: i64, artist_id: i64, name: &str) -> TagRow {
    TagRow { id, artist_id, name: name.to_string() }
}

fn item(id: i64, artist_id: i64, path: &str) -> ItemRow {
    let normal_path = match path.strip_prefix("/pictures1/") {
        Some(rest) => format!("/real/pictures/{rest}"),
        None => path.to_string(),
    };
    let path = path.to_string();
    ItemRow { id, artist_id, path, normal_path, missing: false, missing_at: None }
}

fn link(item_id: i64, tag_id: i64) -> ItemTag {
    ItemTag { item_id, tag_id }
}

fn document(id: i64, artist_id: i64, item_id: i64, path: &str) -> DocumentRow {
    DocumentRow { id, artist_id, item_id: Some(item_id), path: path.to_string() }
}

/// A row of the table of plans with its further columns.
fn plan_row(id: i64, artist_id: i64, folder: &str, columns: &[(&str, Cell)]) -> PlanRow {
    let mut present = vec!["id".to_string(), "artist_id".to_string(), "source_folder".to_string()];
    present.extend(columns.iter().map(|(name, _)| name.to_string()));
    let compared = folder_plan_semantic_columns(&present);
    let cells: Vec<Cell> = compared
        .iter()
        .map(|name| columns.iter().find(|(column, _)| column == name).unwrap().1.duplicate())
        .collect();
    read_plan(id, artist_id, folder, &compared, &cells).unwrap()
}

fn text(value: &str) -> Cell {
    Cell::Text(value.to_string())
}

fn plan(
    id: i64,
    artist_id: i64,
    folder: &str,
    target: &str,
    status: &str,
    selected: &str,
) -> PlanRow {
    let columns = [
        ("target_folder", text(target)),
        ("status", text(status)),
        ("selected_tag_ids", text(selected)),
    ];
    plan_row(id, artist_id, folder, &columns)
}

/// A plan without a target.
fn bare_plan(id: i64, artist_id: i64, folder: &str, selected: &str) -> PlanRow {
    plan(id, artist_id, folder, "", "needs_tags", selected)
}

fn reference(id: i64, artist_id: i64, item_id: Option<i64>, created: i64) -> ArtistReference {
    ArtistReference { id, artist_id, item_id, created, content: id }
}

fn suggestion(
    id: i64,
    item_id: i64,
    artist_id: Option<i64>,
    status: &str,
    matched_ref: Option<i64>,
) -> ArtistSuggestion {
    ArtistSuggestion {
        id,
        item_id: Some(item_id),
        artist_id,
        priority: suggestion_status_priority(status),
        content: id,
        matched_ref,
    }
}

fn profile_link(id: i64, artist_id: i64, url: &str) -> ArtistProfileLink {
    ArtistProfileLink {
        id,
        artist_id,
        kind: LinkKind::Social,
        platform: String::new(),
        url: url.to_string(),
        host: String::new(),
        created_at: 0,
        updated_at: 0,
    }
}

/// A run for roots for which none was made. It stores its signature.
fn migrate(library: &mut Library, roots: &MediaRoots) -> Counts {
    let mut marker = None;
    match normalize_configured_media_paths(library, &mut marker, roots, true) {
        Ok(MigrationOutcome::Migrated(counts)) => {
            let stored = marker.expect("successful migration commits its signature");
            assert!(!stored.is_empty());
            assert_eq!(stored, media_path_migration_signature(roots));
            counts
        }
        other => panic!("the paths should have been replaced: {other:?}"),
    }
}

/// A run that is refused. It stores nothing.
fn refused(library: &mut Library) -> MergeError {
    let mut marker = None;
    let refusal =
        normalize_configured_media_paths(library, &mut marker, &pictures(), true).unwrap_err();
    assert_eq!(marker, None, "a refused migration must not advance its signature");
    refusal
}

fn artists(library: &Library) -> Vec<(i64, &str)> {
    let mut rows: Vec<(i64, &str)> =
        library.artists.iter().map(|row| (row.id, row.path.as_str())).collect();
    rows.sort();
    rows
}

fn items(library: &Library) -> Vec<(i64, i64, &str)> {
    let mut rows: Vec<(i64, i64, &str)> =
        library.items.iter().map(|row| (row.id, row.artist_id, row.path.as_str())).collect();
    rows.sort();
    rows
}

fn tags(library: &Library) -> Vec<(i64, i64, &str)> {
    let mut rows: Vec<(i64, i64, &str)> =
        library.tags.iter().map(|row| (row.id, row.artist_id, row.name.as_str())).collect();
    rows.sort();
    rows
}

fn links(library: &Library) -> Vec<(i64, i64)> {
    let mut rows: Vec<(i64, i64)> =
        library.item_tags.iter().map(|row| (row.item_id, row.tag_id)).collect();
    rows.sort();
    rows
}

fn documents(library: &Library) -> Vec<(i64, i64, Option<i64>, &str)> {
    let mut rows: Vec<(i64, i64, Option<i64>, &str)> = library
        .documents
        .iter()
        .map(|row| (row.id, row.artist_id, row.item_id, row.path.as_str()))
        .collect();
    rows.sort();
    rows
}

#[test]
fn media_path_migration_merges_same_name_tags_across_virtual_and_real_artists() {
    let mut library = Library::empty();
    library.artists = vec![artist(1, "/pictures1/artist"), artist(2, "/real/pictures/artist")];
    library.tags = vec![tag(1, 1, "miku"), tag(2, 2, "miku"), tag(3, 1, "rin")];
    library.items = vec![
        item(1, 1, "/pictures1/artist/a.jpg"),
        item(2, 1, "/real/pictures/artist/b.jpg"),
        item(3, 2, "/real/pictures/artist/a.jpg"),
    ];
    library.item_tags = vec![link(1, 1), link(1, 3), link(3, 2)];

    let counts = migrate(&mut library, &pictures());

    assert_eq!(counts.merged_artists, 1);
    assert_eq!(counts.merged_items, 1);
    assert_eq!(library.artists.len(), 1);
    assert_eq!(tags(&library), vec![(2, 2, "miku"), (3, 2, "rin")]);
    assert_eq!(links(&library), vec![(3, 2), (3, 3)]);
    assert!(library.items.iter().all(|row| row.artist_id != 1));
}

#[test]
fn media_path_migration_underscore_root_leaves_sibling_paths_untouched() {
    let roots = roots_of("/vol/my_pictures", "/real/my_pictures");
    let mut library = Library::empty();
    library.artists = vec![
        artist(1, "/vol/my_pictures/a"),
        artist(2, "/vol/myXpictures/s"),
        artist(3, "/vol/MY_PICTURES/c"),
    ];
    library.items = vec![
        ItemRow {
            id: 1,
            artist_id: 1,
            path: "/vol/my_pictures/a/x.jpg".to_string(),
            normal_path: "/real/my_pictures/a/x.jpg".to_string(),
            missing: false,
            missing_at: None,
        },
        item(2, 2, "/vol/myXpictures/s/y.jpg"),
    ];

    migrate(&mut library, &roots);

    assert_eq!(
        artists(&library),
        vec![(1, "/real/my_pictures/a"), (2, "/vol/myXpictures/s"), (3, "/vol/MY_PICTURES/c")]
    );
    assert_eq!(
        items(&library),
        vec![(1, 1, "/real/my_pictures/a/x.jpg"), (2, 2, "/vol/myXpictures/s/y.jpg")]
    );
}

#[test]
fn media_path_migration_preserves_artist_and_item_relations_on_merge() {
    let mut library = Library::empty();
    library.artists = vec![artist(1, "/pictures1/artist"), artist(2, "/real/pictures/artist")];
    library.tags = vec![tag(1, 1, "miku"), tag(2, 2, "miku"), tag(3, 1, "rin")];
    library.items = vec![
        item(1, 1, "/pictures1/artist/a.jpg"),
        item(2, 1, "/real/pictures/artist/b.jpg"),
        item(3, 2, "/real/pictures/artist/a.jpg"),
        item(4, 2, "/real/pictures/artist/c.jpg"),
    ];
    library.item_tags = vec![link(1, 1), link(1, 3), link(3, 2)];
    library.favorites =
        vec![Favorite { item_id: 1, created: 0 }, Favorite { item_id: 3, created: 0 }];
    library.character_references = vec![
        CharacterReference { id: 1, item_id: Some(1) },
        CharacterReference { id: 2, item_id: Some(3) },
    ];
    library.recognitions =
        vec![Recognition { item_id: 1, content: 1 }, Recognition { item_id: 3, content: 3 }];
    let moved = MoveRow {
        id: 1,
        artist_id: Some(1),
        item_id: Some(1),
        old_path: "/pictures1/artist/a.jpg".to_string(),
        new_path: "/real/pictures/artist/a.jpg".to_string(),
    };
    library.move_history = vec![MoveRow {
        id: 1,
        artist_id: Some(1),
        item_id: Some(1),
        old_path: moved.old_path.clone(),
        new_path: moved.new_path.clone(),
    }];
    library.move_candidates = vec![moved];
    library.references = vec![
        reference(1, 1, Some(1), 1),
        reference(2, 1, Some(2), 2),
        reference(3, 2, Some(2), 3),
    ];
    library.suggestions = vec![
        suggestion(1, 1, Some(1), "pending", None),
        suggestion(2, 3, Some(2), "pending", None),
        suggestion(3, 2, Some(1), "confirmed", None),
        suggestion(4, 2, Some(2), "rejected", None),
    ];
    library.profile_links = vec![
        profile_link(1, 1, "https://pixiv.net/users/1"),
        profile_link(2, 1, "https://pixiv.net/users/2"),
        profile_link(3, 2, "https://pixiv.net/users/2"),
    ];
    library.plans = vec![
        plan(1, 1, "2024", "2024-01-02", "ready", "[1]"),
        plan(2, 2, "2024", "2024-01-02", "ready", "[2]"),
        plan(3, 1, "2025", "2025-06-07", "ready", "[3]"),
    ];

    let counts = migrate(&mut library, &pictures());

    assert_eq!(counts.merged_artists, 1);
    assert_eq!(counts.merged_items, 1);
    assert_eq!(artists(&library), vec![(2, "/real/pictures/artist")]);
    assert_eq!(tags(&library), vec![(2, 2, "miku"), (3, 2, "rin")]);
    assert_eq!(links(&library), vec![(3, 2), (3, 3)]);
    assert_eq!(
        items(&library),
        vec![
            (2, 2, "/real/pictures/artist/b.jpg"),
            (3, 2, "/real/pictures/artist/a.jpg"),
            (4, 2, "/real/pictures/artist/c.jpg"),
        ]
    );
    assert_eq!(library.favorites.len(), 1);
    assert_eq!(library.favorites[0].item_id, 3);
    let characters: Vec<(i64, Option<i64>)> =
        library.character_references.iter().map(|row| (row.id, row.item_id)).collect();
    assert_eq!(characters, vec![(1, Some(3)), (2, Some(3))]);
    let recognized: Vec<(i64, i64)> =
        library.recognitions.iter().map(|row| (row.item_id, row.content)).collect();
    assert_eq!(recognized, vec![(3, 3)]);
    assert_eq!(library.move_candidates[0].item_id, Some(3));
    assert_eq!(library.move_history[0].item_id, Some(3));
    let mut urls: Vec<(i64, &str)> =
        library.profile_links.iter().map(|row| (row.artist_id, row.url.as_str())).collect();
    urls.sort();
    assert_eq!(urls, vec![(2, "https://pixiv.net/users/1"), (2, "https://pixiv.net/users/2")]);
    let mut references: Vec<(i64, Option<i64>)> =
        library.references.iter().map(|row| (row.artist_id, row.item_id)).collect();
    references.sort_by_key(|row| row.1);
    assert_eq!(references, vec![(2, Some(2)), (2, Some(3))]);
    let mut suggestions: Vec<(Option<i64>, Option<i64>, i64)> = library
        .suggestions
        .iter()
        .map(|row| (row.item_id, row.artist_id, row.priority))
        .collect();
    suggestions.sort();
    assert_eq!(
        suggestions,
        vec![
            (Some(2), Some(2), suggestion_status_priority("confirmed")),
            (Some(3), Some(2), suggestion_status_priority("pending")),
        ]
    );
    let mut plans: Vec<(i64, &str, Option<&str>)> = library
        .plans
        .iter()
        .map(|row| (row.artist_id, row.source_folder.as_str(), row.selected_tag_ids.as_deref()))
        .collect();
    plans.sort();
    assert_eq!(plans, vec![(2, "2024", Some("[2]")), (2, "2025", Some("[3]"))]);
}

#[test]
fn media_path_migration_resolves_bulk_item_conflicts_and_keeps_foreign_keys_clean() {
    let mut library = Library::empty();
    library.artists = vec![artist(1, "/pictures1/artist"), artist(2, "/real/pictures/other")];
    library.tags = vec![tag(10, 2, "tag")];
    library.items = vec![
        item(1, 1, "/pictures1/artist/dup.jpg"),
        item(2, 1, "/pictures1/artist/unique.jpg"),
        item(3, 2, "/real/pictures/artist/dup.jpg"),
    ];
    library.items[2].missing = true;
    library.item_tags = vec![link(1, 10), link(3, 10)];

    let counts = migrate(&mut library, &pictures());

    assert_eq!(counts.merged_artists, 0);
    assert_eq!(counts.merged_items, 1);
    assert_eq!(
        items(&library),
        vec![
            (2, 1, "/real/pictures/artist/unique.jpg"),
            (3, 2, "/real/pictures/artist/dup.jpg"),
        ]
    );
    assert!(library.items.iter().all(|row| !row.missing));
    assert_eq!(links(&library), vec![(3, 10)]);
}

#[test]
fn media_path_migration_works_with_optional_tables_absent() {
    let mut library = Library::empty();
    library.artists = vec![artist(1, "/pictures1/artist"), artist(2, "/real/pictures/artist")];
    library.tags = vec![tag(1, 1, "miku"), tag(2, 2, "miku"), tag(3, 1, "rin")];
    library.items = vec![
        item(1, 1, "/pictures1/artist/a.jpg"),
        item(2, 2, "/real/pictures/artist/a.jpg"),
        item(3, 1, "/pictures1/artist/d.jpg"),
    ];
    library.item_tags = vec![link(1, 1), link(1, 3), link(2, 2)];

    let counts = migrate(&mut library, &pictures());

    assert_eq!(counts.merged_artists, 1);
    assert_eq!(counts.merged_items, 1);
    assert_eq!(library.artists.len(), 1);
    assert_eq!(
        items(&library),
        vec![(2, 2, "/real/pictures/artist/a.jpg"), (3, 2, "/real/pictures/artist/d.jpg")]
    );
    assert_eq!(tags(&library), vec![(2, 2, "miku"), (3, 2, "rin")]);
}

#[test]
fn media_path_migration_preserves_null_references_and_suggestions_with_matched_ref_remap() {
    let mut library = Library::empty();
    library.artists = vec![artist(1, "/pictures1/artist"), artist(2, "/real/pictures/artist")];
    library.items = vec![
        item(1, 1, "/pictures1/artist/a.jpg"),
        item(2, 2, "/real/pictures/artist/a.jpg"),
        item(3, 1, "/pictures1/artist/d.jpg"),
    ];
    library.references = vec![
        reference(1, 1, None, 1),
        reference(2, 2, None, 2),
        reference(3, 1, Some(1), 3),
        reference(5, 1, Some(2), 7),
        reference(6, 2, Some(2), 5),
        reference(7, 2, Some(3), 8),
    ];
    library.suggestions = vec![
        suggestion(1, 1, None, "pending", Some(3)),
        suggestion(2, 2, None, "pending", None),
        suggestion(3, 2, Some(1), "confirmed", Some(5)),
        suggestion(4, 2, Some(2), "pending", None),
    ];

    let counts = migrate(&mut library, &pictures());

    assert_eq!(counts.merged_artists, 1);
    assert_eq!(counts.merged_items, 1);
    let mut references: Vec<(i64, i64, Option<i64>, i64)> = library
        .references
        .iter()
        .map(|row| (row.id, row.artist_id, row.item_id, row.created))
        .collect();
    references.sort();
    assert_eq!(
        references,
        vec![(1, 2, None, 1), (2, 2, None, 2), (6, 2, Some(2), 7), (7, 2, Some(3), 8)]
    );
    let mut suggestions: Vec<(i64, Option<i64>, Option<i64>, i64, Option<i64>)> = library
        .suggestions
        .iter()
        .map(|row| (row.id, row.item_id, row.artist_id, row.priority, row.matched_ref))
        .collect();
    suggestions.sort();
    let pending = suggestion_status_priority("pending");
    let confirmed = suggestion_status_priority("confirmed");
    assert_eq!(
        suggestions,
        vec![
            (1, Some(2), None, pending, Some(6)),
            (2, Some(2), None, pending, None),
            (4, Some(2), Some(2), confirmed, Some(6)),
        ]
    );
    assert!(library.suggestions.iter().all(|row| match row.matched_ref {
        Some(id) => library.references.iter().any(|reference| reference.id == id),
        None => true,
    }));
    assert_eq!(
        items(&library),
        vec![(2, 2, "/real/pictures/artist/a.jpg"), (3, 2, "/real/pictures/artist/d.jpg")]
    );
}

#[test]
fn media_path_migration_resolves_link_documents_and_occurrences_on_merge() {
    let mut library = Library::empty();
    library.artists = vec![artist(1, "/pictures1/artist"), artist(2, "/real/pictures/artist")];
    library.items = vec![
        item(1, 1, "/pictures1/artist/a.jpg"),
        item(2, 2, "/real/pictures/artist/a.jpg"),
        item(3, 1, "/pictures1/artist/b.jpg"),
        item(6, 1, "/pictures1/artist/g.jpg"),
        item(7, 2, "/real/pictures/artist/g.jpg"),
    ];
    library.documents = vec![
        document(1, 1, 1, "/pictures1/artist/a.jpg"),
        document(2, 2, 2, "/real/pictures/artist/a.jpg"),
        document(3, 1, 3, "/pictures1/artist/b.jpg"),
        document(4, 1, 6, "/pictures1/artist/g.jpg"),
    ];

    let counts = migrate(&mut library, &pictures());

    assert_eq!(counts.merged_items, 2);
    assert_eq!(
        documents(&library),
        vec![
            (2, 2, Some(2), "/real/pictures/artist/a.jpg"),
            (3, 2, Some(3), "/real/pictures/artist/b.jpg"),
            (4, 2, Some(7), "/real/pictures/artist/g.jpg"),
        ]
    );
    for document in &library.documents {
        let item = library.items.iter().find(|row| Some(row.id) == document.item_id).unwrap();
        assert_eq!((document.artist_id, &document.path), (item.artist_id, &item.path));
    }
}

#[test]
fn media_path_migration_refuses_conflicting_folder_plans_and_records_stay_touched() {
    let mut library = Library::empty();
    library.artists = vec![artist(1, "/pictures1/artist"), artist(2, "/real/pictures/artist")];
    library.tags = vec![tag(1, 1, "miku"), tag(2, 2, "miku")];
    library.plans = vec![
        plan(1, 1, "2024", "2024-01-02", "ready", "[1]"),
        plan(2, 2, "2024", "2024-01-02", "executed", "[2]"),
    ];

    let conflict = refused(&mut library);

    assert_eq!(conflict, MergeError::PlanConflict { plan: 1, artist: 1, other: 2, target: 2 });
    assert_eq!(
        conflict.message(&library.plans),
        "folder plan conflict: plan 1 of artist 1 and plan 2 of artist 2 share source folder 2024 \
         but differ in semantic fields; refusing to merge"
    );
    assert_eq!(library.artists.len(), 2);
    assert_eq!(tags(&library), vec![(1, 1, "miku"), (2, 2, "miku")]);
    assert_eq!(library.plans[0].artist_id, 1);
    assert_eq!(library.plans[0].selected_tag_ids.as_deref(), Some("[1]"));
}

#[test]
fn plans_without_further_fields_are_only_repointed() {
    let mut library = Library::empty();
    library.artists = vec![artist(1, "/pictures1/artist"), artist(2, "/real/pictures/artist")];
    assert!(folder_plan_semantic_columns(&vec!["id".to_string(), "note".to_string()]).is_empty());
    library.plans = vec![plan_row(1, 1, "2024", &[]), plan_row(2, 2, "2024", &[])];
    let mut marker = None;
    normalize_configured_media_paths(&mut library, &mut marker, &pictures(), false).unwrap();
    let owners: Vec<(i64, i64)> =
        library.plans.iter().map(|row| (row.id, row.artist_id)).collect();
    assert_eq!(owners, vec![(1, 2), (2, 2)]);
}

#[test]
fn media_path_migration_refuses_malformed_selection_on_affected_plan() {
    let mut library = Library::empty();
    library.artists = vec![artist(1, "/pictures1/artist"), artist(2, "/real/pictures/artist")];
    library.tags = vec![tag(1, 1, "miku"), tag(2, 2, "miku")];
    library.plans = vec![bare_plan(1, 1, "2024", "not-json")];

    let refusal = refused(&mut library);

    assert_eq!(refusal, MergeError::PlanTags { plan: 1 });
    let told = refusal.message(&library.plans);
    assert!(told.contains("parse selected_tag_ids of folder plan 1"), "{told}");
    assert_eq!(library.plans[0].selected_tag_ids.as_deref(), Some("not-json"));
    assert_eq!(library.artists.len(), 2);
}

#[test]
fn media_path_migration_ignores_malformed_json_on_unrelated_plan() {
    let mut library = Library::empty();
    library.artists = vec![
        artist(1, "/pictures1/artist"),
        artist(2, "/real/pictures/artist"),
        artist(3, "/pictures1/other"),
    ];
    library.tags = vec![tag(1, 1, "miku"), tag(2, 2, "miku")];
    library.plans = vec![bare_plan(1, 1, "2024", "[1]"), bare_plan(2, 3, "2025", "bad-json")];

    let counts = migrate(&mut library, &pictures());

    assert_eq!(counts.merged_artists, 1);
    let plan_artists: Vec<i64> = library.plans.iter().map(|row| row.artist_id).collect();
    assert_eq!(plan_artists, vec![2, 3]);
    assert_eq!(library.plans[1].selected_tag_ids.as_deref(), Some("bad-json"));
}

/// The copy of a deleted item of an artist.
fn copy_of(artist_id: i64) -> Json {
    Json::Object(vec![
        ("id".to_string(), Json::Int(1)),
        ("artist_id".to_string(), Json::Int(artist_id)),
        ("file_name".to_string(), Json::Text("a.jpg".to_string())),
    ])
}

#[test]
fn media_path_migration_keeps_recycle_restore_path_valid_under_merged_artist() {
    let mut library = Library::empty();
    library.artists = vec![artist(1, "/pictures1/Artist"), artist(2, "/real/pictures/Artist")];
    library.tags = vec![tag(1, 1, "miku"), tag(2, 2, "miku"), tag(3, 1, "rin")];
    library.recycled = vec![RecycleRow {
        id: 1,
        artist_id: 1,
        active: true,
        snapshot: Some(copy_of(1)),
        tag_ids: Some("[1,3]".to_string()),
    }];

    migrate(&mut library, &pictures());

    assert_eq!(library.recycled[0].artist_id, 2);
    let copy = library.recycled[0].snapshot.as_ref().unwrap();
    assert!(matches!(copy.get("artist_id"), Some(Json::Int(2))));
    assert!(matches!(copy.get("id"), Some(Json::Int(1))));
    assert_eq!(copy.get("file_name").unwrap().as_text(), Some("a.jpg"));
    assert_eq!(library.recycled[0].tag_ids.as_deref(), Some("[2,3]"));
    assert!(library.recycled[0].active);
}

#[test]
fn deleted_items_of_a_merged_artist_must_be_readable() {
    let entry = |snapshot: Option<Json>, tag_ids: &str| {
        let mut library = Library::empty();
        library.artists = vec![artist(1, "/pictures1/Artist"), artist(2, "/real/pictures/Artist")];
        library.tags = vec![tag(1, 1, "miku"), tag(2, 2, "miku")];
        library.recycled = vec![RecycleRow {
            id: 7,
            artist_id: 1,
            active: true,
            snapshot,
            tag_ids: Some(tag_ids.to_string()),
        }];
        refused(&mut library)
    };
    assert_eq!(entry(None, "[1]"), MergeError::SnapshotMalformed { entry: 7 });
    assert_eq!(entry(Some(copy_of(9)), "[1]"), MergeError::SnapshotMismatch { entry: 7 });
    assert_eq!(entry(Some(Json::Null), "[1]"), MergeError::SnapshotMismatch { entry: 7 });
    assert_eq!(entry(Some(copy_of(1)), "nonsense"), MergeError::RecycleTags { entry: 7 });
}

#[test]
fn plans_are_compared_by_every_column() {
    let base = || {
        vec![
            ("selected_tag_ids", text("[]")),
            ("status", text("ready")),
            ("file_count", Cell::Integer(3)),
            ("max_mtime", Cell::Real(9)),
            ("confirmed_at", Cell::Null),
            ("execution_log", Cell::Blob(vec![1, 2])),
        ]
    };
    let merged = |other: &[(&str, Cell)]| {
        let mut library = Library::empty();
        library.artists = vec![artist(1, "/pictures1/artist"), artist(2, "/real/pictures/artist")];
        library.plans = vec![plan_row(1, 1, "2024", &base()), plan_row(2, 2, "2024", other)];
        normalize_configured_media_paths(&mut library, &mut None, &pictures(), true).is_ok()
    };
    assert!(merged(&base()));
    let others = [
        text("[5]"),
        text("executed"),
        Cell::Integer(4),
        Cell::Integer(9),
        Cell::Integer(0),
        Cell::Blob(vec![1, 3]),
    ];
    for (place, other) in others.iter().enumerate() {
        let mut columns = base();
        columns[place].1 = other.duplicate();
        assert!(!merged(&columns), "{}", columns[place].0);
    }
    let compared = vec!["selected_tag_ids".to_string()];
    assert!(read_plan(1, 1, "2024", &compared, &vec![Cell::Integer(1)]).is_none());
}

#[test]
fn plans_of_the_kept_artist_stay() {
    let mut plans = vec![
        bare_plan(1, 1, "a", "[]"),
        bare_plan(2, 2, "a", "[]"),
        bare_plan(3, 1, "b", "[]"),
        bare_plan(4, 3, "b", "[]"),
    ];
    assert_eq!(merge_artist_folder_plans(&mut plans, 1, 2, true), Ok(()));
    let left: Vec<(i64, i64, &str)> =
        plans.iter().map(|row| (row.id, row.artist_id, row.source_folder.as_str())).collect();
    assert_eq!(left, vec![(2, 2, "a"), (3, 2, "b"), (4, 3, "b")]);
}

#[test]
fn present_rows_lose_an_old_time_of_going_too() {
    let mut library = Library::empty();
    library.items = vec![item(1, 1, "/pictures1/a.jpg"), item(2, 1, "/real/pictures/a.jpg")];
    library.items[0].missing = true;
    library.items[0].missing_at = Some(5);
    library.items[1].missing_at = Some(6);
    migrate(&mut library, &pictures());
    assert_eq!((library.items[0].missing, library.items[0].missing_at), (false, None));

    let mut gone = Library::empty();
    gone.items = vec![item(1, 1, "/pictures1/a.jpg"), item(2, 1, "/real/pictures/a.jpg")];
    for (row, at) in gone.items.iter_mut().zip([5, 6]) {
        row.missing = true;
        row.missing_at = Some(at);
    }
    migrate(&mut gone, &pictures());
    assert_eq!((gone.items[0].missing, gone.items[0].missing_at), (true, Some(6)));
}

#[test]
fn media_path_migration_activates_missing_survivors_and_keeps_item_on_surviving_artist() {
    let mut library = Library::empty();
    library.artists = vec![
        artist(1, "/pictures1/artist"),
        artist(2, "/real/pictures/artist"),
        artist(3, "/real/pictures/third"),
    ];
    library.artists[1].missing = true;
    library.artists[1].missing_at = Some(111);
    library.items =
        vec![item(1, 1, "/pictures1/artist/a.jpg"), item(2, 3, "/real/pictures/artist/a.jpg")];
    library.items[1].missing = true;
    library.items[1].missing_at = Some(222);
    library.documents = vec![document(1, 1, 1, "/pictures1/artist/a.jpg")];

    let counts = migrate(&mut library, &pictures());

    assert_eq!(counts.merged_artists, 1);
    assert_eq!(counts.merged_items, 1);
    assert_eq!(library.artists.len(), 2);
    let survivor = library.artists.iter().find(|row| row.id == 2).unwrap();
    assert_eq!((survivor.missing, survivor.missing_at), (false, None));
    assert_eq!(items(&library), vec![(2, 2, "/real/pictures/artist/a.jpg")]);
    assert_eq!((library.items[0].missing, library.items[0].missing_at), (false, None));
    assert_eq!(documents(&library), vec![(1, 2, Some(2), "/real/pictures/artist/a.jpg")]);
}

#[test]
fn media_path_migration_rewrites_stale_virtual_link_document_paths() {
    let mut library = Library::empty();
    library.artists = vec![artist(1, "/real/pictures/artist")];
    library.items = vec![item(1, 1, "/real/pictures/artist/a.jpg")];
    library.documents = vec![document(1, 1, 1, "/pictures1/artist/stale.html")];

    let counts = migrate(&mut library, &pictures());

    assert!(counts.updated >= 1);
    assert_eq!(
        documents(&library),
        vec![(1, 1, Some(1), "/real/pictures/artist/stale.html")]
    );
}

#[test]
fn a_second_run_changes_nothing() {
    let mut library = Library::empty();
    library.artists = vec![artist(1, "/pictures1/artist")];
    library.items = vec![item(1, 1, "/pictures1/artist/a.jpg")];
    let mut marker = None;
    let mut run = |library: &mut Library, marker: &mut Option<String>| {
        normalize_configured_media_paths(library, marker, &pictures(), true).unwrap()
    };
    assert!(matches!(run(&mut library, &mut marker), MigrationOutcome::Migrated(_)));
    let stored = marker.clone();
    assert_eq!(stored, Some(media_path_migration_signature(&pictures())));
    let again = run(&mut library, &mut marker);
    assert_eq!(again, MigrationOutcome::AlreadyApplied);
    assert_eq!(marker, stored);
    let answer = migration_answer(again);
    assert!(matches!(answer.get("updated"), Some(Json::Number(n)) if n == "0"));
    assert_eq!(answer.get("skipped").unwrap().as_text(), Some("already_applied"));

    let mut other = Some("other".to_string());
    let idle = run(&mut library, &mut other);
    assert_eq!(idle, MigrationOutcome::NoVirtualPaths);
    assert_eq!(other, stored);
    let answer = migration_answer(idle);
    assert_eq!(answer.get("skipped").unwrap().as_text(), Some("no_virtual_paths"));
    assert_eq!(artists(&library), vec![(1, "/real/pictures/artist")]);
    assert_eq!(items(&library), vec![(1, 1, "/real/pictures/artist/a.jpg")]);
}

#[test]
fn migrations_are_answered_with_their_counts() {
    let counts =
        Counts { updated: 4, merged_artists: 3, merged_items: 2, merged_link_documents: 1 };
    let answer = migration_answer(MigrationOutcome::Migrated(counts));
    let told = |key: &str| match answer.get(key) {
        Some(Json::Number(n)) => n.clone(),
        other => panic!("{other:?}"),
    };
    assert_eq!(told("updated"), "4");
    assert_eq!(told("merged_artists"), "3");
    assert_eq!(told("merged_items"), "2");
    assert_eq!(told("merged_link_documents"), "1");
    assert!(answer.get("skipped").is_none());
}

#[test]
fn roots_without_real_folders_move_nothing() {
    let mut library = Library::empty();
    library.artists = vec![artist(1, "/pictures1/artist")];
    let roots = MediaRoots {
        roots: vec![MediaRoot { root: "/pictures1".to_string(), real_root: None }],
        real_paths: Vec::new(),
    };
    let mut marker = None;
    assert_eq!(
        normalize_configured_media_paths(&mut library, &mut marker, &roots, true),
        Ok(MigrationOutcome::NoPairs)
    );
    assert_eq!(marker, Some(media_path_migration_signature(&roots)));
    let answer = migration_answer(MigrationOutcome::NoPairs);
    assert_eq!(answer.get("skipped").unwrap().as_text(), Some("no_pairs"));
    assert_eq!(artists(&library), vec![(1, "/pictures1/artist")]);
    assert!(migration_pairs(&roots.roots).is_empty());
}

#[test]
fn signatures_name_the_roots() {
    assert_eq!(
        media_path_migration_signature(&pictures()),
        "{\"real_paths\":[\"/real/pictures\"],\"roots\":[\"/pictures1\"]}"
    );
    assert_eq!(
        media_path_migration_signature(&roots_of("/a\"b", "/r")),
        "{\"real_paths\":[\"/r\"],\"roots\":[\"/a\\\"b\"]}"
    );
    assert_eq!(normalize_root("C:\\media\\"), "C:/media");
}
