//! Moves of artists' folders, on folders that live in memory.

use std::collections::BTreeSet;

use gallery_accel::archive_runs::{create_db_backup, BackupAction, BackupEvent, BackupStage};
use gallery_accel::artist_folder_move::{
    copy_fallback_allowed, failure_message, list_media_root_directories, may_remove_owned_dir, path_text,
    move_answer, moved_artist, moved_columns, preview_artist_folder_move, prune_retained_directory_record, record_retained_directory,
    remap_path, retained_path, root_for_source, source_prefix, execute_artist_folder_move, update_path_column,
    validate_relative_destination, validate_relative_directory, ArtistRow, MoveAction, MoveEvent, MoveFacts,
    MoveOutcome, MovePreview, MoveRefusal, MoveStage, PathColumns, PathRow, RecordAction, Retained,
};
use gallery_accel::folder_archive::backup_dir_name;
use gallery_accel::json::Json;
use gallery_accel::names::fresh_sibling;
use gallery_accel::path_conflicts::{
    indexed_conflicts, is_like, item_summary, IndexedArtist, IndexedItem,
};

/// A disk with the places that a move touches, and what goes wrong on it.
#[derive(Default)]
struct Disk {
    source: Option<&'static str>,
    target: Option<&'static str>,
    copy: Option<&'static str>,
    retired: Option<&'static str>,
    other_device: bool,
    database_fails: bool,
    source_recreated: bool,
    retire_fails: bool,
    stored: bool,
}

impl Disk {
    fn rename(from: &mut Option<&'static str>, to: &mut Option<&'static str>) -> MoveEvent {
        if to.is_some() {
            return MoveEvent::Occupied;
        }
        *to = from.take();
        MoveEvent::Done
    }

    fn perform(&mut self, action: MoveAction) -> MoveEvent {
        match action {
            MoveAction::Rename => {
                if self.other_device {
                    return MoveEvent::OtherDevice { authorized: true };
                }
                Disk::rename(&mut self.source, &mut self.target)
            }
            MoveAction::Copy => {
                self.copy = self.source;
                MoveEvent::Done
            }
            MoveAction::Publish => Disk::rename(&mut self.copy, &mut self.target),
            MoveAction::Retire => {
                if self.retire_fails {
                    return MoveEvent::Failed;
                }
                Disk::rename(&mut self.source, &mut self.retired)
            }
            MoveAction::Withdraw | MoveAction::Remove => {
                self.target = None;
                MoveEvent::Done
            }
            MoveAction::UpdateDatabase => {
                if self.source_recreated {
                    self.source = Some("foreign");
                }
                if self.database_fails {
                    return MoveEvent::Failed;
                }
                self.stored = true;
                MoveEvent::Done
            }
            MoveAction::RenameBack => Disk::rename(&mut self.target, &mut self.source),
            MoveAction::Restore => Disk::rename(&mut self.retired, &mut self.source),
            MoveAction::Clean => {
                self.retired = None;
                MoveEvent::Done
            }
            MoveAction::Finish { .. } => unreachable!(),
        }
    }

    fn run(&mut self) -> (MoveOutcome, Retained) {
        let (mut stage, mut action) = execute_artist_folder_move(MoveStage::BackingUp, MoveEvent::Done);
        loop {
            if let MoveAction::Finish { outcome, retained } = action {
                assert_eq!(stage, MoveStage::Ended);
                return (outcome, retained);
            }
            let event = self.perform(action);
            (stage, action) = execute_artist_folder_move(stage, event);
        }
    }
}

fn artist_disk() -> Disk {
    Disk { source: Some("image"), ..Disk::default() }
}

fn facts() -> MoveFacts {
    MoveFacts {
        source_is_real_dir: true,
        source_authorized: true,
        root_found: true,
        root_is_dir: true,
        target_inside_root: true,
        target_inside_source: false,
        target_exists: false,
    }
}

fn preview(facts: MoveFacts, destination: &str) -> Result<MovePreview, MoveRefusal> {
    let artists = [IndexedArtist { id: 1, path: "/m/Artist".to_string() }];
    preview_artist_folder_move(facts, &artists, &[], 1, destination, "/m/Moved")
}

fn row(id: i64, path: &str) -> PathRow {
    PathRow { id, artist_id: 1, path: path.to_string() }
}

fn indexed(id: i64, artist_id: i64, path: &str, file_size: i64) -> IndexedItem {
    IndexedItem { id, artist_id, path: path.to_string(), file_size, missing: false }
}

#[test]
fn retained_directory_records_are_persisted_and_pruned() {
    let record = record_retained_directory("/m/leftover", "/m/s", "/m/t", "test");
    assert_eq!(retained_path(&record).as_deref(), Some("/m/leftover"));
    assert_eq!(record.get("reason").unwrap().as_text(), Some("test"));
    assert_eq!(record.get("source").unwrap().as_text(), Some("/m/s"));
    assert_eq!(record.get("target").unwrap().as_text(), Some("/m/t"));
    assert_eq!(prune_retained_directory_record(true, Some(true)), RecordAction::Keep);
    assert_eq!(prune_retained_directory_record(true, Some(false)), RecordAction::Remove);
    assert_eq!(prune_retained_directory_record(true, None), RecordAction::Remove);
    assert_eq!(prune_retained_directory_record(false, None), RecordAction::Ignore);
}

#[test]
fn occupied_publish_target_records_retained_staging() {
    let mut disk = artist_disk();
    disk.other_device = true;
    disk.target = Some("");
    let (outcome, retained) = disk.run();
    assert_eq!((outcome, retained), (MoveOutcome::NeedsReconciliation, Retained::OvertakenCopy));
    assert_eq!(disk.copy, Some("image"));
    let staging = fresh_sibling("/m/Moved", ".gallery-copy-");
    let error = failure_message(outcome, retained, &staging, "exists", "").unwrap();
    assert!(error.contains("staging retained"));
    let reasons = retained.reasons();
    assert_eq!((reasons.retired, reasons.target), (None, None));
    let record =
        record_retained_directory(&staging, "/m/Artist", "/m/Moved", reasons.copy.unwrap());
    let recorded = retained_path(&record).unwrap();
    assert!(recorded.starts_with("/m/.gallery-copy-"));
    assert_eq!(record.get("reason").unwrap().as_text(), Some("unpublished_staging"));
}

#[test]
fn copy_fallback_publishes_tree_and_retires_source_to_staging() {
    let mut disk = artist_disk();
    disk.other_device = true;
    let mut stage = MoveStage::Renaming;
    let mut action = MoveAction::Rename;
    while action != MoveAction::UpdateDatabase {
        let event = disk.perform(action);
        (stage, action) = execute_artist_folder_move(stage, event);
    }
    assert_eq!(stage, MoveStage::Updating { renamed: false });
    assert_eq!(disk.target, Some("image"));
    assert_eq!(disk.source, None);
    assert_eq!(disk.retired, Some("image"));
    assert_eq!(disk.copy, None);
}

#[test]
fn copy_fallback_never_overwrites_or_cleans_up_appeared_target() {
    let mut disk = artist_disk();
    disk.other_device = true;
    disk.target = Some("foreign");
    let (outcome, retained) = disk.run();
    assert_eq!((outcome, retained), (MoveOutcome::NeedsReconciliation, Retained::OvertakenCopy));
    let error = failure_message(outcome, retained, "/m/.gallery-copy-1", "exists", "").unwrap();
    assert!(error.contains("destination appeared"));
    assert_eq!(disk.target, Some("foreign"));
    assert_eq!(disk.source, Some("image"));
    assert_eq!(disk.copy, Some("image"));
}

#[test]
fn db_failure_rollback_restores_renamed_source() {
    let mut disk = artist_disk();
    disk.database_fails = true;
    let (outcome, retained) = disk.run();
    assert_eq!((outcome, retained), (MoveOutcome::UpdateFailed, Retained::Nothing));
    assert_eq!(failure_message(outcome, retained, "", "stop", ""), None, "the cause is told");
    assert_eq!(disk.source, Some("image"));
    assert_eq!(disk.target, None);
    assert!(!disk.stored);
}

#[test]
fn db_failure_with_recreated_source_requires_manual_reconciliation() {
    let mut disk = artist_disk();
    disk.database_fails = true;
    disk.source_recreated = true;
    let (outcome, retained) = disk.run();
    assert_eq!((outcome, retained), (MoveOutcome::NeedsReconciliation, Retained::RenamedTarget));
    let error = failure_message(outcome, retained, "", "stop", "exists").unwrap();
    assert!(error.contains("manual reconciliation"));
    assert_eq!(disk.source, Some("foreign"));
    assert_eq!(disk.target, Some("image"));
}

#[test]
fn a_database_failure_undoes_a_copied_move() {
    let mut disk = artist_disk();
    disk.other_device = true;
    disk.database_fails = true;
    assert_eq!(disk.run(), (MoveOutcome::UpdateFailed, Retained::Nothing));
    assert_eq!(disk.source, Some("image"));
    assert_eq!(disk.target, None);
    assert_eq!(disk.retired, None);

    let mut disk = artist_disk();
    disk.other_device = true;
    disk.database_fails = true;
    disk.source_recreated = true;
    assert_eq!(disk.run(), (MoveOutcome::NeedsReconciliation, Retained::StagingAndTarget));
    assert_eq!(disk.source, Some("foreign"));
    assert_eq!(disk.retired, Some("image"));
}

#[test]
fn a_source_that_stays_withdraws_the_copy() {
    let mut disk = artist_disk();
    disk.other_device = true;
    disk.retire_fails = true;
    assert_eq!(disk.run(), (MoveOutcome::Failed, Retained::Nothing));
    assert_eq!(disk.source, Some("image"));
    assert_eq!(disk.target, None);
}

#[test]
fn moves_outside_the_roots_are_not_copied() {
    let outside = MoveEvent::OtherDevice { authorized: false };
    let escaped = MoveAction::Finish { outcome: MoveOutcome::Escaped, retained: Retained::Nothing };
    assert_eq!(execute_artist_folder_move(MoveStage::Renaming, outside), (MoveStage::Ended, escaped));
    let refused =
        MoveAction::Finish { outcome: MoveOutcome::BackupFailed, retained: Retained::Nothing };
    assert_eq!(execute_artist_folder_move(MoveStage::BackingUp, MoveEvent::Failed), (MoveStage::Ended, refused));
    let partial = MoveAction::Finish {
        outcome: MoveOutcome::NeedsReconciliation,
        retained: Retained::PartialCopy,
    };
    assert_eq!(execute_artist_folder_move(MoveStage::Copying, MoveEvent::Failed), (MoveStage::Ended, partial));
    assert!(copy_fallback_allowed(Some(18)));
    assert!(copy_fallback_allowed(Some(17)));
    assert!(!copy_fallback_allowed(Some(13)));
    assert!(!copy_fallback_allowed(None));
}

#[test]
fn failed_moves_say_what_stays_behind() {
    let told = |outcome: MoveOutcome, retained: Retained| {
        failure_message(outcome, retained, "/m/.gallery-copy-1", "locked", "busy")
    };
    let open = MoveOutcome::NeedsReconciliation;
    assert_eq!(told(MoveOutcome::Failed, Retained::Nothing), None);
    assert_eq!(
        told(MoveOutcome::TargetAppeared, Retained::Nothing).unwrap(),
        "destination appeared between preview and execute; refusing to proceed"
    );
    assert_eq!(
        told(MoveOutcome::Escaped, Retained::Nothing).unwrap(),
        "copy fallback path escaped configured media roots"
    );
    assert_eq!(
        told(open, Retained::PartialCopy).unwrap(),
        "copy staging retained for manual reconciliation: /m/.gallery-copy-1"
    );
    assert!(told(open, Retained::UnpublishedCopy).unwrap().ends_with("/m/.gallery-copy-1"));
    assert!(told(open, Retained::OvertakenCopy).unwrap().ends_with("/m/.gallery-copy-1"));
    assert_eq!(
        told(open, Retained::PublishedTarget).unwrap(),
        "source retirement failed: locked; published target retained for manual reconciliation: busy"
    );
    assert_eq!(
        told(open, Retained::RenamedTarget).unwrap(),
        "database update failed: locked; filesystem rollback failed and needs manual \
         reconciliation: busy"
    );
    assert_eq!(
        told(open, Retained::StagingAndTarget).unwrap(),
        "database update failed: locked; filesystem rollback needs manual reconciliation: busy"
    );
}

#[test]
fn lists_only_direct_non_symlink_directories_under_the_selected_root() {
    let names = vec!["Beta".to_string(), "Alpha".to_string()];
    let root_listing = list_media_root_directories("", &names).unwrap();
    assert_eq!(root_listing.directories, vec!["Alpha", "Beta"]);
    let child_listing = list_media_root_directories("Alpha", &["Child".to_string()]).unwrap();
    assert_eq!(child_listing.directories, vec!["Child"]);
    assert_eq!(child_listing.path, "Alpha");
    assert!(list_media_root_directories("../outside", &[]).is_err());
}

#[test]
fn listings_ignore_case() {
    let names = vec!["b".to_string(), "C".to_string(), "a".to_string()];
    let listing = list_media_root_directories("", &names).unwrap();
    assert_eq!(listing.directories, vec!["a", "b", "C"]);
}

#[test]
fn remove_owned_dir_keeps_replacement() {
    assert!(may_remove_owned_dir(Some((1, 7)), Some((1, 7)), true));
    assert!(!may_remove_owned_dir(Some((1, 7)), Some((1, 8)), true));
    assert!(!may_remove_owned_dir(Some((1, 7)), Some((1, 9)), false));
    assert!(!may_remove_owned_dir(Some((1, 7)), None, true));
    assert!(may_remove_owned_dir(None, Some((1, 8)), true));
}

#[test]
fn previews_and_rejects_existing_target() {
    let mut taken = facts();
    taken.target_exists = true;
    let value = preview(taken, "Moved").unwrap();
    assert_eq!(value.destination, "Moved");
    assert!(value.target_exists);
    assert!(!value.can_execute);
    let free = preview(facts(), "Moved").unwrap();
    assert!(!free.target_exists && free.can_execute);
}

#[test]
fn paths_of_other_artists_stop_a_move() {
    let artists = [
        IndexedArtist { id: 1, path: "/m/moved".to_string() },
        IndexedArtist { id: 2, path: "/m/MOVED".to_string() },
        IndexedArtist { id: 3, path: "/m/Moved".to_string() },
    ];
    let mut gone = indexed(6, 1, "/m/Artist/gone.jpg", 100);
    gone.missing = true;
    let items = [
        indexed(4, 2, "/M/moved/a.jpg", 7),
        indexed(5, 1, "/m/Moved/b.jpg", 30),
        gone,
        indexed(7, 1, "/m/Artist/c.jpg", 12),
        indexed(8, 2, "/m/Moved2/d.jpg", 7),
        indexed(9, 3, "/m/Moved", 7),
    ];
    let shown =
        preview_artist_folder_move(facts(), &artists, &items, 1, "Moved", "/m/Moved").unwrap();
    assert!(!shown.can_execute);
    assert_eq!((shown.item_count, shown.total_size), (2, 42));
    let told: Vec<(Option<i64>, i64, &str)> = shown
        .conflicts
        .iter()
        .map(|conflict| (conflict.item_id, conflict.artist_id, conflict.path.as_str()))
        .collect();
    let expected = vec![
        (None, 2, "/m/MOVED"),
        (Some(4), 2, "/M/moved/a.jpg"),
        (Some(9), 3, "/m/Moved"),
    ];
    assert_eq!(told, expected);

    let many: Vec<IndexedItem> =
        (0..30).map(|id| indexed(id, 2, &format!("/m/Moved/{id}.jpg"), 1)).collect();
    assert_eq!(indexed_conflicts(&[], &many, "/m/Moved", 1).len(), 20);
    assert!(indexed_conflicts(&[], &many, "/m/Moved", 2).is_empty());

    let huge = [indexed(1, 1, "/a", i64::MAX), indexed(2, 1, "/b", 1)];
    let refused = preview_artist_folder_move(facts(), &[], &huge, 1, "Moved", "/m/Moved");
    assert_eq!(refused.unwrap_err(), MoveRefusal::SizeOverflow);
    assert_eq!(item_summary(&huge, 2), Some((0, 0)));
}

#[test]
fn patterns_match_as_in_a_query() {
    assert!(is_like("/m/Moved/%", "/M/moved/a.jpg"));
    assert!(is_like("/m/Moved/%", "/m/Moved/"));
    assert!(!is_like("/m/Moved/%", "/m/Moved"));
    assert!(is_like("/m/a_b/%", "/m/axb/c"));
    assert!(is_like("a%b%c", "axxbyyc"));
    assert!(!is_like("a%b%c", "axxcyyb"));
    assert!(!is_like("É", "é"));
}

#[test]
fn previews_refuse_bad_moves() {
    let refusal = |facts: MoveFacts, destination: &str| {
        preview(facts, destination).unwrap_err()
    };
    let mut bad = facts();
    bad.source_is_real_dir = false;
    assert_eq!(refusal(bad, "Moved"), MoveRefusal::SourceMissing);
    let mut bad = facts();
    bad.source_authorized = false;
    assert_eq!(refusal(bad, "Moved"), MoveRefusal::SourceOutside);
    assert_eq!(refusal(facts(), "/etc"), MoveRefusal::DestinationNotRelative);
    assert_eq!(refusal(facts(), "a/../b"), MoveRefusal::DestinationInvalid);
    let mut bad = facts();
    bad.root_found = false;
    assert_eq!(refusal(bad, "Moved"), MoveRefusal::RootNotFound);
    let mut bad = facts();
    bad.root_is_dir = false;
    assert_eq!(refusal(bad, "Moved"), MoveRefusal::RootMissing);
    let mut bad = facts();
    bad.target_inside_root = false;
    assert_eq!(refusal(bad, "Moved"), MoveRefusal::DestinationEscapes);
    let mut bad = facts();
    bad.target_inside_source = true;
    assert_eq!(refusal(bad, "Moved"), MoveRefusal::DestinationInsideSource);
}

#[test]
fn executes_move_and_updates_indexed_paths() {
    let mut backups = BTreeSet::new();
    let backup = made_backup(&mut backups);
    let mut disk = artist_disk();
    let end = disk.run();
    assert_eq!(end, (MoveOutcome::Moved { leftover: false }, Retained::Nothing));
    assert_eq!(disk.target, Some("image"));
    assert_eq!(disk.source, None);
    assert!(disk.stored);

    let before = ArtistRow {
        id: 1,
        path: "/m/Artist".to_string(),
        missing: true,
        missing_at: Some(5),
    };
    let artist = moved_artist(&before, "/m/Moved");
    assert_eq!((artist.id, artist.path), (1, path_text("/m/Moved")));
    assert_eq!((artist.missing, artist.missing_at), (false, None));
    let rows = [row(1, "/m/Artist/work/image.jpg")];
    let changed = update_path_column(&rows, 1, "/m/Artist", "/m/Moved");
    assert_eq!(changed.len(), 1);
    assert_eq!(changed[0].id, 1);
    assert_eq!(changed[0].path, path_text("/m/Moved/work/image.jpg"));

    let result = move_answer(&backup, "/m/Artist", "/m/Moved", 1, None, 0);
    assert!(matches!(result.get("ok"), Some(Json::Bool(true))));
    assert!(backups.contains(result.get("backup").unwrap().as_text().unwrap()));
    assert_eq!(result.get("target").unwrap().as_text(), Some("/m/Moved"));
    assert!(matches!(result.get("updated_paths"), Some(Json::Number(n)) if n == "1"));
    assert!(matches!(result.get("cleanup_error"), Some(Json::Null)));
    let untidy = move_answer(&backup, "/m/Artist", "/m/Moved", 1, Some("busy"), 2);
    assert_eq!(untidy.get("cleanup_error").unwrap().as_text(), Some("busy"));
}

/// Makes a backup among others, and tells its name.
fn made_backup(backups: &mut BTreeSet<String>) -> String {
    let name = |index| backup_dir_name("20260813-000000", index);
    let (mut stage, mut action) = create_db_backup(BackupStage::Begin, BackupEvent::Begin);
    loop {
        let event = match action {
            BackupAction::Look { index } => BackupEvent::Taken(backups.contains(&name(index))),
            BackupAction::Publish { index } => {
                backups.insert(name(index));
                BackupEvent::Done
            }
            BackupAction::Finish(index) => return name(index.unwrap()),
            _ => BackupEvent::Done,
        };
        (stage, action) = create_db_backup(stage, event);
    }
}

#[test]
fn unpublished_copies_are_recorded() {
    let end = |event| execute_artist_folder_move(MoveStage::Publishing, event).1;
    assert_eq!(
        end(MoveEvent::Failed),
        MoveAction::Finish {
            outcome: MoveOutcome::NeedsReconciliation,
            retained: Retained::UnpublishedCopy,
        }
    );
    assert_eq!(
        end(MoveEvent::OtherDevice { authorized: true }),
        MoveAction::Finish {
            outcome: MoveOutcome::NeedsReconciliation,
            retained: Retained::UnpublishedCopy,
        }
    );
    assert_eq!(
        end(MoveEvent::Occupied),
        MoveAction::Finish {
            outcome: MoveOutcome::NeedsReconciliation,
            retained: Retained::OvertakenCopy,
        }
    );
    let told = failure_message(
        MoveOutcome::NeedsReconciliation,
        Retained::UnpublishedCopy,
        "/m/.copy",
        "denied",
        "",
    );
    assert_eq!(
        told.as_deref(),
        Some("denied; staging retained for manual reconciliation: /m/.copy")
    );
}

#[test]
fn only_rows_below_the_source_are_moved() {
    let mut foreign = row(4, "/m/Artist/b.jpg");
    foreign.artist_id = 2;
    let rows = [
        row(1, "/m/Artist"),
        row(2, "/m/Artist2/a.jpg"),
        row(3, "/m/Artist/a.jpg"),
        foreign,
    ];
    let changed = update_path_column(&rows, 1, "/m/Artist", "/m/Moved");
    let paths: Vec<(i64, &str)> = changed.iter().map(|row| (row.id, row.path.as_str())).collect();
    assert_eq!(paths, vec![(1, "/m/Moved"), (3, "/m/Moved/a.jpg")]);
}

#[test]
fn every_column_moves() {
    let columns = PathColumns {
        items: vec![row(1, "/m/Artist/a.jpg")],
        seen: vec![row(2, "/m/Artist/b.jpg"), row(3, "/m/Other/b.jpg")],
        candidates: vec![row(4, "/m/Artist/c.jpg")],
        documents: Vec::new(),
        old_paths: vec![row(5, "/m/Artist/d.jpg")],
        new_paths: vec![row(5, "/n/d.jpg")],
    };
    let moved = moved_columns(&columns, 1, "/m/Artist", "/m/Moved");
    assert_eq!(moved.items[0].path, "/m/Moved/a.jpg");
    assert_eq!(moved.seen.len(), 1);
    assert_eq!(moved.seen[0].path, "/m/Moved/b.jpg");
    assert_eq!(moved.candidates[0].path, "/m/Moved/c.jpg");
    assert!(moved.documents.is_empty());
    assert_eq!((moved.old_paths[0].id, moved.old_paths[0].path.as_str()), (5, "/m/Moved/d.jpg"));
    assert!(moved.new_paths.is_empty());
}

#[test]
fn moving_a_path_back_restores_it() {
    let there = remap_path("/m/Artist/a.jpg", "/m/Artist", "/m/Moved").unwrap();
    assert_eq!(there, "/m/Moved/a.jpg");
    assert_eq!(remap_path(&there, "/m/Moved", "/m/Artist").as_deref(), Some("/m/Artist/a.jpg"));
    assert_eq!(remap_path("/m/Other/a.jpg", "/m/Artist", "/m/Moved"), None);
}

#[test]
fn destinations_are_relative_folders() {
    assert_eq!(validate_relative_destination("a/b").as_deref(), Ok("a/b"));
    assert!(validate_relative_destination("").is_err());
    assert!(validate_relative_destination("../a").is_err());
    assert!(validate_relative_destination("/a").is_err());
    assert_eq!(validate_relative_directory("").as_deref(), Ok(""));
    assert_eq!(source_prefix("/m/Artist//"), "/m/Artist");
    assert_eq!(path_text("C:\\m\\a"), "C:/m/a");
}

#[test]
fn the_deepest_root_holds_the_source() {
    let roots =
        [Some("/m".to_string()), None, Some("/m/art".to_string()), Some("/n".to_string())];
    assert_eq!(root_for_source("/m/art/Artist", &roots), Some(2));
    assert_eq!(root_for_source("/m/Artist", &roots), Some(0));
    assert_eq!(root_for_source("/x/Artist", &roots), None);
}

#[test]
fn retained_directories_have_reasons() {
    let told = |retained: Retained| {
        let reasons = retained.reasons();
        (reasons.copy, reasons.retired, reasons.target)
    };
    assert_eq!(told(Retained::Nothing), (None, None, None));
    assert_eq!(told(Retained::PartialCopy), (Some("partial_copy_staging"), None, None));
    assert_eq!(told(Retained::UnpublishedCopy), (Some("unpublished_staging"), None, None));
    assert_eq!(told(Retained::OvertakenCopy), (Some("unpublished_staging"), None, None));
    assert_eq!(told(Retained::PublishedTarget), (None, None, Some("published_target_retained")));
    assert_eq!(told(Retained::RenamedTarget), (None, None, Some("rollback_retained_target")));
    assert_eq!(
        told(Retained::StagingAndTarget),
        (None, Some("rollback_retained_staging"), Some("rollback_retained_target"))
    );
}
