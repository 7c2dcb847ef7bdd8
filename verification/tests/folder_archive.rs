//! Folder archive plans: storing, carrying out and taking back.

use std::collections::BTreeSet;

use gallery_accel::archive_runs::{
    auto_answer, batch_answer, execute_folder_renames_with_backup, idle_answer, refusal_row,
    refuse_run, refused_run_answer, run_folder_rename_auto_after_full_scan, start_batch, start_run,
    AutoAction, AutoEvent, BatchAction, BatchEvent, IdleReason,
};
use gallery_accel::artist_folder_move::PathRow;
use gallery_accel::artist_folders::{artist_folders, FolderItem};
use gallery_accel::folder_archive::{
    archive_failure_message, authorized_root_relative,
    auto_discover_artist_folder_plans, backup_dir_name, backup_retention, backup_temp_name,
    check_plan_paths, due_plans, ensure_target_parent_under_artist, execution_log, folder_db_path,
    folder_rename_auto_enabled, is_stale, move_item_path, needs_manual_review, path_under_artist, plan_paths,
    prune_backup_root, recheck_plan, record_plan_execution_failure, record_undo_reconciliation_failure,
    set_folder_rename_auto, start_auto_run, status_of, step_plan, target_parent_under_artist,
    undo_folder_rename_plan, undo_log, undo_reply,
    update_folder_item_paths, upsert_folder_rename_plans, upsert_read_plans,
    validate_relative_folder, values_document, vet_plan,
    vet_undo, AutoStart, AutoStatus, BackupEntry, DiscoverAction,
    ExistingPlan, FailureReason, FolderProbe, PlanAction, PlanEvent, PlanStage,
    PlanVerdict, QueuedPlan, StoredPlan, UndoAction, UndoError, UndoEvent, UndoFacts, UndoOutcome,
    UndoStage, UpsertError, UpsertRefusal,
};
use gallery_accel::json::Json;
use gallery_accel::paths::AncestorProbe;
use gallery_accel::plan_rows::{
    executed_marks, plan_after, reverted_marks, undo_after, PlanMarks,
};

fn text(s: &str) -> Json {
    Json::Text(s.to_string())
}

fn object(members: Vec<(&str, Json)>) -> Json {
    Json::Object(members.into_iter().map(|(k, v)| (k.to_string(), v)).collect())
}

fn ids(list: &[i64]) -> Json {
    Json::Array(list.iter().map(|n| Json::Int(*n)).collect())
}

/// The tags of the artist in the fixtures.
const OWNED: [i64; 2] = [1, 2];

fn upsert(
    stored: &[StoredPlan],
    plans: Vec<Json>,
) -> Result<(Vec<StoredPlan>, u64), UpsertRefusal> {
    upsert_folder_rename_plans(true, stored, &plans, &OWNED)
}

#[test]
fn upsert_is_atomic_and_rejects_execution_state_forgery() {
    let plans = vec![
        object(vec![
            ("source_folder", text("one")),
            ("target_folder", text("target")),
            ("status", text("ready")),
        ]),
        object(vec![
            ("source_folder", text("two")),
            ("target_folder", text("target")),
            ("status", text("executed")),
        ]),
    ];
    assert!(upsert(&[], plans).is_err());
}

#[test]
fn upsert_empty_source_rolls_back_the_batch() {
    let plans = vec![
        object(vec![("source_folder", text("valid")), ("status", text("draft"))]),
        object(vec![("source_folder", text("")), ("status", text("draft"))]),
    ];
    assert!(upsert(&[], plans).is_err());
}

#[test]
fn auto_discover_filters_untagged_and_checks_tag_consistency() {
    let no_tags =
        auto_discover_artist_folder_plans("no_tags", "", "2026-01-01", &[vec![], vec![]], None);
    assert!(matches!(no_tags, DiscoverAction::Leave));

    let inconsistent =
        auto_discover_artist_folder_plans("inconsistent", "", "2026-01-01", &[vec![1], vec![]], None);
    match inconsistent {
        DiscoverAction::Insert { status, .. } => assert_eq!(status, "inconsistent_tags"),
        other => panic!("{other:?}"),
    }

    let consistent =
        auto_discover_artist_folder_plans("consistent", "", "2026-01-01", &[vec![1], vec![1]], None);
    match consistent {
        DiscoverAction::Insert { status, selected_tag_ids, parsed_date } => {
            assert_eq!(status, "draft");
            assert_eq!(selected_tag_ids, "[1]");
            assert_eq!(parsed_date, "2026-01-01");
        }
        other => panic!("{other:?}"),
    }
    let gone = ExistingPlan {
        status: "draft".into(),
        parsed_date: String::new(),
        target_folder: String::new(),
    };
    let removed = auto_discover_artist_folder_plans("f", "", "", &[vec![]], Some(&gone));
    assert!(matches!(removed, DiscoverAction::Remove));
}

#[test]
fn items_are_gathered_by_folder() {
    let item = |id: i64, folder: &str, date: &str, missing: bool| FolderItem {
        id,
        folder: folder.to_string(),
        date: date.to_string(),
        missing,
    };
    let items = [
        item(1, "b", "2026-02-01", false),
        item(2, "", "2026-01-01", false),
        item(3, "a", "2026-03-01", false),
        item(4, "b", "2026-01-15", false),
        item(5, "c", "2026-01-15", true),
        item(6, "b", "2025-01-01", true),
    ];
    let rows = [(4, 1), (1, 2), (4, 3), (6, 9)];
    let folders = artist_folders(&items, &rows);
    let names: Vec<&str> = folders.iter().map(|found| found.folder.as_str()).collect();
    assert_eq!(names, vec!["b", "a"]);
    assert_eq!(folders[0].file_count, 2);
    assert_eq!(folders[0].min_date, "2026-01-15");
    assert_eq!(folders[0].tags, vec![vec![2], vec![1, 3]]);
    assert_eq!(folders[1].tags, vec![Vec::<i64>::new()]);
}

#[test]
fn discovery_leaves_settled_plans_alone() {
    for status in ["confirmed", "executed"] {
        let settled = ExistingPlan {
            status: status.into(),
            parsed_date: String::new(),
            target_folder: "target".into(),
        };
        for items in [vec![vec![]], vec![vec![1]], vec![vec![1], vec![2]]] {
            let action =
                auto_discover_artist_folder_plans("f", "", "2026-01-01", &items, Some(&settled));
            assert!(matches!(action, DiscoverAction::Leave));
        }
    }
}

#[test]
fn failed_plans_are_put_aside() {
    assert!(needs_manual_review("confirmed", r#"[{"reason":"source_missing"}]"#));
    assert!(needs_manual_review("ready", "sourceXmissing"));
    assert!(needs_manual_review("ready", "it FAILED"));
    assert!(needs_manual_review("confirmed", r#"[{"status":"error"}]"#));
    assert!(!needs_manual_review("draft", r#"[{"reason":"source_missing"}]"#));
    assert!(!needs_manual_review("confirmed", "[]"));
    assert!(!needs_manual_review("confirmed", r#"[{"status": "error"}]"#));
}

#[test]
fn upsert_preserves_executed_plans_and_normalizes_tag_json() {
    let done = StoredPlan {
        source_folder: "done".into(),
        target_folder: "target".into(),
        status: "executed".into(),
        selected_tag_ids: "[9]".into(),
    };
    let (stored, upserted) = upsert(
        &[done],
        vec![
            object(vec![
                ("source_folder", text("done")),
                ("target_folder", text("changed")),
                ("status", text("ready")),
            ]),
            object(vec![
                ("source_folder", text("new")),
                ("target_folder", text("next")),
                ("status", text("ready")),
                ("selected_tag_ids", text("[1,2]")),
            ]),
        ],
    )
    .unwrap();

    assert_eq!(upserted, 1);
    let done = stored.iter().find(|p| p.source_folder == "done").unwrap();
    assert_eq!(
        (done.target_folder.as_str(), done.status.as_str(), done.selected_tag_ids.as_str()),
        ("target", "executed", "[9]")
    );
    let new = stored.iter().find(|p| p.source_folder == "new").unwrap();
    assert_eq!(new.selected_tag_ids, "[1,2]");
}

#[test]
fn upsert_validates_and_deduplicates_selected_tags() {
    let invalid_plans = vec![
        object(vec![
            ("source_folder", text("bad-shape")),
            ("selected_tag_ids", Json::Array(vec![Json::Int(1), text("2")])),
        ]),
        object(vec![("source_folder", text("bad-id")), ("selected_tag_ids", ids(&[0]))]),
        object(vec![("source_folder", text("missing")), ("selected_tag_ids", ids(&[99]))]),
        object(vec![("source_folder", text("cross-artist")), ("selected_tag_ids", ids(&[3]))]),
    ];
    for plan in invalid_plans {
        assert!(upsert(&[], vec![plan]).is_err());
    }
    let (stored, upserted) = upsert(
        &[],
        vec![object(vec![
            ("source_folder", text("valid")),
            ("selected_tag_ids", ids(&[2, 1, 2])),
        ])],
    )
    .unwrap();

    assert_eq!(upserted, 1);
    assert_eq!(stored[0].selected_tag_ids, "[2,1]");
    assert_eq!(stored.len(), 1);
}

#[test]
fn every_refusal_of_a_plan_has_its_reason() {
    let one = |members: Vec<(&str, Json)>| upsert(&[], vec![object(members)]).unwrap_err().error;
    assert_eq!(one(vec![("status", text("draft"))]), UpsertError::SourceRequired);
    assert_eq!(one(vec![("source_folder", text("../x"))]), UpsertError::InvalidSource);
    assert_eq!(
        one(vec![("source_folder", text("a")), ("target_folder", text("../x"))]),
        UpsertError::InvalidTarget
    );
    assert_eq!(
        one(vec![("source_folder", text("a")), ("status", text("executed"))]),
        UpsertError::InvalidStatus
    );
    assert_eq!(
        one(vec![("source_folder", text("a")), ("selected_tag_ids", ids(&[7]))]),
        UpsertError::TagNotOwned(7)
    );
    let tagged = |tags: &str| {
        let plan = object(vec![("source_folder", text("a")), ("selected_tag_ids", text(tags))]);
        upsert(&[], vec![plan])
            .map(|(rows, _)| rows[0].selected_tag_ids.clone())
            .map_err(|refusal| refusal.error)
    };
    assert_eq!(tagged(" [ 2 , 1 , 2 ] ").as_deref(), Ok("[2,1]"));
    assert_eq!(tagged("[1"), Err(UpsertError::TagsNotJson));
    assert_eq!(tagged("{\"a\":1}"), Err(UpsertError::TagsNotArray));
    assert_eq!(tagged("[1.5]"), Err(UpsertError::TagNotPositive));
    assert_eq!(tagged("[9223372036854775808]"), Err(UpsertError::TagNotPositive));
    assert_eq!(tagged("[\"1\"]"), Err(UpsertError::TagNotPositive));
    assert_eq!(
        one(vec![("source_folder", text("a")), ("selected_tag_ids", Json::Bool(true))]),
        UpsertError::TagsNotArray
    );
    let listed = values_document(&Some(Some(vec![Some(4), None]))).unwrap();
    match listed {
        Json::Array(values) => assert!(matches!(values[..], [Json::Int(4), Json::Null])),
        other => panic!("{other:?}"),
    }
    let plan = object(vec![("source_folder", text("a")), ("selected_tag_ids", text("?"))]);
    let (rows, _) = upsert_read_plans(true, &[], &[plan], &[Some(ids(&[1]))], &OWNED).unwrap();
    assert_eq!(rows[0].selected_tag_ids, "[1]");
    assert_eq!(
        upsert_folder_rename_plans(false, &[], &[], &[]).unwrap_err().error,
        UpsertError::ArtistMissing
    );
    let plans = vec![
        object(vec![("source_folder", text("a"))]),
        object(vec![("source_folder", text("b")), ("target_folder", text("../x"))]),
    ];
    let refusal = upsert_folder_rename_plans(true, &[], &plans, &[]).unwrap_err();
    assert_eq!(refusal.place, 1);
    assert_eq!(
        refusal.message(3, &plans),
        "invalid folder rename plan: invalid target_folder \"../x\""
    );
    let plans = vec![object(vec![("source_folder", text("a\"\n/../"))])];
    let refusal = upsert_folder_rename_plans(true, &[], &plans, &[]).unwrap_err();
    assert_eq!(
        refusal.message(3, &plans),
        "invalid folder rename plan: invalid source_folder \"a\\\"\\n/../\""
    );
}

/// The marks of a plan that was confirmed by a run and may have been carried out.
fn marks(status: &str) -> PlanMarks {
    PlanMarks {
        status: status.to_string(),
        confirmed_at: Some(1),
        confirmation_source: "auto".to_string(),
        executed_at: if status == "executed" { Some(2) } else { None },
    }
}

/// A machine's folders and the rows of one plan, for driving a plan.
struct World {
    folders: BTreeSet<String>,
    item: String,
    marks: PlanMarks,
    log: Vec<Json>,
    update_fails: Option<&'static str>,
    rollback_fails: bool,
}

impl World {
    fn new(folders: &[&str], item: &str, status: &str) -> World {
        World {
            folders: folders.iter().map(|f| f.to_string()).collect(),
            item: item.to_string(),
            marks: marks(status),
            log: Vec::new(),
            update_fails: None,
            rollback_fails: false,
        }
    }

    fn rename(&mut self, from: &str, to: &str) -> bool {
        if self.folders.contains(to) || !self.folders.remove(from) {
            return false;
        }
        self.folders.insert(to.to_string());
        true
    }

    fn probe(&self, source: &str, target: &str) -> FolderProbe {
        FolderProbe {
            source_is_dir: self.folders.contains(source),
            target_exists: self.folders.contains(target),
            source_inside: true,
            target_parent_inside: true,
        }
    }

    fn execute(&mut self, source: &str, target: &str, dry_run: bool) -> (PlanVerdict, bool) {
        let paths = plan_paths(source, target);
        let probe = self.probe(&paths.source, &paths.target);
        let mut stage = PlanStage::Checking;
        let mut event = PlanEvent::Checked(vet_plan(&paths, probe));
        loop {
            let (next, action) = step_plan(stage, event, dry_run);
            stage = next;
            event = match action {
                PlanAction::Rename => PlanEvent::Renamed(self.rename(source, target)),
                PlanAction::UpdateDatabase => match self.update_fails {
                    Some(error) => PlanEvent::UpdateFailed { stale: is_stale(error) },
                    None => {
                        let (s, t) = (folder_db_path("/artist", source), folder_db_path("/artist", target));
                        if let Some(path) = move_item_path(&self.item, &s, &s, &t, &t) {
                            self.item = path;
                        }
                        self.log = execution_log(source, target, "/backup", 1);
                        PlanEvent::Updated
                    }
                },
                PlanAction::RenameBack => {
                    let done = !self.rollback_fails && self.rename(target, source);
                    PlanEvent::RolledBack(done)
                }
                PlanAction::Finish { verdict, record } => {
                    self.marks = plan_after(&self.marks, verdict, record, 7);
                    return (verdict, record);
                }
            };
        }
    }

    fn undo(&mut self, source: &str, target: &str) -> UndoOutcome {
        let paths = plan_paths(source, target);
        let facts = UndoFacts {
            plan_found: true,
            artist_known: true,
            artist_is_dir: true,
            artist_authorized: true,
            target_exists: self.folders.contains(target),
            target_is_dir: self.folders.contains(target),
            source_exists: self.folders.contains(source),
            target_inside: true,
            source_parent_inside: true,
        };
        let mut stage = UndoStage::Checking;
        let mut event = UndoEvent::Checked(vet_undo(facts, &self.marks.status, &paths));
        loop {
            let (next, action) = undo_folder_rename_plan(stage, event);
            stage = next;
            event = match action {
                UndoAction::TakeBackup => UndoEvent::BackedUp(true),
                UndoAction::RenameBack => {
                    if self.rename(target, source) {
                        UndoEvent::Renamed
                    } else {
                        UndoEvent::RenameFailed { occupied: true }
                    }
                }
                UndoAction::UpdateDatabase => {
                    if self.update_fails.is_some() {
                        UndoEvent::Updated(false)
                    } else {
                        let (s, t) = (folder_db_path("/artist", source), folder_db_path("/artist", target));
                        if let Some(path) = move_item_path(&self.item, &t, &t, &s, &s) {
                            self.item = path;
                        }
                        let log = std::mem::take(&mut self.log);
                        self.log = undo_log(log, target, source, 1, "/backup");
                        UndoEvent::Updated(true)
                    }
                }
                UndoAction::RenameAgain => {
                    let done = !self.rollback_fails && self.rename(source, target);
                    UndoEvent::RolledBack(done)
                }
                UndoAction::RecordFailure => {
                    let log = std::mem::take(&mut self.log);
                    self.log = record_undo_reconciliation_failure(
                        &self.marks.status,
                        log,
                        target,
                        source,
                        "/backup",
                        "stale_state",
                        "forced undo rollback failure",
                    )
                    .unwrap();
                    UndoEvent::Recorded(true)
                }
                UndoAction::Finish(outcome) => {
                    self.marks = undo_after(&self.marks, outcome);
                    return outcome;
                }
            };
        }
    }
}

#[test]
fn execute_renames_folder_and_updates_paths() {
    let mut world = World::new(&["old"], "/artist/old/a.jpg", "confirmed");
    let (verdict, recorded) = world.execute("old", "nested/new", false);
    assert_eq!(verdict.status(), "executed");
    assert!(!recorded);
    assert!(world.folders.contains("nested/new"));
    assert!(world.item.contains("/nested/new/"));
    assert_eq!(world.item, "/artist/nested/new/a.jpg");
    assert_eq!(world.marks.status, "executed");
    assert_eq!(world.marks.executed_at, Some(7));
    assert_eq!(world.marks.confirmation_source, "auto");
}

#[test]
fn execute_stale_plan_rolls_back_without_overwriting_newer_state() {
    let mut world = World::new(&["old"], "/artist/old/a.jpg", "confirmed");
    world.update_fails = Some("stale_state: plan changed");
    let (verdict, _) = world.execute("old", "new", false);
    assert_eq!(verdict, PlanVerdict::Failed(FailureReason::StaleState));
    assert!(world.folders.contains("old"));
    assert!(!world.folders.contains("new"));
    assert_eq!(world.item, "/artist/old/a.jpg");
    assert_eq!(world.marks.status, "confirmed");
}

#[test]
fn failed_rollbacks_and_renames_are_recorded() {
    let mut world = World::new(&["old"], "/artist/old/a.jpg", "confirmed");
    world.update_fails = Some("disk full");
    let (verdict, recorded) = world.execute("old", "new", false);
    assert_eq!((verdict, recorded), (PlanVerdict::Failed(FailureReason::DbUpdateFailed), true));
    assert!(world.folders.contains("old"));
    world.rollback_fails = true;
    let (verdict, recorded) = world.execute("old", "new", false);
    assert_eq!((verdict, recorded), (PlanVerdict::Failed(FailureReason::RollbackFailed), true));
    assert!(world.folders.contains("new"));
    let mut dry = World::new(&["old"], "/artist/old/a.jpg", "confirmed");
    assert_eq!(dry.execute("old", "new", true), (PlanVerdict::DryRun, false));
    assert_eq!(dry.execute("gone", "new", true).0, PlanVerdict::Failed(FailureReason::SourceMissing));
    assert_eq!(dry.marks.status, "confirmed");
}

#[test]
fn execute_rejects_traversal_plan() {
    let mut world = World::new(&["old"], "/artist/old/a.jpg", "confirmed");
    let (verdict, _) = world.execute("../escape", "new", false);
    match verdict {
        PlanVerdict::Failed(reason) => assert_eq!(reason.code(), "bad_folder_path"),
        other => panic!("{other:?}"),
    }
}

#[test]
fn execute_rejects_artist_outside_authorized_roots() {
    let outside = BatchEvent::Begin { authorized: false };
    let (batch, action) = execute_folder_renames_with_backup(start_batch(false, 1, false), outside);
    let reason = FailureReason::OutsideArtist;
    assert_eq!(action, BatchAction::RefuseAll { reason, record: true });
    assert_eq!(batch.verdicts, vec![PlanVerdict::Failed(reason)]);
    assert_eq!(reason.code(), "outside_artist");
    let row = refusal_row(None, 1, reason, "source", "target", None);
    let result = batch_answer(&batch, "", vec![row]);
    assert!(matches!(result.get("ok"), Some(Json::Bool(false))));
    match result.get("results") {
        Some(Json::Array(rows)) => {
            assert_eq!(rows[0].get("reason").unwrap().as_text(), Some("outside_artist"));
        }
        other => panic!("{other:?}"),
    }
}

#[test]
fn execution_outside_authorized_roots_moves_plan_to_manual_review() {
    let outside = BatchEvent::Begin { authorized: false };
    let (batch, action) = execute_folder_renames_with_backup(start_batch(false, 1, false), outside);
    let (reason, record) = match action {
        BatchAction::RefuseAll { reason, record } => (reason, record),
        other => panic!("{other:?}"),
    };
    let result = batch_answer(&batch, "", Vec::new());
    assert!(matches!(result.get("ok"), Some(Json::Bool(false))));
    let row = plan_after(&marks("confirmed"), batch.verdicts[0], record, 7);
    assert_eq!(row.status, "manual_review");
    assert_eq!(row.confirmed_at, None);
    assert_eq!(row.confirmation_source, "");
    let entry = record_plan_execution_failure(reason.code(), "missing", "2026/target", vec![]);
    assert_eq!(entry.get("reason").unwrap().as_text(), Some("outside_artist"));
    assert_eq!(entry.get("source").unwrap().as_text(), Some("missing"));
    assert_eq!(
        entry.get("message").unwrap().as_text(),
        Some(archive_failure_message("outside_artist"))
    );
}

#[test]
fn recheck_reports_current_source_and_target_state() {
    let probe = FolderProbe {
        source_is_dir: true,
        target_exists: false,
        source_inside: true,
        target_parent_inside: true,
    };
    let check = check_plan_paths("source", "target", true, probe);
    assert_eq!(recheck_plan(&check), "ready");
    assert_eq!(check.source_exists, true);
    assert_eq!(check.target_exists, false);

    let nested = check_plan_paths("source", "source/nested", true, probe);
    assert_eq!(recheck_plan(&nested), "blocked");
    assert_eq!(nested.reason.unwrap().code(), "target_inside_source");
}

#[test]
fn undo_restores_folder_paths_and_records_history() {
    let mut world = World::new(&["2026/renamed"], "/artist/2026/renamed/a.jpg", "executed");
    assert_eq!(world.undo("original", "2026/renamed"), UndoOutcome::Reverted);
    assert!(world.folders.contains("original"));
    assert!(!world.folders.contains("2026/renamed"));
    assert!(world.item.ends_with("/artist/original/a.jpg"), "{}", world.item);
    assert_eq!(world.marks.status, "reverted");
    assert!(world.marks.executed_at.is_none());
    let entry = world.log.last().unwrap();
    assert_eq!(entry.get("reason").unwrap().as_text(), Some("folder_rename_undo"));
    assert_eq!(entry.get("status").unwrap().as_text(), Some("reverted"));
    let result = undo_reply(1, "2026/renamed", "original", 1, "/backup");
    assert_eq!(result.get("status").unwrap().as_text(), Some("reverted"));
    assert_eq!(result.get("reason").unwrap().as_text(), Some("folder_rename_undo"));
    assert!(matches!(result.get("plan_id"), Some(Json::Int(1))));
}

#[test]
fn undo_refuses_occupied_source_without_changing_target_or_db() {
    let mut world = World::new(&["original", "renamed"], "/artist/renamed/a.jpg", "executed");
    let outcome = world.undo("original", "renamed");
    assert_eq!(outcome, UndoOutcome::Refused(UndoError::SourceExists));
    assert_eq!(UndoError::SourceExists.code(), "source_exists");
    assert!(world.folders.contains("renamed"));
    assert_eq!(world.marks.status, "executed");
}

#[test]
fn undo_restores_target_when_database_update_fails() {
    let mut world = World::new(&["renamed"], "/artist/renamed/a.jpg", "executed");
    world.update_fails = Some("no such table: items");
    assert_eq!(world.undo("original", "renamed"), UndoOutcome::UpdateFailed);
    assert!(world.folders.contains("renamed"));
    assert!(!world.folders.contains("original"));
    assert_eq!(world.marks.status, "executed");
}

#[test]
fn undo_stale_plan_rolls_back_filesystem_and_database() {
    let mut world = World::new(&["renamed"], "/artist/renamed/a.jpg", "executed");
    world.update_fails = Some("stale_state");
    assert_eq!(world.undo("original", "renamed"), UndoOutcome::UpdateFailed);
    assert!(world.folders.contains("renamed"));
    assert!(!world.folders.contains("original"));
    assert_eq!(world.item, "/artist/renamed/a.jpg");
    assert_eq!(world.marks.status, "executed");
    assert!(world.log.is_empty());
}

#[test]
fn execute_and_undo_map_legacy_virtual_artist_paths() {
    let logical = |folder: &str| folder_db_path("/pictures1/artist", folder);
    let (old, new) = ("/disk/artist/old", "/disk/artist/new");
    let there = move_item_path(
        "/pictures1/artist/old/a.jpg",
        &logical("old"),
        old,
        &logical("new"),
        new,
    );
    assert_eq!(there.as_deref(), Some("/pictures1/artist/new/a.jpg"));
    let back = move_item_path(
        "/pictures1/artist/new/a.jpg",
        &logical("new"),
        new,
        &logical("old"),
        old,
    );
    assert_eq!(back.as_deref(), Some("/pictures1/artist/old/a.jpg"));
    let real = move_item_path(
        "/disk/artist/old/a.jpg",
        &logical("old"),
        old,
        &logical("new"),
        new,
    );
    assert_eq!(real.as_deref(), Some("/disk/artist/new/a.jpg"));

    let mut world = World::new(&["old"], "/artist/old/a.jpg", "confirmed");
    assert_eq!(world.execute("old", "new", false).0.status(), "executed");
    assert_eq!((world.item.as_str(), world.marks.status.as_str()), ("/artist/new/a.jpg", "executed"));
    assert_eq!(world.undo("old", "new"), UndoOutcome::Reverted);
    assert_eq!((world.item.as_str(), world.marks.status.as_str()), ("/artist/old/a.jpg", "reverted"));
    assert_eq!(world.marks.executed_at, None);
    assert_eq!(world.folders.iter().map(String::as_str).collect::<Vec<_>>(), vec!["old"]);
    assert_eq!(world.log.len(), 2);
}

#[test]
fn only_plans_in_their_state_are_marked() {
    let failed = PlanVerdict::Failed(FailureReason::TargetExists);
    let changed = plan_after(&marks("draft"), failed, true, 7);
    assert_eq!((changed.status.as_str(), changed.confirmed_at), ("draft", Some(1)));
    let kept = plan_after(&marks("confirmed"), failed, false, 7);
    assert_eq!((kept.status.as_str(), kept.confirmed_at), ("confirmed", Some(1)));
    let recorded = plan_after(&marks("confirmed"), failed, true, 7);
    assert_eq!((recorded.status.as_str(), recorded.confirmed_at), ("manual_review", None));
    assert_eq!(recorded.confirmation_source, "");
    let mut plan = QueuedPlan { marks: marks("confirmed"), ..queued(1, 1, "", "target") };
    let done = executed_marks(&plan, "source", "target", 7).unwrap();
    assert_eq!((done.status.as_str(), done.executed_at), ("executed", Some(7)));
    assert!(executed_marks(&plan, "source", "other", 7).is_none());
    plan.marks = done;
    assert!(executed_marks(&plan, "source", "target", 7).is_none());
    assert!(reverted_marks(&plan, "source", "target", false).is_none());
    let back = reverted_marks(&plan, "source", "target", true).unwrap();
    assert_eq!((back.status.as_str(), back.executed_at), ("reverted", None));
    let again = undo_after(&marks("reverted"), UndoOutcome::Reverted);
    assert_eq!(again.status, "reverted");
    let kept = undo_after(&marks("executed"), UndoOutcome::ReconciliationNotRecorded);
    assert_eq!((kept.status.as_str(), kept.executed_at), ("executed", Some(2)));
    let plan = QueuedPlan { marks: recorded, ..queued(1, 1, "", "target") };
    let mut plans = vec![plan];
    assert!(due_plans(&plans, 1).is_empty());
    let started = start_auto_run(true, &[1], &mut plans, 9);
    assert!(matches!(started, AutoStart::Run { executable, skipped: 1 } if executable.is_empty()));
    assert_eq!(plans[0].marks.status, "manual_review");
}

#[test]
fn every_item_of_a_folder_moves_and_comes_back() {
    let row = |id: i64, artist_id: i64, path: &str| PathRow {
        id,
        artist_id,
        path: path.to_string(),
    };
    let items = [
        row(1, 1, "/real/artist/old/a.jpg"),
        row(2, 1, "/logical/artist/old/b.jpg"),
        row(3, 1, "/real/artist/older/c.jpg"),
        row(4, 2, "/real/artist/old/d.jpg"),
    ];
    let (ls, rs) = ("/logical/artist/old", "/real/artist/old");
    let (lt, rt) = ("/logical/artist/2026/new", "/real/artist/2026/new");
    let moved = update_folder_item_paths(&items, 1, ls, rs, lt, rt);
    let told: Vec<(i64, &str)> = moved.iter().map(|row| (row.id, row.path.as_str())).collect();
    let expected =
        vec![(1, "/real/artist/2026/new/a.jpg"), (2, "/logical/artist/2026/new/b.jpg")];
    assert_eq!(told, expected);
    let back = update_folder_item_paths(&moved, 1, lt, rt, ls, rs);
    assert_eq!(back.len(), 2);
    assert_eq!(back[0].path, items[0].path);
    assert_eq!(back[1].path, items[1].path);
}

#[test]
fn undo_rollback_failure_moves_plan_to_manual_review() {
    let mut world = World::new(&["renamed"], "/artist/renamed/a.jpg", "executed");
    world.log = execution_log("original", "renamed", "/backup", 1);
    world.update_fails = Some("stale_state");
    world.rollback_fails = true;
    assert_eq!(world.undo("original", "renamed"), UndoOutcome::ReconciliationRequired);
    assert!(world.folders.contains("original"));
    assert!(!world.folders.contains("renamed"));
    assert_eq!(world.marks.status, "manual_review");
    assert_eq!(world.marks.confirmed_at, None);
    assert_eq!(world.marks.confirmation_source, "");
    assert_eq!(world.log.len(), 2);
    assert_eq!(world.log[0].get("status").unwrap().as_text(), Some("executed"));
    let entry = &world.log[1];
    assert_eq!(entry.get("reason").unwrap().as_text(), Some("rollback_failed"));
    assert_eq!(entry.get("operation").unwrap().as_text(), Some("folder_rename_undo"));
    assert!(entry
        .get("rollback_error")
        .unwrap()
        .as_text()
        .unwrap()
        .contains("forced undo rollback failure"));
    assert!(record_undo_reconciliation_failure("draft", vec![], "", "", "", "", "").is_err());
}

#[test]
fn undo_names_every_refusal() {
    let paths = plan_paths("a", "b");
    let fine = UndoFacts {
        plan_found: true,
        artist_known: true,
        artist_is_dir: true,
        artist_authorized: true,
        target_exists: true,
        target_is_dir: true,
        source_exists: false,
        target_inside: true,
        source_parent_inside: true,
    };
    assert_eq!(vet_undo(fine, "executed", &paths), None);
    assert_eq!(vet_undo(fine, "ready", &paths), Some(UndoError::PlanNotExecuted));
    assert_eq!(
        vet_undo(UndoFacts { plan_found: false, ..fine }, "executed", &paths),
        Some(UndoError::PlanNotFound)
    );
    assert_eq!(
        vet_undo(UndoFacts { artist_is_dir: false, ..fine }, "executed", &paths),
        Some(UndoError::ArtistMissing)
    );
    assert_eq!(
        vet_undo(UndoFacts { target_exists: false, ..fine }, "executed", &paths),
        Some(UndoError::TargetMissing)
    );
    assert_eq!(
        vet_undo(UndoFacts { target_is_dir: false, ..fine }, "executed", &paths),
        Some(UndoError::TargetNotDirectory)
    );
    assert_eq!(
        vet_undo(UndoFacts { target_inside: false, ..fine }, "executed", &paths),
        Some(UndoError::OutsideArtist)
    );
}

#[test]
fn rejects_traversal_folder() {
    assert!(validate_relative_folder("../etc").is_err());
    assert!(validate_relative_folder("/abs").is_err());
    assert!(validate_relative_folder("a/../b").is_err());
    assert!(validate_relative_folder("a/./b").is_err());
    assert!(validate_relative_folder("./b").is_err());
    assert_eq!(validate_relative_folder("2024/ok").unwrap(), "2024/ok");
}

#[test]
fn migrates_legacy_auto_setting_to_canonical_key() {
    let setting = folder_rename_auto_enabled(None, Some("1"), false);
    assert!(setting.enabled);
    assert!(setting.migrate);
    assert_eq!(set_folder_rename_auto(setting.enabled), "1");
    let again = folder_rename_auto_enabled(Some("1"), None, false);
    assert!(again.enabled && !again.migrate);
    assert!(!folder_rename_auto_enabled(None, Some("1"), true).migrate);
    assert!(!folder_rename_auto_enabled(None, None, false).enabled);
}

fn queued(id: i64, artist_id: i64, status: &str, target: &str) -> QueuedPlan {
    QueuedPlan {
        id,
        artist_id,
        source_folder: "source".to_string(),
        target_folder: target.to_string(),
        marks: PlanMarks {
            status: status.to_string(),
            confirmed_at: None,
            confirmation_source: String::new(),
            executed_at: None,
        },
    }
}

#[test]
fn execute_does_not_run_unconfirmed_ready_plans() {
    let plans = vec![queued(1, 1, "ready", "target")];
    assert!(due_plans(&plans, 1).is_empty());
    assert_eq!(plans[0].marks.status, "ready");
    let confirmed = vec![
        queued(1, 1, "confirmed", "target"),
        queued(2, 1, "confirmed", ""),
        queued(3, 2, "confirmed", "target"),
    ];
    assert_eq!(due_plans(&confirmed, 1), vec![1]);
}

#[test]
fn auto_archive_returns_disabled_run_counts_without_summary_setting() {
    let mut plans = vec![queued(1, 1, "ready", "target")];
    assert!(matches!(start_auto_run(false, &[1], &mut plans, 5), AutoStart::Disabled));
    let result = idle_answer(IdleReason::Disabled);
    assert_eq!(result.get("status").unwrap().as_text(), Some("disabled"));
    assert_eq!(result.get("scope").unwrap().as_text(), Some("full"));
    for key in ["executed_count", "skipped_count", "failed_count"] {
        assert!(matches!(result.get(key), Some(Json::Number(n)) if n == "0"));
    }
    for key in ["actions", "skipped", "failed", "errors"] {
        assert!(matches!(result.get(key), Some(Json::Array(_))), "missing array: {key}");
    }
    assert!(matches!(start_auto_run(true, &[], &mut plans, 5), AutoStart::NoArtists));
    assert_eq!(plans[0].marks.status, "ready");
}

#[test]
fn auto_archive_does_not_store_one_result_per_artist_without_plans() {
    match start_auto_run(true, &[1, 2], &mut Vec::new(), 5) {
        AutoStart::Run { executable, skipped } => {
            assert!(executable.is_empty());
            let result = auto_answer(&[], skipped, "", 0);
            assert_eq!(result.get("status").unwrap().as_text(), Some("skipped"));
            assert!(matches!(result.get("skipped_count"), Some(Json::Number(n)) if n == "2"));
            assert!(result.get("results").is_none());
            assert!(matches!(result.get("skipped"), Some(Json::Array(list)) if list.len() <= 1));
        }
        other => panic!("{other:?}"),
    }
}

#[test]
fn automatic_runs_confirm_ready_plans_of_present_artists() {
    let mut plans = vec![
        queued(1, 1, "ready", "a"),
        queued(2, 1, "ready", ""),
        queued(3, 1, "draft", "c"),
        queued(4, 9, "ready", "d"),
        queued(5, 2, "manual_review", "e"),
        queued(6, 3, "confirmed", "f"),
    ];
    match start_auto_run(true, &[1, 2, 3], &mut plans, 5) {
        AutoStart::Run { executable, skipped } => {
            assert_eq!(executable, vec![1, 3]);
            assert_eq!(skipped, 1);
        }
        other => panic!("{other:?}"),
    }
    let statuses: Vec<&str> = plans.iter().map(|plan| plan.marks.status.as_str()).collect();
    assert_eq!(
        statuses,
        vec!["confirmed", "ready", "draft", "ready", "manual_review", "confirmed"]
    );
}

#[test]
fn auto_archive_backup_failure_moves_confirmed_plans_to_manual_review() {
    let mut plans = vec![queued(1, 1, "ready", "target"), queued(2, 9, "confirmed", "target")];
    let (executable, skipped) = match start_auto_run(true, &[1], &mut plans, 5) {
        AutoStart::Run { executable, skipped } => (executable, skipped),
        other => panic!("{other:?}"),
    };
    assert_eq!(plans[0].marks.confirmation_source, "auto");
    let (run, action) =
        run_folder_rename_auto_after_full_scan(start_run(executable), AutoEvent::Begin);
    assert_eq!(action, AutoAction::TakeBackup);
    let (run, action) = run_folder_rename_auto_after_full_scan(run, AutoEvent::BackedUp(false));
    assert_eq!(action, AutoAction::RefuseAll);
    let rows = refuse_run(&mut plans, &run.executable, "not a directory");
    let result = refused_run_answer(skipped, rows);

    assert_eq!(result.get("status").unwrap().as_text(), Some("failed"));
    assert!(matches!(result.get("failed_count"), Some(Json::Number(n)) if n == "1"));
    for key in ["failed", "errors"] {
        match result.get(key) {
            Some(Json::Array(failed)) => {
                assert_eq!(failed.len(), 1);
                assert_eq!(failed[0].get("reason").unwrap().as_text(), Some("backup_failed"));
                assert_eq!(failed[0].get("source").unwrap().as_text(), Some("source"));
                assert_eq!(failed[0].get("error").unwrap().as_text(), Some("not a directory"));
            }
            other => panic!("{other:?}"),
        }
    }
    assert_eq!(plans[0].marks.status, "manual_review");
    assert_eq!(plans[0].marks.confirmed_at, None);
    assert_eq!(plans[0].marks.confirmation_source, "");
    assert_eq!(plans[1].marks.status, "confirmed");
}

#[test]
fn auto_runs_are_summed_up() {
    assert_eq!(status_of(1, 2, 3), AutoStatus::Partial);
    assert_eq!(status_of(0, 2, 3), AutoStatus::Failed);
    assert_eq!(status_of(1, 0, 3), AutoStatus::Executed);
    assert_eq!(status_of(0, 0, 3).name(), "skipped");
    assert_eq!(status_of(0, 0, 0), AutoStatus::NoActions);
}

#[test]
fn backup_pruning_never_removes_active_temporary_directories() {
    let entry = |name: &str| BackupEntry { name: name.to_string(), real_directory: true };
    let entries = [entry(".20260813-000000.tmp-active"), entry("20260812-000000")];
    assert_eq!(prune_backup_root(&entries, 1), Vec::<String>::new());
    let more = [entry("20260814-000000"), entry("20260812-000000"), entry("20260813-000000")];
    assert_eq!(prune_backup_root(&more, 1), vec!["20260812-000000", "20260813-000000"]);
    assert_eq!(backup_retention(None), 8);
    assert_eq!(backup_retention(Some("0")), 1);
    assert_eq!(backup_retention(Some(" 3 ")), 3);
    assert_eq!(backup_dir_name("20260812-000000", 0), "20260812-000000");
    assert_eq!(backup_dir_name("20260812-000000", 2), "20260812-000000-2");
    assert_eq!(backup_temp_name("20260812-000000", 1, 77), ".20260812-000000-1.tmp-77-1");
}

#[test]
fn target_parent_rejects_symlink_escape() {
    let probes = [
        AncestorProbe { exists: false, accepted: false },
        AncestorProbe { exists: true, accepted: false },
        AncestorProbe { exists: true, accepted: true },
    ];
    assert!(!target_parent_under_artist(&probes));
    assert!(target_parent_under_artist(&probes[2..]));
    assert!(!path_under_artist("/a/escape", Some("/outside"), "/a", Some("/a")));
    assert!(path_under_artist("/a/in", Some("/a/in"), "/a", None));
    assert!(!path_under_artist("/ab", None, "/a", None));
}

#[test]
fn roots_and_parents_are_found_by_component() {
    let roots = vec![Some("/m".to_string()), Some("/m/deep".to_string()), None];
    assert_eq!(
        authorized_root_relative("/m/deep/a/b", &roots),
        Some((1, "a/b".to_string()))
    );
    assert_eq!(authorized_root_relative("/m", &roots), None);
    assert_eq!(authorized_root_relative("/m/../x", &roots), None);
    assert_eq!(authorized_root_relative("/mm/x", &roots), None);
    let steps = ensure_target_parent_under_artist("/a/2026/x", "/a").unwrap();
    assert_eq!(steps.folders, vec!["/a/2026", "/a/2026/x"]);
    assert!(!steps.goes_up);
    let up = ensure_target_parent_under_artist("/a/2026/../x", "/a").unwrap();
    assert_eq!(up.folders, vec!["/a/2026"]);
    assert!(up.goes_up);
    assert!(ensure_target_parent_under_artist("/b", "/a").is_none());
}

#[test]
fn refused_plans_have_messages() {
    assert_eq!(
        UpsertError::SourceRequired.message(3),
        "invalid folder rename plan: source_folder is required"
    );
    assert_eq!(
        UpsertError::TagNotOwned(9).message(3),
        "invalid folder rename plan: tag 9 does not belong to artist 3"
    );
}
