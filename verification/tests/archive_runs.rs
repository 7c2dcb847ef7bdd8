//! Runs of the folder archive, on a disk that lives in memory.

use std::collections::BTreeMap;

use gallery_accel::archive_runs::{
    artist_failure, auto_answer, batch_answer, create_db_backup,
    execute_folder_renames_with_backup, idle_answer, list_folder_renames, refusal_row, result_row,
    run_folder_rename_auto_after_full_scan, start_batch, start_run, AutoAction, AutoEvent,
    AutoStage, BackupAction, BackupEvent, BackupStage, BatchAction, BatchEvent, BatchStage,
    IdleReason,
};
use gallery_accel::calendar::CalendarDate;
use gallery_accel::folder_archive::{
    backup_dir_name, backup_label, backup_temp_name, ArtistOutcome, FailureReason, Moment,
    PlanAction, PlanEvent, PlanResult, PlanVerdict,
};
use gallery_accel::json::Json;

/// Runs a batch in which every plan is answered by its own list of events.
fn run_batch(
    dry_run: bool,
    has_backup: bool,
    backup_works: bool,
    plans: &[Vec<PlanEvent>],
) -> (Vec<PlanVerdict>, Vec<BatchAction>) {
    let mut batch = start_batch(dry_run, plans.len(), has_backup);
    let mut event = BatchEvent::Begin { authorized: true };
    let mut answers = Vec::new();
    let mut actions = Vec::new();
    loop {
        let (next, action) = execute_folder_renames_with_backup(batch, event);
        batch = next;
        actions.push(action);
        event = match action {
            BatchAction::TakeBackup => BatchEvent::BackedUp(backup_works),
            BatchAction::Look { plan } => {
                answers = plans[plan].clone();
                BatchEvent::Plan(answers.remove(0))
            }
            BatchAction::Perform { .. } => BatchEvent::Plan(answers.remove(0)),
            BatchAction::Settle { .. } => BatchEvent::Settled,
            BatchAction::RefuseAll { .. } | BatchAction::Finish | BatchAction::Ignore => break,
        };
    }
    assert_eq!(batch.stage, BatchStage::Ended);
    (batch.verdicts, actions)
}

fn good_plan() -> Vec<PlanEvent> {
    vec![PlanEvent::Checked(None), PlanEvent::Renamed(true), PlanEvent::Updated]
}

#[test]
fn plans_are_carried_out_behind_a_backup() {
    let bad = vec![PlanEvent::Checked(Some(FailureReason::SourceMissing))];
    let (verdicts, actions) = run_batch(false, false, true, &[good_plan(), bad, good_plan()]);
    let missing = PlanVerdict::Failed(FailureReason::SourceMissing);
    assert_eq!(verdicts, vec![PlanVerdict::Executed, missing, PlanVerdict::Executed]);
    assert_eq!(actions[0], BatchAction::TakeBackup);
    assert_eq!(actions[1], BatchAction::Look { plan: 0 });
    assert_eq!(actions[2], BatchAction::Perform { plan: 0, action: PlanAction::Rename });
    assert_eq!(actions[3], BatchAction::Perform { plan: 0, action: PlanAction::UpdateDatabase });
    let executed = BatchAction::Settle { plan: 0, verdict: PlanVerdict::Executed, record: false };
    assert_eq!(actions[4], executed);
    assert_eq!(actions[6], BatchAction::Settle { plan: 1, verdict: missing, record: true });
    assert_eq!(*actions.last().unwrap(), BatchAction::Finish);
}

#[test]
fn a_given_backup_is_enough() {
    let (verdicts, actions) = run_batch(false, true, false, &[good_plan()]);
    assert_eq!(verdicts, vec![PlanVerdict::Executed]);
    assert!(!actions.contains(&BatchAction::TakeBackup));
    let (verdicts, actions) = run_batch(false, false, false, &[]);
    assert!(verdicts.is_empty());
    assert_eq!(actions, vec![BatchAction::Finish]);
}

#[test]
fn a_failed_backup_refuses_every_plan() {
    let (verdicts, actions) = run_batch(false, false, false, &[good_plan(), good_plan()]);
    let reason = FailureReason::BackupFailed;
    assert_eq!(verdicts, vec![PlanVerdict::Failed(reason); 2]);
    assert_eq!(
        actions,
        vec![BatchAction::TakeBackup, BatchAction::RefuseAll { reason, record: true }]
    );
}

#[test]
fn dry_runs_change_nothing() {
    let look = vec![PlanEvent::Checked(None)];
    let taken = vec![PlanEvent::Checked(Some(FailureReason::TargetExists))];
    let (verdicts, actions) = run_batch(true, false, false, &[look, taken]);
    let occupied = PlanVerdict::Failed(FailureReason::TargetExists);
    assert_eq!(verdicts, vec![PlanVerdict::DryRun, occupied]);
    assert!(actions.iter().all(|action| !matches!(
        action,
        BatchAction::Perform { .. } | BatchAction::TakeBackup
    )));
    assert!(actions.contains(&BatchAction::Settle { plan: 1, verdict: occupied, record: false }));
}

#[test]
fn events_that_do_not_belong_are_ignored() {
    let batch = start_batch(false, 1, true);
    let (batch, action) = execute_folder_renames_with_backup(batch, BatchEvent::Settled);
    assert_eq!(action, BatchAction::Ignore);
    assert_eq!(batch.stage, BatchStage::Begin);
    let begun = BatchEvent::Begin { authorized: true };
    let (batch, _) = execute_folder_renames_with_backup(batch, begun);
    let early = BatchEvent::Plan(PlanEvent::Updated);
    let (batch, action) = execute_folder_renames_with_backup(batch, early);
    assert_eq!(action, BatchAction::Ignore);
    assert!(batch.verdicts.is_empty());
}

fn result(plan_id: i64, verdict: PlanVerdict) -> PlanResult {
    PlanResult { verdict, row: result_row(plan_id, verdict, "s", "t", "locked", "busy") }
}

fn list<'a>(answer: &'a Json, key: &str) -> &'a [Json] {
    match answer.get(key) {
        Some(Json::Array(list)) => list,
        other => panic!("{other:?}"),
    }
}

#[test]
fn automatic_runs_take_one_artist_after_the_other() {
    let (run, action) =
        run_folder_rename_auto_after_full_scan(start_run(vec![4, 9]), AutoEvent::Begin);
    assert_eq!(action, AutoAction::TakeBackup);
    let (run, action) = run_folder_rename_auto_after_full_scan(run, AutoEvent::BackedUp(true));
    assert_eq!(action, AutoAction::Run { artist: 4 });
    let failed = AutoEvent::Artist(ArtistOutcome::Error(artist_failure(4, 0, "gone")));
    let (run, action) = run_folder_rename_auto_after_full_scan(run, failed);
    assert_eq!(action, AutoAction::Run { artist: 9 });
    let done = AutoEvent::Artist(ArtistOutcome::Plans(vec![result(7, PlanVerdict::Executed)]));
    let (run, action) = run_folder_rename_auto_after_full_scan(run, done);
    assert_eq!(action, AutoAction::Finish);
    assert_eq!(run.outcomes.len(), 2);
    assert!(matches!(run.outcomes[0], ArtistOutcome::Error(_)));
}

#[test]
fn automatic_runs_without_a_backup_run_nobody() {
    let (run, _) = run_folder_rename_auto_after_full_scan(start_run(vec![4]), AutoEvent::Begin);
    let (run, action) = run_folder_rename_auto_after_full_scan(run, AutoEvent::BackedUp(false));
    assert_eq!(action, AutoAction::RefuseAll);
    assert!(run.outcomes.is_empty());
    let (run, action) =
        run_folder_rename_auto_after_full_scan(start_run(Vec::new()), AutoEvent::Begin);
    assert_eq!((run.stage, action), (AutoStage::Ended, AutoAction::Finish));
}

fn number_in<'a>(answer: &'a Json, key: &str) -> &'a str {
    match answer.get(key) {
        Some(Json::Number(digits)) => digits,
        other => panic!("{other:?}"),
    }
}

#[test]
fn automatic_runs_are_answered() {
    let outcomes = [
        ArtistOutcome::Plans(vec![
            result(7, PlanVerdict::Failed(FailureReason::TargetExists)),
            result(8, PlanVerdict::Executed),
        ]),
        ArtistOutcome::Error(artist_failure(9, 2, "gone")),
    ];
    let answer = auto_answer(&outcomes, 12, "/backup", 3);
    assert_eq!(answer.get("status").unwrap().as_text(), Some("partial"));
    assert_eq!(answer.get("scope").unwrap().as_text(), Some("full"));
    assert!(matches!(answer.get("artist_id"), Some(Json::Null)));
    assert_eq!(number_in(&answer, "executed_count"), "1");
    assert_eq!(number_in(&answer, "failed_count"), "2");
    assert_eq!(number_in(&answer, "auto_named"), "3");
    assert_eq!(answer.get("backup").unwrap().as_text(), Some("/backup"));
    let actions = list(&answer, "actions");
    assert_eq!(actions.len(), 1);
    assert!(matches!(actions[0].get("plan_id"), Some(Json::Int(8))));
    assert_eq!(actions[0].get("status").unwrap().as_text(), Some("executed"));
    for key in ["failed", "errors"] {
        let rows = list(&answer, key);
        assert_eq!(rows.len(), 2);
        assert!(matches!(rows[0].get("plan_id"), Some(Json::Int(7))));
        assert_eq!(rows[0].get("reason").unwrap().as_text(), Some("target_exists"));
        assert!(matches!(rows[1].get("artist_id"), Some(Json::Int(9))));
        assert_eq!(rows[1].get("error").unwrap().as_text(), Some("gone"));
    }
    assert_eq!(number_in(&answer, "skipped_count"), "12");
    match answer.get("skipped") {
        Some(Json::Array(skipped)) => {
            assert_eq!(skipped.len(), 1);
            assert_eq!(skipped[0].get("reason").unwrap().as_text(), Some("no_confirmed_plans"));
            assert_eq!(number_in(&skipped[0], "count"), "12");
        }
        other => panic!("{other:?}"),
    }
    assert!(answer.get("reason").is_none());
    let idle = auto_answer(&[], 0, "", 0);
    assert_eq!(idle.get("status").unwrap().as_text(), Some("no_actions"));
    let passed = auto_answer(&[], 2, "", 0);
    assert_eq!(passed.get("status").unwrap().as_text(), Some("skipped"));
    let done = [ArtistOutcome::Plans(vec![result(1, PlanVerdict::Executed)])];
    let executed = auto_answer(&done, 0, "", 0);
    assert_eq!(executed.get("status").unwrap().as_text(), Some("executed"));

    let off = idle_answer(IdleReason::Disabled);
    assert_eq!(off.get("status").unwrap().as_text(), Some("disabled"));
    assert_eq!(off.get("reason").unwrap().as_text(), Some("disabled"));
    assert!(matches!(off.get("skipped"), Some(Json::Array(list)) if list.is_empty()));
    let nobody = idle_answer(IdleReason::NoArtists);
    assert_eq!(nobody.get("status").unwrap().as_text(), Some("no_actions"));
    assert_eq!(nobody.get("reason").unwrap().as_text(), Some("no_artists"));
}

/// The folder of the backups: their names and contents. A hidden one has none yet.
#[derive(Default)]
struct Backups {
    names: BTreeMap<String, Vec<&'static str>>,
    database: Vec<&'static str>,
    copy_fails: Option<BackupEvent>,
    taken_meanwhile: Option<usize>,
}

impl Backups {
    fn made(&mut self, label: &str) -> Option<String> {
        let mut hidden = String::new();
        let mut whole = false;
        let (mut stage, mut action) = create_db_backup(BackupStage::Begin, BackupEvent::Begin);
        loop {
            let event = match action {
                BackupAction::Look { index } => {
                    BackupEvent::Taken(self.names.contains_key(&backup_dir_name(label, index)))
                }
                BackupAction::Reserve { index } => {
                    hidden = backup_temp_name(label, index, 7);
                    if self.names.insert(hidden.clone(), Vec::new()).is_none() {
                        BackupEvent::Done
                    } else {
                        BackupEvent::Occupied
                    }
                }
                BackupAction::Copy => {
                    if let Some(index) = self.taken_meanwhile {
                        self.names.insert(backup_dir_name(label, index), Vec::new());
                    }
                    whole = self.copy_fails.is_none();
                    self.names.insert(hidden.clone(), self.database.clone());
                    self.copy_fails.unwrap_or(BackupEvent::Done)
                }
                BackupAction::Publish { index } => {
                    assert!(whole);
                    if self.names.contains_key(&backup_dir_name(label, index)) {
                        BackupEvent::Occupied
                    } else {
                        let copy = self.names.remove(&hidden).unwrap();
                        self.names.insert(backup_dir_name(label, index), copy);
                        BackupEvent::Done
                    }
                }
                BackupAction::Discard => {
                    self.names.remove(&hidden);
                    BackupEvent::Done
                }
                BackupAction::Prune => BackupEvent::Done,
                BackupAction::Finish(index) => {
                    return index.map(|index| backup_dir_name(label, index));
                }
                BackupAction::Ignore => unreachable!(),
            };
            (stage, action) = create_db_backup(stage, event);
        }
    }
}

#[test]
fn backups_are_unique_and_publish_only_complete_directories() {
    let mut backups = Backups::default();
    backups.database.push("one");
    let first = backups.made("20260813-000000").unwrap();
    backups.database.push("two");
    let second = backups.made("20260813-000000").unwrap();
    assert_ne!(first, second);
    assert_eq!(backups.names[&first], vec!["one"]);
    assert_eq!(backups.names[&second], vec!["one", "two"]);
    assert!(!backups.names.keys().any(|name| name.starts_with('.')));
}

#[test]
fn failed_backups_leave_nothing_behind() {
    for failure in [BackupEvent::Failed, BackupEvent::Occupied] {
        let mut backups = Backups { copy_fails: Some(failure), ..Backups::default() };
        assert_eq!(backups.made("20260813-000000"), None);
        assert!(backups.names.is_empty());
    }
}

#[test]
fn failures_behind_the_copy_end_a_backup() {
    for failure in [BackupEvent::Failed, BackupEvent::Occupied] {
        assert_eq!(
            create_db_backup(BackupStage::Pruning { index: 3 }, failure).1,
            BackupAction::Finish(Some(3))
        );
        assert_eq!(
            create_db_backup(BackupStage::Discarding, failure).1,
            BackupAction::Finish(None)
        );
    }
}

#[test]
fn labels_name_the_moment() {
    let date = CalendarDate { year: 2026, month: 8, day: 3 };
    let label = backup_label(Moment { date, hour: 4, minute: 5, second: 16 });
    assert_eq!(label, "20260803-040516");
}

#[test]
fn backups_take_no_name_that_appeared() {
    let mut backups = Backups { taken_meanwhile: Some(0), ..Backups::default() };
    assert_eq!(backups.made("20260813-000000").as_deref(), Some("20260813-000000-1"));
    assert_eq!(backups.names.len(), 2);
}

#[test]
fn results_say_what_went_wrong() {
    let row = |reason| result(5, PlanVerdict::Failed(reason)).row;
    let taken = row(FailureReason::TargetExists);
    assert!(matches!(taken.get("plan_id"), Some(Json::Int(5))));
    assert_eq!(taken.get("status").unwrap().as_text(), Some("error"));
    assert_eq!(taken.get("reason").unwrap().as_text(), Some("target_exists"));
    assert!(taken.get("error").is_none() && taken.get("source").is_none());
    let stale = row(FailureReason::StaleState);
    assert_eq!(stale.get("error").unwrap().as_text(), Some("locked"));
    let stuck = row(FailureReason::RollbackFailed);
    let both = stuck.get("error").unwrap();
    assert_eq!(both.get("error").unwrap().as_text(), Some("locked"));
    assert_eq!(both.get("rollback_error").unwrap().as_text(), Some("busy"));
    let done = result(5, PlanVerdict::DryRun).row;
    assert_eq!(done.get("status").unwrap().as_text(), Some("dry_run"));
    assert_eq!(done.get("target").unwrap().as_text(), Some("t"));
    let refused = refusal_row(Some(3), 5, FailureReason::BackupFailed, "s", "t", Some("full"));
    assert!(matches!(refused.get("artist_id"), Some(Json::Int(3))));
    assert_eq!(refused.get("error").unwrap().as_text(), Some("full"));
}

#[test]
fn batches_are_answered() {
    let begun = BatchEvent::Begin { authorized: true };
    let (batch, _) = execute_folder_renames_with_backup(start_batch(true, 0, false), begun);
    let answer = batch_answer(&batch, "/backup", vec![Json::Int(1)]);
    assert!(matches!(answer.get("ok"), Some(Json::Bool(true))));
    assert!(matches!(answer.get("dry_run"), Some(Json::Bool(true))));
    assert_eq!(answer.get("backup").unwrap().as_text(), Some("/backup"));
    assert_eq!(list(&answer, "results").len(), 1);
    let outside = BatchEvent::Begin { authorized: false };
    let (batch, _) = execute_folder_renames_with_backup(start_batch(false, 0, true), outside);
    let answer = batch_answer(&batch, "/backup", Vec::new());
    assert!(matches!(answer.get("ok"), Some(Json::Bool(false))));
    assert_eq!(answer.get("backup").unwrap().as_text(), Some(""));
}

#[test]
fn the_last_plans_are_listed_first() {
    let plans = [(1, 4), (2, 9), (3, 4)];
    assert_eq!(list_folder_renames(&plans, None), vec![2, 1, 0]);
    assert_eq!(list_folder_renames(&plans, Some(4)), vec![2, 0]);
    assert!(list_folder_renames(&plans, Some(5)).is_empty());
    let many: Vec<(i64, i64)> = (0..600).map(|id| (id, 4)).collect();
    let all = list_folder_renames(&many, None);
    assert_eq!((all.len(), all[0], all[499]), (500, 599, 100));
    assert_eq!(list_folder_renames(&many, Some(4)).len(), 600);
}
