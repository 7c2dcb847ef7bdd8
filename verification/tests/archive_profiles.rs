//! Naming plans by profiles.

use std::collections::BTreeMap;

use gallery_accel::archive_format::{normalize_settings, Settings};
use gallery_accel::archive_profiles::{
    apply_folder_rename_template, auto_name_artist_draft_plans, choose_profile,
    folder_rename_format_settings, load, set_folder_rename_format_settings,
    preview_folder_rename_template, suffixed_target, target_key, Application, ConflictCode,
    PathFacts, PathState, PlanInput, Progress, TemplatePreview,
};
use gallery_accel::archive_runs::{
    auto_answer, execute_folder_renames_with_backup, result_row, start_batch, BatchAction,
    BatchEvent,
};
use gallery_accel::folder_archive::{
    due_plans, start_auto_run, validate_relative_folder, ArtistOutcome, AutoStart, PlanEvent,
    PlanResult, PlanVerdict, QueuedPlan,
};
use gallery_accel::json::Json;
use gallery_accel::plan_rows::{plan_after, PlanMarks};
use gallery_accel::preview_answers::{applied_answer, preview_answer, snapshot_document};

fn text(s: &str) -> Json {
    Json::Text(s.to_string())
}

fn object(members: Vec<(&str, Json)>) -> Json {
    Json::Object(members.into_iter().map(|(k, v)| (k.to_string(), v)).collect())
}

fn settings(strategy: &str) -> Settings {
    normalize_settings(&object(vec![
        ("version", Json::Int(1)),
        ("active_profile_id", text("flat")),
        (
            "profiles",
            Json::Array(vec![object(vec![
                ("id", text("flat")),
                ("name", text("Flat")),
                ("template", text("{title}")),
                ("collision_strategy", text(strategy)),
            ])]),
        ),
        ("artist_profile_ids", object(vec![])),
    ]))
    .unwrap()
}

fn plan(id: i64, source: &str, status: &str) -> PlanInput {
    PlanInput {
        id,
        source_folder: source.to_string(),
        title: "taken".to_string(),
        date: "2026-01-01".to_string(),
        folder_date: String::new(),
        artist: "A".to_string(),
        selected_tags: vec![],
        item_tags: vec![],
        status: status.to_string(),
    }
}

/// The folders of an artist: `true` for a folder, `false` for a file.
fn folders(names: &[(&str, bool)]) -> BTreeMap<String, bool> {
    names.iter().map(|(n, d)| (n.to_string(), *d)).collect()
}

fn preview(
    tree: &BTreeMap<String, bool>,
    settings: &Settings,
    plans: &[PlanInput],
) -> Result<TemplatePreview, String> {
    let chosen = choose_profile(settings, 1, Some("flat"), None)?;
    let mut facts = PathFacts { known: vec![] };
    loop {
        match preview_folder_rename_template(&facts, &chosen, plans, None) {
            Progress::Done(p) => return Ok(p),
            Progress::Failed(e) => return Err(e),
            Progress::Need(folder) => {
                let state = match validate_relative_folder(&folder) {
                    Err(e) => PathState::Refused(e),
                    Ok(_) => PathState::Inside {
                        exists: tree.contains_key(&folder),
                        is_dir: tree.get(&folder) == Some(&true),
                    },
                };
                facts.known.push((folder, state));
            }
        }
    }
}

#[test]
fn preview_reports_real_target_conflicts_and_apply_stays_pending() {
    let tree = folders(&[("old", true), ("taken", true)]);
    let plans = [plan(1, "old", "draft")];
    let preview = preview(&tree, &settings("reject"), &plans).unwrap();
    assert_eq!(preview.can_apply, false);
    assert_eq!(preview.plans[0].conflicts[0], ConflictCode::TargetExists);
    let shown = preview_answer(1, &plans, &preview);
    assert!(matches!(shown.get("can_apply"), Some(Json::Bool(false))));
    assert_eq!(list(&shown, "conflicts")[0].get("code").unwrap().as_text(), Some("target_exists"));
    let application = apply_folder_rename_template(&preview);
    assert!(matches!(application, Application::Blocked));
    let applied = applied_answer(1, &plans, &preview, &application);
    assert!(matches!(applied.get("applied"), Some(Json::Number(n)) if n == "0"));
    assert!(matches!(applied.get("ok"), Some(Json::Bool(false))));
    assert_eq!(list(&applied, "conflicts").len(), 1);
}

fn list<'a>(answer: &'a Json, key: &str) -> &'a [Json] {
    match answer.get(key) {
        Some(Json::Array(rows)) => rows,
        other => panic!("{other:?}"),
    }
}

#[test]
fn previews_are_told_plan_by_plan() {
    let tree = folders(&[("old", true), ("taken", true)]);
    let mut first = plan(1, "old", "draft");
    first.title = "free".to_string();
    first.selected_tags = vec![String::new(), "miku".to_string()];
    let plans = [first, plan(2, "gone", "inconsistent_tags")];
    let shown = preview(&tree, &settings("reject"), &plans).unwrap();
    let answer = preview_answer(7, &plans, &shown);
    assert!(matches!(answer.get("ok"), Some(Json::Bool(false))));
    assert!(matches!(answer.get("artist_id"), Some(Json::Int(7))));
    assert_eq!(answer.get("format_source").unwrap().as_text(), Some("profile:flat"));
    assert_eq!(answer.get("profile").unwrap().get("id").unwrap().as_text(), Some("flat"));
    let rows = list(&answer, "plans");
    assert_eq!(rows[0].get("source_folder").unwrap().as_text(), Some("old"));
    assert_eq!(rows[0].get("target_folder").unwrap().as_text(), Some("free"));
    assert_eq!(rows[0].get("status").unwrap().as_text(), Some("draft"));
    assert!(matches!(rows[0].get("will_apply"), Some(Json::Bool(true))));
    assert!(matches!(rows[0].get("can_apply"), Some(Json::Bool(false))));
    assert!(list(&rows[0], "conflicts").is_empty());
    let tokens = rows[0].get("tokens").unwrap();
    assert_eq!(tokens.get("title").unwrap().as_text(), Some("free"));
    let tags: Vec<Option<&str>> = list(tokens, "tag_values").iter().map(Json::as_text).collect();
    assert_eq!(tags, vec![Some("miku")]);
    assert!(matches!(rows[1].get("will_apply"), Some(Json::Bool(false))));
    let told: Vec<(&str, Option<&str>, Option<&str>)> = list(&rows[1], "conflicts")
        .iter()
        .map(|row| {
            let text = |key: &str| row.get(key).and_then(Json::as_text);
            (text("code").unwrap(), text("source_folder"), text("target_folder"))
        })
        .collect();
    assert_eq!(
        told,
        vec![
            ("inconsistent_tags", Some("gone"), None),
            ("source_missing", Some("gone"), None),
            ("target_exists", None, Some("taken")),
        ]
    );
    let all = list(&answer, "conflicts");
    assert_eq!(all.len(), 3);
    assert!(all.iter().all(|row| matches!(row.get("plan_id"), Some(Json::Int(2)))));
    let detail = all[2].get("detail").unwrap();
    assert_eq!(detail.get("target_folder").unwrap().as_text(), Some("taken"));
}

#[test]
fn suffix_strategy_numbers_existing_and_batch_targets() {
    let tree = folders(&[("old", true), ("taken", true), ("other", true)]);
    let plans = [plan(1, "old", "draft"), plan(2, "other", "draft")];
    let preview = preview(&tree, &settings("suffix"), &plans).unwrap();
    assert_eq!(preview.can_apply, true);
    assert_eq!(preview.plans[0].target_folder, "taken (2)");
    assert_eq!(preview.plans[1].target_folder, "taken (3)");
    let application = apply_folder_rename_template(&preview);
    let applied = applied_answer(1, &plans, &preview, &application);
    assert!(matches!(applied.get("updated"), Some(Json::Number(n)) if n == "2"));
    assert!(matches!(applied.get("skipped"), Some(Json::Number(n)) if n == "0"));
    assert!(matches!(applied.get("preview").unwrap().get("ok"), Some(Json::Bool(true))));
    match application {
        Application::Changes { changes, skipped, snapshot } => {
            let stored = snapshot_document(&snapshot);
            assert!(matches!(stored.get("version"), Some(Json::Int(1))));
            assert_eq!(stored.get("profile_source").unwrap().as_text(), Some("profile:flat"));
            assert_eq!(changes.len(), 2);
            assert_eq!(changes[1].id, 2);
            assert_eq!(changes[1].target_folder, "taken (3)");
            assert_eq!(skipped, 0);
            assert_eq!(snapshot.profile_id, "flat");
        }
        Application::Blocked => panic!("must apply"),
    }
}

#[test]
fn merge_strategy_allows_existing_directory_and_duplicate_targets() {
    let mut tree = folders(&[("old", true), ("taken", true), ("other", true)]);
    let plans = [plan(1, "old", "draft"), plan(2, "other", "draft"), plan(3, "taken", "draft")];
    let shown = preview(&tree, &settings("merge"), &plans).unwrap();
    assert_eq!(shown.can_apply, true);
    assert_eq!(shown.plans[0].target_folder, "taken");
    assert_eq!(shown.plans[1].target_folder, "taken");
    assert_eq!(shown.plans[2].target_folder, "taken");
    match apply_folder_rename_template(&shown) {
        Application::Changes { changes, .. } => assert_eq!(changes.len(), 3),
        Application::Blocked => panic!("must apply"),
    }

    tree.insert("taken".to_string(), false);
    let shown = preview(&tree, &settings("merge"), &plans).unwrap();
    assert_eq!(shown.can_apply, false);
    assert!(shown.plans.iter().any(|p| p.conflicts.contains(&ConflictCode::TargetExists)));
}

#[test]
fn preview_rejects_unsafe_plan_folder_without_updating_plans() {
    let tree = folders(&[("old", true), ("taken", true)]);
    assert!(preview(&tree, &settings("suffix"), &[plan(1, "../outside", "draft")]).is_err());
}

#[test]
fn preview_reports_inconsistent_tags_conflict() {
    let tree = folders(&[("old", true), ("taken", true)]);
    let preview =
        preview(&tree, &settings("reject"), &[plan(1, "old", "inconsistent_tags")]).unwrap();
    assert_eq!(preview.can_apply, false);
    assert!(preview.plans[0].conflicts.contains(&ConflictCode::InconsistentTags));
}

#[test]
fn settled_plans_are_left_alone() {
    let tree = folders(&[("old", true), ("other", true)]);
    let plans = [plan(1, "old", "confirmed"), plan(2, "other", "draft")];
    let shown = preview(&tree, &settings("suffix"), &plans).unwrap();
    match apply_folder_rename_template(&shown) {
        Application::Changes { changes, skipped, .. } => {
            assert_eq!(changes.len(), 1);
            assert_eq!(changes[0].id, 2);
            assert_eq!(skipped, 1);
        }
        Application::Blocked => panic!("must apply"),
    }
}

#[test]
fn drafts_are_named_where_nothing_stands_in_the_way() {
    let tree = folders(&[("old", true)]);
    let shown = preview(&tree, &settings("reject"), &[plan(1, "old", "draft")]).unwrap();
    let changes = auto_name_artist_draft_plans(&shown, &[1]);
    assert_eq!(changes.len(), 1);
    assert_eq!(changes[0].target_folder, "taken");
    assert_eq!(changes[0].status, "ready");
    assert!(auto_name_artist_draft_plans(&shown, &[2]).is_empty());
    let blocked = preview(&folders(&[]), &settings("reject"), &[plan(1, "old", "draft")]).unwrap();
    assert!(blocked.plans[0].conflicts.contains(&ConflictCode::SourceMissing));
    assert_eq!(auto_name_artist_draft_plans(&blocked, &[1]).len(), 0);
}

#[test]
fn targets_get_numbers() {
    assert_eq!(suffixed_target("a/b", 2), "a/b (2)");
    assert_eq!(target_key("A/É"), "a/É");
    assert!(choose_profile(&settings("reject"), 1, Some("gone"), None).is_err());
    let own = choose_profile(&settings("reject"), 1, None, Some("{folder}")).unwrap();
    assert_eq!(own.profile.template, "{folder}");
}

fn dated_settings(strategy: &str) -> Settings {
    normalize_settings(&object(vec![
        ("version", Json::Int(1)),
        ("active_profile_id", text("flat")),
        (
            "profiles",
            Json::Array(vec![object(vec![
                ("id", text("flat")),
                ("name", text("Standard")),
                ("template", text("{year}/{date}-{tags}")),
                ("collision_strategy", text(strategy)),
            ])]),
        ),
        ("artist_profile_ids", object(vec![])),
    ]))
    .unwrap()
}

fn dated_plan() -> PlanInput {
    PlanInput {
        id: 1,
        source_folder: "2026-01-05 测试".to_string(),
        title: "2026-01-05 测试".to_string(),
        date: "2026-01-05".to_string(),
        folder_date: String::new(),
        artist: "a".to_string(),
        selected_tags: vec!["测试".to_string()],
        item_tags: vec![],
        status: "draft".to_string(),
    }
}

#[test]
fn auto_archive_generates_target_for_draft_plan_and_executes() {
    let tree = folders(&[("2026-01-05 测试", true)]);
    let shown = preview(&tree, &dated_settings("suffix"), &[dated_plan()]).unwrap();
    let named = auto_name_artist_draft_plans(&shown, &[1]);
    assert_eq!(named.len(), 1);
    assert!(named[0].target_folder.ends_with("2026-01-05-测试"), "{}", named[0].target_folder);
    assert_eq!(named[0].target_folder, "2026/2026-01-05-测试");
    assert_eq!(named[0].status, "ready");

    let mut plans = vec![QueuedPlan {
        id: named[0].id,
        artist_id: 1,
        source_folder: "2026-01-05 测试".to_string(),
        target_folder: named[0].target_folder.clone(),
        marks: PlanMarks {
            status: named[0].status.to_string(),
            confirmed_at: None,
            confirmation_source: String::new(),
            executed_at: None,
        },
    }];
    let skipped = match start_auto_run(true, &[1], &mut plans, 40) {
        AutoStart::Run { executable, skipped } => {
            assert_eq!(executable, vec![1]);
            skipped
        }
        other => panic!("{other:?}"),
    };
    let events = [
        BatchEvent::Begin { authorized: true },
        BatchEvent::Plan(PlanEvent::Checked(None)),
        BatchEvent::Plan(PlanEvent::Renamed(true)),
        BatchEvent::Plan(PlanEvent::Updated),
    ];
    let mut batch = start_batch(false, due_plans(&plans, 1).len(), true);
    let mut last = BatchAction::Ignore;
    for event in events {
        (batch, last) = execute_folder_renames_with_backup(batch, event);
    }
    let verdict = match last {
        BatchAction::Settle { verdict, record, .. } => {
            plans[0].marks = plan_after(&plans[0].marks, verdict, record, 41);
            verdict
        }
        other => panic!("{other:?}"),
    };
    assert_eq!(batch.verdicts, vec![PlanVerdict::Executed]);
    let row = result_row(1, verdict, "2026-01-05 测试", "2026/2026-01-05-测试", "", "");
    let outcomes = [ArtistOutcome::Plans(vec![PlanResult { verdict, row }])];
    let result = auto_answer(&outcomes, skipped, "/backup", named.len() as u64);
    assert!(matches!(result.get("executed_count"), Some(Json::Number(n)) if n == "1"));
    assert!(matches!(result.get("auto_named"), Some(Json::Number(n)) if n == "1"));
    assert_eq!(plans[0].marks.status, "executed");
    assert_eq!(plans[0].marks.confirmation_source, "auto");
    assert_eq!(plans[0].marks.confirmed_at, Some(40));
    assert_eq!(plans[0].marks.executed_at, Some(41));
}

#[test]
fn auto_archive_keeps_conflicted_draft_plan_manual() {
    let tree = folders(&[
        ("2026-01-05 测试", true),
        ("2026", true),
        ("2026/2026-01-05-测试", true),
    ]);
    let shown = preview(&tree, &dated_settings("reject"), &[dated_plan()]).unwrap();
    let named = auto_name_artist_draft_plans(&shown, &[1]);
    assert!(named.is_empty());
    let mut plans = vec![QueuedPlan {
        id: 1,
        artist_id: 1,
        source_folder: "2026-01-05 测试".to_string(),
        target_folder: String::new(),
        marks: PlanMarks {
            status: "draft".to_string(),
            confirmed_at: None,
            confirmation_source: String::new(),
            executed_at: None,
        },
    }];
    let skipped = match start_auto_run(true, &[1], &mut plans, 40) {
        AutoStart::Run { executable, skipped } => {
            assert!(executable.is_empty());
            skipped
        }
        other => panic!("{other:?}"),
    };
    let result = auto_answer(&[], skipped, "", named.len() as u64);
    assert!(matches!(result.get("executed_count"), Some(Json::Number(n)) if n == "0"));
    assert!(matches!(result.get("auto_named"), Some(Json::Number(n)) if n == "0"));
    assert_eq!(plans[0].marks.status, "draft");
}

#[test]
fn settings_are_loaded_shown_and_replaced() {
    let initial = folder_rename_format_settings(None, None).unwrap();
    assert_eq!(initial.settings.active_profile_id, "default");
    assert_eq!(initial.effective_profile.template, "{year}/{date} {tags}");
    assert_eq!(load(None).unwrap().profiles.len(), 1);

    let wanted = settings("merge").to_json();
    let (stored, shown) = set_folder_rename_format_settings(&wanted, Some(4)).unwrap();
    assert_eq!(shown.unwrap().effective_profile.id, "flat");
    let again = folder_rename_format_settings(Some(&stored), Some(4)).unwrap();
    assert_eq!(again.artist_id, Some(4));
    assert_eq!(again.effective_profile.id, "flat");
    assert_eq!(again.settings.profiles[0].template, "{title}");

    let broken = object(vec![("version", Json::Int(9))]);
    assert_eq!(
        load(Some(&broken)).unwrap_err(),
        "unsupported archive format settings version: 9"
    );
    assert!(set_folder_rename_format_settings(&broken, None).is_err());
}
