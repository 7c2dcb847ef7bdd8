use gallery_accel::db::{
    backfill_date_folder, backfill_detected_from_path, backfill_item_detected_dates,
    cardinality_is_current, cleanup_legacy_missing_archive_plans, configure_connection,
    ensure_query_planner_stats, env_db_path, is_sql_ident, missing_columns, pool_acquire_timeout,
    query_planner_stats_are_current, recorded_setting_count, sql_ident, sqlite_immutable_uri,
    wait_is_over, Checkout, DatedItem, DbConfig, LoggedPlan, PoolState, StatsRefreshGate,
};
use gallery_accel::json::Json;

#[test]
fn sql_ident_rejects_non_internal_identifiers() {
    assert_eq!(sql_ident("move_candidates"), "move_candidates");
    assert_eq!(sql_ident("_legacy"), "_legacy");
    for bad in ["", "Move", "move;drop", "move-table", "1table", "t able"] {
        assert!(!is_sql_ident(bad), "{bad:?} is no internal identifier");
    }
}

#[test]
fn legacy_items_gain_detected_and_manual_date_columns() {
    let names = |list: &[&str]| -> Vec<String> { list.iter().map(|n| n.to_string()).collect() };
    let missing =
        missing_columns(&names(&["date", "detected_date", "manual_date"]), &names(&["id", "date"]));
    assert_eq!(missing, names(&["detected_date", "manual_date"]));
    let complete = names(&["id", "date", "detected_date", "manual_date"]);
    assert!(missing_columns(&names(&["detected_date", "manual_date"]), &complete).is_empty());

    let pair = |raw: &str, canonical: &str| Some((raw.to_string(), canonical.to_string()));
    let rows = [
        (
            "/pictures/Artist/2026/202607 foo/x.jpg",
            "2026/202607 foo",
            pair("2026-07", "2026-07-01"),
            "2026-07-01",
            "2026-07",
        ),
        (
            "/pictures/Artist/2026-05-01_title/y.jpg",
            "2026-05-01_title",
            pair("2026-05-01", "2026-05-01"),
            "2026-05-01",
            "2026-05-01",
        ),
        ("/pictures/Artist/no_date_dir/z.jpg", "no_date_dir", None, "2026-08-15", "2026-08-15"),
        (
            "/pictures/Artist/202508/01_1536_title/w.jpg",
            "202508/01_1536_title",
            pair("2025-08-01", "2025-08-01"),
            "2025-08-01",
            "2025-08-01",
        ),
    ];
    let mut items = Vec::new();
    let mut wanted = Vec::new();
    for (path, folder, found, date, detected) in rows {
        assert_eq!(backfill_date_folder("/pictures/Artist", path).as_deref(), Some(folder));
        assert_eq!(backfill_detected_from_path(&found, date), detected);
        let id = items.len() as i64 + 1;
        wanted.push((id, detected.to_string()));
        items.push(DatedItem {
            id,
            date: date.to_string(),
            detected_date: String::new(),
            found,
        });
    }
    let dates = backfill_item_detected_dates(&items, None, true).unwrap();
    assert_eq!(dates, wanted);

    for (item, (_, date)) in items.iter_mut().zip(dates) {
        item.detected_date = date;
    }
    assert_eq!(backfill_item_detected_dates(&items, Some("1"), true), None);
    assert_eq!(backfill_item_detected_dates(&items, None, true), Some(Vec::new()));
    assert_eq!(backfill_item_detected_dates(&items, None, false), None);
}

#[test]
fn existing_character_references_gain_model_metadata_columns() {
    let names = |list: &[&str]| -> Vec<String> { list.iter().map(|n| n.to_string()).collect() };
    let wanted = names(&[
        "embedding_model_repo_id",
        "embedding_model_variant",
        "embedding_model_file",
        "embedding_updated_at",
    ]);
    assert_eq!(missing_columns(&wanted, &names(&["id", "character_id", "embedding"])), wanted);
    assert!(missing_columns(&wanted, &wanted).is_empty());
}

#[test]
fn folders_that_contradict_the_date_are_not_believed() {
    let found = Some(("2026-07".to_string(), "2026-07-01".to_string()));
    assert_eq!(backfill_detected_from_path(&found, "2026-08-15"), "2026-08-15");
    assert_eq!(backfill_date_folder("/pictures/Artist", "/pictures/Artist/a.jpg").as_deref(), Some(""));
}

/// The settings of the statistics.
#[derive(Default)]
struct Stats {
    items: Option<String>,
    item_tags: Option<String>,
}

impl Stats {
    /// A look at a library of a size; says whether the statistics were collected.
    fn looked_at(&mut self, items: i64, item_tags: i64) -> bool {
        let (known_items, known_tags) = (self.items.as_deref(), self.item_tags.as_deref());
        match ensure_query_planner_stats(known_items, known_tags, items, item_tags) {
            Some(record) => {
                self.items = Some(record.items);
                self.item_tags = Some(record.item_tags);
                true
            }
            None => false,
        }
    }

    fn recorded(&self) -> (Option<i64>, Option<i64>) {
        (
            recorded_setting_count(self.items.as_deref()),
            recorded_setting_count(self.item_tags.as_deref()),
        )
    }
}

#[test]
fn writable_startup_bootstraps_query_planner_statistics_once() {
    let mut stats = Stats::default();
    assert!(stats.looked_at(1, 0), "a database without statistics must be analyzed");
    let first = stats.recorded();
    assert_eq!(first, (Some(1), Some(0)));
    assert!(!stats.looked_at(1, 0), "statistics must not be rebuilt on every startup");
    assert_eq!(stats.recorded(), first);
}

#[test]
fn fresh_writable_startup_still_collects_statistics() {
    let mut stats = Stats::default();
    assert!(stats.looked_at(0, 0), "a fresh database must still run the bootstrap ANALYZE");
}

#[test]
fn statistics_are_refreshed_once_the_library_outgrows_them() {
    let mut stats = Stats::default();
    stats.looked_at(1, 0);
    assert_eq!(stats.recorded().0, Some(1));
    assert!(stats.looked_at(300, 0));
    assert_eq!(stats.recorded().0, Some(300), "material growth must refresh the statistics");
}

#[test]
fn runtime_refresh_collects_statistics_after_ingest_without_restart() {
    let mut stats = Stats::default();
    stats.looked_at(0, 0);
    assert_eq!(stats.recorded().0, Some(0), "the empty library was analyzed");
    let mut gate = StatsRefreshGate::new(1_000_000);
    assert!(gate.maybe_refresh(5), "the first runtime check must run");
    assert!(stats.looked_at(300, 0));
    assert_eq!(stats.recorded().0, Some(300));
}

#[test]
fn empty_library_startups_analyze_once() {
    let mut stats = Stats::default();
    assert!(stats.looked_at(0, 0));
    assert_eq!(stats.recorded().0, Some(0));
    for attempt in 0..2 {
        assert!(!stats.looked_at(0, 0), "startup #{attempt} must not write anything");
        assert_eq!(stats.items.as_deref(), Some("0"));
    }
}

#[test]
fn runtime_gate_skips_checks_within_its_interval() {
    let hour: u128 = 3600 * 1_000_000_000;
    let mut gate = StatsRefreshGate::new(hour);
    assert!(gate.maybe_refresh(10));
    assert!(!gate.maybe_refresh(11));
    assert!(!gate.maybe_refresh(9 + hour));
    assert!(gate.maybe_refresh(10 + hour));

    let mut disabled = StatsRefreshGate::new(0);
    assert!(!disabled.maybe_refresh(10));
    assert!(!disabled.maybe_refresh(hour));
}

#[test]
fn statistics_are_refreshed_when_the_library_shrinks_to_a_quarter() {
    let mut stats = Stats::default();
    stats.looked_at(400, 0);
    assert_eq!(stats.recorded().0, Some(400));
    assert!(!stats.looked_at(101, 0));
    assert!(stats.looked_at(100, 0));
    assert_eq!(stats.recorded().0, Some(100));
}

#[test]
fn statistics_are_refreshed_when_only_item_tags_changes_scale() {
    let mut stats = Stats::default();
    stats.looked_at(200, 200);
    assert_eq!(stats.recorded(), (Some(200), Some(200)));
    assert!(stats.looked_at(200, 2600));
    assert_eq!(stats.recorded(), (Some(200), Some(2600)));
}

#[test]
fn statistics_that_cannot_be_read_are_collected_again() {
    assert!(!query_planner_stats_are_current(Some(5), None, 5, 0));
    let mut stats = Stats { items: Some(" 7 ".to_string()), item_tags: Some("many".to_string()) };
    assert_eq!(stats.recorded(), (Some(7), None));
    assert!(stats.looked_at(7, 0));
    assert_eq!(stats.recorded(), (Some(7), Some(0)));
}

fn entry(reason: &str) -> Json {
    Json::Object(vec![("reason".to_string(), Json::Text(reason.to_string()))])
}

fn log(reasons: &[&str]) -> Option<Json> {
    Some(Json::Array(reasons.iter().map(|reason| entry(reason)).collect()))
}

#[test]
fn legacy_missing_archive_cleanup_is_scoped_and_idempotent() {
    let rows = [
        ("2024-01-02-tag", "manual_review", log(&["source_missing"])),
        ("2024-01-tag", "manual_review", log(&["source_missing"])),
        ("2024-01-", "manual_review", log(&["source_missing"])),
        ("2024-01-02 tag", "manual_review", log(&["source_missing"])),
        ("2024-01-02-other", "manual_review", log(&["target_exists"])),
        ("2024-01-02-tag", "ready", log(&["source_missing"])),
        ("", "manual_review", log(&["source_missing"])),
        ("2024-01-02-invalid", "manual_review", None),
        ("2024/2024-01-02-latest", "manual_review", log(&["source_missing", "target_exists"])),
    ];
    let mut plans: Vec<LoggedPlan> = rows
        .into_iter()
        .enumerate()
        .map(|(place, (target, status, log))| LoggedPlan {
            id: place as i64,
            status: status.to_string(),
            target: target.to_string(),
            log,
        })
        .collect();
    let dropped = cleanup_legacy_missing_archive_plans(&plans, None).unwrap();
    plans.retain(|plan| !dropped.contains(&plan.id));
    assert_eq!(plans.len(), 5);
    assert_eq!(cleanup_legacy_missing_archive_plans(&plans, None), Some(Vec::new()));
    assert_eq!(cleanup_legacy_missing_archive_plans(&plans, Some("1")), None);
    assert_eq!(plans.len(), 5);
}

#[test]
fn statistics_age_by_a_factor_of_four() {
    assert!(cardinality_is_current(399, 100));
    assert!(!cardinality_is_current(400, 100));
    assert!(cardinality_is_current(100, 399));
    assert!(!cardinality_is_current(100, 400));
}

#[test]
fn pools_never_exceed_their_size() {
    let mut pool = PoolState::with_config(DbConfig { read_only: false, pool_size: 2 });
    assert_eq!(pool.size, 2);
    let mut used = 0;
    loop {
        match pool.get() {
            Checkout::TakeIdle => used += 1,
            Checkout::Open => {
                pool.opened();
                used += 1;
            }
            Checkout::Wait => break,
        }
        assert!(used <= 2);
    }
    assert_eq!((used, pool.live, pool.idle), (2, 2, 0));
    assert!(pool.give_back(true));
    assert_eq!(pool.get(), Checkout::TakeIdle);
    assert!(!pool.give_back(false));
    assert_eq!(pool.live, 1);
    assert_eq!(PoolState::with_config(DbConfig { read_only: true, pool_size: 0 }).size, 1);
    assert_eq!(PoolState::with_config(DbConfig { read_only: true, pool_size: 99 }).size, 32);
}

#[test]
fn waiting_ends_at_the_deadline() {
    assert!(wait_is_over(5, 10, true, 0));
    assert!(!wait_is_over(5, 10, true, 1));
    assert!(!wait_is_over(5, 10, false, 0));
    assert!(wait_is_over(10, 10, false, 0));
}

#[test]
fn settings_are_read_from_the_environment() {
    let plain = configure_connection(None, Some("-1"), Some("nonsense"));
    assert_eq!(plain.journal_size_limit, -1);
    assert_eq!(plain.mmap_size, 268435456);
    assert_eq!(configure_connection(Some("250"), None, None).busy_timeout, 250);
    assert_eq!(pool_acquire_timeout(Some("77")), 77);
    assert_eq!(pool_acquire_timeout(None), 10000);
    assert_eq!(StatsRefreshGate::from_env(Some("2")).interval(), 2_000_000_000);
    assert_eq!(StatsRefreshGate::from_env(None).interval(), 60_000_000_000);
    assert_eq!(env_db_path(Some("/x/g.db"), Some("/d")), "/x/g.db");
    assert_eq!(env_db_path(None, Some("/d")), "/d/gallery.db");
}

#[test]
fn immutable_addresses_escape_special_bytes() {
    assert_eq!(
        sqlite_immutable_uri("/data/a b?.db"),
        "file:/data/a%20b%3F.db?mode=ro&immutable=1"
    );
}
