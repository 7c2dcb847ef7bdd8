use gallery_accel::db_housekeeping::{
    cleanup_scan_seen, housekeeping_batch_size, is_terminal_candidate, run_housekeeping_batch,
    CandidateRow, Cutoffs, HousekeepingBatch, MissingItem, MoveLink, SeenRow,
};

fn item(id: i64, missing: bool, missing_at: Option<i64>) -> MissingItem {
    MissingItem { id, missing, missing_at }
}

fn seen(id: i64, scan_id: &str, created_at: i64) -> SeenRow {
    SeenRow { id, scan_id: scan_id.to_string(), created_at }
}

fn candidate(id: i64, status: &str, created_at: i64, resolved_at: Option<i64>) -> CandidateRow {
    CandidateRow { id, status: status.to_string(), created_at, resolved_at }
}

fn link(item_id: Option<i64>, scan_candidate_id: Option<i64>, status: &str) -> MoveLink {
    MoveLink { item_id, scan_candidate_id, status: status.to_string() }
}

fn cutoffs(at: i64) -> Cutoffs {
    Cutoffs { missing_item: at, scan_seen: at, scan_candidate: at }
}

fn left<'a>(rows: &[(i64, &'a str)], dropped: &[i64]) -> Vec<&'a str> {
    let mut names: Vec<&str> =
        rows.iter().filter(|row| !dropped.contains(&row.0)).map(|row| row.1).collect();
    names.sort();
    names
}

#[test]
fn scan_seen_is_removed_after_scan_even_with_active_candidates() {
    let rows = [seen(1, "scan-active", 100), seen(2, "scan-other", 100)];
    assert_eq!(cleanup_scan_seen(&rows[..1], "scan-active").len(), 1);
    assert_eq!(cleanup_scan_seen(&rows, "scan-active"), vec![1]);
    assert!(cleanup_scan_seen(&rows, "scan").is_empty());
}

#[test]
fn bounded_housekeeping_preserves_recent_rows() {
    let items = [
        item(1, true, Some(100)),
        item(2, true, Some(100)),
        item(3, true, Some(900)),
        item(4, false, Some(100)),
    ];
    let traces = [(1, "old-done", 100), (2, "old-active", 100), (3, "recent", 900)];
    let seen_rows: Vec<SeenRow> =
        traces.iter().map(|(id, scan_id, created)| seen(*id, scan_id, *created)).collect();
    let names = [
        (1, "old-active"),
        (2, "terminal-old"),
        (3, "new-old"),
        (4, "active-old"),
        (5, "terminal-recent"),
    ];
    let candidates = [
        candidate(1, "pending", 100, None),
        candidate(2, "resolved", 100, Some(200)),
        candidate(3, "new", 100, Some(200)),
        candidate(4, "pending", 100, None),
        candidate(5, "resolved", 900, Some(900)),
    ];
    let moves = [link(Some(2), None, "pending"), link(None, Some(3), "pending")];

    let batch =
        run_housekeeping_batch(&items, &seen_rows, &candidates, &moves, cutoffs(500), 100);
    let result = batch.result();
    assert_eq!(result.missing_items_deleted, 1);
    assert_eq!(result.scan_seen_deleted, 2);
    assert_eq!(result.scan_candidates_deleted, 1);

    let remaining_items: Vec<i64> = items
        .iter()
        .map(|item| item.id)
        .filter(|id| !batch.missing_items.contains(id))
        .collect();
    assert_eq!(remaining_items, vec![2, 3, 4]);
    let remaining_tag_items: Vec<i64> =
        [1, 2].into_iter().filter(|id| !batch.missing_items.contains(id)).collect();
    assert_eq!(remaining_tag_items, vec![2]);
    let traces: Vec<(i64, &str)> = traces.iter().map(|row| (row.0, row.1)).collect();
    assert_eq!(left(&traces, &batch.scan_seen), vec!["recent"]);
    assert_eq!(
        left(&names, &batch.scan_candidates),
        vec!["active-old", "new-old", "old-active", "terminal-recent"]
    );
}

fn items_only(items: &[MissingItem], moves: &[MoveLink], batch_size: i64) -> Vec<i64> {
    let batch: HousekeepingBatch =
        run_housekeeping_batch(items, &[], &[], moves, cutoffs(500), batch_size);
    batch.missing_items
}

#[test]
fn batches_are_bounded() {
    let items: Vec<MissingItem> = (0..5).map(|id| item(id, true, Some(500))).collect();
    let moves = [link(Some(1), None, "pending"), link(Some(2), None, "rejected")];
    assert_eq!(items_only(&items, &moves, 2), vec![0, 2]);
    assert_eq!(items_only(&items, &moves, 0), vec![0]);
    assert_eq!(items_only(&items, &moves, 100), vec![0, 2, 3, 4]);
    assert_eq!(housekeeping_batch_size(-3), 1);
    assert_eq!(housekeeping_batch_size(700), 700);
    assert_eq!(housekeeping_batch_size(60_000), 50_000);
}

#[test]
fn items_without_a_time_are_kept() {
    assert!(items_only(&[item(1, true, None), item(2, true, Some(501))], &[], 10).is_empty());
}

#[test]
fn moves_go_with_their_items() {
    let items = [item(1, true, Some(100))];
    let candidates =
        [candidate(7, "superseded", 100, None), candidate(8, "superseded", 100, Some(501))];
    let moves = [link(Some(1), Some(7), "rejected")];
    let batch = run_housekeeping_batch(&items, &[], &candidates, &moves, cutoffs(500), 10);
    assert_eq!(batch.missing_items, vec![1]);
    assert_eq!(batch.scan_candidates, vec![7]);
    let batch = run_housekeeping_batch(&[], &[], &candidates, &moves, cutoffs(500), 10);
    assert!(batch.scan_candidates.is_empty());
}

#[test]
fn only_finished_candidates_are_terminal() {
    for status in ["resolved", "new", "superseded"] {
        assert!(is_terminal_candidate(status));
    }
    for status in ["pending", "", "Resolved"] {
        assert!(!is_terminal_candidate(status));
    }
}
