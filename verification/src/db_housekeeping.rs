//! Bounded clean-up of rows that nobody needs any more. Times are given as integers
//! that order as the times do.

use vstd::prelude::*;
use crate::id_list::has_id;
use crate::tables::{pick_rows, picked};
use crate::text::same_text;

verus! {

/// What a batch of the clean-up deleted.
#[derive(Clone, Copy, PartialEq, Eq, Debug, Structural)]
pub struct HousekeepingResult {
    /// Items that have been missing for long.
    pub missing_items_deleted: usize,
    /// Traces of former scans.
    pub scan_seen_deleted: usize,
    /// Candidates of former scans.
    pub scan_candidates_deleted: usize,
}

/// An item, as far as the clean-up looks at it.
#[derive(Clone, Copy, PartialEq, Eq, Debug, Structural)]
pub struct MissingItem {
    /// The item.
    pub id: i64,
    /// Whether its file is gone.
    pub missing: bool,
    /// Since when.
    pub missing_at: Option<i64>,
}

/// A file that a scan has seen.
#[derive(Debug)]
pub struct SeenRow {
    /// The row.
    pub id: i64,
    /// The scan.
    pub scan_id: String,
    /// When it was seen.
    pub created_at: i64,
}

/// A file that a scan has proposed.
#[derive(Debug)]
pub struct CandidateRow {
    /// The row.
    pub id: i64,
    /// What became of it.
    pub status: String,
    /// When it was proposed.
    pub created_at: i64,
    /// When it was decided on.
    pub resolved_at: Option<i64>,
}

/// A move that was proposed.
#[derive(Debug)]
pub struct MoveLink {
    /// The item that would move.
    pub item_id: Option<i64>,
    /// The candidate that it was found by.
    pub scan_candidate_id: Option<i64>,
    /// What became of it.
    pub status: String,
}

/// Up to which times rows are old enough.
#[derive(Clone, Copy, PartialEq, Eq, Debug, Structural)]
pub struct Cutoffs {
    /// For items: since when they are missing.
    pub missing_item: i64,
    /// For what scans have seen.
    pub scan_seen: i64,
    /// For candidates.
    pub scan_candidate: i64,
}

/// The rows that a batch deletes.
#[derive(Debug)]
pub struct HousekeepingBatch {
    /// Items.
    pub missing_items: Vec<i64>,
    /// What scans have seen.
    pub scan_seen: Vec<i64>,
    /// Candidates.
    pub scan_candidates: Vec<i64>,
}

/// How many rows of each table a batch deletes at most.
pub open spec fn batch_limit(wanted: i64) -> int {
    if wanted < 1 {
        1
    } else if wanted > 50000 {
        50000
    } else {
        wanted as int
    }
}

/// How many rows of each table a batch deletes at most.
pub fn housekeeping_batch_size(wanted: i64) -> (r: i64)
    ensures
        r == batch_limit(wanted),
{
    if wanted < 1 {
        1
    } else if wanted > 50000 {
        50000
    } else {
        wanted
    }
}

/// Whether a candidate of a scan is done with.
pub open spec fn terminal(status: Seq<char>) -> bool {
    status == "resolved"@ || status == "new"@ || status == "superseded"@
}

/// Whether a candidate of a scan is done with.
pub fn is_terminal_candidate(status: &str) -> (r: bool)
    ensures
        r == terminal(status@),
{
    same_text(status, "resolved") || same_text(status, "new") || same_text(status, "superseded")
}

/// Whether a move of an item waits for a decision.
pub open spec fn awaits_move(moves: Seq<MoveLink>, item: i64) -> bool {
    exists|k: int|
        0 <= k < moves.len() && (#[trigger] moves[k]).item_id == Some(item) && moves[k].status@
            == "pending"@
}

/// Whether a move of an item waits for a decision.
fn has_pending_move(moves: &[MoveLink], item: i64) -> (r: bool)
    ensures
        r == awaits_move(moves@, item),
{
    let mut i: usize = 0;
    while i < moves.len()
        invariant
            i <= moves@.len(),
            forall|k: int|
                0 <= k < i ==> !((#[trigger] moves@[k]).item_id == Some(item) && moves@[k].status@
                    == "pending"@),
        decreases moves@.len() - i,
    {
        if moves[i].item_id == Some(item) && same_text(&moves[i].status, "pending") {
            return true;
        }
        i += 1;
    }
    false
}

/// Which items are deleted: those that have been missing since the cut-off or
/// longer, where no move of them waits for a decision.
pub open spec fn due_item(moves: Seq<MoveLink>, cutoff: i64) -> spec_fn(MissingItem) -> Option<
    i64,
> {
    |i: MissingItem|
        if i.missing && i.missing_at is Some && i.missing_at->Some_0 <= cutoff && !awaits_move(
            moves,
            i.id,
        ) {
            Some(i.id)
        } else {
            None
        }
}

/// Which traces of scans are deleted: those as old as the cut-off.
pub open spec fn due_seen(cutoff: i64) -> spec_fn(SeenRow) -> Option<i64> {
    |s: SeenRow|
        if s.created_at <= cutoff {
            Some(s.id)
        } else {
            None
        }
}

/// Whether a move goes with its item.
pub open spec fn goes_with_item(m: MoveLink, dropped: Seq<i64>) -> bool {
    m.item_id is Some && dropped.contains(m.item_id->Some_0)
}

/// Whether a move that is left names a candidate.
pub open spec fn names_candidate(moves: Seq<MoveLink>, dropped: Seq<i64>, candidate: i64) -> bool {
    exists|k: int|
        0 <= k < moves.len() && (#[trigger] moves[k]).scan_candidate_id == Some(candidate)
            && !goes_with_item(moves[k], dropped)
}

/// Whether a move that is left names a candidate.
fn is_named(moves: &[MoveLink], dropped: &[i64], candidate: i64) -> (r: bool)
    ensures
        r == names_candidate(moves@, dropped@, candidate),
{
    let mut i: usize = 0;
    while i < moves.len()
        invariant
            i <= moves@.len(),
            forall|k: int|
                0 <= k < i ==> !((#[trigger] moves@[k]).scan_candidate_id == Some(candidate)
                    && !goes_with_item(moves@[k], dropped@)),
        decreases moves@.len() - i,
    {
        let gone = match moves[i].item_id {
            Some(id) => has_id(dropped, id),
            None => false,
        };
        if moves[i].scan_candidate_id == Some(candidate) && !gone {
            return true;
        }
        i += 1;
    }
    false
}

/// When a candidate was decided on, or proposed where it never was.
pub open spec fn settled_at(c: CandidateRow) -> i64 {
    match c.resolved_at {
        Some(t) => t,
        None => c.created_at,
    }
}

/// Which candidates are deleted: those that are done with since the cut-off or
/// longer and that no move names. Moves of items that the batch deletes go with
/// their items.
pub open spec fn due_candidate(
    moves: Seq<MoveLink>,
    dropped: Seq<i64>,
    cutoff: i64,
) -> spec_fn(CandidateRow) -> Option<i64> {
    |c: CandidateRow|
        if terminal(c.status@) && settled_at(c) <= cutoff && !names_candidate(
            moves,
            dropped,
            c.id,
        ) {
            Some(c.id)
        } else {
            None
        }
}

/// Chooses the rows that a batch deletes: of each table, whose rows come in the
/// order of their ids, the first that are due, up to the size of a batch.
pub fn run_housekeeping_batch(
    items: &[MissingItem],
    seen: &[SeenRow],
    candidates: &[CandidateRow],
    moves: &[MoveLink],
    cutoffs: Cutoffs,
    batch_size: i64,
) -> (r: HousekeepingBatch)
    ensures
        r.missing_items@ == picked(
            items@,
            due_item(moves@, cutoffs.missing_item),
            batch_limit(batch_size),
        ),
        r.scan_seen@ == picked(seen@, due_seen(cutoffs.scan_seen), batch_limit(batch_size)),
        r.scan_candidates@ == picked(
            candidates@,
            due_candidate(moves@, r.missing_items@, cutoffs.scan_candidate),
            batch_limit(batch_size),
        ),
        r.missing_items@.len() <= batch_limit(batch_size),
        r.scan_seen@.len() <= batch_limit(batch_size),
        r.scan_candidates@.len() <= batch_limit(batch_size),
{
    let limit: usize = housekeeping_batch_size(batch_size) as usize;
    let ghost item_model = due_item(moves@, cutoffs.missing_item);
    let item_due = |i: &MissingItem| -> (o: Option<i64>)
        ensures
            o == item_model(*i),
        {
            match i.missing_at {
                Some(t) => if i.missing && t <= cutoffs.missing_item && !has_pending_move(
                    moves,
                    i.id,
                ) {
                    Some(i.id)
                } else {
                    None
                },
                None => None,
            }
        };
    let missing_items = pick_rows(items, item_due, limit, Ghost(item_model));
    let ghost seen_model = due_seen(cutoffs.scan_seen);
    let seen_due = |s: &SeenRow| -> (o: Option<i64>)
        ensures
            o == seen_model(*s),
        {
            if s.created_at <= cutoffs.scan_seen {
                Some(s.id)
            } else {
                None
            }
        };
    let scan_seen = pick_rows(seen, seen_due, limit, Ghost(seen_model));
    let ghost model = due_candidate(moves@, missing_items@, cutoffs.scan_candidate);
    let dropped: &[i64] = missing_items.as_slice();
    let candidate_due = |c: &CandidateRow| -> (o: Option<i64>)
        ensures
            o == model(*c),
        {
            let at: i64 = match c.resolved_at {
                Some(t) => t,
                None => c.created_at,
            };
            if is_terminal_candidate(&c.status) && at <= cutoffs.scan_candidate && !is_named(
                moves,
                dropped,
                c.id,
            ) {
                Some(c.id)
            } else {
                None
            }
        };
    let scan_candidates = pick_rows(candidates, candidate_due, limit, Ghost(model));
    HousekeepingBatch { missing_items, scan_seen, scan_candidates }
}

impl HousekeepingBatch {
    /// How many rows a batch deletes.
    pub fn result(&self) -> (r: HousekeepingResult)
        ensures
            r.missing_items_deleted == self.missing_items@.len(),
            r.scan_seen_deleted == self.scan_seen@.len(),
            r.scan_candidates_deleted == self.scan_candidates@.len(),
    {
        HousekeepingResult {
            missing_items_deleted: self.missing_items.len(),
            scan_seen_deleted: self.scan_seen.len(),
            scan_candidates_deleted: self.scan_candidates.len(),
        }
    }
}

/// Which traces a scan has left.
pub open spec fn seen_by(scan_id: Seq<char>) -> spec_fn(SeenRow) -> Option<i64> {
    |s: SeenRow|
        if s.scan_id@ == scan_id {
            Some(s.id)
        } else {
            None
        }
}

/// What a scan has seen, all of which is deleted once the scan is over.
pub fn cleanup_scan_seen(rows: &[SeenRow], scan_id: &str) -> (r: Vec<i64>)
    ensures
        r@ == picked(rows@, seen_by(scan_id@), rows@.len() as int),
{
    let ghost model = seen_by(scan_id@);
    let seen = |s: &SeenRow| -> (o: Option<i64>)
        ensures
            o == model(*s),
        {
            if same_text(&s.scan_id, scan_id) {
                Some(s.id)
            } else {
                None
            }
        };
    pick_rows(rows, seen, rows.len(), Ghost(model))
}

/// A batch deletes no item that is there, has been missing for a short time only,
/// or whose move waits for a decision.
pub proof fn batches_keep_recent_items(
    items: Seq<MissingItem>,
    moves: Seq<MoveLink>,
    cutoff: i64,
    limit: int,
    id: i64,
)
    requires
        picked(items, due_item(moves, cutoff), limit).contains(id),
    ensures
        !awaits_move(moves, id),
        exists|i: int|
            0 <= i < items.len() && (#[trigger] items[i]).id == id && items[i].missing
                && items[i].missing_at is Some && items[i].missing_at->Some_0 <= cutoff,
{
    crate::tables::lemma_picked(items, due_item(moves, cutoff), limit, id);
    let i = choose|i: int|
        0 <= i < items.len() && due_item(moves, cutoff)(#[trigger] items[i]) == Some(id);
    assert(items[i].id == id);
}

/// A batch deletes no trace of a scan that is younger than the cut-off.
pub proof fn batches_keep_recent_traces(seen: Seq<SeenRow>, cutoff: i64, limit: int, id: i64)
    requires
        picked(seen, due_seen(cutoff), limit).contains(id),
    ensures
        exists|i: int|
            0 <= i < seen.len() && (#[trigger] seen[i]).id == id && seen[i].created_at <= cutoff,
{
    crate::tables::lemma_picked(seen, due_seen(cutoff), limit, id);
    let i = choose|i: int|
        0 <= i < seen.len() && due_seen(cutoff)(#[trigger] seen[i]) == Some(id);
    assert(seen[i].id == id);
}

/// A batch deletes no candidate that is not done with, that was settled after the
/// cut-off, or that a move still names.
pub proof fn batches_keep_open_candidates(
    candidates: Seq<CandidateRow>,
    moves: Seq<MoveLink>,
    dropped: Seq<i64>,
    cutoff: i64,
    limit: int,
    id: i64,
)
    requires
        picked(candidates, due_candidate(moves, dropped, cutoff), limit).contains(id),
    ensures
        !names_candidate(moves, dropped, id),
        exists|i: int|
            0 <= i < candidates.len() && (#[trigger] candidates[i]).id == id && terminal(
                candidates[i].status@,
            ) && settled_at(candidates[i]) <= cutoff,
{
    crate::tables::lemma_picked(candidates, due_candidate(moves, dropped, cutoff), limit, id);
    let i = choose|i: int|
        0 <= i < candidates.len() && due_candidate(moves, dropped, cutoff)(
            #[trigger] candidates[i],
        ) == Some(id);
    assert(candidates[i].id == id);
}

/// A batch with room left takes every item that is missing since the cutoff or longer and
/// awaits no move, every trace from the cutoff or before, and every settled candidate from
/// the cutoff or before that no move names.
pub proof fn batches_with_room_take_everything_due(
    items: Seq<MissingItem>,
    seen: Seq<SeenRow>,
    candidates: Seq<CandidateRow>,
    moves: Seq<MoveLink>,
    dropped: Seq<i64>,
    cutoffs: Cutoffs,
    limit: int,
    i: int,
)
    requires
        0 <= i,
    ensures
        i < items.len() && items[i].missing && (items[i].missing_at matches Some(t) && t
            <= cutoffs.missing_item) && (forall|k: int|
            0 <= k < moves.len() && (#[trigger] moves[k]).item_id == Some(items[i].id)
                ==> moves[k].status@ != "pending"@) && picked(
            items,
            due_item(moves, cutoffs.missing_item),
            limit,
        ).len() < limit ==> picked(items, due_item(moves, cutoffs.missing_item), limit).contains(
            items[i].id,
        ),
        i < seen.len() && seen[i].created_at <= cutoffs.scan_seen && picked(
            seen,
            due_seen(cutoffs.scan_seen),
            limit,
        ).len() < limit ==> picked(seen, due_seen(cutoffs.scan_seen), limit).contains(seen[i].id),
        i < candidates.len() && (candidates[i].status@ == "resolved"@ || candidates[i].status@
            == "new"@ || candidates[i].status@ == "superseded"@) && (match candidates[i].resolved_at {
            Some(t) => t <= cutoffs.scan_candidate,
            None => candidates[i].created_at <= cutoffs.scan_candidate,
        }) && !names_candidate(moves, dropped, candidates[i].id) && picked(
            candidates,
            due_candidate(moves, dropped, cutoffs.scan_candidate),
            limit,
        ).len() < limit ==> picked(
            candidates,
            due_candidate(moves, dropped, cutoffs.scan_candidate),
            limit,
        ).contains(candidates[i].id),
{
    if i < items.len() && due_item(moves, cutoffs.missing_item)(items[i]) is Some && picked(
        items,
        due_item(moves, cutoffs.missing_item),
        limit,
    ).len() < limit {
        crate::tables::short_picks_take_everything(items, due_item(moves, cutoffs.missing_item), limit, i);
    }
    if i < seen.len() && due_seen(cutoffs.scan_seen)(seen[i]) is Some && picked(
        seen,
        due_seen(cutoffs.scan_seen),
        limit,
    ).len() < limit {
        crate::tables::short_picks_take_everything(seen, due_seen(cutoffs.scan_seen), limit, i);
    }
    if i < candidates.len() && due_candidate(moves, dropped, cutoffs.scan_candidate)(
        candidates[i],
    ) is Some && picked(
        candidates,
        due_candidate(moves, dropped, cutoffs.scan_candidate),
        limit,
    ).len() < limit {
        crate::tables::short_picks_take_everything(
            candidates,
            due_candidate(moves, dropped, cutoffs.scan_candidate),
            limit,
            i,
        );
    }
}

/// A candidate that a move still names is kept, unless the move goes with a dropped item, and
/// so is one that is pending, ambiguous or of any other status that is not settled.
pub proof fn named_candidates_are_kept(
    candidates: Seq<CandidateRow>,
    moves: Seq<MoveLink>,
    dropped: Seq<i64>,
    cutoff: i64,
    limit: int,
    id: i64,
)
    requires
        picked(candidates, due_candidate(moves, dropped, cutoff), limit).contains(id),
    ensures
        forall|k: int|
            0 <= k < moves.len() && (#[trigger] moves[k]).scan_candidate_id == Some(id)
                ==> moves[k].item_id is Some && dropped.contains(moves[k].item_id->Some_0),
        exists|i: int|
            0 <= i < candidates.len() && (#[trigger] candidates[i]).id == id && (
            candidates[i].status@ == "resolved"@ || candidates[i].status@ == "new"@
                || candidates[i].status@ == "superseded"@),
{
    batches_keep_open_candidates(candidates, moves, dropped, cutoff, limit, id);
    assert(!names_candidate(moves, dropped, id));
    assert forall|k: int|
        0 <= k < moves.len() && (#[trigger] moves[k]).scan_candidate_id == Some(
            id,
        ) implies moves[k].item_id is Some && dropped.contains(moves[k].item_id->Some_0) by {
        assert(goes_with_item(moves[k], dropped));
    }
}

/// The traces of a scan are the rows that bear its name, and no others.
pub proof fn traces_go_with_their_scan(rows: Seq<SeenRow>, scan_id: Seq<char>, id: i64)
    ensures
        picked(rows, seen_by(scan_id), rows.len() as int).contains(id) <==> exists|i: int|
            0 <= i < rows.len() && (#[trigger] rows[i]).id == id && rows[i].scan_id@ == scan_id,
{
    let pick = seen_by(scan_id);
    let all = picked(rows, pick, rows.len() as int);
    if all.contains(id) {
        crate::tables::lemma_picked(rows, pick, rows.len() as int, id);
        let i = choose|i: int| 0 <= i < rows.len() && pick(#[trigger] rows[i]) == Some(id);
        assert(rows[i].id == id && rows[i].scan_id@ == scan_id);
    }
    if exists|i: int|
        0 <= i < rows.len() && (#[trigger] rows[i]).id == id && rows[i].scan_id@ == scan_id {
        let i = choose|i: int|
            0 <= i < rows.len() && (#[trigger] rows[i]).id == id && rows[i].scan_id@ == scan_id;
        lemma_roomy_pick(rows, pick, rows.len() as int, i);
    }
}

/// A pick with room for every row takes each that is wanted.
proof fn lemma_roomy_pick(
    rows: Seq<SeenRow>,
    pick: spec_fn(SeenRow) -> Option<i64>,
    limit: int,
    i: int,
)
    requires
        0 <= i < rows.len() <= limit,
        pick(rows[i]) is Some,
    ensures
        picked(rows, pick, limit).contains(pick(rows[i])->Some_0),
        picked(rows, pick, limit).len() <= rows.len(),
    decreases rows.len(),
{
    let d = rows.drop_last();
    lemma_pick_len(d, pick, limit);
    let before = picked(d, pick, limit);
    let now = picked(rows, pick, limit);
    let id = pick(rows[i])->Some_0;
    if i < d.len() {
        assert(d[i] == rows[i]);
        lemma_roomy_pick(d, pick, limit, i);
        let k = before.index_of(id);
        assert(now[k] == id);
    } else {
        assert(now[before.len() as int] == id);
    }
}

/// A pick takes no row twice.
proof fn lemma_pick_len(rows: Seq<SeenRow>, pick: spec_fn(SeenRow) -> Option<i64>, limit: int)
    ensures
        picked(rows, pick, limit).len() <= rows.len(),
    decreases rows.len(),
{
    if rows.len() > 0 {
        lemma_pick_len(rows.drop_last(), pick, limit);
    }
}

/// A batch takes as many rows as is asked for, from one up to fifty thousand.
pub proof fn batch_sizes_have_limits(wanted: i64, more: i64)
    requires
        wanted <= more,
    ensures
        1 <= batch_limit(wanted) <= 50000,
        1 <= wanted <= 50000 ==> batch_limit(wanted) == wanted,
        batch_limit(wanted) <= batch_limit(more),
{
}

/// A pending move keeps its item, and a move that goes on keeps its candidate; one that is
/// settled, or goes with its item, keeps neither.
pub proof fn moves_keep_what_they_name(moves: Seq<MoveLink>, dropped: Seq<i64>, k: int, id: i64)
    requires
        0 <= k < moves.len(),
    ensures
        moves[k].item_id == Some(id) && moves[k].status@ == "pending"@ ==> awaits_move(moves, id),
        (forall|j: int|
            0 <= j < moves.len() ==> (#[trigger] moves[j]).item_id != Some(id) || moves[j].status@
                != "pending"@) ==> !awaits_move(moves, id),
        moves[k].scan_candidate_id == Some(id) && moves[k].item_id is None ==> names_candidate(
            moves,
            dropped,
            id,
        ),
        moves[k].scan_candidate_id == Some(id) && moves[k].item_id is Some && !dropped.contains(
            moves[k].item_id->Some_0,
        ) ==> names_candidate(moves, dropped, id),
        (forall|j: int|
            0 <= j < moves.len() ==> (#[trigger] moves[j]).scan_candidate_id != Some(id) || (
            moves[j].item_id is Some && dropped.contains(moves[j].item_id->Some_0)))
            ==> !names_candidate(moves, dropped, id),
{
    if names_candidate(moves, dropped, id) && forall|j: int|
        0 <= j < moves.len() ==> (#[trigger] moves[j]).scan_candidate_id != Some(id) || (
        moves[j].item_id is Some && dropped.contains(moves[j].item_id->Some_0)) {
        let j = choose|j: int|
            0 <= j < moves.len() && (#[trigger] moves[j]).scan_candidate_id == Some(id)
                && !goes_with_item(moves[j], dropped);
        assert(goes_with_item(moves[j], dropped));
    }
}

/// A candidate is settled by one of three words, at the time when it was resolved, or, where
/// none is told, when it was found.
pub proof fn candidates_are_settled_by_word(status: Seq<char>, c: CandidateRow)
    ensures
        terminal("resolved"@) && terminal("new"@) && terminal("superseded"@),
        terminal(status) ==> status == "resolved"@ || status == "new"@ || status == "superseded"@,
        c.resolved_at matches Some(t) ==> settled_at(c) == t,
        c.resolved_at is None ==> settled_at(c) == c.created_at,
{
}

}
