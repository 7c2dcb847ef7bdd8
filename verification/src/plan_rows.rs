//! The rows of the folder archive's plans: what carrying a plan out, taking it back
//! and an automatic run make of them.
//!
//! A time is the number with which the caller writes it.

use vstd::prelude::*;
use crate::folder_archive::{
    at_or_below, checked_folder, confirmable, due, moved_items, moved_path, paths_of, plan_run,
    stored_path, undo_run, PlanAnswers, PlanTrace, PlanVerdict, QueuedPlan, QueuedView, UndoAnswers, UndoOutcome,
};
use crate::tables::kept;
use crate::text::same_text;

verus! {

/// What a plan's row says of its state.
#[derive(Debug)]
pub struct PlanMarks {
    /// The status.
    pub status: String,
    /// When it was confirmed.
    pub confirmed_at: Option<i64>,
    /// By what it was confirmed; empty where it is not.
    pub confirmation_source: String,
    /// When it was carried out.
    pub executed_at: Option<i64>,
}

/// The value of [`PlanMarks`].
#[verifier::ext_equal]
pub struct MarksView {
    /// The status.
    pub status: Seq<char>,
    /// When it was confirmed.
    pub confirmed_at: Option<i64>,
    /// By what it was confirmed.
    pub confirmation_source: Seq<char>,
    /// When it was carried out.
    pub executed_at: Option<i64>,
}

impl View for PlanMarks {
    type V = MarksView;

    open spec fn view(&self) -> MarksView {
        MarksView {
            status: self.status@,
            confirmed_at: self.confirmed_at,
            confirmation_source: self.confirmation_source@,
            executed_at: self.executed_at,
        }
    }
}

impl PlanMarks {
    /// The same marks once more.
    pub fn duplicate(&self) -> (r: PlanMarks)
        ensures
            r@ == self@,
    {
        PlanMarks {
            status: self.status.clone(),
            confirmed_at: self.confirmed_at,
            confirmation_source: self.confirmation_source.clone(),
            executed_at: self.executed_at,
        }
    }
}

/// The marks of a plan that an automatic run confirms.
pub open spec fn auto_confirmed(m: MarksView, now: i64) -> MarksView {
    MarksView {
        status: "confirmed"@,
        confirmed_at: Some(now),
        confirmation_source: "auto"@,
        ..m
    }
}

/// The marks of a plan that is put aside: somebody has to look at it and to confirm it
/// anew.
pub open spec fn put_aside(m: MarksView) -> MarksView {
    MarksView {
        status: "manual_review"@,
        confirmed_at: None,
        confirmation_source: Seq::empty(),
        ..m
    }
}

/// The marks of a plan behind its verdict. Only a plan that is still confirmed is
/// changed: it is executed, or it is put aside where its failure is kept.
pub open spec fn marks_after(m: MarksView, verdict: PlanVerdict, record: bool, now: i64) -> MarksView {
    if m.status != "confirmed"@ {
        m
    } else if verdict == PlanVerdict::Executed {
        MarksView { status: "executed"@, executed_at: Some(now), ..m }
    } else if verdict is Failed && record {
        put_aside(m)
    } else {
        m
    }
}

/// The marks of a plan behind its undo. Only a plan that is still executed is changed:
/// it is reverted, or it is put aside where folder and database disagree.
pub open spec fn marks_after_undo(m: MarksView, outcome: UndoOutcome) -> MarksView {
    if m.status != "executed"@ {
        m
    } else if outcome == UndoOutcome::Reverted {
        MarksView { status: "reverted"@, executed_at: None, ..m }
    } else if outcome == UndoOutcome::ReconciliationRequired {
        put_aside(m)
    } else {
        m
    }
}

/// Confirms a plan in an automatic run.
pub fn confirm_plan(marks: &PlanMarks, now: i64) -> (r: PlanMarks)
    ensures
        r@ == auto_confirmed(marks@, now),
{
    PlanMarks {
        status: "confirmed".to_owned(),
        confirmed_at: Some(now),
        confirmation_source: "auto".to_owned(),
        executed_at: marks.executed_at,
    }
}

/// Puts a plan aside.
fn put_plan_aside(marks: &PlanMarks) -> (r: PlanMarks)
    ensures
        r@ == put_aside(marks@),
{
    let r = PlanMarks {
        status: "manual_review".to_owned(),
        confirmed_at: None,
        confirmation_source: String::new(),
        executed_at: marks.executed_at,
    };
    assert(r@ =~= put_aside(marks@));
    r
}

/// The marks of a plan behind its verdict.
pub fn plan_after(marks: &PlanMarks, verdict: PlanVerdict, record: bool, now: i64) -> (r: PlanMarks)
    ensures
        r@ == marks_after(marks@, verdict, record, now),
{
    if !same_text(&marks.status, "confirmed") {
        return marks.duplicate();
    }
    match verdict {
        PlanVerdict::Executed => PlanMarks {
            status: "executed".to_owned(),
            confirmed_at: marks.confirmed_at,
            confirmation_source: marks.confirmation_source.clone(),
            executed_at: Some(now),
        },
        PlanVerdict::Failed(_) if record => put_plan_aside(marks),
        _ => marks.duplicate(),
    }
}

/// The marks of a plan behind its undo.
pub fn undo_after(marks: &PlanMarks, outcome: UndoOutcome) -> (r: PlanMarks)
    ensures
        r@ == marks_after_undo(marks@, outcome),
{
    if !same_text(&marks.status, "executed") {
        return marks.duplicate();
    }
    match outcome {
        UndoOutcome::Reverted => PlanMarks {
            status: "reverted".to_owned(),
            confirmed_at: marks.confirmed_at,
            confirmation_source: marks.confirmation_source.clone(),
            executed_at: None,
        },
        UndoOutcome::ReconciliationRequired => put_plan_aside(marks),
        _ => marks.duplicate(),
    }
}

/// Whether a plan is still as it was when its run began: in its state, and with its
/// folders.
pub open spec fn unchanged(p: QueuedView, status: Seq<char>, source: Seq<char>, target: Seq<char>) -> bool {
    p.marks.status == status && p.source_folder == source && p.target_folder == target
}

/// The marks of a plan when the database takes its new paths; `None` where the plan
/// changed while its folder was renamed.
pub fn executed_marks(plan: &QueuedPlan, source: &str, target: &str, now: i64) -> (r: Option<
    PlanMarks,
>)
    ensures
        match r {
            Some(m) => unchanged(plan@, "confirmed"@, source@, target@) && m@ == marks_after(
                plan@.marks,
                PlanVerdict::Executed,
                false,
                now,
            ),
            None => !unchanged(plan@, "confirmed"@, source@, target@),
        },
{
    if same_text(&plan.marks.status, "confirmed") && same_text(&plan.source_folder, source)
        && same_text(&plan.target_folder, target) {
        Some(plan_after(&plan.marks, PlanVerdict::Executed, false, now))
    } else {
        None
    }
}

/// The marks of a plan when the database takes its former paths back; `None` where the
/// plan or its log changed while its folder was renamed.
pub fn reverted_marks(plan: &QueuedPlan, source: &str, target: &str, same_log: bool) -> (r: Option<
    PlanMarks,
>)
    ensures
        match r {
            Some(m) => same_log && unchanged(plan@, "executed"@, source@, target@) && m@
                == marks_after_undo(plan@.marks, UndoOutcome::Reverted),
            None => !(same_log && unchanged(plan@, "executed"@, source@, target@)),
        },
{
    if same_log && same_text(&plan.marks.status, "executed") && same_text(
        &plan.source_folder,
        source,
    ) && same_text(&plan.target_folder, target) {
        Some(undo_after(&plan.marks, UndoOutcome::Reverted))
    } else {
        None
    }
}

/// A plan whose failure was kept is not retried: it is put aside, without its
/// confirmation, and an automatic run neither confirms it nor carries it out.
pub proof fn failed_plans_are_not_retried(
    p: QueuedView,
    verdict: PlanVerdict,
    now: i64,
    artists: Seq<i64>,
)
    requires
        verdict is Failed,
        p.marks.status == "confirmed"@,
    ensures
        ({
            let after = QueuedView { marks: marks_after(p.marks, verdict, true, now), ..p };
            &&& after.marks.status == "manual_review"@
            &&& after.marks.confirmed_at is None
            &&& after.marks.confirmation_source.len() == 0
            &&& after.marks.executed_at == p.marks.executed_at
            &&& !confirmable(artists)(after)
            &&& !due()(after)
        }),
{
    reveal_strlit("manual_review");
    reveal_strlit("ready");
    reveal_strlit("confirmed");
    assert("manual_review"@.len() == 13 && "ready"@.len() == 5 && "confirmed"@.len() == 9);
}

/// What a plan can change: its row, the paths of the items, and the folders below the
/// artist with the names of their files.
#[verifier::ext_equal]
pub struct PlanWorld {
    /// The marks of the plan.
    pub marks: MarksView,
    /// The items: their ids, artists and paths.
    pub items: Seq<(i64, i64, Seq<char>)>,
    /// The files of the folders.
    pub folders: Map<Seq<char>, Set<Seq<char>>>,
}

/// A plan and what its folders are called.
#[verifier::ext_equal]
pub struct PlanPlace {
    /// The artist.
    pub artist_id: i64,
    /// The artist's path in the database.
    pub artist_path: Seq<char>,
    /// The artist's folder on disk.
    pub root: Seq<char>,
    /// The source folder below the artist.
    pub source: Seq<char>,
    /// The target folder below the artist.
    pub target: Seq<char>,
}

impl PlanPlace {
    /// The place of a stored plan.
    pub open spec fn of(
        artist_id: i64,
        artist_path: Seq<char>,
        root: Seq<char>,
        source: Seq<char>,
        target: Seq<char>,
    ) -> PlanPlace {
        let (s, t, _) = paths_of(source, target);
        PlanPlace { artist_id, artist_path, root, source: s, target: t }
    }

    /// The place of the plan taken back.
    pub open spec fn back(self) -> PlanPlace {
        PlanPlace { source: self.target, target: self.source, ..self }
    }

    /// The path of an item behind the rename, if it changes.
    pub open spec fn moves(self, path: Seq<char>) -> Option<Seq<char>> {
        moved_path(
            path,
            stored_path(self.artist_path, self.source),
            stored_path(self.root, self.source),
            stored_path(self.artist_path, self.target),
            stored_path(self.root, self.target),
        )
    }
}

/// An item behind the rename of a plan.
pub open spec fn item_moved(at: PlanPlace, row: (i64, i64, Seq<char>)) -> (i64, i64, Seq<char>) {
    match at.moves(row.2) {
        Some(path) if row.1 == at.artist_id => (row.0, row.1, path),
        _ => row,
    }
}

/// The items behind the rename of a plan.
pub open spec fn items_moved(at: PlanPlace, items: Seq<(i64, i64, Seq<char>)>) -> Seq<
    (i64, i64, Seq<char>),
> {
    Seq::new(items.len(), |i: int| item_moved(at, items[i]))
}

/// The items whose paths a plan changes.
pub open spec fn changed_by(at: PlanPlace) -> spec_fn((i64, i64, Seq<char>)) -> bool {
    |row: (i64, i64, Seq<char>)| row.1 == at.artist_id && at.moves(row.2) is Some
}

/// The items that a rename lists are those whose paths it changes, with their new paths.
pub proof fn moved_items_are_the_changed_ones(at: PlanPlace, items: Seq<(i64, i64, Seq<char>)>)
    ensures
        moved_items(
            items,
            at.artist_id,
            stored_path(at.artist_path, at.source),
            stored_path(at.root, at.source),
            stored_path(at.artist_path, at.target),
            stored_path(at.root, at.target),
        ) == items_moved(at, kept(items, changed_by(at))),
    decreases items.len(),
{
    let listed = kept(items, changed_by(at));
    if items.len() > 0 {
        moved_items_are_the_changed_ones(at, items.drop_last());
        let before = kept(items.drop_last(), changed_by(at));
        if changed_by(at)(items.last()) {
            assert(items_moved(at, listed) =~= items_moved(at, before).push(
                item_moved(at, items.last()),
            ));
        }
    } else {
        assert(items_moved(at, listed) =~= Seq::empty());
    }
}

/// The folders behind a rename, which replaces nothing.
pub open spec fn renamed(
    folders: Map<Seq<char>, Set<Seq<char>>>,
    from: Seq<char>,
    to: Seq<char>,
) -> Map<Seq<char>, Set<Seq<char>>> {
    if folders.contains_key(from) && !folders.contains_key(to) {
        folders.remove(from).insert(to, folders[from])
    } else {
        folders
    }
}

/// The world behind a run of a plan.
pub open spec fn world_after(w: PlanWorld, at: PlanPlace, t: PlanTrace, now: i64) -> PlanWorld {
    PlanWorld {
        marks: marks_after(w.marks, t.verdict, t.record, now),
        items: if t.stored {
            items_moved(at, w.items)
        } else {
            w.items
        },
        folders: if t.moved {
            renamed(w.folders, at.source, at.target)
        } else {
            w.folders
        },
    }
}

/// The world behind an undo: its outcome, whether the folder stands at the source, and
/// whether the database holds the former paths.
pub open spec fn world_after_undo(
    w: PlanWorld,
    at: PlanPlace,
    undone: (UndoOutcome, bool, bool),
) -> PlanWorld {
    PlanWorld {
        marks: marks_after_undo(w.marks, undone.0),
        items: if undone.2 {
            items_moved(at.back(), w.items)
        } else {
            w.items
        },
        folders: if undone.1 {
            renamed(w.folders, at.target, at.source)
        } else {
            w.folders
        },
    }
}

/// A confirmed plan that is refused before its rename, such as one whose target is
/// taken, changes no folder and no item; outside a dry run it is put aside. A dry run
/// changes nothing at all.
pub proof fn refused_plans_are_put_aside(
    w: PlanWorld,
    at: PlanPlace,
    answers: PlanAnswers,
    dry_run: bool,
    now: i64,
)
    requires
        w.marks.status == "confirmed"@,
        answers.checked is Some || dry_run,
    ensures
        plan_run(dry_run, answers) is Some,
        ({
            let t = plan_run(dry_run, answers)->Some_0;
            let after = world_after(w, at, t, now);
            &&& answers.checked is Some ==> t.verdict == PlanVerdict::Failed(
                answers.checked->Some_0,
            )
            &&& after.items == w.items
            &&& after.folders == w.folders
            &&& dry_run ==> after == w
            &&& !dry_run ==> after.marks == put_aside(w.marks)
        }),
{
    reveal_with_fuel(crate::folder_archive::run_from, 6);
}

/// A confirmed plan is marked as executed exactly where its folder was renamed and its
/// items have their new paths; unless the rename back failed, every other end leaves
/// folders and items as they were.
pub proof fn plans_change_everything_or_nothing(
    w: PlanWorld,
    at: PlanPlace,
    answers: PlanAnswers,
    dry_run: bool,
    now: i64,
)
    requires
        w.marks.status == "confirmed"@,
    ensures
        plan_run(dry_run, answers) is Some,
        ({
            let t = plan_run(dry_run, answers)->Some_0;
            let after = world_after(w, at, t, now);
            if t.verdict == PlanVerdict::Executed {
                &&& after.marks == (MarksView {
                    status: "executed"@,
                    executed_at: Some(now),
                    ..w.marks
                })
                &&& after.items == items_moved(at, w.items)
                &&& after.folders == renamed(w.folders, at.source, at.target)
            } else {
                &&& after.items == w.items
                &&& after.folders == w.folders || t.verdict == PlanVerdict::Failed(
                    crate::folder_archive::FailureReason::RollbackFailed,
                )
                &&& after.marks == (if t.record {
                    put_aside(w.marks)
                } else {
                    w.marks
                })
            }
        }),
{
    crate::folder_archive::plan_runs_are_consistent(dry_run, answers);
    reveal_with_fuel(crate::folder_archive::run_from, 6);
}

/// The stored path of an accepted folder ends in no slash.
proof fn lemma_stored_end(base: Seq<char>, folder: Seq<char>)
    requires
        checked_folder(folder) is Ok,
    ensures
        ({
            let path = stored_path(base, checked_folder(folder)->Ok_0);
            path.len() > 0 && path.last() != '/'
        }),
{
    crate::folder_archive::lemma_accepted_ends(folder);
}

/// Taking a plan back that was just carried out restores everything: the folder is at
/// its former place with its files, every item has its former path, and the plan is
/// reverted and no longer executed. It needs a target below which no item of the artist
/// lay, on disk and in the database. An item that lay in the logical source alone has
/// to lie outside the real target behind the rename: else it is taken for an item of
/// that.
pub proof fn undo_restores_the_world(
    w: PlanWorld,
    artist_id: i64,
    artist_path: Seq<char>,
    root: Seq<char>,
    source: Seq<char>,
    target: Seq<char>,
    answers: PlanAnswers,
    undo: UndoAnswers,
    now: i64,
)
    requires
        paths_of(source, target).2,
        plan_run(false, answers) is Some,
        plan_run(false, answers)->Some_0.verdict == PlanVerdict::Executed,
        undo_run(undo) is Some,
        undo_run(undo)->Some_0.0 == UndoOutcome::Reverted,
        w.marks.status == "confirmed"@,
        ({
            let at = PlanPlace::of(artist_id, artist_path, root, source, target);
            &&& w.folders.contains_key(at.source)
            &&& !w.folders.contains_key(at.target)
            &&& forall|i: int|
                0 <= i < w.items.len() && (#[trigger] w.items[i]).1 == artist_id ==> {
                    &&& !at_or_below(w.items[i].2, stored_path(root, at.target))
                    &&& !at_or_below(w.items[i].2, stored_path(artist_path, at.target))
                    &&& at.moves(w.items[i].2) is Some ==> at_or_below(
                        w.items[i].2,
                        stored_path(root, at.source),
                    ) || !at_or_below(
                        at.moves(w.items[i].2)->Some_0,
                        stored_path(root, at.target),
                    )
                }
        }),
    ensures
        ({
            let at = PlanPlace::of(artist_id, artist_path, root, source, target);
            let done = world_after(w, at, plan_run(false, answers)->Some_0, now);
            let back = world_after_undo(done, at, undo_run(undo)->Some_0);
            &&& done.marks.status == "executed"@
            &&& done.folders.contains_key(at.target)
            &&& !done.folders.contains_key(at.source)
            &&& back.folders == w.folders
            &&& back.items == w.items
            &&& back.marks == (MarksView {
                status: "reverted"@,
                executed_at: None,
                ..w.marks
            })
        }),
{
    let at = PlanPlace::of(artist_id, artist_path, root, source, target);
    let t = plan_run(false, answers)->Some_0;
    crate::folder_archive::plan_runs_are_consistent(false, answers);
    crate::folder_archive::undo_runs_are_consistent(undo);
    let done = world_after(w, at, t, now);
    let back = world_after_undo(done, at, undo_run(undo)->Some_0);
    assert(back.folders =~= w.folders);
    lemma_stored_end(artist_path, source);
    lemma_stored_end(artist_path, target);
    lemma_stored_end(root, source);
    lemma_stored_end(root, target);
    assert forall|i: int| 0 <= i < w.items.len() implies #[trigger] back.items[i] == w.items[i] by {
        let row = w.items[i];
        assert(done.items[i] == item_moved(at, row));
        assert(back.items[i] == item_moved(at.back(), done.items[i]));
        if row.1 == artist_id && at.moves(row.2) is Some {
            crate::folder_archive::undo_restores_item_paths(
                row.2,
                stored_path(artist_path, at.source),
                stored_path(root, at.source),
                stored_path(artist_path, at.target),
                stored_path(root, at.target),
            );
        }
    }
    assert(back.items =~= w.items);
}

}
