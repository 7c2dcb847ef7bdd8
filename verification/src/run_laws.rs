//! What is promised of runs over many plans: batches, automatic runs, backups and listings.

use vstd::prelude::*;
use crate::archive_runs::{
    backup_run, listed, next_auto, next_backup, next_batch, outcome_rows, refusal_tree,
    result_rows, run_refused, AutoAction, AutoEvent, AutoStage, AutoView, BackupAction, BackupEvent,
    BackupStage, BatchAction, BatchEvent, BatchStage, BatchView,
};
use crate::folder_archive::{
    due_of, next_step, ArtistOutcome, FailureReason, PlanAction, PlanEvent, PlanResult, PlanStage,
    PlanVerdict, QueuedView,
};
use crate::json::JsonTree;

verus! {

/// A batch that may run looks at its first plan at once where it is a dry run or has a backup,
/// takes a backup first where it has none, and is over where it has no plans.
pub proof fn batches_begin_with_the_first_plan(b: BatchView)
    requires
        b.stage == BatchStage::Begin,
    ensures
        ({
            let (after, action) = next_batch(b, BatchEvent::Begin { authorized: true });
            let ready = b.dry_run || b.has_backup;
            &&& b.plan_count == 0 ==> action is Finish && after.stage is Ended
            &&& b.plan_count > 0 && ready ==> action == (BatchAction::Look { plan: 0 })
            &&& b.plan_count > 0 && !ready ==> action is TakeBackup && {
                let (next, then) = next_batch(after, BatchEvent::BackedUp(true));
                then == (BatchAction::Look { plan: 0 }) && next.has_backup
            }
            &&& after.verdicts == b.verdicts && after.plan_count == b.plan_count && after.dry_run
                == b.dry_run
        }),
{
}

/// Within a batch each plan runs as it would alone: each step asks for what the plan asks for,
/// and what the plan comes to is noted and settled.
pub proof fn plans_of_a_batch_run_as_alone(
    b: BatchView,
    plan: usize,
    stage: PlanStage,
    event: PlanEvent,
)
    requires
        b.stage == (BatchStage::Running { plan, stage }),
        crate::folder_archive::fits(stage, event),
    ensures
        ({
            let (after, action) = next_batch(b, BatchEvent::Plan(event));
            match next_step(stage, event, b.dry_run).1 {
                PlanAction::Finish { verdict, record } => {
                    &&& action == (BatchAction::Settle { plan, verdict, record })
                    &&& after.verdicts == b.verdicts.push(verdict)
                },
                wanted => {
                    &&& action == (BatchAction::Perform { plan, action: wanted })
                    &&& after.verdicts == b.verdicts
                    &&& after.stage == (BatchStage::Running {
                        plan,
                        stage: next_step(stage, event, b.dry_run).0,
                    })
                },
            }
        }),
{
}

/// After each plan comes the next, and after the last the end.
pub proof fn batches_go_on_to_the_next_plan(b: BatchView, plan: usize)
    requires
        b.stage == (BatchStage::Settling { plan }),
        plan < b.plan_count,
    ensures
        ({
            let (after, action) = next_batch(b, BatchEvent::Settled);
            &&& plan + 1 < b.plan_count ==> action == (BatchAction::Look {
                plan: (plan + 1) as usize,
            }) && after.stage == (BatchStage::Running {
                plan: (plan + 1) as usize,
                stage: PlanStage::Checking,
            })
            &&& plan + 1 == b.plan_count ==> action is Finish && after.stage is Ended
            &&& after.verdicts == b.verdicts
        }),
{
}

/// An automatic run takes a backup where it has an artist, then runs the artists in order, and
/// is over after the last; without a backup none runs.
pub proof fn automatic_runs_go_in_order(a: AutoView, place: usize, outcome: ArtistOutcome)
    requires
        a.executable.len() <= usize::MAX,
    ensures
        a.stage == AutoStage::Begin ==> {
            let (after, action) = next_auto(a, AutoEvent::Begin);
            &&& a.executable.len() == 0 ==> action is Finish
            &&& a.executable.len() > 0 ==> action is TakeBackup && next_auto(
                after,
                AutoEvent::BackedUp(true),
            ).1 == (AutoAction::Run { artist: a.executable[0] }) && next_auto(
                after,
                AutoEvent::BackedUp(false),
            ).1 is RefuseAll
        },
        a.stage == (AutoStage::Running { place }) ==> {
            let (after, action) = next_auto(a, AutoEvent::Artist(outcome));
            &&& after.outcomes == a.outcomes.push(outcome)
            &&& place + 1 < a.executable.len() ==> action == (AutoAction::Run {
                artist: a.executable[place + 1],
            })
            &&& place + 1 >= a.executable.len() ==> action is Finish
        },
{
}

/// The rows of an answer are those of the results with the verdict, in their order.
pub proof fn rows_follow_the_verdicts(results: Seq<PlanResult>, r: PlanResult)
    ensures
        result_rows(Seq::empty(), true).len() == 0,
        result_rows(Seq::empty(), false).len() == 0,
        r.verdict == PlanVerdict::Executed ==> result_rows(results.push(r), true) == result_rows(
            results,
            true,
        ).push(r.row.tree()) && result_rows(results.push(r), false) == result_rows(results, false),
        r.verdict != PlanVerdict::Executed ==> result_rows(results.push(r), false) == result_rows(
            results,
            false,
        ).push(r.row.tree()) && result_rows(results.push(r), true) == result_rows(results, true),
{
    assert(results.push(r).drop_last() =~= results);
}

/// An artist whose run failed as a whole is one failure, and the results of the others follow
/// each other.
pub proof fn rows_of_artists_follow_each_other(outcomes: Seq<ArtistOutcome>, o: ArtistOutcome)
    ensures
        ({
            let all = outcomes.push(o);
            match o {
                ArtistOutcome::Plans(results) => {
                    &&& outcome_rows(all, true) == outcome_rows(outcomes, true) + result_rows(
                        results@,
                        true,
                    )
                    &&& outcome_rows(all, false) == outcome_rows(outcomes, false) + result_rows(
                        results@,
                        false,
                    )
                },
                ArtistOutcome::Error(row) => {
                    &&& outcome_rows(all, true) == outcome_rows(outcomes, true)
                    &&& outcome_rows(all, false) == outcome_rows(outcomes, false).push(row.tree())
                },
            }
        }),
{
    let all = outcomes.push(o);
    assert(all.drop_last() =~= outcomes);
    if o is Error {
        assert(outcome_rows(all, true) =~= outcome_rows(outcomes, true));
        assert(outcome_rows(all, false) =~= outcome_rows(outcomes, false).push(
            o->Error_0.tree(),
        ));
    }
}

/// A refused run tells of the plans that were due of its artist, each with its own folders and
/// the failed backup as its reason.
pub proof fn refused_runs_tell_of_due_plans(
    plans: Seq<QueuedView>,
    artist: i64,
    error: Seq<char>,
    i: int,
)
    requires
        0 <= i < plans.len(),
        plans[i].artist_id == artist,
        plans[i].marks.status == "confirmed"@,
        plans[i].target_folder.len() > 0,
    ensures
        run_refused(plans, seq![artist], error).1.contains(
            refusal_tree(
                Some(artist),
                plans[i].id,
                FailureReason::BackupFailed,
                plans[i].source_folder,
                plans[i].target_folder,
                Some(error),
            ),
        ),
{
    let none = Seq::<i64>::empty();
    assert(seq![artist].drop_last() =~= none);
    assert(run_refused(plans, none, error).0 == plans);
    let own = crate::tables::kept(plans, due_of(artist));
    crate::tables::lemma_kept(plans, due_of(artist));
    assert(plans.contains(plans[i]));
    assert(own.contains(plans[i]));
    let k = own.index_of(plans[i]);
    let rows = run_refused(plans, seq![artist], error).1;
    let tree = |p: QueuedView|
        refusal_tree(
            Some(artist),
            p.id,
            FailureReason::BackupFailed,
            p.source_folder,
            p.target_folder,
            Some(error),
        );
    assert(run_refused(plans, none, error).1 =~= Seq::<JsonTree>::empty());
    assert(rows =~= own.map_values(tree));
    assert(rows[k] == tree(plans[i]));
}

/// A backup goes from a free name over a hidden copy to a published one; a taken name leads to
/// the next number.
pub proof fn backups_go_step_by_step(index: usize)
    requires
        index < usize::MAX,
    ensures
        next_backup(BackupStage::Begin, BackupEvent::Begin).1 == (BackupAction::Look { index: 0 }),
        next_backup(BackupStage::Choosing { index }, BackupEvent::Taken(false)).1 == (
        BackupAction::Reserve { index }),
        next_backup(BackupStage::Choosing { index }, BackupEvent::Taken(true)).1 == (
        BackupAction::Look { index: (index + 1) as usize }),
        next_backup(BackupStage::Reserving { index }, BackupEvent::Done).1 is Copy,
        next_backup(BackupStage::Reserving { index }, BackupEvent::Occupied).1 == (
        BackupAction::Look { index: (index + 1) as usize }),
        next_backup(BackupStage::Copying { index }, BackupEvent::Done).1 == (BackupAction::Publish {
            index,
        }),
        next_backup(BackupStage::Copying { index }, BackupEvent::Failed).1 is Discard,
        next_backup(BackupStage::Publishing { index }, BackupEvent::Done).1 is Prune,
        next_backup(BackupStage::Publishing { index }, BackupEvent::Occupied).1 == (
        BackupAction::Publish { index: (index + 1) as usize }),
        next_backup(BackupStage::Publishing { index }, BackupEvent::Failed).1 is Discard,
        next_backup(BackupStage::Pruning { index }, BackupEvent::Done).1 == BackupAction::Finish(
            Some(index),
        ),
{
}

/// A backup in which nothing goes wrong is published under the first free name, and told.
pub proof fn undisturbed_backups_are_published(prune: BackupEvent)
    requires
        prune is Done || prune is Failed || prune is Occupied,
    ensures
        ({
            let events = seq![
                BackupEvent::Begin,
                BackupEvent::Taken(false),
                BackupEvent::Done,
                BackupEvent::Done,
                BackupEvent::Done,
            ];
            let (stage, w) = backup_run(events);
            &&& w.published == Some(0usize)
            &&& w.whole && !w.hidden
            &&& next_backup(stage, prune).1 == BackupAction::Finish(Some(0usize))
        }),
{
    let e = seq![
        BackupEvent::Begin,
        BackupEvent::Taken(false),
        BackupEvent::Done,
        BackupEvent::Done,
        BackupEvent::Done,
    ];
    assert(e.take(0) =~= Seq::<BackupEvent>::empty());
    assert(e.take(1).drop_last() =~= e.take(0));
    assert(e.take(2).drop_last() =~= e.take(1));
    assert(e.take(3).drop_last() =~= e.take(2));
    assert(e.take(4).drop_last() =~= e.take(3));
    assert(e.take(5).drop_last() =~= e.take(4));
    assert(e.take(5) =~= e);
    assert(backup_run(e.take(0)).0 == BackupStage::Begin);
    assert(backup_run(e.take(1)).0 == (BackupStage::Choosing { index: 0 }));
    assert(backup_run(e.take(2)).0 == (BackupStage::Reserving { index: 0 }));
    assert(backup_run(e.take(3)).0 == (BackupStage::Copying { index: 0 }));
    assert(backup_run(e.take(4)).0 == (BackupStage::Publishing { index: 0 }));
}

/// A listing shows the latest plans first, of the artist where one is named, at most as many
/// as the limit; with room left it shows all of them.
pub proof fn listings_show_the_latest_plans(
    plans: Seq<(i64, i64)>,
    artist_id: Option<i64>,
    limit: int,
)
    requires
        limit >= 0,
    ensures
        ({
            let shown = listed(plans, artist_id, limit);
            &&& shown.len() <= limit
            &&& forall|i: int|
                0 <= i < shown.len() ==> 0 <= #[trigger] shown[i] < plans.len() && (artist_id is None
                    || artist_id == Some(plans[shown[i]].1))
            &&& forall|i: int, j: int|
                0 <= i < j < shown.len() ==> #[trigger] shown[i] > #[trigger] shown[j]
            &&& forall|k: int|
                0 <= k < plans.len() && (artist_id is None || artist_id == Some(
                    (#[trigger] plans[k]).1,
                )) ==> shown.contains(k) || (shown.len() == limit && forall|i: int|
                    0 <= i < shown.len() ==> #[trigger] shown[i] > k)
        }),
    decreases plans.len(),
{
    let shown = listed(plans, artist_id, limit);
    if plans.len() > 0 && limit > 0 {
        let d = plans.drop_last();
        let n = plans.len() - 1;
        let wanted = artist_id is None || artist_id == Some(plans[n].1);
        let left = if wanted {
            limit - 1
        } else {
            limit
        };
        listings_show_the_latest_plans(d, artist_id, left);
        let rest = listed(d, artist_id, left);
        let off: int = if wanted {
            1
        } else {
            0
        };
        assert(shown.len() == rest.len() + off);
        assert forall|i: int| off <= i < shown.len() implies #[trigger] shown[i] == rest[i
            - off] by {}
        assert forall|i: int| 0 <= i < shown.len() implies 0 <= #[trigger] shown[i] < plans.len()
            && (artist_id is None || artist_id == Some(plans[shown[i]].1)) by {
            if i >= off {
                assert(shown[i] == rest[i - off]);
                assert(d[rest[i - off]] == plans[rest[i - off]]);
            }
        }
        assert forall|i: int, j: int| 0 <= i < j < shown.len() implies #[trigger] shown[i]
            > #[trigger] shown[j] by {
            assert(shown[j] == rest[j - off]);
            if i >= off {
                assert(shown[i] == rest[i - off]);
            }
        }
        assert forall|k: int|
            0 <= k < plans.len() && (artist_id is None || artist_id == Some(
                (#[trigger] plans[k]).1,
            )) implies shown.contains(k) || (shown.len() == limit && forall|i: int|
            0 <= i < shown.len() ==> #[trigger] shown[i] > k) by {
            if k < n {
                assert(d[k] == plans[k]);
                if rest.contains(k) {
                    let i = rest.index_of(k);
                    assert(shown[i + off] == k);
                } else {
                    assert forall|i: int| 0 <= i < shown.len() implies #[trigger] shown[i] > k by {
                        if i >= off {
                            assert(shown[i] == rest[i - off]);
                        }
                    }
                }
            } else {
                assert(shown[0] == k);
            }
        }
    }
}

}
