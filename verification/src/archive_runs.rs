//! Runs of the folder archive: the plans of one artist, the plans of every artist,
//! and the backup of the database in front of them.
//!
//! A run is a state that takes one event at a time and says what is to be done next.

use vstd::prelude::*;
use crate::folder_archive::{
    auto_status, backup_name, due, due_of, executed_in, fits, is_due, label_of,
    labels_are_not_hidden, next_step, status_of, step_plan, tallied, ArtistOutcome, FailureReason,
    Moment, PlanAction, PlanEvent, PlanResult, PlanStage, PlanVerdict, QueuedPlan, QueuedView,
};
use crate::json::{
    array, doc_trees, duplicates, entry, entry_views, number, object, text_member, Json, JsonTree,
};
use crate::plan_rows::{plan_after, put_aside};
use crate::tables::{kept, map_rows, views};
use crate::text::decimal;

verus! {

/// How far the plans of an artist have come.
#[derive(Clone, Copy, PartialEq, Eq, Debug, Structural)]
pub enum BatchStage {
    /// Nothing was done yet.
    Begin,
    /// The database is being backed up.
    BackingUp,
    /// A plan is being carried out.
    Running {
        /// The place of the plan.
        plan: usize,
        /// How far it has come.
        stage: PlanStage,
    },
    /// The verdict on a plan is being kept.
    Settling {
        /// The place of the plan.
        plan: usize,
    },
    /// Every plan has its verdict.
    Ended,
}

/// The plans of an artist that are being carried out.
#[derive(Debug)]
pub struct Batch {
    /// Whether nothing is changed.
    pub dry_run: bool,
    /// How many plans there are.
    pub plan_count: usize,
    /// Whether the database is backed up.
    pub has_backup: bool,
    /// Whether every plan was refused at once.
    pub refused: bool,
    /// How far the plans have come.
    pub stage: BatchStage,
    /// The verdicts on the plans so far.
    pub verdicts: Vec<PlanVerdict>,
}

/// The value of a [`Batch`].
#[verifier::ext_equal]
pub struct BatchView {
    /// Whether nothing is changed.
    pub dry_run: bool,
    /// How many plans there are.
    pub plan_count: usize,
    /// Whether the database is backed up.
    pub has_backup: bool,
    /// Whether every plan was refused at once.
    pub refused: bool,
    /// How far the plans have come.
    pub stage: BatchStage,
    /// The verdicts on the plans so far.
    pub verdicts: Seq<PlanVerdict>,
}

impl View for Batch {
    type V = BatchView;

    open spec fn view(&self) -> BatchView {
        BatchView {
            dry_run: self.dry_run,
            plan_count: self.plan_count,
            has_backup: self.has_backup,
            refused: self.refused,
            stage: self.stage,
            verdicts: self.verdicts@,
        }
    }
}

/// What happened to the plans of an artist.
#[derive(Clone, Copy, PartialEq, Eq, Debug, Structural)]
pub enum BatchEvent {
    /// The plans were read.
    Begin {
        /// Whether the artist's folder lies below the authorized roots.
        authorized: bool,
    },
    /// The backup was tried.
    BackedUp(bool),
    /// Something happened to the plan that is being carried out.
    Plan(PlanEvent),
    /// The verdict on a plan was kept.
    Settled,
}

/// What is to be done next for the plans of an artist.
#[derive(Clone, Copy, PartialEq, Eq, Debug, Structural)]
pub enum BatchAction {
    /// Back the database up.
    TakeBackup,
    /// Refuse every plan, and keep the failure with them where `record` says so. The
    /// batch has ended.
    RefuseAll {
        /// Why.
        reason: FailureReason,
        /// Whether the failure is kept with the plans.
        record: bool,
    },
    /// Look at the paths of a plan.
    Look {
        /// The place of the plan.
        plan: usize,
    },
    /// Do something for a plan.
    Perform {
        /// The place of the plan.
        plan: usize,
        /// What.
        action: PlanAction,
    },
    /// Report the verdict on a plan, and keep a failure with it where `record` says
    /// so.
    Settle {
        /// The place of the plan.
        plan: usize,
        /// The verdict.
        verdict: PlanVerdict,
        /// Whether the failure is kept with the plan.
        record: bool,
    },
    /// Nothing: the batch has ended.
    Finish,
    /// Nothing: the event does not belong here.
    Ignore,
}

impl BatchView {
    /// Whether a batch is sound: plans are carried out one after the other, each has
    /// one verdict, and no plan is carried out without a backup.
    pub open spec fn wf(self) -> bool {
        &&& self.refused ==> self.stage is Ended
        &&& match self.stage {
            BatchStage::Begin => self.verdicts.len() == 0,
            BatchStage::BackingUp => self.verdicts.len() == 0 && !self.dry_run,
            BatchStage::Running { plan, stage } => {
                &&& plan < self.plan_count
                &&& self.verdicts.len() == plan
                &&& self.dry_run || self.has_backup
                &&& stage is Checking || !self.dry_run
            },
            BatchStage::Settling { plan } => {
                &&& plan < self.plan_count
                &&& self.verdicts.len() == plan + 1
                &&& self.dry_run || self.has_backup
            },
            BatchStage::Ended => self.verdicts.len() == self.plan_count,
        }
    }
}

/// A batch before anything was done.
pub open spec fn fresh_batch(dry_run: bool, plan_count: usize, has_backup: bool) -> BatchView {
    BatchView {
        dry_run,
        plan_count,
        has_backup,
        refused: false,
        stage: BatchStage::Begin,
        verdicts: Seq::empty(),
    }
}

/// Every plan of a batch refused.
pub open spec fn refused(b: BatchView, reason: FailureReason, record: bool) -> (
    BatchView,
    BatchAction,
) {
    (
        BatchView {
            refused: true,
            stage: BatchStage::Ended,
            verdicts: Seq::new(b.plan_count as nat, |i: int| PlanVerdict::Failed(reason)),
            ..b
        },
        BatchAction::RefuseAll { reason, record },
    )
}

/// A batch that turns to a plan; behind the last one it ends.
pub open spec fn turned_to(b: BatchView, plan: int) -> (BatchView, BatchAction) {
    if plan < b.plan_count {
        (
            BatchView {
                stage: BatchStage::Running { plan: plan as usize, stage: PlanStage::Checking },
                ..b
            },
            BatchAction::Look { plan: plan as usize },
        )
    } else {
        (BatchView { stage: BatchStage::Ended, ..b }, BatchAction::Finish)
    }
}

/// The batch behind an event, and what is to be done. Nothing happens outside the
/// authorized roots, nothing is changed without a backup, and a plan that fails does
/// not stop the others.
pub open spec fn next_batch(b: BatchView, event: BatchEvent) -> (BatchView, BatchAction) {
    match (b.stage, event) {
        (BatchStage::Begin, BatchEvent::Begin { authorized }) => if !authorized {
            refused(b, FailureReason::OutsideArtist, !b.dry_run)
        } else if !b.dry_run && b.plan_count > 0 && !b.has_backup {
            (BatchView { stage: BatchStage::BackingUp, ..b }, BatchAction::TakeBackup)
        } else {
            turned_to(b, 0)
        },
        (BatchStage::BackingUp, BatchEvent::BackedUp(done)) => if done {
            turned_to(BatchView { has_backup: true, ..b }, 0)
        } else {
            refused(b, FailureReason::BackupFailed, true)
        },
        (BatchStage::Running { plan, stage }, BatchEvent::Plan(e)) => if !fits(stage, e) {
            (b, BatchAction::Ignore)
        } else {
            let (next, action) = next_step(stage, e, b.dry_run);
            match action {
                PlanAction::Finish { verdict, record } => (
                    BatchView {
                        stage: BatchStage::Settling { plan },
                        verdicts: b.verdicts.push(verdict),
                        ..b
                    },
                    BatchAction::Settle { plan, verdict, record },
                ),
                _ => (
                    BatchView { stage: BatchStage::Running { plan, stage: next }, ..b },
                    BatchAction::Perform { plan, action },
                ),
            }
        },
        (BatchStage::Settling { plan }, BatchEvent::Settled) => turned_to(b, plan + 1),
        _ => (b, BatchAction::Ignore),
    }
}

/// The plans of an artist before anything was done.
pub fn start_batch(dry_run: bool, plan_count: usize, has_backup: bool) -> (r: Batch)
    ensures
        r@ == fresh_batch(dry_run, plan_count, has_backup),
        r@.wf(),
{
    let verdicts: Vec<PlanVerdict> = Vec::new();
    let stage = BatchStage::Begin;
    let r = Batch { dry_run, plan_count, has_backup, refused: false, stage, verdicts };
    assert(r@ =~= fresh_batch(dry_run, plan_count, has_backup));
    r
}

/// Refuses every plan.
fn refuse_all(batch: Batch, reason: FailureReason, record: bool) -> (r: (Batch, BatchAction))
    ensures
        (r.0@, r.1) == refused(batch@, reason, record),
{
    let mut verdicts: Vec<PlanVerdict> = Vec::new();
    let mut i: usize = 0;
    while i < batch.plan_count
        invariant
            i <= batch.plan_count,
            verdicts@ =~= Seq::new(i as nat, |i: int| PlanVerdict::Failed(reason)),
        decreases batch.plan_count - i,
    {
        verdicts.push(PlanVerdict::Failed(reason));
        i += 1;
    }
    let next = Batch { refused: true, stage: BatchStage::Ended, verdicts, ..batch };
    assert(next@ =~= refused(batch@, reason, record).0);
    (next, BatchAction::RefuseAll { reason, record })
}

/// Turns to a plan.
fn turn_to(batch: Batch, plan: usize) -> (r: (Batch, BatchAction))
    ensures
        (r.0@, r.1) == turned_to(batch@, plan as int),
{
    if plan < batch.plan_count {
        let stage = BatchStage::Running { plan, stage: PlanStage::Checking };
        (Batch { stage, ..batch }, BatchAction::Look { plan })
    } else {
        (Batch { stage: BatchStage::Ended, ..batch }, BatchAction::Finish)
    }
}

/// Whether an event can happen at a stage of a plan.
fn does_fit(stage: PlanStage, event: PlanEvent) -> (r: bool)
    ensures
        r == fits(stage, event),
{
    match stage {
        PlanStage::Checking => match event {
            PlanEvent::Checked(_) => true,
            _ => false,
        },
        PlanStage::Renaming => match event {
            PlanEvent::Renamed(_) => true,
            _ => false,
        },
        PlanStage::Updating => match event {
            PlanEvent::Updated => true,
            PlanEvent::UpdateFailed { .. } => true,
            _ => false,
        },
        PlanStage::RollingBack { .. } => match event {
            PlanEvent::RolledBack(_) => true,
            _ => false,
        },
        PlanStage::Ended => false,
    }
}

/// Takes the plans of an artist one step on.
pub fn execute_folder_renames_with_backup(batch: Batch, event: BatchEvent) -> (r: (
    Batch,
    BatchAction,
))
    requires
        batch@.wf(),
    ensures
        (r.0@, r.1) == next_batch(batch@, event),
        r.0@.wf(),
{
    proof {
        lemma_batches_stay_sound(batch@, event);
    }
    match (batch.stage, event) {
        (BatchStage::Begin, BatchEvent::Begin { authorized }) => if !authorized {
            let record = !batch.dry_run;
            refuse_all(batch, FailureReason::OutsideArtist, record)
        } else if !batch.dry_run && batch.plan_count > 0 && !batch.has_backup {
            (Batch { stage: BatchStage::BackingUp, ..batch }, BatchAction::TakeBackup)
        } else {
            turn_to(batch, 0)
        },
        (BatchStage::BackingUp, BatchEvent::BackedUp(done)) => if done {
            turn_to(Batch { has_backup: true, ..batch }, 0)
        } else {
            refuse_all(batch, FailureReason::BackupFailed, true)
        },
        (BatchStage::Running { plan, stage }, BatchEvent::Plan(e)) => if !does_fit(stage, e) {
            (batch, BatchAction::Ignore)
        } else {
            let (next, action) = step_plan(stage, e, batch.dry_run);
            match action {
                PlanAction::Finish { verdict, record } => {
                    let mut verdicts = batch.verdicts;
                    verdicts.push(verdict);
                    (
                        Batch {
                            dry_run: batch.dry_run,
                            plan_count: batch.plan_count,
                            has_backup: batch.has_backup,
                            refused: batch.refused,
                            stage: BatchStage::Settling { plan },
                            verdicts,
                        },
                        BatchAction::Settle { plan, verdict, record },
                    )
                },
                _ => (
                    Batch { stage: BatchStage::Running { plan, stage: next }, ..batch },
                    BatchAction::Perform { plan, action },
                ),
            }
        },
        (BatchStage::Settling { plan }, BatchEvent::Settled) => turn_to(batch, plan + 1),
        _ => (batch, BatchAction::Ignore),
    }
}

/// A step keeps a batch sound.
proof fn lemma_batches_stay_sound(b: BatchView, event: BatchEvent)
    requires
        b.wf(),
    ensures
        next_batch(b, event).0.wf(),
{
}

/// A batch behind events, one after the other.
pub open spec fn batch_run(start: BatchView, events: Seq<BatchEvent>) -> BatchView
    decreases events.len(),
{
    if events.len() == 0 {
        start
    } else {
        next_batch(batch_run(start, events.drop_last()), events.last()).0
    }
}

/// What stays the same in a batch, and where its backup comes from.
proof fn lemma_batch_run(
    dry_run: bool,
    plan_count: usize,
    has_backup: bool,
    events: Seq<BatchEvent>,
)
    ensures
        ({
            let b = batch_run(fresh_batch(dry_run, plan_count, has_backup), events);
            &&& b.wf()
            &&& b.dry_run == dry_run
            &&& b.plan_count == plan_count
            &&& b.has_backup ==> has_backup || events.contains(BatchEvent::BackedUp(true))
        }),
    decreases events.len(),
{
    if events.len() > 0 {
        let before = events.drop_last();
        lemma_batch_run(dry_run, plan_count, has_backup, before);
        let b = batch_run(fresh_batch(dry_run, plan_count, has_backup), before);
        lemma_batches_stay_sound(b, events.last());
        if before.contains(BatchEvent::BackedUp(true)) {
            let i = before.index_of(BatchEvent::BackedUp(true));
            assert(events[i] == BatchEvent::BackedUp(true));
        }
        assert(events[events.len() - 1] == events.last());
    }
}

/// Whatever happens to a batch, nothing is done to a folder or to the database
/// unless a backup was given or made before, and never in a dry run, which takes no
/// backup either.
pub proof fn nothing_is_changed_without_a_backup(
    dry_run: bool,
    plan_count: usize,
    has_backup: bool,
    events: Seq<BatchEvent>,
    event: BatchEvent,
)
    ensures
        ({
            let b = batch_run(fresh_batch(dry_run, plan_count, has_backup), events);
            let action = next_batch(b, event).1;
            &&& action is Perform ==> !dry_run && (has_backup || events.contains(
                BatchEvent::BackedUp(true),
            ))
            &&& action is TakeBackup ==> !dry_run && !has_backup
        }),
{
    lemma_batch_run(dry_run, plan_count, has_backup, events);
    lemma_backup_is_kept(dry_run, plan_count, has_backup, events);
}

/// A backup is never forgotten.
proof fn lemma_backup_is_kept(
    dry_run: bool,
    plan_count: usize,
    has_backup: bool,
    events: Seq<BatchEvent>,
)
    ensures
        has_backup ==> batch_run(
            fresh_batch(dry_run, plan_count, has_backup),
            events,
        ).has_backup,
    decreases events.len(),
{
    if events.len() > 0 {
        lemma_backup_is_kept(dry_run, plan_count, has_backup, events.drop_last());
    }
}

/// A batch that has ended has one verdict on each of its plans, and a verdict that
/// was given is never changed: a plan that fails neither stops the others nor is it
/// touched by them.
pub proof fn batches_judge_every_plan(
    dry_run: bool,
    plan_count: usize,
    has_backup: bool,
    events: Seq<BatchEvent>,
    event: BatchEvent,
)
    ensures
        ({
            let b = batch_run(fresh_batch(dry_run, plan_count, has_backup), events);
            let after = next_batch(b, event).0;
            &&& b.stage == BatchStage::Ended ==> b.verdicts.len() == plan_count
            &&& b.verdicts.len() <= after.verdicts.len()
            &&& forall|i: int|
                0 <= i < b.verdicts.len() ==> #[trigger] after.verdicts[i] == b.verdicts[i]
        }),
{
    lemma_batch_run(dry_run, plan_count, has_backup, events);
}

/// Where the artist's folder is not authorized, or the backup fails, every plan of
/// the batch fails for that reason and nothing is done.
pub proof fn refused_batches_fail_as_a_whole(dry_run: bool, plan_count: usize, has_backup: bool)
    ensures
        ({
            let start = fresh_batch(dry_run, plan_count, has_backup);
            let (b, action) = next_batch(start, BatchEvent::Begin { authorized: false });
            &&& action == BatchAction::RefuseAll {
                reason: FailureReason::OutsideArtist,
                record: !dry_run,
            }
            &&& b.stage == BatchStage::Ended
            &&& b.refused
            &&& forall|i: int|
                0 <= i < plan_count ==> #[trigger] b.verdicts[i] == PlanVerdict::Failed(
                    FailureReason::OutsideArtist,
                )
        }),
        ({
            let start = fresh_batch(dry_run, plan_count, has_backup);
            let (waiting, first) = next_batch(start, BatchEvent::Begin { authorized: true });
            let (b, action) = next_batch(waiting, BatchEvent::BackedUp(false));
            first is TakeBackup ==> {
                &&& action == BatchAction::RefuseAll {
                    reason: FailureReason::BackupFailed,
                    record: true,
                }
                &&& b.stage == BatchStage::Ended
                &&& b.refused
                &&& forall|i: int|
                    0 <= i < plan_count ==> #[trigger] b.verdicts[i] == PlanVerdict::Failed(
                        FailureReason::BackupFailed,
                    )
            }
        }),
{
}

/// How far an automatic run has come.
#[derive(Clone, Copy, PartialEq, Eq, Debug, Structural)]
pub enum AutoStage {
    /// Nothing was done yet.
    Begin,
    /// The database is being backed up.
    BackingUp,
    /// The plans of an artist are being carried out.
    Running {
        /// The place of the artist.
        place: usize,
    },
    /// The run is over.
    Ended,
}

/// An automatic run over artists with plans.
#[derive(Debug)]
pub struct AutoRun {
    /// The artists with plans.
    pub executable: Vec<i64>,
    /// How far the run has come.
    pub stage: AutoStage,
    /// What became of the artists so far.
    pub outcomes: Vec<ArtistOutcome>,
}

/// The value of an [`AutoRun`].
#[verifier::ext_equal]
pub struct AutoView {
    /// The artists with plans.
    pub executable: Seq<i64>,
    /// How far the run has come.
    pub stage: AutoStage,
    /// What became of the artists so far.
    pub outcomes: Seq<ArtistOutcome>,
}

impl View for AutoRun {
    type V = AutoView;

    open spec fn view(&self) -> AutoView {
        AutoView {
            executable: self.executable@,
            stage: self.stage,
            outcomes: self.outcomes@,
        }
    }
}

/// What happened to an automatic run.
#[derive(Debug)]
pub enum AutoEvent {
    /// The artists with plans are known.
    Begin,
    /// The backup was tried.
    BackedUp(bool),
    /// The plans of an artist were dealt with.
    Artist(ArtistOutcome),
}

/// What is to be done next for an automatic run.
#[derive(Clone, Copy, PartialEq, Eq, Debug, Structural)]
pub enum AutoAction {
    /// Back the database up.
    TakeBackup,
    /// Carry out the plans of an artist, with the backup.
    Run {
        /// The artist.
        artist: i64,
    },
    /// Refuse every plan of every artist, because there is no backup. The run is over.
    RefuseAll,
    /// Sum the run up: it is over.
    Finish,
    /// Nothing: the event does not belong here.
    Ignore,
}

impl AutoView {
    /// Whether a run is sound: artists are taken one after the other.
    pub open spec fn wf(self) -> bool {
        match self.stage {
            AutoStage::Begin => self.outcomes.len() == 0,
            AutoStage::BackingUp => self.outcomes.len() == 0 && self.executable.len() > 0,
            AutoStage::Running { place } => place < self.executable.len() && self.outcomes.len()
                == place,
            AutoStage::Ended => self.outcomes.len() == 0 || self.outcomes.len()
                == self.executable.len(),
        }
    }
}

/// A run before anything was done.
pub open spec fn fresh_run(executable: Seq<i64>) -> AutoView {
    AutoView { executable, stage: AutoStage::Begin, outcomes: Seq::empty() }
}

/// The run behind an event, and what is to be done: one backup in front of all, and
/// then one artist after the other, whatever becomes of the others.
pub open spec fn next_auto(a: AutoView, event: AutoEvent) -> (AutoView, AutoAction) {
    match (a.stage, event) {
        (AutoStage::Begin, AutoEvent::Begin) => if a.executable.len() == 0 {
            (AutoView { stage: AutoStage::Ended, ..a }, AutoAction::Finish)
        } else {
            (AutoView { stage: AutoStage::BackingUp, ..a }, AutoAction::TakeBackup)
        },
        (AutoStage::BackingUp, AutoEvent::BackedUp(done)) => if done {
            (
                AutoView { stage: AutoStage::Running { place: 0 }, ..a },
                AutoAction::Run { artist: a.executable[0] },
            )
        } else {
            (AutoView { stage: AutoStage::Ended, ..a }, AutoAction::RefuseAll)
        },
        (AutoStage::Running { place }, AutoEvent::Artist(outcome)) => {
            let outcomes = a.outcomes.push(outcome);
            if place + 1 < a.executable.len() {
                (
                    AutoView {
                        stage: AutoStage::Running { place: (place + 1) as usize },
                        outcomes,
                        ..a
                    },
                    AutoAction::Run { artist: a.executable[place + 1] },
                )
            } else {
                (AutoView { stage: AutoStage::Ended, outcomes, ..a }, AutoAction::Finish)
            }
        },
        _ => (a, AutoAction::Ignore),
    }
}

/// An automatic run before anything was done.
pub fn start_run(executable: Vec<i64>) -> (r: AutoRun)
    ensures
        r@ == fresh_run(executable@),
        r@.wf(),
{
    let outcomes: Vec<ArtistOutcome> = Vec::new();
    let r = AutoRun { executable, stage: AutoStage::Begin, outcomes };
    assert(r@ =~= fresh_run(executable@));
    r
}

/// Takes an automatic run one step on.
pub fn run_folder_rename_auto_after_full_scan(run: AutoRun, event: AutoEvent) -> (r: (
    AutoRun,
    AutoAction,
))
    requires
        run@.wf(),
    ensures
        (r.0@, r.1) == next_auto(run@, event),
        r.0@.wf(),
{
    match (run.stage, event) {
        (AutoStage::Begin, AutoEvent::Begin) => if run.executable.len() == 0 {
            (AutoRun { stage: AutoStage::Ended, ..run }, AutoAction::Finish)
        } else {
            (AutoRun { stage: AutoStage::BackingUp, ..run }, AutoAction::TakeBackup)
        },
        (AutoStage::BackingUp, AutoEvent::BackedUp(done)) => if done {
            let artist = run.executable[0];
            (
                AutoRun { stage: AutoStage::Running { place: 0 }, ..run },
                AutoAction::Run { artist },
            )
        } else {
            (AutoRun { stage: AutoStage::Ended, ..run }, AutoAction::RefuseAll)
        },
        (AutoStage::Running { place }, AutoEvent::Artist(outcome)) => {
            let mut outcomes = run.outcomes;
            outcomes.push(outcome);
            let count: usize = run.executable.len();
            if place + 1 < count {
                let artist = run.executable[place + 1];
                let stage = AutoStage::Running { place: place + 1 };
                (AutoRun { executable: run.executable, stage, outcomes }, AutoAction::Run { artist })
            } else {
                (
                    AutoRun { executable: run.executable, stage: AutoStage::Ended, outcomes },
                    AutoAction::Finish,
                )
            }
        },
        _ => (run, AutoAction::Ignore),
    }
}

/// A run behind events, one after the other.
pub open spec fn auto_run(start: AutoView, events: Seq<AutoEvent>) -> AutoView
    decreases events.len(),
{
    if events.len() == 0 {
        start
    } else {
        next_auto(auto_run(start, events.drop_last()), events.last()).0
    }
}

/// What holds of every run.
proof fn lemma_auto_run(executable: Seq<i64>, events: Seq<AutoEvent>)
    requires
        executable.len() <= usize::MAX,
    ensures
        ({
            let a = auto_run(fresh_run(executable), events);
            &&& a.wf()
            &&& a.executable == executable
            &&& a.stage is Running || a.outcomes.len() > 0 ==> events.contains(
                AutoEvent::BackedUp(true),
            )
        }),
    decreases events.len(),
{
    if events.len() > 0 {
        let before = events.drop_last();
        lemma_auto_run(executable, before);
        if before.contains(AutoEvent::BackedUp(true)) {
            let i = before.index_of(AutoEvent::BackedUp(true));
            assert(events[i] == AutoEvent::BackedUp(true));
        }
        assert(events[events.len() - 1] == events.last());
    }
}

/// Whatever happens to an automatic run, no artist is dealt with unless the database
/// was backed up before; the artists are dealt with in their order, each once; and a
/// run that is summed up has dealt with all of them.
pub proof fn automatic_runs_take_every_artist(
    executable: Seq<i64>,
    events: Seq<AutoEvent>,
    event: AutoEvent,
)
    requires
        executable.len() <= usize::MAX,
    ensures
        ({
            let a = auto_run(fresh_run(executable), events);
            let (after, action) = next_auto(a, event);
            &&& action is Run ==> events.push(event).contains(AutoEvent::BackedUp(true))
            &&& action matches AutoAction::Run { artist } ==> after.outcomes.len()
                < executable.len() && artist == executable[after.outcomes.len() as int]
            &&& action is Finish ==> after.outcomes.len() == executable.len()
            &&& action is RefuseAll ==> after.outcomes.len() == 0
        }),
{
    lemma_auto_run(executable, events);
    let all = events.push(event);
    if events.contains(AutoEvent::BackedUp(true)) {
        let i = events.index_of(AutoEvent::BackedUp(true));
        assert(all[i] == AutoEvent::BackedUp(true));
    }
    assert(all[events.len() as int] == event);
}

/// What an answer says of a plan that was refused with all others.
pub open spec fn refusal_tree(
    artist_id: Option<i64>,
    plan_id: i64,
    reason: FailureReason,
    source: Seq<char>,
    target: Seq<char>,
    error: Option<Seq<char>>,
) -> JsonTree {
    let owner = match artist_id {
        Some(id) => seq![("artist_id"@, JsonTree::Int(id))],
        None => Seq::empty(),
    };
    let told = match error {
        Some(text) => seq![("error"@, JsonTree::Text(text))],
        None => Seq::empty(),
    };
    JsonTree::Object(
        owner + seq![
            ("plan_id"@, JsonTree::Int(plan_id)),
            ("status"@, JsonTree::Text("error"@)),
            ("reason"@, JsonTree::Text(reason.spelled())),
            ("source"@, JsonTree::Text(source)),
            ("target"@, JsonTree::Text(target)),
        ] + told,
    )
}

/// The optional text of an optional string.
pub open spec fn told_text(text: Option<&str>) -> Option<Seq<char>> {
    match text {
        Some(t) => Some(t@),
        None => None,
    }
}

/// What an answer says of a plan that was refused with all others.
pub fn refusal_row(
    artist_id: Option<i64>,
    plan_id: i64,
    reason: FailureReason,
    source: &str,
    target: &str,
    error: Option<&str>,
) -> (r: Json)
    ensures
        r.tree() == refusal_tree(
            artist_id,
            plan_id,
            reason,
            source@,
            target@,
            told_text(error),
        ),
{
    let mut members: Vec<(String, Json)> = Vec::new();
    if let Some(id) = artist_id {
        members.push(entry("artist_id", Json::Int(id)));
    }
    members.push(entry("plan_id", Json::Int(plan_id)));
    members.push(text_member("status", "error"));
    members.push(text_member("reason", reason.code()));
    members.push(text_member("source", source));
    members.push(text_member("target", target));
    if let Some(text) = error {
        members.push(text_member("error", text));
    }
    assert(entry_views(members@) =~= refusal_tree(
        artist_id,
        plan_id,
        reason,
        source@,
        target@,
        told_text(error),
    )->Object_0);
    object(members)
}

/// What an answer says of a plan with a verdict. `error` is what went wrong with the
/// rename or the database, `rollback_error` what went wrong with the rename back.
pub open spec fn result_tree(
    plan_id: i64,
    verdict: PlanVerdict,
    source: Seq<char>,
    target: Seq<char>,
    error: Seq<char>,
    rollback_error: Seq<char>,
) -> JsonTree {
    let head = seq![
        ("plan_id"@, JsonTree::Int(plan_id)),
        ("status"@, JsonTree::Text(verdict.spelled())),
    ];
    JsonTree::Object(
        match verdict {
            PlanVerdict::Failed(reason) => head.push(
                ("reason"@, JsonTree::Text(reason.spelled())),
            ) + match reason {
                FailureReason::RollbackFailed => seq![
                    (
                        "error"@,
                        JsonTree::Object(
                            seq![
                                ("error"@, JsonTree::Text(error)),
                                ("rollback_error"@, JsonTree::Text(rollback_error)),
                            ],
                        ),
                    ),
                ],
                FailureReason::ExecutionFailed => seq![("error"@, JsonTree::Text(error))],
                FailureReason::DbUpdateFailed => seq![("error"@, JsonTree::Text(error))],
                FailureReason::StaleState => seq![("error"@, JsonTree::Text(error))],
                _ => Seq::empty(),
            },
            _ => head.push(("source"@, JsonTree::Text(source))).push(
                ("target"@, JsonTree::Text(target)),
            ),
        },
    )
}

/// What an answer says of a plan with a verdict.
pub fn result_row(
    plan_id: i64,
    verdict: PlanVerdict,
    source: &str,
    target: &str,
    error: &str,
    rollback_error: &str,
) -> (r: Json)
    ensures
        r.tree() == result_tree(plan_id, verdict, source@, target@, error@, rollback_error@),
{
    let mut members: Vec<(String, Json)> = Vec::new();
    members.push(entry("plan_id", Json::Int(plan_id)));
    members.push(text_member("status", verdict.status()));
    match verdict {
        PlanVerdict::Failed(reason) => {
            members.push(text_member("reason", reason.code()));
            match reason {
                FailureReason::RollbackFailed => {
                    let mut both: Vec<(String, Json)> = Vec::new();
                    both.push(text_member("error", error));
                    both.push(text_member("rollback_error", rollback_error));
                    assert(entry_views(both@) =~= seq![
                        ("error"@, JsonTree::Text(error@)),
                        ("rollback_error"@, JsonTree::Text(rollback_error@)),
                    ]);
                    members.push(entry("error", object(both)));
                },
                FailureReason::ExecutionFailed => {
                    members.push(text_member("error", error));
                },
                FailureReason::DbUpdateFailed => {
                    members.push(text_member("error", error));
                },
                FailureReason::StaleState => {
                    members.push(text_member("error", error));
                },
                _ => {},
            }
        },
        _ => {
            members.push(text_member("source", source));
            members.push(text_member("target", target));
        },
    }
    assert(entry_views(members@) =~= result_tree(
        plan_id,
        verdict,
        source@,
        target@,
        error@,
        rollback_error@,
    )->Object_0);
    object(members)
}

/// The answer of a batch: whether it was refused as a whole, its backup unless it was,
/// and what became of its plans.
pub fn batch_answer(batch: &Batch, backup: &str, results: Vec<Json>) -> (r: Json)
    ensures
        r.tree() == JsonTree::Object(
            seq![
                ("ok"@, JsonTree::Bool(!batch.refused)),
                ("dry_run"@, JsonTree::Bool(batch.dry_run)),
                (
                    "backup"@,
                    JsonTree::Text(
                        if batch.refused {
                            Seq::empty()
                        } else {
                            backup@
                        },
                    ),
                ),
                ("results"@, JsonTree::Array(doc_trees(results@))),
            ],
        ),
{
    let ghost rows = doc_trees(results@);
    let mut members: Vec<(String, Json)> = Vec::new();
    members.push(entry("ok", Json::Bool(!batch.refused)));
    members.push(entry("dry_run", Json::Bool(batch.dry_run)));
    let told = if batch.refused {
        ""
    } else {
        backup
    };
    proof {
        reveal_strlit("");
    }
    assert(""@ =~= Seq::<char>::empty());
    members.push(text_member("backup", told));
    members.push(entry("results", array(results)));
    assert(entry_views(members@) =~= seq![
        ("ok"@, JsonTree::Bool(!batch.refused)),
        ("dry_run"@, JsonTree::Bool(batch.dry_run)),
        ("backup"@, JsonTree::Text(told@)),
        ("results"@, JsonTree::Array(rows)),
    ]);
    object(members)
}

/// What an answer says of the artists that were passed over: how many they are and
/// why, where there are any.
pub open spec fn skipped_tree(count: u64) -> JsonTree {
    JsonTree::Array(
        if count > 0 {
            seq![
                JsonTree::Object(
                    seq![
                        ("reason"@, JsonTree::Text("no_confirmed_plans"@)),
                        ("count"@, JsonTree::Number(decimal(count as nat))),
                    ],
                ),
            ]
        } else {
            Seq::empty()
        },
    )
}

/// What an answer says of the artists that were passed over.
fn skipped_list(count: u64) -> (r: Json)
    ensures
        r.tree() == skipped_tree(count),
{
    let mut list: Vec<Json> = Vec::new();
    if count > 0 {
        let mut members: Vec<(String, Json)> = Vec::new();
        members.push(entry("reason", Json::Text("no_confirmed_plans".to_owned())));
        members.push(entry("count", number(count)));
        let told = Json::Object(members);
        assert(told.tree()->Object_0 =~= seq![
            ("reason"@, JsonTree::Text("no_confirmed_plans"@)),
            ("count"@, JsonTree::Number(decimal(count as nat))),
        ]);
        list.push(told);
    }
    let r = Json::Array(list);
    assert(r.tree()->Array_0 =~= skipped_tree(count)->Array_0);
    r
}

/// The members of the answer of an automatic run: the counts are the numbers of its
/// actions and its failures, and the errors are the failures once more.
pub open spec fn auto_members(
    status: Seq<char>,
    skipped: u64,
    backup: Seq<char>,
    actions: Seq<JsonTree>,
    failed: Seq<JsonTree>,
) -> Seq<(Seq<char>, JsonTree)> {
    seq![
        ("ok"@, JsonTree::Bool(true)),
        ("status"@, JsonTree::Text(status)),
        ("scope"@, JsonTree::Text("full"@)),
        ("artist_id"@, JsonTree::Null),
        ("executed_count"@, JsonTree::Number(decimal(actions.len()))),
        ("skipped_count"@, JsonTree::Number(decimal(skipped as nat))),
        ("failed_count"@, JsonTree::Number(decimal(failed.len()))),
        ("skipped"@, skipped_tree(skipped)),
        ("backup"@, JsonTree::Text(backup)),
        ("actions"@, JsonTree::Array(actions)),
        ("failed"@, JsonTree::Array(failed)),
        ("errors"@, JsonTree::Array(failed)),
    ]
}

/// The members of the answer of an automatic run.
fn make_members(
    status: &str,
    skipped: u64,
    backup: &str,
    actions: Vec<Json>,
    failed: Vec<Json>,
) -> (r: Vec<(String, Json)>)
    ensures
        entry_views(r@) == auto_members(
            status@,
            skipped,
            backup@,
            doc_trees(actions@),
            doc_trees(failed@),
        ),
{
    let ghost done = doc_trees(actions@);
    let ghost lost = doc_trees(failed@);
    let mut members: Vec<(String, Json)> = Vec::new();
    members.push(entry("ok", Json::Bool(true)));
    members.push(text_member("status", status));
    members.push(text_member("scope", "full"));
    members.push(entry("artist_id", Json::Null));
    members.push(entry("executed_count", number(actions.len() as u64)));
    members.push(entry("skipped_count", number(skipped)));
    members.push(entry("failed_count", number(failed.len() as u64)));
    members.push(entry("skipped", skipped_list(skipped)));
    members.push(text_member("backup", backup));
    members.push(entry("actions", array(actions)));
    let errors = duplicates(&failed);
    members.push(entry("failed", array(failed)));
    members.push(entry("errors", array(errors)));
    assert(entry_views(members@) =~= auto_members(status@, skipped, backup@, done, lost));
    members
}

/// What an answer says of the plans of an artist: those that were carried out, or the
/// others.
pub open spec fn result_rows(results: Seq<PlanResult>, done: bool) -> Seq<JsonTree>
    decreases results.len(),
{
    if results.len() == 0 {
        Seq::empty()
    } else {
        let before = result_rows(results.drop_last(), done);
        if (results.last().verdict == PlanVerdict::Executed) == done {
            before.push(results.last().row.tree())
        } else {
            before
        }
    }
}

/// What the answer of an automatic run says: of the plans that were carried out, or of
/// the plans and the artists that failed.
pub open spec fn outcome_rows(outcomes: Seq<ArtistOutcome>, done: bool) -> Seq<JsonTree>
    decreases outcomes.len(),
{
    if outcomes.len() == 0 {
        Seq::empty()
    } else {
        outcome_rows(outcomes.drop_last(), done) + match outcomes.last() {
            ArtistOutcome::Plans(results) => result_rows(results@, done),
            ArtistOutcome::Error(row) => if done {
                Seq::empty()
            } else {
                seq![row.tree()]
            },
        }
    }
}

/// The plans that were carried out and the others are as many as were counted.
proof fn lemma_rows_are_counted(results: Seq<PlanResult>)
    ensures
        result_rows(results, true).len() == executed_in(results),
        result_rows(results, false).len() == results.len() - executed_in(results),
    decreases results.len(),
{
    if results.len() > 0 {
        lemma_rows_are_counted(results.drop_last());
    }
}

/// The answer of an automatic run tells of every plan that was counted: there are as
/// many actions as plans that were carried out, and as many failures as plans, or
/// artists as a whole, that failed.
pub proof fn answers_tell_of_every_plan(outcomes: Seq<ArtistOutcome>)
    ensures
        outcome_rows(outcomes, true).len() == tallied(outcomes).0,
        outcome_rows(outcomes, false).len() == tallied(outcomes).1,
    decreases outcomes.len(),
{
    if outcomes.len() > 0 {
        answers_tell_of_every_plan(outcomes.drop_last());
        match outcomes.last() {
            ArtistOutcome::Plans(results) => {
                lemma_rows_are_counted(results@);
            },
            ArtistOutcome::Error(_) => {},
        }
    }
}

/// Puts what is said of the plans of an artist behind what is said of others.
fn gather_results(results: &[PlanResult], actions: &mut Vec<Json>, failed: &mut Vec<Json>)
    ensures
        doc_trees(final(actions)@) == doc_trees(old(actions)@) + result_rows(results@, true),
        doc_trees(final(failed)@) == doc_trees(old(failed)@) + result_rows(results@, false),
{
    let ghost done = doc_trees(actions@);
    let ghost lost = doc_trees(failed@);
    let mut i: usize = 0;
    assert(done + Seq::<JsonTree>::empty() =~= done);
    assert(lost + Seq::<JsonTree>::empty() =~= lost);
    while i < results.len()
        invariant
            i <= results@.len(),
            doc_trees(actions@) == done + result_rows(results@.take(i as int), true),
            doc_trees(failed@) == lost + result_rows(results@.take(i as int), false),
        decreases results@.len() - i,
    {
        let ghost now = results@.take(i as int + 1);
        assert(now.drop_last() =~= results@.take(i as int));
        let row = results[i].row.duplicate();
        let ghost tree = row.tree();
        let ghost (a, f) = (doc_trees(actions@), doc_trees(failed@));
        match results[i].verdict {
            PlanVerdict::Executed => {
                actions.push(row);
                assert(doc_trees(actions@) =~= a.push(tree));
            },
            _ => {
                failed.push(row);
                assert(doc_trees(failed@) =~= f.push(tree));
            },
        }
        assert(doc_trees(actions@) =~= done + result_rows(now, true));
        assert(doc_trees(failed@) =~= lost + result_rows(now, false));
        i += 1;
    }
    assert(results@.take(results@.len() as int) =~= results@);
}

/// The answer of an automatic run, besides its time: its status and its counts are
/// those of its actions and its failures. `auto_named` is how many drafts got their
/// target before the run.
pub fn auto_answer(
    outcomes: &[ArtistOutcome],
    skipped: u64,
    backup: &str,
    auto_named: u64,
) -> (r: Json)
    ensures
        r.tree() == JsonTree::Object(
            auto_members(
                auto_status(tallied(outcomes@).0, tallied(outcomes@).1, skipped as int).spelled(),
                skipped,
                backup@,
                outcome_rows(outcomes@, true),
                outcome_rows(outcomes@, false),
            ).push(("auto_named"@, JsonTree::Number(decimal(auto_named as nat)))),
        ),
{
    let mut actions: Vec<Json> = Vec::new();
    let mut failed: Vec<Json> = Vec::new();
    let mut i: usize = 0;
    assert(doc_trees(actions@) =~= outcome_rows(outcomes@.take(0), true));
    assert(doc_trees(failed@) =~= outcome_rows(outcomes@.take(0), false));
    while i < outcomes.len()
        invariant
            i <= outcomes@.len(),
            doc_trees(actions@) == outcome_rows(outcomes@.take(i as int), true),
            doc_trees(failed@) == outcome_rows(outcomes@.take(i as int), false),
        decreases outcomes@.len() - i,
    {
        let ghost now = outcomes@.take(i as int + 1);
        assert(now.drop_last() =~= outcomes@.take(i as int));
        let ghost (a, f) = (doc_trees(actions@), doc_trees(failed@));
        match &outcomes[i] {
            ArtistOutcome::Plans(results) => {
                gather_results(results, &mut actions, &mut failed);
            },
            ArtistOutcome::Error(row) => {
                failed.push(row.duplicate());
                assert(doc_trees(failed@) =~= f + seq![row.tree()]);
                assert(a + Seq::<JsonTree>::empty() =~= a);
            },
        }
        i += 1;
    }
    assert(outcomes@.take(outcomes@.len() as int) =~= outcomes@);
    proof {
        answers_tell_of_every_plan(outcomes@);
    }
    let status = status_of(actions.len(), failed.len(), skipped);
    let mut members = make_members(status.name(), skipped, backup, actions, failed);
    let ghost base = entry_views(members@);
    members.push(entry("auto_named", number(auto_named)));
    assert(entry_views(members@) =~= base.push(
        ("auto_named"@, JsonTree::Number(decimal(auto_named as nat))),
    ));
    object(members)
}

/// What an answer says of an artist that could not be dealt with.
pub fn artist_failure(artist_id: i64, auto_confirmed: u64, error: &str) -> (r: Json)
    ensures
        r.tree() == JsonTree::Object(
            seq![
                ("artist_id"@, JsonTree::Int(artist_id)),
                ("auto_confirmed"@, JsonTree::Number(decimal(auto_confirmed as nat))),
                ("error"@, JsonTree::Text(error@)),
            ],
        ),
{
    let mut members: Vec<(String, Json)> = Vec::new();
    members.push(entry("artist_id", Json::Int(artist_id)));
    members.push(entry("auto_confirmed", number(auto_confirmed)));
    members.push(text_member("error", error));
    assert(entry_views(members@) =~= seq![
        ("artist_id"@, JsonTree::Int(artist_id)),
        ("auto_confirmed"@, JsonTree::Number(decimal(auto_confirmed as nat))),
        ("error"@, JsonTree::Text(error@)),
    ]);
    object(members)
}

/// The plans of an artist put aside because there is no backup.
pub open spec fn artist_refused(plans: Seq<QueuedView>, artist_id: i64) -> Seq<QueuedView> {
    plans.map_values(
        |p: QueuedView|
            if due_of(artist_id)(p) {
                QueuedView { marks: put_aside(p.marks), ..p }
            } else {
                p
            },
    )
}

/// The plans of artists put aside because there is no backup, and what is said of them.
pub open spec fn run_refused(
    plans: Seq<QueuedView>,
    executable: Seq<i64>,
    error: Seq<char>,
) -> (Seq<QueuedView>, Seq<JsonTree>)
    decreases executable.len(),
{
    if executable.len() == 0 {
        (plans, Seq::empty())
    } else {
        let (before, rows) = run_refused(plans, executable.drop_last(), error);
        let artist_id = executable.last();
        (
            artist_refused(before, artist_id),
            rows + kept(before, due_of(artist_id)).map_values(
                |p: QueuedView|
                    refusal_tree(
                        Some(artist_id),
                        p.id,
                        FailureReason::BackupFailed,
                        p.source_folder,
                        p.target_folder,
                        Some(error),
                    ),
            ),
        )
    }
}

/// Puts the plans of an artist aside.
fn refuse_artist(plans: &mut Vec<QueuedPlan>, artist_id: i64)
    ensures
        views(final(plans)@) == artist_refused(views(old(plans)@), artist_id),
{
    let ghost model = |p: QueuedView|
        if due_of(artist_id)(p) {
            QueuedView { marks: put_aside(p.marks), ..p }
        } else {
            p
        };
    let change = |p: &QueuedPlan| -> (o: QueuedPlan)
        ensures
            o@ == model(p@),
        {
            let reason = PlanVerdict::Failed(FailureReason::BackupFailed);
            QueuedPlan {
                id: p.id,
                artist_id: p.artist_id,
                source_folder: p.source_folder.clone(),
                target_folder: p.target_folder.clone(),
                marks: if is_due(p, artist_id) {
                    plan_after(&p.marks, reason, true, 0)
                } else {
                    p.marks.duplicate()
                },
            }
        };
    *plans = map_rows(plans, change, Ghost(model));
}

/// Puts the plans of an automatic run aside because the database could not be backed
/// up, and says of each that it failed.
pub fn refuse_run(plans: &mut Vec<QueuedPlan>, executable: &[i64], error: &str) -> (r: Vec<Json>)
    ensures
        (views(final(plans)@), doc_trees(r@)) == run_refused(
            views(old(plans)@),
            executable@,
            error@,
        ),
{
    let ghost start = views(plans@);
    let mut rows: Vec<Json> = Vec::new();
    let mut i: usize = 0;
    assert(doc_trees(rows@) =~= Seq::<JsonTree>::empty());
    while i < executable.len()
        invariant
            i <= executable@.len(),
            (views(plans@), doc_trees(rows@)) == run_refused(
                start,
                executable@.take(i as int),
                error@,
            ),
        decreases executable@.len() - i,
    {
        let artist_id = executable[i];
        let ghost now = executable@.take(i as int + 1);
        assert(now.drop_last() =~= executable@.take(i as int));
        let ghost before = views(plans@);
        let ghost said = doc_trees(rows@);
        let ghost wanted = due_of(artist_id);
        let ghost tell = |p: QueuedView|
            refusal_tree(
                Some(artist_id),
                p.id,
                FailureReason::BackupFailed,
                p.source_folder,
                p.target_folder,
                Some(error@),
            );
        let mut k: usize = 0;
        assert(said + kept(before.take(0), wanted).map_values(tell) =~= said);
        while k < plans.len()
            invariant
                k <= plans@.len(),
                before == views(plans@),
                wanted == due_of(artist_id),
                tell == (|p: QueuedView|
                    refusal_tree(
                        Some(artist_id),
                        p.id,
                        FailureReason::BackupFailed,
                        p.source_folder,
                        p.target_folder,
                        Some(error@),
                    )),
                doc_trees(rows@) == said + kept(before.take(k as int), wanted).map_values(tell),
            decreases plans@.len() - k,
        {
            let plan = &plans[k];
            let ghost seen = before.take(k as int + 1);
            assert(seen.drop_last() =~= before.take(k as int));
            assert(seen.last() == plan@);
            let ghost so_far = doc_trees(rows@);
            if is_due(plan, artist_id) {
                let row = refusal_row(
                    Some(artist_id),
                    plan.id,
                    FailureReason::BackupFailed,
                    &plan.source_folder,
                    &plan.target_folder,
                    Some(error),
                );
                let ghost tree = row.tree();
                rows.push(row);
                assert(doc_trees(rows@) =~= so_far.push(tree));
                assert(tree == tell(plan@));
            }
            assert(doc_trees(rows@) =~= said + kept(seen, wanted).map_values(tell));
            k += 1;
        }
        assert(before.take(before.len() as int) =~= before);
        refuse_artist(plans, artist_id);
        i += 1;
    }
    assert(executable@.take(executable@.len() as int) =~= executable@);
    rows
}

/// The answer of an automatic run that could not back the database up, besides its
/// time: it failed, and so did every plan.
pub fn refused_run_answer(skipped: u64, failed: Vec<Json>) -> (r: Json)
    ensures
        r.tree() == JsonTree::Object(
            auto_members("failed"@, skipped, ""@, Seq::empty(), doc_trees(failed@)),
        ),
{
    let actions: Vec<Json> = Vec::new();
    assert(doc_trees(actions@) =~= Seq::<JsonTree>::empty());
    object(make_members("failed", skipped, "", actions, failed))
}

/// An automatic run without a backup retries none of its plans: every plan of its
/// artists that was due is put aside, and every other stays as it is.
pub proof fn refused_runs_put_plans_aside(
    plans: Seq<QueuedView>,
    executable: Seq<i64>,
    error: Seq<char>,
    i: int,
)
    requires
        0 <= i < plans.len(),
    ensures
        run_refused(plans, executable, error).0.len() == plans.len(),
        run_refused(plans, executable, error).0[i] == (if due()(plans[i]) && executable.contains(
            plans[i].artist_id,
        ) {
            QueuedView { marks: put_aside(plans[i].marks), ..plans[i] }
        } else {
            plans[i]
        }),
    decreases executable.len(),
{
    reveal_strlit("manual_review");
    reveal_strlit("confirmed");
    assert("manual_review"@.len() == 13 && "confirmed"@.len() == 9);
    if executable.len() > 0 {
        let front = executable.drop_last();
        refused_runs_put_plans_aside(plans, front, error, i);
        let artist_id = plans[i].artist_id;
        assert(executable[executable.len() - 1] == executable.last());
        if front.contains(artist_id) {
            let k = front.index_of(artist_id);
            assert(executable[k] == artist_id);
        } else if executable.contains(artist_id) {
            let k = executable.index_of(artist_id);
            if k < front.len() {
                assert(front[k] == artist_id);
            }
        }
    }
}

/// Why an automatic run does nothing.
#[derive(Clone, Copy, PartialEq, Eq, Debug, Structural)]
pub enum IdleReason {
    /// The setting is off.
    Disabled,
    /// There are no artists.
    NoArtists,
}

/// The answer of an automatic run that does nothing, besides its time.
pub fn idle_answer(reason: IdleReason) -> (r: Json)
    ensures
        r.tree() == JsonTree::Object(
            match reason {
                IdleReason::Disabled => auto_members(
                    "disabled"@,
                    0,
                    ""@,
                    Seq::empty(),
                    Seq::empty(),
                ).push(("reason"@, JsonTree::Text("disabled"@))),
                IdleReason::NoArtists => auto_members(
                    "no_actions"@,
                    0,
                    ""@,
                    Seq::empty(),
                    Seq::empty(),
                ).push(("reason"@, JsonTree::Text("no_artists"@))),
            },
        ),
{
    let (status, told) = match reason {
        IdleReason::Disabled => ("disabled", "disabled"),
        IdleReason::NoArtists => ("no_actions", "no_artists"),
    };
    let actions: Vec<Json> = Vec::new();
    let failed: Vec<Json> = Vec::new();
    assert(doc_trees(actions@) =~= Seq::<JsonTree>::empty());
    assert(doc_trees(failed@) =~= Seq::<JsonTree>::empty());
    let mut members = make_members(status, 0, "", actions, failed);
    let ghost base = entry_views(members@);
    members.push(text_member("reason", told));
    assert(entry_views(members@) =~= base.push(("reason"@, JsonTree::Text(told@))));
    object(members)
}

/// How far a backup has come.
#[derive(Clone, Copy, PartialEq, Eq, Debug, Structural)]
pub enum BackupStage {
    /// Nothing was done yet.
    Begin,
    /// A name is being looked for.
    Choosing {
        /// The number of the name.
        index: usize,
    },
    /// A hidden folder is being made.
    Reserving {
        /// The number of its name.
        index: usize,
    },
    /// The database is being copied to the hidden folder.
    Copying {
        /// The number of the name.
        index: usize,
    },
    /// The hidden folder is being renamed to its name.
    Publishing {
        /// The number of the name.
        index: usize,
    },
    /// The hidden folder is being removed.
    Discarding,
    /// Backups that are too many are being removed.
    Pruning {
        /// The number of the name of the new one.
        index: usize,
    },
    /// The backup is made, or was given up.
    Ended,
}

/// What happened to a backup.
#[derive(Clone, Copy, PartialEq, Eq, Debug, Structural)]
pub enum BackupEvent {
    /// The backup is asked for.
    Begin,
    /// Whether there is a backup with the name.
    Taken(bool),
    /// The step was made.
    Done,
    /// The step failed, because something with the name is there.
    Occupied,
    /// The step failed.
    Failed,
}

/// What is to be done next for a backup.
#[derive(Clone, Copy, PartialEq, Eq, Debug, Structural)]
pub enum BackupAction {
    /// See whether there is a backup with the name of a number.
    Look {
        /// The number.
        index: usize,
    },
    /// Make the hidden folder of a number.
    Reserve {
        /// The number.
        index: usize,
    },
    /// Copy the database to the hidden folder.
    Copy,
    /// Rename the hidden folder to the name of a number, replacing nothing.
    Publish {
        /// The number.
        index: usize,
    },
    /// Remove the hidden folder.
    Discard,
    /// Remove the backups that are too many.
    Prune,
    /// Report the number of the backup; none where it was given up.
    Finish(Option<usize>),
    /// Nothing: the event does not belong here.
    Ignore,
}

/// The backup given up in front of its hidden folder.
pub open spec fn gave_up() -> (BackupStage, BackupAction) {
    (BackupStage::Ended, BackupAction::Finish(None))
}

/// The hidden folder thrown away.
pub open spec fn threw_away() -> (BackupStage, BackupAction) {
    (BackupStage::Discarding, BackupAction::Discard)
}

/// The next name looked at; there is none behind the largest number.
pub open spec fn looked_on(index: usize) -> (BackupStage, BackupAction) {
    if index == usize::MAX {
        gave_up()
    } else {
        let next = (index + 1) as usize;
        (BackupStage::Choosing { index: next }, BackupAction::Look { index: next })
    }
}

/// The next name tried for a copy; there is none behind the largest number.
pub open spec fn published_on(index: usize) -> (BackupStage, BackupAction) {
    if index == usize::MAX {
        threw_away()
    } else {
        let next = (index + 1) as usize;
        (BackupStage::Publishing { index: next }, BackupAction::Publish { index: next })
    }
}

/// The backup behind an event, and what is to be done. The copy is made in a hidden
/// folder, which gets the first free name once it is complete.
pub open spec fn next_backup(stage: BackupStage, event: BackupEvent) -> (
    BackupStage,
    BackupAction,
) {
    match (stage, event) {
        (BackupStage::Begin, BackupEvent::Begin) => (
            BackupStage::Choosing { index: 0 },
            BackupAction::Look { index: 0 },
        ),
        (BackupStage::Choosing { index }, BackupEvent::Taken(taken)) => if taken {
            looked_on(index)
        } else {
            (BackupStage::Reserving { index }, BackupAction::Reserve { index })
        },
        (BackupStage::Reserving { index }, BackupEvent::Done) => (
            BackupStage::Copying { index },
            BackupAction::Copy,
        ),
        (BackupStage::Reserving { index }, BackupEvent::Occupied) => looked_on(index),
        (BackupStage::Reserving { .. }, BackupEvent::Failed) => gave_up(),
        (BackupStage::Copying { index }, BackupEvent::Done) => (
            BackupStage::Publishing { index },
            BackupAction::Publish { index },
        ),
        (BackupStage::Copying { .. }, BackupEvent::Failed) => threw_away(),
        (BackupStage::Copying { .. }, BackupEvent::Occupied) => threw_away(),
        (BackupStage::Publishing { index }, BackupEvent::Done) => (
            BackupStage::Pruning { index },
            BackupAction::Prune,
        ),
        (BackupStage::Publishing { index }, BackupEvent::Occupied) => published_on(index),
        (BackupStage::Publishing { .. }, BackupEvent::Failed) => threw_away(),
        (BackupStage::Discarding, BackupEvent::Done) => gave_up(),
        (BackupStage::Discarding, BackupEvent::Failed) => gave_up(),
        (BackupStage::Discarding, BackupEvent::Occupied) => gave_up(),
        (BackupStage::Pruning { index }, BackupEvent::Done) => (
            BackupStage::Ended,
            BackupAction::Finish(Some(index)),
        ),
        (BackupStage::Pruning { index }, BackupEvent::Failed) => (
            BackupStage::Ended,
            BackupAction::Finish(Some(index)),
        ),
        (BackupStage::Pruning { index }, BackupEvent::Occupied) => (
            BackupStage::Ended,
            BackupAction::Finish(Some(index)),
        ),
        _ => (stage, BackupAction::Ignore),
    }
}

/// Looks at the next name.
fn look_on(index: usize) -> (r: (BackupStage, BackupAction))
    ensures
        r == looked_on(index),
{
    if index == usize::MAX {
        (BackupStage::Ended, BackupAction::Finish(None))
    } else {
        (BackupStage::Choosing { index: index + 1 }, BackupAction::Look { index: index + 1 })
    }
}

/// Tries the next name for a copy.
fn publish_on(index: usize) -> (r: (BackupStage, BackupAction))
    ensures
        r == published_on(index),
{
    if index == usize::MAX {
        (BackupStage::Discarding, BackupAction::Discard)
    } else {
        (BackupStage::Publishing { index: index + 1 }, BackupAction::Publish { index: index + 1 })
    }
}

/// Takes a backup one step on.
pub fn create_db_backup(stage: BackupStage, event: BackupEvent) -> (r: (BackupStage, BackupAction))
    ensures
        r == next_backup(stage, event),
{
    match (stage, event) {
        (BackupStage::Begin, BackupEvent::Begin) => (
            BackupStage::Choosing { index: 0 },
            BackupAction::Look { index: 0 },
        ),
        (BackupStage::Choosing { index }, BackupEvent::Taken(taken)) => if taken {
            look_on(index)
        } else {
            (BackupStage::Reserving { index }, BackupAction::Reserve { index })
        },
        (BackupStage::Reserving { index }, BackupEvent::Done) => (
            BackupStage::Copying { index },
            BackupAction::Copy,
        ),
        (BackupStage::Reserving { index }, BackupEvent::Occupied) => look_on(index),
        (BackupStage::Reserving { .. }, BackupEvent::Failed) => (
            BackupStage::Ended,
            BackupAction::Finish(None),
        ),
        (BackupStage::Copying { index }, BackupEvent::Done) => (
            BackupStage::Publishing { index },
            BackupAction::Publish { index },
        ),
        (BackupStage::Copying { .. }, BackupEvent::Failed) => (
            BackupStage::Discarding,
            BackupAction::Discard,
        ),
        (BackupStage::Copying { .. }, BackupEvent::Occupied) => (
            BackupStage::Discarding,
            BackupAction::Discard,
        ),
        (BackupStage::Publishing { index }, BackupEvent::Done) => (
            BackupStage::Pruning { index },
            BackupAction::Prune,
        ),
        (BackupStage::Publishing { index }, BackupEvent::Occupied) => publish_on(index),
        (BackupStage::Publishing { .. }, BackupEvent::Failed) => (
            BackupStage::Discarding,
            BackupAction::Discard,
        ),
        (BackupStage::Discarding, BackupEvent::Done) => (
            BackupStage::Ended,
            BackupAction::Finish(None),
        ),
        (BackupStage::Discarding, BackupEvent::Failed) => (
            BackupStage::Ended,
            BackupAction::Finish(None),
        ),
        (BackupStage::Discarding, BackupEvent::Occupied) => (
            BackupStage::Ended,
            BackupAction::Finish(None),
        ),
        (BackupStage::Pruning { index }, BackupEvent::Done) => (
            BackupStage::Ended,
            BackupAction::Finish(Some(index)),
        ),
        (BackupStage::Pruning { index }, BackupEvent::Failed) => (
            BackupStage::Ended,
            BackupAction::Finish(Some(index)),
        ),
        (BackupStage::Pruning { index }, BackupEvent::Occupied) => (
            BackupStage::Ended,
            BackupAction::Finish(Some(index)),
        ),
        _ => (stage, BackupAction::Ignore),
    }
}

/// What a backup has left on disk.
#[derive(Clone, Copy, PartialEq, Eq, Debug, Structural)]
pub struct BackupWorld {
    /// Whether the hidden folder is there.
    pub hidden: bool,
    /// Whether the copy is complete.
    pub whole: bool,
    /// The number of the name that the folder got.
    pub published: Option<usize>,
    /// Whether removing the hidden folder failed.
    pub stuck: bool,
}

/// The disk behind an event.
pub open spec fn backup_world_after(
    w: BackupWorld,
    stage: BackupStage,
    event: BackupEvent,
) -> BackupWorld {
    match (stage, event) {
        (BackupStage::Reserving { .. }, BackupEvent::Done) => BackupWorld { hidden: true, ..w },
        (BackupStage::Copying { .. }, BackupEvent::Done) => BackupWorld { whole: true, ..w },
        (BackupStage::Publishing { index }, BackupEvent::Done) => BackupWorld {
            hidden: false,
            published: Some(index),
            ..w
        },
        (BackupStage::Discarding, BackupEvent::Done) => BackupWorld { hidden: false, ..w },
        (BackupStage::Discarding, BackupEvent::Failed) => BackupWorld { stuck: true, ..w },
        (BackupStage::Discarding, BackupEvent::Occupied) => BackupWorld { stuck: true, ..w },
        _ => w,
    }
}

/// A backup behind events, and the disk.
pub open spec fn backup_run(events: Seq<BackupEvent>) -> (BackupStage, BackupWorld)
    decreases events.len(),
{
    if events.len() == 0 {
        (
            BackupStage::Begin,
            BackupWorld { hidden: false, whole: false, published: None, stuck: false },
        )
    } else {
        let (stage, w) = backup_run(events.drop_last());
        (next_backup(stage, events.last()).0, backup_world_after(w, stage, events.last()))
    }
}

/// What the disk is like at every stage.
proof fn lemma_backup_run(events: Seq<BackupEvent>)
    ensures
        ({
            let (stage, w) = backup_run(events);
            match stage {
                BackupStage::Copying { .. } => w.hidden && w.published is None && !w.stuck,
                BackupStage::Publishing { .. } => w.hidden && w.whole && w.published is None
                    && !w.stuck,
                BackupStage::Discarding => w.hidden && w.published is None && !w.stuck,
                BackupStage::Pruning { index } => !w.hidden && w.whole && w.published == Some(
                    index,
                ),
                BackupStage::Ended => {
                    &&& w.published is Some ==> w.whole && !w.hidden
                    &&& w.hidden ==> w.stuck
                },
                _ => !w.hidden && w.published is None && !w.stuck,
            }
        }),
    decreases events.len(),
{
    if events.len() > 0 {
        lemma_backup_run(events.drop_last());
    }
}

/// Whatever happens to a backup, only a complete copy gets a name; what is reported
/// is the name that it got; a backup that is given up got none; and no hidden folder
/// stays behind unless removing it failed.
pub proof fn backups_are_published_whole(events: Seq<BackupEvent>, event: BackupEvent)
    ensures
        ({
            let (stage, before) = backup_run(events);
            let action = next_backup(stage, event).1;
            let w = backup_world_after(before, stage, event);
            &&& w.published is Some ==> w.whole && !w.hidden
            &&& action matches BackupAction::Finish(told) ==> told == w.published && (w.hidden
                ==> w.stuck)
        }),
{
    lemma_backup_run(events);
    let all = events.push(event);
    assert(all.drop_last() =~= events);
    lemma_backup_run(all);
}

/// The complete backups on disk, by their names, behind an event of a backup of `content`
/// with a label.
pub open spec fn disk_after<D>(
    disk: Map<Seq<char>, D>,
    stage: BackupStage,
    event: BackupEvent,
    label: Seq<char>,
    content: D,
) -> Map<Seq<char>, D> {
    match (stage, event) {
        (BackupStage::Publishing { index }, BackupEvent::Done) => disk.insert(
            backup_name(label, index as nat),
            content,
        ),
        _ => disk,
    }
}

/// Whether an event can happen: publishing a backup replaces nothing.
pub open spec fn can_happen<D>(
    disk: Map<Seq<char>, D>,
    stage: BackupStage,
    event: BackupEvent,
    label: Seq<char>,
) -> bool {
    match (stage, event) {
        (BackupStage::Publishing { index }, BackupEvent::Done) => !disk.contains_key(
            backup_name(label, index as nat),
        ),
        _ => true,
    }
}

/// The complete backups on disk behind the events of a backup, before backups that are
/// too many are removed.
pub open spec fn disk_run<D>(
    disk: Map<Seq<char>, D>,
    events: Seq<BackupEvent>,
    label: Seq<char>,
    content: D,
) -> Map<Seq<char>, D>
    decreases events.len(),
{
    if events.len() == 0 {
        disk
    } else {
        let before = events.drop_last();
        disk_after(
            disk_run(disk, before, label, content),
            backup_run(before).0,
            events.last(),
            label,
            content,
        )
    }
}

/// Whether the events of a backup can happen one after the other.
pub open spec fn run_can_happen<D>(
    disk: Map<Seq<char>, D>,
    events: Seq<BackupEvent>,
    label: Seq<char>,
    content: D,
) -> bool
    decreases events.len(),
{
    events.len() == 0 || {
        let before = events.drop_last();
        &&& run_can_happen(disk, before, label, content)
        &&& can_happen(
            disk_run(disk, before, label, content),
            backup_run(before).0,
            events.last(),
            label,
        )
    }
}

/// What a backup has put on disk: nothing before it is published, and then the content
/// under a name that was free.
proof fn lemma_disk_run<D>(
    disk: Map<Seq<char>, D>,
    events: Seq<BackupEvent>,
    label: Seq<char>,
    content: D,
)
    requires
        run_can_happen(disk, events, label, content),
    ensures
        ({
            let now = disk_run(disk, events, label, content);
            match backup_run(events).1.published {
                None => now == disk,
                Some(index) => !disk.contains_key(backup_name(label, index as nat)) && now
                    == disk.insert(backup_name(label, index as nat), content),
            }
        }),
    decreases events.len(),
{
    if events.len() > 0 {
        lemma_disk_run(disk, events.drop_last(), label, content);
        lemma_backup_run(events.drop_last());
    }
}

/// The number that a backup reports: that of the name that it got.
pub open spec fn reported(events: Seq<BackupEvent>) -> Option<usize> {
    backup_run(events).1.published
}

/// Two backups that were made one after the other have different names, and each holds
/// what the database held when it was made; every older backup stays as it is, no hidden
/// folder stays behind, and where no name began with a dot before, none does now.
pub proof fn backups_hold_what_they_were_made_of<D>(
    disk: Map<Seq<char>, D>,
    first: Seq<BackupEvent>,
    first_time: Moment,
    first_content: D,
    second: Seq<BackupEvent>,
    second_time: Moment,
    second_content: D,
)
    requires
        run_can_happen(disk, first, label_of(first_time), first_content),
        reported(first) is Some,
        run_can_happen(
            disk_run(disk, first, label_of(first_time), first_content),
            second,
            label_of(second_time),
            second_content,
        ),
        reported(second) is Some,
    ensures
        ({
            let one = backup_name(label_of(first_time), reported(first)->Some_0 as nat);
            let two = backup_name(label_of(second_time), reported(second)->Some_0 as nat);
            let middle = disk_run(disk, first, label_of(first_time), first_content);
            let now = disk_run(middle, second, label_of(second_time), second_content);
            &&& one != two
            &&& now.contains_key(one) && now[one] == first_content
            &&& now.contains_key(two) && now[two] == second_content
            &&& forall|name: Seq<char>|
                disk.contains_key(name) ==> now.contains_key(name) && #[trigger] now[name]
                    == disk[name]
            &&& !backup_run(first).1.hidden && !backup_run(second).1.hidden
            &&& (forall|name: Seq<char>|
                #[trigger] disk.contains_key(name) ==> name.len() == 0 || name[0] != '.')
                ==> forall|name: Seq<char>|
                #[trigger] now.contains_key(name) ==> name.len() == 0 || name[0] != '.'
        }),
{
    let first_label = label_of(first_time);
    let second_label = label_of(second_time);
    labels_are_not_hidden(first_time);
    labels_are_not_hidden(second_time);
    lemma_disk_run(disk, first, first_label, first_content);
    let middle = disk_run(disk, first, first_label, first_content);
    lemma_disk_run(middle, second, second_label, second_content);
    lemma_backup_run(first);
    lemma_backup_run(second);
}

/// How many plans of all artists are listed.
pub const LIST_LIMIT: usize = 500;

/// The places of the plans that are listed, the last one first: those of one artist,
/// or of all. A plan is its id and its artist.
pub open spec fn listed(plans: Seq<(i64, i64)>, artist_id: Option<i64>, limit: int) -> Seq<int>
    decreases plans.len(),
{
    if plans.len() == 0 || limit <= 0 {
        Seq::empty()
    } else {
        let n = plans.len() - 1;
        if artist_id is None || artist_id == Some(plans[n].1) {
            seq![n] + listed(plans.drop_last(), artist_id, limit - 1)
        } else {
            listed(plans.drop_last(), artist_id, limit)
        }
    }
}

/// Lists the plans of an artist, or the last ones of all artists, by their places.
/// The plans come in the order of their ids.
pub fn list_folder_renames(plans: &[(i64, i64)], artist_id: Option<i64>) -> (r: Vec<usize>)
    ensures
        r@.map_values(|n: usize| n as int) == listed(
            plans@,
            artist_id,
            if artist_id is None {
                LIST_LIMIT as int
            } else {
                plans@.len() as int
            },
        ),
{
    let limit: usize = match artist_id {
        Some(_) => plans.len(),
        None => LIST_LIMIT,
    };
    let ghost place = |n: usize| n as int;
    let mut out: Vec<usize> = Vec::new();
    let mut n: usize = plans.len();
    assert(plans@.take(n as int) =~= plans@);
    assert(out@.map_values(place) + listed(plans@, artist_id, limit as int) =~= listed(
        plans@,
        artist_id,
        limit as int,
    ));
    while n > 0 && out.len() < limit
        invariant
            n <= plans@.len(),
            out@.len() <= limit,
            place == (|n: usize| n as int),
            listed(plans@, artist_id, limit as int) == out@.map_values(place) + listed(
                plans@.take(n as int),
                artist_id,
                limit - out@.len(),
            ),
        decreases n,
    {
        let ghost before = plans@.take(n as int);
        let ghost shown = out@.map_values(place);
        assert(before.drop_last() =~= plans@.take(n as int - 1));
        n -= 1;
        let wanted = match artist_id {
            Some(a) => a == plans[n].1,
            None => true,
        };
        if wanted {
            let ghost rest = listed(plans@.take(n as int), artist_id, limit - out@.len() - 1);
            out.push(n);
            assert(out@.map_values(place) =~= shown.push(n as int));
            assert(shown.push(n as int) + rest =~= shown + (seq![n as int] + rest));
        }
    }
    assert(out@.map_values(place) + Seq::<int>::empty() =~= out@.map_values(place));
    out
}

}
