//! The order of the work on one batch of changes.

use crate::daemon_core::worker::{fault_of, BatchFault};
use vstd::prelude::*;

verus! {

/// After how many changes the progress is shown.
pub const PROGRESS_STEP: usize = 50;

/// What is said where the transaction of a batch could not be begun.
pub const BEGIN_FAILED: &'static str =
    "не удалось начать транзакцию батча — воркер перезапускается";

/// What is known of a batch before it is worked on.
#[derive(Debug, Clone, Copy, PartialEq, Eq, Structural)]
pub struct BatchPlan {
    /// How many changes it has.
    pub batch_len: usize,
    /// Above how many changes a full pass is made instead.
    pub bulk_batch_threshold: usize,
    /// Whether there is a cache to tell.
    pub has_cache: bool,
    /// How many paths are marked as dirty before the changes are applied.
    pub dirty_paths: usize,
    /// How many paths are dropped from the cache afterwards.
    pub touched_paths: usize,
    /// Whether something rests on the index that must be kept up to date.
    pub has_processor: bool,
}

/// Where the work on a batch stands.
#[derive(Debug, Clone, Copy, PartialEq, Eq, Structural)]
pub enum BatchPhase {
    MarkDirty,
    ShowStart,
    Begin,
    FailBegin,
    Apply,
    ShowProgress,
    ShowIdle,
    Commit,
    Rollback,
    UpdateExtras,
    FullPass,
    RebuildExtras,
    Checkpoint,
    Invalidate,
    Settle,
    Continue,
    Stop,
}

/// What is to be done.
#[derive(Debug, Clone, Copy, PartialEq, Eq, Structural)]
pub enum BatchAction {
    /// Tell the cache that responses may be stale.
    MarkDirty,
    /// Show that the batch is worked on, with none of its changes applied.
    ShowStart,
    /// Begin a transaction.
    Begin,
    /// Show the error that the transaction could not be begun.
    FailBegin,
    /// Apply the change with this index.
    Apply(usize),
    /// Show that so many changes were applied.
    ShowProgress(usize),
    /// Show no progress.
    ShowIdle,
    Commit,
    Rollback,
    /// Bring what rests on the index up to date, for the changes only.
    UpdateExtras,
    /// Index the whole directory anew.
    FullPass,
    /// Rebuild what rests on the index as a whole.
    RebuildExtras,
    /// Truncate the journal of the database.
    Checkpoint,
    /// Have the cache drop responses.
    Invalidate,
    /// Show that the directory is ready.
    SetReady,
    /// Show what went wrong.
    SetError(BatchFault),
    /// The batch is done; go on with the next one.
    Continue,
    /// The worker cannot go on.
    Stop,
}

/// The work on a batch.
#[derive(Debug, Clone, Copy, PartialEq, Eq, Structural)]
pub struct BatchRun {
    pub plan: BatchPlan,
    pub phase: BatchPhase,
    /// How many changes were gone over.
    pub done: usize,
    /// How many changes could not be applied.
    pub failed: usize,
    pub commit_ok: bool,
    pub extras_ok: bool,
}

impl BatchPlan {
    /// Whether a full pass is made: the changes are too many to be applied one by one.
    pub open spec fn full_pass(self) -> bool {
        self.batch_len > self.bulk_batch_threshold
    }
}

impl BatchRun {
    /// The work in another phase.
    pub open spec fn to(self, phase: BatchPhase) -> BatchRun {
        BatchRun { phase, ..self }
    }

    /// Whether the counters are within the batch.
    pub open spec fn wf(self) -> bool {
        &&& self.failed <= self.done <= self.plan.batch_len
        &&& self.phase is Apply ==> self.done < self.plan.batch_len
    }

    /// The work before the first step.
    pub open spec fn starting(plan: BatchPlan) -> BatchRun {
        BatchRun {
            plan,
            phase: if plan.has_cache && plan.dirty_paths > 0 {
                BatchPhase::MarkDirty
            } else {
                BatchPhase::ShowStart
            },
            done: 0,
            failed: 0,
            commit_ok: false,
            extras_ok: true,
        }
    }

    /// The phase in which the next change is applied, or all are.
    pub open spec fn applying(self) -> BatchPhase {
        if self.done < self.plan.batch_len {
            BatchPhase::Apply
        } else {
            BatchPhase::ShowIdle
        }
    }

    /// The work after the step that was asked for, given whether it went well.
    pub open spec fn after(self, ok: bool) -> BatchRun {
        let s = self;
        match self.phase {
            BatchPhase::MarkDirty => s.to(BatchPhase::ShowStart),
            BatchPhase::ShowStart => if s.plan.full_pass() {
                s.to(BatchPhase::FullPass)
            } else {
                s.to(BatchPhase::Begin)
            },
            BatchPhase::Begin => if ok {
                s.to(s.applying())
            } else {
                s.to(BatchPhase::FailBegin)
            },
            BatchPhase::FailBegin => s.to(BatchPhase::Stop),
            BatchPhase::Apply => {
                let n = BatchRun {
                    done: (s.done + 1) as usize,
                    failed: if ok {
                        s.failed
                    } else {
                        (s.failed + 1) as usize
                    },
                    ..s
                };
                if n.done % PROGRESS_STEP == 0 || n.done == s.plan.batch_len {
                    n.to(BatchPhase::ShowProgress)
                } else {
                    n
                }
            },
            BatchPhase::ShowProgress => s.to(s.applying()),
            BatchPhase::ShowIdle => s.to(BatchPhase::Commit),
            BatchPhase::Commit => if !ok {
                s.to(BatchPhase::Rollback)
            } else if s.plan.has_processor {
                BatchRun { phase: BatchPhase::UpdateExtras, commit_ok: true, ..s }
            } else {
                BatchRun { phase: BatchPhase::Checkpoint, commit_ok: true, ..s }
            },
            BatchPhase::Rollback => s.to(BatchPhase::Checkpoint),
            BatchPhase::UpdateExtras => BatchRun {
                phase: BatchPhase::Checkpoint,
                extras_ok: ok,
                ..s
            },
            BatchPhase::FullPass => if !ok {
                s.to(BatchPhase::Checkpoint)
            } else if s.plan.has_processor {
                BatchRun { phase: BatchPhase::RebuildExtras, commit_ok: true, ..s }
            } else {
                BatchRun { phase: BatchPhase::Checkpoint, commit_ok: true, ..s }
            },
            BatchPhase::RebuildExtras => BatchRun {
                phase: BatchPhase::Checkpoint,
                extras_ok: ok,
                ..s
            },
            BatchPhase::Checkpoint => if s.commit_ok && s.plan.has_cache
                && s.plan.touched_paths > 0 {
                s.to(BatchPhase::Invalidate)
            } else {
                s.to(BatchPhase::Settle)
            },
            BatchPhase::Invalidate => s.to(BatchPhase::Settle),
            BatchPhase::Settle => s.to(BatchPhase::Continue),
            BatchPhase::Continue => s,
            BatchPhase::Stop => s,
        }
    }

    /// What is to be done in a phase.
    pub open spec fn wanted(self) -> BatchAction {
        match self.phase {
            BatchPhase::MarkDirty => BatchAction::MarkDirty,
            BatchPhase::ShowStart => BatchAction::ShowStart,
            BatchPhase::Begin => BatchAction::Begin,
            BatchPhase::FailBegin => BatchAction::FailBegin,
            BatchPhase::Apply => BatchAction::Apply(self.done),
            BatchPhase::ShowProgress => BatchAction::ShowProgress(self.done),
            BatchPhase::ShowIdle => BatchAction::ShowIdle,
            BatchPhase::Commit => BatchAction::Commit,
            BatchPhase::Rollback => BatchAction::Rollback,
            BatchPhase::UpdateExtras => BatchAction::UpdateExtras,
            BatchPhase::FullPass => BatchAction::FullPass,
            BatchPhase::RebuildExtras => BatchAction::RebuildExtras,
            BatchPhase::Checkpoint => BatchAction::Checkpoint,
            BatchPhase::Invalidate => BatchAction::Invalidate,
            BatchPhase::Settle => match fault_of(
                self.commit_ok,
                self.failed as int,
                self.extras_ok,
            ) {
                Some(fault) => BatchAction::SetError(fault),
                None => BatchAction::SetReady,
            },
            BatchPhase::Continue => BatchAction::Continue,
            BatchPhase::Stop => BatchAction::Stop,
        }
    }

    /// The work on a batch before the first step.
    pub fn process_batch(plan: BatchPlan) -> (r: BatchRun)
        ensures
            r == BatchRun::starting(plan),
            r.wf(),
    {
        BatchRun {
            plan,
            phase: if plan.has_cache && plan.dirty_paths > 0 {
                BatchPhase::MarkDirty
            } else {
                BatchPhase::ShowStart
            },
            done: 0,
            failed: 0,
            commit_ok: false,
            extras_ok: true,
        }
    }

    fn in_phase(&self, phase: BatchPhase) -> (r: BatchRun)
        ensures
            r == self.to(phase),
    {
        BatchRun { phase, ..*self }
    }

    fn apply_phase(&self) -> (r: BatchPhase)
        ensures
            r == self.applying(),
    {
        if self.done < self.plan.batch_len {
            BatchPhase::Apply
        } else {
            BatchPhase::ShowIdle
        }
    }

    fn after_commit(&self, extras: BatchPhase) -> (r: BatchRun)
        ensures
            r == (BatchRun {
                phase: if self.plan.has_processor {
                    extras
                } else {
                    BatchPhase::Checkpoint
                },
                commit_ok: true,
                ..*self
            }),
    {
        let phase = if self.plan.has_processor {
            extras
        } else {
            BatchPhase::Checkpoint
        };
        BatchRun { phase, commit_ok: true, ..*self }
    }

    /// The work after the step that was asked for, given whether it went well.
    pub fn next(&self, ok: bool) -> (r: BatchRun)
        requires
            self.wf(),
        ensures
            r == self.after(ok),
            r.wf(),
    {
        match self.phase {
            BatchPhase::MarkDirty => self.in_phase(BatchPhase::ShowStart),
            BatchPhase::ShowStart => if self.plan.batch_len > self.plan.bulk_batch_threshold {
                self.in_phase(BatchPhase::FullPass)
            } else {
                self.in_phase(BatchPhase::Begin)
            },
            BatchPhase::Begin => if ok {
                self.in_phase(self.apply_phase())
            } else {
                self.in_phase(BatchPhase::FailBegin)
            },
            BatchPhase::FailBegin => self.in_phase(BatchPhase::Stop),
            BatchPhase::Apply => {
                let done: usize = self.done + 1;
                let failed: usize = if ok {
                    self.failed
                } else {
                    self.failed + 1
                };
                let phase = if done % PROGRESS_STEP == 0 || done == self.plan.batch_len {
                    BatchPhase::ShowProgress
                } else {
                    BatchPhase::Apply
                };
                BatchRun { phase, done, failed, ..*self }
            },
            BatchPhase::ShowProgress => self.in_phase(self.apply_phase()),
            BatchPhase::ShowIdle => self.in_phase(BatchPhase::Commit),
            BatchPhase::Commit => if ok {
                self.after_commit(BatchPhase::UpdateExtras)
            } else {
                self.in_phase(BatchPhase::Rollback)
            },
            BatchPhase::Rollback => self.in_phase(BatchPhase::Checkpoint),
            BatchPhase::UpdateExtras => BatchRun {
                phase: BatchPhase::Checkpoint,
                extras_ok: ok,
                ..*self
            },
            BatchPhase::FullPass => if ok {
                self.after_commit(BatchPhase::RebuildExtras)
            } else {
                self.in_phase(BatchPhase::Checkpoint)
            },
            BatchPhase::RebuildExtras => BatchRun {
                phase: BatchPhase::Checkpoint,
                extras_ok: ok,
                ..*self
            },
            BatchPhase::Checkpoint => if self.commit_ok && self.plan.has_cache
                && self.plan.touched_paths > 0 {
                self.in_phase(BatchPhase::Invalidate)
            } else {
                self.in_phase(BatchPhase::Settle)
            },
            BatchPhase::Invalidate => self.in_phase(BatchPhase::Settle),
            BatchPhase::Settle => self.in_phase(BatchPhase::Continue),
            BatchPhase::Continue => *self,
            BatchPhase::Stop => *self,
        }
    }

    /// What is to be done.
    pub fn action(&self) -> (r: BatchAction)
        ensures
            r == self.wanted(),
    {
        match self.phase {
            BatchPhase::MarkDirty => BatchAction::MarkDirty,
            BatchPhase::ShowStart => BatchAction::ShowStart,
            BatchPhase::Begin => BatchAction::Begin,
            BatchPhase::FailBegin => BatchAction::FailBegin,
            BatchPhase::Apply => BatchAction::Apply(self.done),
            BatchPhase::ShowProgress => BatchAction::ShowProgress(self.done),
            BatchPhase::ShowIdle => BatchAction::ShowIdle,
            BatchPhase::Commit => BatchAction::Commit,
            BatchPhase::Rollback => BatchAction::Rollback,
            BatchPhase::UpdateExtras => BatchAction::UpdateExtras,
            BatchPhase::FullPass => BatchAction::FullPass,
            BatchPhase::RebuildExtras => BatchAction::RebuildExtras,
            BatchPhase::Checkpoint => BatchAction::Checkpoint,
            BatchPhase::Invalidate => BatchAction::Invalidate,
            BatchPhase::Settle => if !self.commit_ok {
                BatchAction::SetError(BatchFault::Commit)
            } else if self.failed > 0 {
                BatchAction::SetError(BatchFault::Partial)
            } else if !self.extras_ok {
                BatchAction::SetError(BatchFault::Extras)
            } else {
                BatchAction::SetReady
            },
            BatchPhase::Continue => BatchAction::Continue,
            BatchPhase::Stop => BatchAction::Stop,
        }
    }
}

/// The work after a number of steps, given whether each of them went well.
pub open spec fn run(plan: BatchPlan, answers: Seq<bool>) -> BatchRun
    decreases answers.len(),
{
    if answers.len() == 0 {
        BatchRun::starting(plan)
    } else {
        run(plan, answers.drop_last()).after(answers.last())
    }
}

/// What was asked for at a step.
pub open spec fn asked(plan: BatchPlan, answers: Seq<bool>, i: int) -> BatchAction {
    run(plan, answers.take(i)).wanted()
}

/// Whether changes get into the index by an action.
pub open spec fn commits(a: BatchAction) -> bool {
    a is Commit || a is FullPass
}

/// Whether an action brings what rests on the index up to date.
pub open spec fn renews_extras(a: BatchAction) -> bool {
    a is UpdateExtras || a is RebuildExtras
}

/// Whether a phase comes after the changes got into the index, or failed to.
spec fn past_commit(phase: BatchPhase) -> bool {
    match phase {
        BatchPhase::Rollback => true,
        BatchPhase::UpdateExtras => true,
        BatchPhase::RebuildExtras => true,
        BatchPhase::Checkpoint => true,
        BatchPhase::Invalidate => true,
        BatchPhase::Settle => true,
        BatchPhase::Continue => true,
        _ => false,
    }
}

/// Whether a phase comes after what rests on the index.
spec fn past_extras(phase: BatchPhase) -> bool {
    match phase {
        BatchPhase::Checkpoint => true,
        BatchPhase::Invalidate => true,
        BatchPhase::Settle => true,
        BatchPhase::Continue => true,
        _ => false,
    }
}

/// The state remembers what went wrong.
proof fn lemma_remembers(plan: BatchPlan, answers: Seq<bool>)
    ensures
        run(plan, answers).plan == plan,
        run(plan, answers).wf(),
        forall|i: int|
            #![trigger asked(plan, answers, i)]
            0 <= i < answers.len() ==> {
                &&& asked(plan, answers, i) is Apply && !answers[i] ==> run(
                    plan,
                    answers,
                ).failed > 0
                &&& commits(asked(plan, answers, i)) ==> past_commit(run(plan, answers).phase)
                    && run(plan, answers).commit_ok == answers[i]
                &&& renews_extras(asked(plan, answers, i)) ==> past_extras(
                    run(plan, answers).phase,
                ) && run(plan, answers).extras_ok == answers[i]
            },
        run(plan, answers).commit_ok ==> exists|i: int|
            0 <= i < answers.len() && answers[i] && commits(#[trigger] asked(plan, answers, i)),
        past_commit(run(plan, answers).phase) && !plan.full_pass() ==> run(plan, answers).done
            == plan.batch_len,
        run(plan, answers).phase is FullPass ==> plan.full_pass(),
        run(plan, answers).phase is Commit || run(plan, answers).phase is ShowIdle ==> run(
            plan,
            answers,
        ).done == plan.batch_len,
    decreases answers.len(),
{
    if answers.len() > 0 {
        let before = answers.drop_last();
        let n = before.len() as int;
        lemma_remembers(plan, before);
        let s = run(plan, before);
        let t = run(plan, answers);
        assert(answers.take(n) =~= before);
        assert(asked(plan, answers, n) == s.wanted());
        assert forall|i: int| #![trigger asked(plan, answers, i)] 0 <= i < n implies asked(
            plan,
            answers,
            i,
        ) == asked(plan, before, i) by {
            assert(answers.take(i) =~= before.take(i));
        }
        assert forall|i: int|
            #![trigger asked(plan, answers, i)]
            0 <= i < answers.len() implies {
            &&& asked(plan, answers, i) is Apply && !answers[i] ==> t.failed > 0
            &&& commits(asked(plan, answers, i)) ==> past_commit(t.phase) && t.commit_ok
                == answers[i]
            &&& renews_extras(asked(plan, answers, i)) ==> past_extras(t.phase) && t.extras_ok
                == answers[i]
        } by {
            if i < n {
                assert(asked(plan, answers, i) == asked(plan, before, i));
                assert(answers[i] == before[i]);
            }
        }
        if t.commit_ok {
            if s.commit_ok {
                let i = choose|i: int|
                    0 <= i < before.len() && before[i] && commits(#[trigger] asked(plan, before, i));
                assert(asked(plan, answers, i) == asked(plan, before, i));
                assert(answers[i] && commits(asked(plan, answers, i)));
            } else {
                assert(answers[n] && commits(asked(plan, answers, n)));
            }
        }
    }
}

/// A directory is shown as ready only after its changes got into the index, each of them was
/// applied, and what rests on the index was brought up to date.
pub proof fn law_ready_needs_every_step(plan: BatchPlan, answers: Seq<bool>)
    requires
        run(plan, answers).wanted() is SetReady,
    ensures
        exists|i: int|
            0 <= i < answers.len() && answers[i] && commits(#[trigger] asked(plan, answers, i)),
        forall|i: int|
            #![trigger asked(plan, answers, i)]
            0 <= i < answers.len() && (asked(plan, answers, i) is Apply || commits(
                asked(plan, answers, i),
            ) || renews_extras(asked(plan, answers, i))) ==> answers[i],
        !plan.full_pass() ==> run(plan, answers).done == plan.batch_len,
{
    lemma_remembers(plan, answers);
}

/// A transaction that could not be committed is rolled back at once, so that the next one can
/// begin.
pub proof fn law_failed_commit_is_rolled_back(s: BatchRun)
    requires
        s.wanted() is Commit,
    ensures
        s.after(false).wanted() is Rollback,
{
}

/// The cache drops responses, and what rests on the index is brought up to date, only after the
/// changes got into the index.
pub proof fn law_nothing_follows_a_failed_commit(plan: BatchPlan, answers: Seq<bool>)
    ensures
        run(plan, answers).wanted() is Invalidate || renews_extras(run(plan, answers).wanted())
            ==> exists|i: int|
            0 <= i < answers.len() && answers[i] && commits(#[trigger] asked(plan, answers, i)),
    decreases answers.len(),
{
    lemma_remembers(plan, answers);
    lemma_committed(plan, answers);
}

proof fn lemma_committed(plan: BatchPlan, answers: Seq<bool>)
    ensures
        run(plan, answers).phase is Invalidate || run(plan, answers).phase is UpdateExtras || run(
            plan,
            answers,
        ).phase is RebuildExtras ==> run(plan, answers).commit_ok,
{
    if answers.len() > 0 {
        lemma_remembers(plan, answers.drop_last());
    }
}

/// A batch whose transaction could not be begun shows the error, and the worker stops: nothing
/// of it was applied.
pub proof fn law_failed_begin_stops_the_worker(s: BatchRun, ok: bool)
    requires
        s.wanted() is Begin,
    ensures
        s.after(false).wanted() is FailBegin,
        s.after(false).after(ok).wanted() is Stop,
{
}

/// How far the work is from its end, by its parts.
pub open spec fn stage(phase: BatchPhase) -> int {
    match phase {
        BatchPhase::MarkDirty => 12,
        BatchPhase::ShowStart => 11,
        BatchPhase::Begin => 10,
        BatchPhase::FailBegin => 1,
        BatchPhase::Apply => 9,
        BatchPhase::ShowProgress => 9,
        BatchPhase::ShowIdle => 8,
        BatchPhase::Commit => 7,
        BatchPhase::Rollback => 6,
        BatchPhase::UpdateExtras => 5,
        BatchPhase::FullPass => 7,
        BatchPhase::RebuildExtras => 5,
        BatchPhase::Checkpoint => 4,
        BatchPhase::Invalidate => 3,
        BatchPhase::Settle => 2,
        BatchPhase::Continue => 0,
        BatchPhase::Stop => 0,
    }
}

/// How many steps are left of applying the changes.
pub open spec fn left(s: BatchRun) -> int {
    match s.phase {
        BatchPhase::Apply => 2 * (s.plan.batch_len - s.done),
        BatchPhase::ShowProgress => 2 * (s.plan.batch_len - s.done) + 1,
        _ => 0,
    }
}

/// Every step brings the work nearer to its end, so it ends whatever the answers are.
pub proof fn law_batch_ends(s: BatchRun, ok: bool)
    requires
        s.wf(),
        !(s.phase is Continue),
        !(s.phase is Stop),
    ensures
        left(s) >= 0,
        stage(s.after(ok).phase) < stage(s.phase) || (stage(s.after(ok).phase) == stage(s.phase)
            && 0 <= left(s.after(ok)) < left(s)),
{
}

/// A small batch is applied change by change inside one transaction, a large one by a full pass;
/// before either, the cache is told which responses may be stale. What the batch is does not
/// change on the way.
pub proof fn law_batch_begins(plan: BatchPlan, s: BatchRun, ok: bool)
    ensures
        plan.has_cache && plan.dirty_paths > 0 ==> BatchRun::starting(plan).wanted() is MarkDirty,
        !(plan.has_cache && plan.dirty_paths > 0) ==> BatchRun::starting(plan).wanted()
            is ShowStart,
        BatchRun::starting(plan).plan == plan,
        BatchRun::starting(plan).done == 0,
        BatchRun::starting(plan).failed == 0,
        s.after(ok).plan == s.plan,
        s.wanted() is MarkDirty ==> s.after(ok).wanted() is ShowStart,
        s.wanted() is ShowStart && s.plan.batch_len > s.plan.bulk_batch_threshold ==> s.after(
            ok,
        ).wanted() is FullPass,
        s.wanted() is ShowStart && s.plan.batch_len <= s.plan.bulk_batch_threshold ==> s.after(
            ok,
        ).wanted() is Begin,
        s.wanted() is Begin && s.done < s.plan.batch_len ==> s.after(true).wanted()
            == BatchAction::Apply(s.done),
        s.wanted() is Begin && s.done >= s.plan.batch_len ==> s.after(true).wanted() is ShowIdle,
{
}

/// A change that was applied, or was not, is followed by the next one, at most with a look at the
/// progress in between, which is shown after every 50 changes and after the last. One that could
/// not be applied is counted and stops none of the others; after the last the transaction is
/// committed.
pub proof fn law_changes_are_applied_in_turn(s: BatchRun, i: usize, ok: bool)
    requires
        s.wf(),
        s.wanted() == BatchAction::Apply(i),
    ensures
        ({
            let n = s.after(ok);
            let shown = (i + 1) % 50 == 0 || i + 1 == s.plan.batch_len;
            let next = if shown {
                n.after(true)
            } else {
                n
            };
            &&& i < s.plan.batch_len
            &&& n.failed == if ok {
                s.failed as int
            } else {
                s.failed + 1
            }
            &&& shown ==> n.wanted() == BatchAction::ShowProgress((i + 1) as usize)
            &&& i + 1 < s.plan.batch_len ==> next.wanted() == BatchAction::Apply((i + 1) as usize)
            &&& i + 1 == s.plan.batch_len ==> next.wanted() is ShowIdle && next.after(
                true,
            ).wanted() is Commit
            &&& next.failed == n.failed
        }),
{
}

/// Where the changes got into the index, what rests on it is brought up to date, the journal is
/// truncated, the cache drops what it must, and the outcome is shown: the directory is ready where
/// all of it went well, and otherwise the first thing that did not is told. Where the changes did
/// not get into the index, the cache keeps what it has.
pub proof fn law_batch_is_settled(s: BatchRun, ok: bool)
    ensures
        s.wanted() is Commit && ok && s.plan.has_processor ==> s.after(ok).wanted()
            is UpdateExtras,
        s.wanted() is FullPass && ok && s.plan.has_processor ==> s.after(ok).wanted()
            is RebuildExtras,
        (s.wanted() is Commit || s.wanted() is FullPass) && ok && !s.plan.has_processor ==> s.after(
            ok,
        ).wanted() is Checkpoint,
        (s.wanted() is Commit || s.wanted() is FullPass) && ok ==> s.after(ok).commit_ok,
        s.wanted() is FullPass && !ok ==> s.after(ok).wanted() is Checkpoint,
        s.wanted() is Rollback ==> s.after(ok).wanted() is Checkpoint,
        s.wanted() is UpdateExtras || s.wanted() is RebuildExtras ==> s.after(ok).wanted()
            is Checkpoint && s.after(ok).extras_ok == ok,
        s.wanted() is Checkpoint && s.commit_ok && s.plan.has_cache && s.plan.touched_paths > 0
            ==> s.after(ok).wanted() is Invalidate,
        s.wanted() is Checkpoint && !(s.commit_ok && s.plan.has_cache && s.plan.touched_paths > 0)
            || s.wanted() is Invalidate ==> {
            let shown = s.after(ok).wanted();
            if !s.commit_ok {
                shown == BatchAction::SetError(BatchFault::Commit)
            } else if s.failed > 0 {
                shown == BatchAction::SetError(BatchFault::Partial)
            } else if !s.extras_ok {
                shown == BatchAction::SetError(BatchFault::Extras)
            } else {
                shown is SetReady
            }
        },
        s.wanted() is SetReady || s.wanted() is SetError ==> s.after(ok).wanted() is Continue,
{
}

/// By the time that a batch is committed, each of its changes was applied, or tried.
pub proof fn law_every_change_is_applied(plan: BatchPlan, answers: Seq<bool>, k: usize)
    requires
        run(plan, answers).wanted() is Commit,
        k < plan.batch_len,
    ensures
        exists|i: int|
            0 <= i < answers.len() && #[trigger] asked(plan, answers, i) == BatchAction::Apply(k),
{
    lemma_remembers(plan, answers);
    lemma_applied(plan, answers, k);
}

proof fn lemma_applied(plan: BatchPlan, answers: Seq<bool>, k: usize)
    requires
        k < run(plan, answers).done,
    ensures
        exists|i: int|
            0 <= i < answers.len() && #[trigger] asked(plan, answers, i) == BatchAction::Apply(k),
    decreases answers.len(),
{
    let before = answers.drop_last();
    let n = before.len() as int;
    let s = run(plan, before);
    lemma_remembers(plan, before);
    assert(answers.take(n) =~= before);
    assert(asked(plan, answers, n) == s.wanted());
    if k < s.done {
        lemma_applied(plan, before, k);
        let i = choose|i: int|
            0 <= i < before.len() && #[trigger] asked(plan, before, i) == BatchAction::Apply(k);
        assert(answers.take(i) =~= before.take(i));
        assert(asked(plan, answers, i) == BatchAction::Apply(k));
    }
}

} // verus!
