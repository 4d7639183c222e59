//! The order of the work that brings the database up to date.
//!
//! The work itself is done outside: reading, parsing, and the steps on the database. What is
//! done next, given how the last step went, is decided here. A [`Reindex`] says by
//! [`Reindex::action`] what is to be done, and [`Reindex::next`] takes how that went.

use vstd::prelude::*;

verus! {

/// The least number of contents that one transaction holds when contents are filled in.
pub const FILL_BATCH_MIN: usize = 500;

/// What is known before anything is written.
#[derive(Debug, Clone, Copy, PartialEq, Eq, Structural)]
pub struct ReindexPlan {
    /// Whether files are written though they have not changed.
    pub force: bool,
    /// Whether the index knows no file yet.
    pub fresh: bool,
    /// Whether someone gathers more from the files that are parsed.
    pub has_collector: bool,
    /// How many files are to be written.
    pub candidates: usize,
    /// How many files only get their time and size updated.
    pub updates: usize,
    /// How many files are gone from the disk.
    pub gone: usize,
    /// Above how many files the secondary indexes are dropped.
    pub bulk_threshold: usize,
    /// How many files one transaction holds.
    pub batch_size: usize,
}

/// Where the work stands.
#[derive(Debug, Clone, Copy, PartialEq, Eq, Structural)]
pub enum ReindexPhase {
    DropTriggers,
    DeleteOldRows,
    PrepareBulk,
    Parse,
    Collect,
    Compress,
    BeginWrites,
    Write,
    CommitBatch,
    BeginBatch,
    CommitWrites,
    WriteCollected,
    BeginUpdates,
    Update,
    CommitUpdates,
    FinishBulk,
    BeginDeletes,
    Delete,
    CommitDeletes,
    ListMissing,
    BeginFills,
    Fill,
    CommitFillBatch,
    BeginFillBatch,
    CommitFills,
    Done,
    Failed,
}

/// What is to be done.
#[derive(Debug, Clone, Copy, PartialEq, Eq, Structural)]
pub enum ReindexAction {
    /// Drop the triggers of the full-text search.
    DropTriggers,
    /// Delete the rows of the files that are to be written again, all at once.
    DeleteOldRows,
    /// Drop the secondary indexes.
    PrepareBulk,
    /// Parse the files.
    Parse,
    /// Show the parsed files to the collector.
    Collect,
    /// Compress the contents.
    Compress,
    Begin,
    Commit,
    /// Write the file with this index among those that were parsed.
    Write(usize),
    /// Have the collector write what it gathered.
    WriteCollected,
    /// Update the time and size with this index.
    Update(usize),
    /// Make the secondary indexes and the full-text search anew.
    FinishBulk,
    /// Delete the file with this index among those that are gone.
    Delete(usize),
    /// Ask for the files whose content is missing.
    ListMissing,
    /// Fill in the content with this index among those that are missing.
    Fill(usize),
    /// The work is done.
    Done,
    /// The work has failed.
    Failed,
}

/// How the last step went.
#[derive(Debug, Clone, Copy, PartialEq, Eq, Structural)]
pub enum ReindexAnswer {
    Success,
    Failed,
    /// It went well and found so many.
    Found(usize),
}

/// The work that brings the database up to date.
#[derive(Debug, Clone, Copy, PartialEq, Eq, Structural)]
pub struct Reindex {
    pub plan: ReindexPlan,
    pub phase: ReindexPhase,
    /// Which item of the current list is next.
    pub at: usize,
    /// How many items the current transaction holds.
    pub in_batch: usize,
    /// How many files were written.
    pub indexed: usize,
    /// How many files could not be written.
    pub failed: usize,
    /// How many contents are missing.
    pub missing: usize,
}

impl ReindexPlan {
    /// Whether there is nothing to do.
    pub open spec fn idle(self) -> bool {
        self.candidates == 0 && self.updates == 0 && self.gone == 0
    }

    /// Whether the secondary indexes are dropped.
    pub open spec fn bulk(self) -> bool {
        self.candidates > self.bulk_threshold
    }

    /// Whether the collector takes part: only where all files are parsed.
    pub open spec fn collects(self) -> bool {
        self.has_collector && (self.force || self.fresh)
    }

    /// Whether files are written without deleting what is known of them one by one: there is
    /// nothing, or it was deleted at once.
    pub open spec fn skips_deletes(self) -> bool {
        self.bulk() || self.fresh
    }

    /// How many contents one transaction holds when contents are filled in.
    pub open spec fn fill_batch(self) -> usize {
        if self.batch_size < FILL_BATCH_MIN {
            FILL_BATCH_MIN
        } else {
            self.batch_size
        }
    }

    /// Whether the secondary indexes are dropped.
    pub fn bulk_mode(&self) -> (r: bool)
        ensures
            r == self.bulk(),
    {
        self.candidates > self.bulk_threshold
    }

    /// Whether the collector takes part.
    pub fn uses_collector(&self) -> (r: bool)
        ensures
            r == self.collects(),
    {
        self.has_collector && (self.force || self.fresh)
    }

    /// Whether files are written without deleting what is known of them one by one.
    pub fn skip_delete(&self) -> (r: bool)
        ensures
            r == self.skips_deletes(),
    {
        self.bulk_mode() || self.fresh
    }

    /// How many contents one transaction holds when contents are filled in.
    pub fn fill_batch_size(&self) -> (r: usize)
        ensures
            r == self.fill_batch(),
    {
        if self.batch_size < FILL_BATCH_MIN {
            FILL_BATCH_MIN
        } else {
            self.batch_size
        }
    }
}

impl Reindex {
    /// The work with a given phase.
    pub open spec fn to(self, phase: ReindexPhase) -> Reindex {
        Reindex { phase, ..self }
    }

    /// The work at the start of a list.
    pub open spec fn list(self, phase: ReindexPhase) -> Reindex {
        Reindex { phase, at: 0, in_batch: 0, ..self }
    }

    /// The phase in which the file `at` is written, or all are.
    pub open spec fn writing(self, at: usize) -> ReindexPhase {
        if at < self.plan.candidates {
            ReindexPhase::Write
        } else {
            ReindexPhase::CommitWrites
        }
    }

    /// The phase that follows the writes.
    pub open spec fn after_writes(self) -> ReindexPhase {
        if self.plan.updates > 0 {
            ReindexPhase::BeginUpdates
        } else {
            self.after_updates()
        }
    }

    /// The phase that follows the updates.
    pub open spec fn after_updates(self) -> ReindexPhase {
        if self.plan.bulk() {
            ReindexPhase::FinishBulk
        } else {
            ReindexPhase::BeginDeletes
        }
    }

    /// The phase in which the time and size `at` are updated, or all are.
    pub open spec fn updating(self, at: usize) -> ReindexPhase {
        if at < self.plan.updates {
            ReindexPhase::Update
        } else {
            ReindexPhase::CommitUpdates
        }
    }

    /// The phase in which the file `at` is deleted, or all are.
    pub open spec fn deleting(self, at: usize) -> ReindexPhase {
        if at < self.plan.gone {
            ReindexPhase::Delete
        } else {
            ReindexPhase::CommitDeletes
        }
    }

    /// The phase in which the content `at` is filled in, or all are.
    pub open spec fn filling(self, at: usize) -> ReindexPhase {
        if at < self.missing {
            ReindexPhase::Fill
        } else {
            ReindexPhase::CommitFills
        }
    }

    /// Whether the counters are within the lists.
    pub open spec fn wf(self) -> bool {
        &&& self.phase is Write ==> self.at < self.plan.candidates && self.in_batch <= self.at
        &&& self.phase is CommitBatch || self.phase is BeginBatch ==> self.at
            <= self.plan.candidates
        &&& self.phase is Update ==> self.at < self.plan.updates
        &&& self.phase is Delete ==> self.at < self.plan.gone
        &&& self.phase is Fill ==> self.at < self.missing && self.in_batch <= self.at
        &&& self.phase is CommitFillBatch || self.phase is BeginFillBatch ==> self.at
            <= self.missing
        &&& self.indexed + self.failed <= self.plan.candidates
        &&& self.phase is Write || self.phase is CommitBatch || self.phase is BeginBatch
            ==> self.indexed + self.failed == self.at
        &&& before_writes(self.phase) ==> self.indexed + self.failed == 0
        &&& after_last_write(self.phase) ==> self.indexed + self.failed == self.plan.candidates
    }

    /// The work before the first step.
    pub open spec fn starting(plan: ReindexPlan) -> Reindex {
        Reindex {
            plan,
            phase: if plan.idle() {
                ReindexPhase::Done
            } else if plan.bulk() && !plan.fresh {
                ReindexPhase::DropTriggers
            } else if plan.bulk() {
                ReindexPhase::PrepareBulk
            } else {
                ReindexPhase::Parse
            },
            at: 0,
            in_batch: 0,
            indexed: 0,
            failed: 0,
            missing: 0,
        }
    }

    /// The work after the step that was asked for, given how it went. Of single files only the
    /// deletion must go well; whatever else is asked for ends the work where it fails.
    pub open spec fn after(self, answer: ReindexAnswer) -> Reindex {
        let ok = !(answer is Failed);
        let s = self;
        match self.phase {
            ReindexPhase::DropTriggers => if ok {
                s.to(ReindexPhase::DeleteOldRows)
            } else {
                s.to(ReindexPhase::Failed)
            },
            ReindexPhase::DeleteOldRows => if ok {
                s.to(ReindexPhase::PrepareBulk)
            } else {
                s.to(ReindexPhase::Failed)
            },
            ReindexPhase::PrepareBulk => if ok {
                s.to(ReindexPhase::Parse)
            } else {
                s.to(ReindexPhase::Failed)
            },
            ReindexPhase::Parse => if s.plan.collects() {
                s.to(ReindexPhase::Collect)
            } else {
                s.to(ReindexPhase::Compress)
            },
            ReindexPhase::Collect => s.to(ReindexPhase::Compress),
            ReindexPhase::Compress => s.to(ReindexPhase::BeginWrites),
            ReindexPhase::BeginWrites => if ok {
                s.list(s.writing(0))
            } else {
                s.to(ReindexPhase::Failed)
            },
            ReindexPhase::Write => {
                let n = Reindex {
                    at: (s.at + 1) as usize,
                    in_batch: if ok {
                        (s.in_batch + 1) as usize
                    } else {
                        s.in_batch
                    },
                    indexed: if ok {
                        (s.indexed + 1) as usize
                    } else {
                        s.indexed
                    },
                    failed: if ok {
                        s.failed
                    } else {
                        (s.failed + 1) as usize
                    },
                    ..s
                };
                if n.in_batch >= s.plan.batch_size {
                    n.to(ReindexPhase::CommitBatch)
                } else {
                    n.to(n.writing(n.at))
                }
            },
            ReindexPhase::CommitBatch => if ok {
                s.to(ReindexPhase::BeginBatch)
            } else {
                s.to(ReindexPhase::Failed)
            },
            ReindexPhase::BeginBatch => if ok {
                Reindex { phase: s.writing(s.at), in_batch: 0, ..s }
            } else {
                s.to(ReindexPhase::Failed)
            },
            ReindexPhase::CommitWrites => if !ok {
                s.to(ReindexPhase::Failed)
            } else if s.plan.collects() {
                s.to(ReindexPhase::WriteCollected)
            } else {
                s.to(s.after_writes())
            },
            ReindexPhase::WriteCollected => if ok {
                s.to(s.after_writes())
            } else {
                s.to(ReindexPhase::Failed)
            },
            ReindexPhase::BeginUpdates => if ok {
                s.list(s.updating(0))
            } else {
                s.to(ReindexPhase::Failed)
            },
            ReindexPhase::Update => Reindex {
                phase: s.updating((s.at + 1) as usize),
                at: (s.at + 1) as usize,
                ..s
            },
            ReindexPhase::CommitUpdates => if ok {
                s.to(s.after_updates())
            } else {
                s.to(ReindexPhase::Failed)
            },
            ReindexPhase::FinishBulk => if ok {
                s.to(ReindexPhase::BeginDeletes)
            } else {
                s.to(ReindexPhase::Failed)
            },
            ReindexPhase::BeginDeletes => if ok {
                s.list(s.deleting(0))
            } else {
                s.to(ReindexPhase::Failed)
            },
            ReindexPhase::Delete => if ok {
                Reindex {
                    phase: s.deleting((s.at + 1) as usize),
                    at: (s.at + 1) as usize,
                    ..s
                }
            } else {
                s.to(ReindexPhase::Failed)
            },
            ReindexPhase::CommitDeletes => if ok {
                s.to(ReindexPhase::ListMissing)
            } else {
                s.to(ReindexPhase::Failed)
            },
            ReindexPhase::ListMissing => match answer {
                ReindexAnswer::Failed => s.to(ReindexPhase::Failed),
                ReindexAnswer::Success => s.to(ReindexPhase::Done),
                ReindexAnswer::Found(n) => if n == 0 {
                    s.to(ReindexPhase::Done)
                } else {
                    Reindex { phase: ReindexPhase::BeginFills, missing: n, ..s }
                },
            },
            ReindexPhase::BeginFills => if ok {
                s.list(s.filling(0))
            } else {
                s.to(ReindexPhase::Failed)
            },
            ReindexPhase::Fill => {
                let n = Reindex {
                    at: (s.at + 1) as usize,
                    in_batch: (s.in_batch + 1) as usize,
                    ..s
                };
                if n.in_batch >= s.plan.fill_batch() {
                    n.to(ReindexPhase::CommitFillBatch)
                } else {
                    n.to(n.filling(n.at))
                }
            },
            ReindexPhase::CommitFillBatch => if ok {
                s.to(ReindexPhase::BeginFillBatch)
            } else {
                s.to(ReindexPhase::Failed)
            },
            ReindexPhase::BeginFillBatch => if ok {
                Reindex { phase: s.filling(s.at), in_batch: 0, ..s }
            } else {
                s.to(ReindexPhase::Failed)
            },
            ReindexPhase::CommitFills => if ok {
                s.to(ReindexPhase::Done)
            } else {
                s.to(ReindexPhase::Failed)
            },
            ReindexPhase::Done => s,
            ReindexPhase::Failed => s,
        }
    }

    /// What is to be done in a phase.
    pub open spec fn wanted(self) -> ReindexAction {
        match self.phase {
            ReindexPhase::DropTriggers => ReindexAction::DropTriggers,
            ReindexPhase::DeleteOldRows => ReindexAction::DeleteOldRows,
            ReindexPhase::PrepareBulk => ReindexAction::PrepareBulk,
            ReindexPhase::Parse => ReindexAction::Parse,
            ReindexPhase::Collect => ReindexAction::Collect,
            ReindexPhase::Compress => ReindexAction::Compress,
            ReindexPhase::BeginWrites => ReindexAction::Begin,
            ReindexPhase::Write => ReindexAction::Write(self.at),
            ReindexPhase::CommitBatch => ReindexAction::Commit,
            ReindexPhase::BeginBatch => ReindexAction::Begin,
            ReindexPhase::CommitWrites => ReindexAction::Commit,
            ReindexPhase::WriteCollected => ReindexAction::WriteCollected,
            ReindexPhase::BeginUpdates => ReindexAction::Begin,
            ReindexPhase::Update => ReindexAction::Update(self.at),
            ReindexPhase::CommitUpdates => ReindexAction::Commit,
            ReindexPhase::FinishBulk => ReindexAction::FinishBulk,
            ReindexPhase::BeginDeletes => ReindexAction::Begin,
            ReindexPhase::Delete => ReindexAction::Delete(self.at),
            ReindexPhase::CommitDeletes => ReindexAction::Commit,
            ReindexPhase::ListMissing => ReindexAction::ListMissing,
            ReindexPhase::BeginFills => ReindexAction::Begin,
            ReindexPhase::Fill => ReindexAction::Fill(self.at),
            ReindexPhase::CommitFillBatch => ReindexAction::Commit,
            ReindexPhase::BeginFillBatch => ReindexAction::Begin,
            ReindexPhase::CommitFills => ReindexAction::Commit,
            ReindexPhase::Done => ReindexAction::Done,
            ReindexPhase::Failed => ReindexAction::Failed,
        }
    }
}

/// Whether nothing was written yet.
pub open spec fn before_writes(phase: ReindexPhase) -> bool {
    match phase {
        ReindexPhase::DropTriggers => true,
        ReindexPhase::DeleteOldRows => true,
        ReindexPhase::PrepareBulk => true,
        ReindexPhase::Parse => true,
        ReindexPhase::Collect => true,
        ReindexPhase::Compress => true,
        ReindexPhase::BeginWrites => true,
        _ => false,
    }
}

/// Whether all files were gone over.
pub open spec fn after_last_write(phase: ReindexPhase) -> bool {
    match phase {
        ReindexPhase::CommitWrites => true,
        ReindexPhase::WriteCollected => true,
        ReindexPhase::BeginUpdates => true,
        ReindexPhase::Update => true,
        ReindexPhase::CommitUpdates => true,
        ReindexPhase::FinishBulk => true,
        ReindexPhase::BeginDeletes => true,
        ReindexPhase::Delete => true,
        ReindexPhase::CommitDeletes => true,
        ReindexPhase::ListMissing => true,
        ReindexPhase::BeginFills => true,
        ReindexPhase::Fill => true,
        ReindexPhase::CommitFillBatch => true,
        ReindexPhase::BeginFillBatch => true,
        ReindexPhase::CommitFills => true,
        ReindexPhase::Done => true,
        _ => false,
    }
}

impl Reindex {
    /// The work before the first step.
    pub fn start(plan: ReindexPlan) -> (r: Reindex)
        ensures
            r == Reindex::starting(plan),
            r.wf(),
    {
        let phase = if plan.candidates == 0 && plan.updates == 0 && plan.gone == 0 {
            ReindexPhase::Done
        } else if plan.bulk_mode() && !plan.fresh {
            ReindexPhase::DropTriggers
        } else if plan.bulk_mode() {
            ReindexPhase::PrepareBulk
        } else {
            ReindexPhase::Parse
        };
        Reindex { plan, phase, at: 0, in_batch: 0, indexed: 0, failed: 0, missing: 0 }
    }

    fn in_phase(&self, phase: ReindexPhase) -> (r: Reindex)
        ensures
            r == self.to(phase),
    {
        Reindex { phase, ..*self }
    }

    fn at_list(&self, phase: ReindexPhase) -> (r: Reindex)
        ensures
            r == self.list(phase),
    {
        Reindex { phase, at: 0, in_batch: 0, ..*self }
    }

    fn write_phase(&self, at: usize) -> (r: ReindexPhase)
        ensures
            r == self.writing(at),
    {
        if at < self.plan.candidates {
            ReindexPhase::Write
        } else {
            ReindexPhase::CommitWrites
        }
    }

    fn phase_after_writes(&self) -> (r: ReindexPhase)
        ensures
            r == self.after_writes(),
    {
        if self.plan.updates > 0 {
            ReindexPhase::BeginUpdates
        } else {
            self.phase_after_updates()
        }
    }

    fn phase_after_updates(&self) -> (r: ReindexPhase)
        ensures
            r == self.after_updates(),
    {
        if self.plan.bulk_mode() {
            ReindexPhase::FinishBulk
        } else {
            ReindexPhase::BeginDeletes
        }
    }

    fn update_phase(&self, at: usize) -> (r: ReindexPhase)
        ensures
            r == self.updating(at),
    {
        if at < self.plan.updates {
            ReindexPhase::Update
        } else {
            ReindexPhase::CommitUpdates
        }
    }

    fn delete_phase(&self, at: usize) -> (r: ReindexPhase)
        ensures
            r == self.deleting(at),
    {
        if at < self.plan.gone {
            ReindexPhase::Delete
        } else {
            ReindexPhase::CommitDeletes
        }
    }

    fn fill_phase(&self, at: usize) -> (r: ReindexPhase)
        ensures
            r == self.filling(at),
    {
        if at < self.missing {
            ReindexPhase::Fill
        } else {
            ReindexPhase::CommitFills
        }
    }

    /// The work after the step that was asked for, given how it went.
    pub fn next(&self, answer: ReindexAnswer) -> (r: Reindex)
        requires
            self.wf(),
        ensures
            r == self.after(answer),
            r.wf(),
    {
        let ok: bool = match answer {
            ReindexAnswer::Failed => false,
            _ => true,
        };
        let s = *self;
        match self.phase {
            ReindexPhase::DropTriggers => if ok {
                s.in_phase(ReindexPhase::DeleteOldRows)
            } else {
                s.in_phase(ReindexPhase::Failed)
            },
            ReindexPhase::DeleteOldRows => if ok {
                s.in_phase(ReindexPhase::PrepareBulk)
            } else {
                s.in_phase(ReindexPhase::Failed)
            },
            ReindexPhase::PrepareBulk => if ok {
                s.in_phase(ReindexPhase::Parse)
            } else {
                s.in_phase(ReindexPhase::Failed)
            },
            ReindexPhase::Parse => if s.plan.uses_collector() {
                s.in_phase(ReindexPhase::Collect)
            } else {
                s.in_phase(ReindexPhase::Compress)
            },
            ReindexPhase::Collect => s.in_phase(ReindexPhase::Compress),
            ReindexPhase::Compress => s.in_phase(ReindexPhase::BeginWrites),
            ReindexPhase::BeginWrites => if ok {
                s.at_list(s.write_phase(0))
            } else {
                s.in_phase(ReindexPhase::Failed)
            },
            ReindexPhase::Write => {
                let n = Reindex {
                    at: s.at + 1,
                    in_batch: if ok {
                        s.in_batch + 1
                    } else {
                        s.in_batch
                    },
                    indexed: if ok {
                        s.indexed + 1
                    } else {
                        s.indexed
                    },
                    failed: if ok {
                        s.failed
                    } else {
                        s.failed + 1
                    },
                    ..s
                };
                if n.in_batch >= s.plan.batch_size {
                    n.in_phase(ReindexPhase::CommitBatch)
                } else {
                    n.in_phase(n.write_phase(n.at))
                }
            },
            ReindexPhase::CommitBatch => if ok {
                s.in_phase(ReindexPhase::BeginBatch)
            } else {
                s.in_phase(ReindexPhase::Failed)
            },
            ReindexPhase::BeginBatch => if ok {
                Reindex { phase: s.write_phase(s.at), in_batch: 0, ..s }
            } else {
                s.in_phase(ReindexPhase::Failed)
            },
            ReindexPhase::CommitWrites => if !ok {
                s.in_phase(ReindexPhase::Failed)
            } else if s.plan.uses_collector() {
                s.in_phase(ReindexPhase::WriteCollected)
            } else {
                s.in_phase(s.phase_after_writes())
            },
            ReindexPhase::WriteCollected => if ok {
                s.in_phase(s.phase_after_writes())
            } else {
                s.in_phase(ReindexPhase::Failed)
            },
            ReindexPhase::BeginUpdates => if ok {
                s.at_list(s.update_phase(0))
            } else {
                s.in_phase(ReindexPhase::Failed)
            },
            ReindexPhase::Update => Reindex {
                phase: s.update_phase(s.at + 1),
                at: s.at + 1,
                ..s
            },
            ReindexPhase::CommitUpdates => if ok {
                s.in_phase(s.phase_after_updates())
            } else {
                s.in_phase(ReindexPhase::Failed)
            },
            ReindexPhase::FinishBulk => if ok {
                s.in_phase(ReindexPhase::BeginDeletes)
            } else {
                s.in_phase(ReindexPhase::Failed)
            },
            ReindexPhase::BeginDeletes => if ok {
                s.at_list(s.delete_phase(0))
            } else {
                s.in_phase(ReindexPhase::Failed)
            },
            ReindexPhase::Delete => if ok {
                Reindex {
                    phase: s.delete_phase(s.at + 1),
                    at: s.at + 1,
                    ..s
                }
            } else {
                s.in_phase(ReindexPhase::Failed)
            },
            ReindexPhase::CommitDeletes => if ok {
                s.in_phase(ReindexPhase::ListMissing)
            } else {
                s.in_phase(ReindexPhase::Failed)
            },
            ReindexPhase::ListMissing => match answer {
                ReindexAnswer::Failed => s.in_phase(ReindexPhase::Failed),
                ReindexAnswer::Success => s.in_phase(ReindexPhase::Done),
                ReindexAnswer::Found(n) => if n == 0 {
                    s.in_phase(ReindexPhase::Done)
                } else {
                    Reindex { phase: ReindexPhase::BeginFills, missing: n, ..s }
                },
            },
            ReindexPhase::BeginFills => if ok {
                s.at_list(s.fill_phase(0))
            } else {
                s.in_phase(ReindexPhase::Failed)
            },
            ReindexPhase::Fill => {
                let n = Reindex {
                    at: s.at + 1,
                    in_batch: s.in_batch + 1,
                    ..s
                };
                if n.in_batch >= s.plan.fill_batch_size() {
                    n.in_phase(ReindexPhase::CommitFillBatch)
                } else {
                    n.in_phase(n.fill_phase(n.at))
                }
            },
            ReindexPhase::CommitFillBatch => if ok {
                s.in_phase(ReindexPhase::BeginFillBatch)
            } else {
                s.in_phase(ReindexPhase::Failed)
            },
            ReindexPhase::BeginFillBatch => if ok {
                Reindex { phase: s.fill_phase(s.at), in_batch: 0, ..s }
            } else {
                s.in_phase(ReindexPhase::Failed)
            },
            ReindexPhase::CommitFills => if ok {
                s.in_phase(ReindexPhase::Done)
            } else {
                s.in_phase(ReindexPhase::Failed)
            },
            ReindexPhase::Done => s,
            ReindexPhase::Failed => s,
        }
    }

    /// What is to be done.
    pub fn action(&self) -> (r: ReindexAction)
        ensures
            r == self.wanted(),
    {
        match self.phase {
            ReindexPhase::DropTriggers => ReindexAction::DropTriggers,
            ReindexPhase::DeleteOldRows => ReindexAction::DeleteOldRows,
            ReindexPhase::PrepareBulk => ReindexAction::PrepareBulk,
            ReindexPhase::Parse => ReindexAction::Parse,
            ReindexPhase::Collect => ReindexAction::Collect,
            ReindexPhase::Compress => ReindexAction::Compress,
            ReindexPhase::BeginWrites => ReindexAction::Begin,
            ReindexPhase::Write => ReindexAction::Write(self.at),
            ReindexPhase::CommitBatch => ReindexAction::Commit,
            ReindexPhase::BeginBatch => ReindexAction::Begin,
            ReindexPhase::CommitWrites => ReindexAction::Commit,
            ReindexPhase::WriteCollected => ReindexAction::WriteCollected,
            ReindexPhase::BeginUpdates => ReindexAction::Begin,
            ReindexPhase::Update => ReindexAction::Update(self.at),
            ReindexPhase::CommitUpdates => ReindexAction::Commit,
            ReindexPhase::FinishBulk => ReindexAction::FinishBulk,
            ReindexPhase::BeginDeletes => ReindexAction::Begin,
            ReindexPhase::Delete => ReindexAction::Delete(self.at),
            ReindexPhase::CommitDeletes => ReindexAction::Commit,
            ReindexPhase::ListMissing => ReindexAction::ListMissing,
            ReindexPhase::BeginFills => ReindexAction::Begin,
            ReindexPhase::Fill => ReindexAction::Fill(self.at),
            ReindexPhase::CommitFillBatch => ReindexAction::Commit,
            ReindexPhase::BeginFillBatch => ReindexAction::Begin,
            ReindexPhase::CommitFills => ReindexAction::Commit,
            ReindexPhase::Done => ReindexAction::Done,
            ReindexPhase::Failed => ReindexAction::Failed,
        }
    }
}

/// The work after a number of steps, given how each of them went.
pub open spec fn run(plan: ReindexPlan, answers: Seq<ReindexAnswer>) -> Reindex
    decreases answers.len(),
{
    if answers.len() == 0 {
        Reindex::starting(plan)
    } else {
        run(plan, answers.drop_last()).after(answers.last())
    }
}

/// Whether a transaction is open after a number of steps. There is no answer once one was begun
/// while another was open, or something was written or ended without one.
pub open spec fn transaction(plan: ReindexPlan, answers: Seq<ReindexAnswer>) -> Option<bool>
    decreases answers.len(),
{
    if answers.len() == 0 {
        Some(false)
    } else {
        let ok = !(answers.last() is Failed);
        match transaction(plan, answers.drop_last()) {
            Some(open) => match run(plan, answers.drop_last()).wanted() {
                ReindexAction::Begin => if open {
                    None
                } else {
                    Some(ok)
                },
                ReindexAction::Commit => if open {
                    Some(!ok)
                } else {
                    None
                },
                ReindexAction::Write(_) => if open {
                    Some(true)
                } else {
                    None
                },
                ReindexAction::Update(_) => if open {
                    Some(true)
                } else {
                    None
                },
                ReindexAction::Delete(_) => if open {
                    Some(true)
                } else {
                    None
                },
                ReindexAction::Fill(_) => if open {
                    Some(true)
                } else {
                    None
                },
                ReindexAction::Done => Some(open),
                ReindexAction::Failed => Some(open),
                _ => if open {
                    None
                } else {
                    Some(false)
                },
            },
            None => None,
        }
    }
}

/// Whether the secondary indexes are dropped after a number of steps.
pub open spec fn dropped(plan: ReindexPlan, answers: Seq<ReindexAnswer>) -> bool
    decreases answers.len(),
{
    if answers.len() == 0 {
        false
    } else {
        let ok = !(answers.last() is Failed);
        match run(plan, answers.drop_last()).wanted() {
            ReindexAction::PrepareBulk => ok || dropped(plan, answers.drop_last()),
            ReindexAction::FinishBulk => !ok && dropped(plan, answers.drop_last()),
            _ => dropped(plan, answers.drop_last()),
        }
    }
}

/// Whether a transaction is open in a phase.
spec fn open_in(phase: ReindexPhase) -> bool {
    match phase {
        ReindexPhase::Write => true,
        ReindexPhase::CommitBatch => true,
        ReindexPhase::CommitWrites => true,
        ReindexPhase::Update => true,
        ReindexPhase::CommitUpdates => true,
        ReindexPhase::Delete => true,
        ReindexPhase::CommitDeletes => true,
        ReindexPhase::Fill => true,
        ReindexPhase::CommitFillBatch => true,
        ReindexPhase::CommitFills => true,
        _ => false,
    }
}

/// Whether the secondary indexes are dropped in a phase of bulk work.
spec fn dropped_in(phase: ReindexPhase) -> bool {
    match phase {
        ReindexPhase::DropTriggers => false,
        ReindexPhase::DeleteOldRows => false,
        ReindexPhase::PrepareBulk => false,
        ReindexPhase::BeginDeletes => false,
        ReindexPhase::Delete => false,
        ReindexPhase::CommitDeletes => false,
        ReindexPhase::ListMissing => false,
        ReindexPhase::BeginFills => false,
        ReindexPhase::Fill => false,
        ReindexPhase::CommitFillBatch => false,
        ReindexPhase::BeginFillBatch => false,
        ReindexPhase::CommitFills => false,
        ReindexPhase::Done => false,
        _ => true,
    }
}

/// The plan stays what it was, and the counters stay within the lists.
proof fn lemma_run_wf(plan: ReindexPlan, answers: Seq<ReindexAnswer>)
    ensures
        run(plan, answers).plan == plan,
        run(plan, answers).wf(),
    decreases answers.len(),
{
    if answers.len() > 0 {
        lemma_run_wf(plan, answers.drop_last());
        lemma_after_wf(run(plan, answers.drop_last()), answers.last());
    }
}

/// A step keeps the plan and the counters.
#[verifier::rlimit(50)]
proof fn lemma_after_wf(s: Reindex, answer: ReindexAnswer)
    requires
        s.wf(),
    ensures
        s.after(answer).plan == s.plan,
        s.after(answer).wf(),
{
    match s.phase {
        ReindexPhase::Write => {},
        ReindexPhase::Fill => {},
        ReindexPhase::BeginBatch => {},
        ReindexPhase::BeginFillBatch => {},
        _ => {},
    }
}

/// Transactions never overlap, nothing is written outside of one, and none is open when the
/// work is done.
pub proof fn law_transactions_are_paired(plan: ReindexPlan, answers: Seq<ReindexAnswer>)
    ensures
        transaction(plan, answers) is Some,
        run(plan, answers).phase is Done ==> transaction(plan, answers) == Some(false),
{
    lemma_transaction(plan, answers);
}

proof fn lemma_transaction(plan: ReindexPlan, answers: Seq<ReindexAnswer>)
    ensures
        transaction(plan, answers) is Some,
        !(run(plan, answers).phase is Failed) ==> transaction(plan, answers) == Some(
            open_in(run(plan, answers).phase),
        ),
    decreases answers.len(),
{
    if answers.len() > 0 {
        lemma_transaction(plan, answers.drop_last());
    }
}

/// The secondary indexes are never left dropped by work that is done.
pub proof fn law_indexes_are_made_anew(plan: ReindexPlan, answers: Seq<ReindexAnswer>)
    ensures
        run(plan, answers).phase is Done ==> !dropped(plan, answers),
{
    lemma_dropped(plan, answers);
}

proof fn lemma_dropped(plan: ReindexPlan, answers: Seq<ReindexAnswer>)
    ensures
        !(run(plan, answers).phase is Failed) ==> dropped(plan, answers) == (plan.bulk()
            && dropped_in(run(plan, answers).phase)),
        run(plan, answers).phase is PrepareBulk || run(plan, answers).phase is FinishBulk
            ==> plan.bulk(),
    decreases answers.len(),
{
    if answers.len() > 0 {
        lemma_dropped(plan, answers.drop_last());
        lemma_run_wf(plan, answers.drop_last());
    }
}

/// In an index that is not new, old rows are deleted before the secondary indexes are dropped,
/// while they still can be found fast.
pub proof fn law_old_rows_go_before_the_indexes(plan: ReindexPlan, answers: Seq<ReindexAnswer>)
    requires
        !plan.fresh,
        run(plan, answers).wanted() is PrepareBulk,
    ensures
        answers.len() > 0,
        run(plan, answers.drop_last()).wanted() is DeleteOldRows,
        !(answers.last() is Failed),
{
}

/// When the work is done, each file was written or has failed.
pub proof fn law_every_candidate_is_settled(plan: ReindexPlan, answers: Seq<ReindexAnswer>)
    ensures
        run(plan, answers).phase is Done ==> run(plan, answers).indexed + run(
            plan,
            answers,
        ).failed == plan.candidates,
{
    lemma_run_wf(plan, answers);
}

/// A transaction holds no more files than the settings say, but at least one.
pub proof fn law_batches_are_bounded(plan: ReindexPlan, answers: Seq<ReindexAnswer>)
    ensures
        run(plan, answers).phase is Write ==> run(plan, answers).in_batch < plan.batch_size
            || run(plan, answers).in_batch == 0,
    decreases answers.len(),
{
    if answers.len() > 0 {
        law_batches_are_bounded(plan, answers.drop_last());
        lemma_run_wf(plan, answers.drop_last());
    }
}

/// How far the work is from its end, by its parts.
pub open spec fn stage(phase: ReindexPhase) -> int {
    match phase {
        ReindexPhase::DropTriggers => 20,
        ReindexPhase::DeleteOldRows => 19,
        ReindexPhase::PrepareBulk => 18,
        ReindexPhase::Parse => 17,
        ReindexPhase::Collect => 16,
        ReindexPhase::Compress => 15,
        ReindexPhase::BeginWrites => 14,
        ReindexPhase::Write => 13,
        ReindexPhase::CommitBatch => 13,
        ReindexPhase::BeginBatch => 13,
        ReindexPhase::CommitWrites => 12,
        ReindexPhase::WriteCollected => 11,
        ReindexPhase::BeginUpdates => 10,
        ReindexPhase::Update => 9,
        ReindexPhase::CommitUpdates => 8,
        ReindexPhase::FinishBulk => 7,
        ReindexPhase::BeginDeletes => 6,
        ReindexPhase::Delete => 5,
        ReindexPhase::CommitDeletes => 4,
        ReindexPhase::ListMissing => 3,
        ReindexPhase::BeginFills => 2,
        ReindexPhase::Fill => 1,
        ReindexPhase::CommitFillBatch => 1,
        ReindexPhase::BeginFillBatch => 1,
        ReindexPhase::CommitFills => 0,
        ReindexPhase::Done => -1,
        ReindexPhase::Failed => -1,
    }
}

/// How many steps are left in a part that goes over a list.
pub open spec fn left(s: Reindex) -> int {
    match s.phase {
        ReindexPhase::Write => 3 * (s.plan.candidates - s.at),
        ReindexPhase::CommitBatch => 3 * (s.plan.candidates - s.at) + 2,
        ReindexPhase::BeginBatch => 3 * (s.plan.candidates - s.at) + 1,
        ReindexPhase::Update => s.plan.updates - s.at,
        ReindexPhase::Delete => s.plan.gone - s.at,
        ReindexPhase::Fill => 3 * (s.missing - s.at),
        ReindexPhase::CommitFillBatch => 3 * (s.missing - s.at) + 2,
        ReindexPhase::BeginFillBatch => 3 * (s.missing - s.at) + 1,
        _ => 0,
    }
}

/// Every step brings the work nearer to its end, so it ends whatever the answers are.
pub proof fn law_work_ends(s: Reindex, answer: ReindexAnswer)
    requires
        s.wf(),
        !(s.phase is Done),
        !(s.phase is Failed),
    ensures
        left(s) >= 0,
        stage(s.after(answer).phase) < stage(s.phase) || (stage(s.after(answer).phase) == stage(
            s.phase,
        ) && 0 <= left(s.after(answer)) < left(s)),
{
}

/// The work begins where its plan says: it is done at once where there is nothing to do; many files
/// are written without the secondary indexes, and in an index that is not new the old rows go at
/// once before that; otherwise the files are parsed right away.
pub proof fn law_work_begins_as_planned(plan: ReindexPlan)
    ensures
        ({
            let first = Reindex::starting(plan).wanted();
            if plan.candidates == 0 && plan.updates == 0 && plan.gone == 0 {
                first is Done
            } else if plan.candidates > plan.bulk_threshold {
                if plan.fresh {
                    first is PrepareBulk
                } else {
                    first is DropTriggers
                }
            } else {
                first is Parse
            }
        }),
        Reindex::starting(plan).plan == plan,
        plan.skips_deletes() == (plan.candidates > plan.bulk_threshold || plan.fresh),
{
}

/// Before the first file is written, old rows and secondary indexes go where they have to, the files
/// are parsed, a collector sees them where it takes part, and the contents are compressed.
pub proof fn law_files_are_prepared(s: Reindex, answer: ReindexAnswer)
    ensures
        s.wanted() is DropTriggers && !(answer is Failed) ==> s.after(answer).wanted()
            is DeleteOldRows,
        s.wanted() is DeleteOldRows && !(answer is Failed) ==> s.after(answer).wanted()
            is PrepareBulk,
        s.wanted() is PrepareBulk && !(answer is Failed) ==> s.after(answer).wanted() is Parse,
        s.wanted() is Parse && s.plan.has_collector && (s.plan.force || s.plan.fresh) ==> s.after(
            answer,
        ).wanted() is Collect,
        s.wanted() is Parse && !(s.plan.has_collector && (s.plan.force || s.plan.fresh))
            ==> s.after(answer).wanted() is Compress,
        s.wanted() is Collect ==> s.after(answer).wanted() is Compress,
        s.wanted() is Compress ==> s.after(answer).wanted() is Begin,
        s.phase is BeginWrites && !(answer is Failed) ==> s.after(answer).wanted() == (
        if s.plan.candidates > 0 {
            ReindexAction::Write(0)
        } else {
            ReindexAction::Commit
        }),
{
}

/// A file that was written, or could not be, is followed by the next one; after as many as a
/// transaction holds, a new one is begun in between. The last one is followed by a commit. Each is
/// counted once, as written or as failed.
pub proof fn law_files_are_written_in_turn(s: Reindex, i: usize, answer: ReindexAnswer)
    requires
        s.wf(),
        s.wanted() == ReindexAction::Write(i),
    ensures
        ({
            let n = s.after(answer);
            let full = n.in_batch >= s.plan.batch_size;
            let begun = n.after(ReindexAnswer::Success);
            let next = if full {
                begun.after(ReindexAnswer::Success)
            } else {
                n
            };
            &&& !(answer is Failed) ==> n.indexed == s.indexed + 1 && n.failed == s.failed
            &&& answer is Failed ==> n.indexed == s.indexed && n.failed == s.failed + 1
            &&& n.in_batch == if answer is Failed {
                s.in_batch as int
            } else {
                s.in_batch + 1
            }
            &&& full ==> n.wanted() is Commit && begun.wanted() is Begin && next.in_batch == 0
            &&& next.wanted() == if i + 1 < s.plan.candidates {
                ReindexAction::Write((i + 1) as usize)
            } else {
                ReindexAction::Commit
            }
        }),
{
}

/// After the last file was written, what a collector gathered is written, times and sizes are
/// updated one after the other, the secondary indexes are made anew where they were dropped, the
/// files that are gone are deleted one after the other, and contents that are missing are asked
/// for.
pub proof fn law_work_goes_on_after_the_writes(s: Reindex, answer: ReindexAnswer)
    requires
        s.wf(),
        !(answer is Failed),
    ensures
        ({
            let n = s.after(answer);
            let bulk = s.plan.candidates > s.plan.bulk_threshold;
            let collects = s.plan.has_collector && (s.plan.force || s.plan.fresh);
            &&& s.phase is CommitWrites && collects ==> n.wanted() is WriteCollected
            &&& (s.phase is CommitWrites && !collects || s.phase is WriteCollected)
                && s.plan.updates > 0 ==> n.phase is BeginUpdates
            &&& (s.phase is CommitWrites && !collects || s.phase is WriteCollected)
                && s.plan.updates == 0 || s.phase is CommitUpdates ==> if bulk {
                n.wanted() is FinishBulk
            } else {
                n.phase is BeginDeletes
            }
            &&& s.phase is BeginUpdates && s.plan.updates > 0 ==> n.wanted()
                == ReindexAction::Update(0)
            &&& s.wanted() matches ReindexAction::Update(i) ==> n.wanted() == if i + 1
                < s.plan.updates {
                ReindexAction::Update((i + 1) as usize)
            } else {
                ReindexAction::Commit
            }
            &&& s.wanted() is FinishBulk ==> n.phase is BeginDeletes
            &&& s.phase is BeginDeletes ==> n.wanted() == if s.plan.gone > 0 {
                ReindexAction::Delete(0)
            } else {
                ReindexAction::Commit
            }
            &&& s.wanted() matches ReindexAction::Delete(i) ==> n.wanted() == if i + 1 < s.plan.gone {
                ReindexAction::Delete((i + 1) as usize)
            } else {
                ReindexAction::Commit
            }
            &&& s.phase is CommitDeletes ==> n.wanted() is ListMissing
        }),
{
}

/// Contents that are missing are all filled in, one after the other, and then the work is done; it
/// is done at once where none is missing.
pub proof fn law_missing_contents_are_filled_in(s: Reindex, n: usize, answer: ReindexAnswer)
    requires
        s.wf(),
    ensures
        s.wanted() is ListMissing ==> ({
            let found = s.after(ReindexAnswer::Found(n));
            &&& n == 0 ==> found.wanted() is Done
            &&& n > 0 ==> found.wanted() is Begin && found.after(
                ReindexAnswer::Success,
            ).wanted() == ReindexAction::Fill(0)
        }),
        s.wanted() matches ReindexAction::Fill(i) ==> ({
            let f = s.after(answer);
            let full = f.in_batch >= s.plan.batch_size && f.in_batch >= 500;
            let next = if full {
                f.after(ReindexAnswer::Success).after(ReindexAnswer::Success)
            } else {
                f
            };
            &&& f.in_batch == s.in_batch + 1
            &&& full ==> f.wanted() is Commit && f.after(ReindexAnswer::Success).wanted() is Begin
            &&& next.wanted() == if i + 1 < s.missing {
                ReindexAction::Fill((i + 1) as usize)
            } else {
                ReindexAction::Commit
            }
        }),
        s.phase is CommitFills && !(answer is Failed) ==> s.after(answer).wanted() is Done,
{
}

/// The work fails only after a step that failed: never because of a single file that could not be
/// written, updated or filled in.
pub proof fn law_work_fails_only_after_a_failure(s: Reindex, answer: ReindexAnswer)
    requires
        !(s.wanted() is Failed),
        s.after(answer).wanted() is Failed,
    ensures
        answer is Failed,
        !(s.wanted() is Write),
        !(s.wanted() is Update),
        !(s.wanted() is Fill),
        !(s.wanted() is Parse),
{
}

/// What was asked for at a step.
pub open spec fn asked(plan: ReindexPlan, answers: Seq<ReindexAnswer>, i: int) -> ReindexAction {
    run(plan, answers.take(i)).wanted()
}

/// When the work is done, each file that was to be written was asked for.
pub proof fn law_every_candidate_is_written(
    plan: ReindexPlan,
    answers: Seq<ReindexAnswer>,
    k: usize,
)
    requires
        run(plan, answers).wanted() is Done,
        k < plan.candidates,
    ensures
        exists|i: int|
            0 <= i < answers.len() && #[trigger] asked(plan, answers, i) == ReindexAction::Write(k),
{
    lemma_written(plan, answers, k);
}

proof fn lemma_written(plan: ReindexPlan, answers: Seq<ReindexAnswer>, k: usize)
    requires
        k < plan.candidates,
        ({
            let s = run(plan, answers);
            after_last_write(s.phase) || ((s.phase is Write || s.phase is CommitBatch
                || s.phase is BeginBatch) && k < s.at)
        }),
    ensures
        exists|i: int|
            0 <= i < answers.len() && #[trigger] asked(plan, answers, i) == ReindexAction::Write(k),
    decreases answers.len(),
{
    lemma_run_wf(plan, answers);
    if answers.len() > 0 {
        let before = answers.drop_last();
        let n = before.len() as int;
        let s = run(plan, before);
        lemma_run_wf(plan, before);
        assert(answers.take(n) =~= before);
        assert(asked(plan, answers, n) == s.wanted());
        if s.wanted() != ReindexAction::Write(k) {
            lemma_written(plan, before, k);
            let i = choose|i: int|
                0 <= i < before.len() && #[trigger] asked(plan, before, i) == ReindexAction::Write(
                    k,
                );
            assert(answers.take(i) =~= before.take(i));
            assert(asked(plan, answers, i) == ReindexAction::Write(k));
        }
    }
}

} // verus!
