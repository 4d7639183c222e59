//! The life of a worker: it opens the database, indexes the directory, then follows its
//! changes until it is told to stop.

use crate::indexer::config::IndexConfig;
use vstd::prelude::*;
use vstd::string::*;

verus! {

/// How long the worker waits for a change before it looks whether to stop, in milliseconds.
pub const IDLE_POLL_MS: u64 = 500;

/// Why a worker could not do its work.
#[derive(Debug, Clone, Copy, PartialEq, Eq, Structural)]
pub enum WorkerFault {
    ResolvePath,
    CreateDir,
    LoadConfig,
    OpenFile,
    OpenAuto,
    Reindex,
    Reopen,
    CreateWatcher,
}

/// What is said of a fault before its cause.
pub open spec fn fault_prefix(fault: WorkerFault) -> Seq<char> {
    match fault {
        WorkerFault::ResolvePath => "Не удалось разрешить путь: "@,
        WorkerFault::CreateDir => "Создание .code-index/: "@,
        WorkerFault::LoadConfig => "Загрузка IndexConfig: "@,
        WorkerFault::OpenFile => "Storage::open_file: "@,
        WorkerFault::OpenAuto => "Storage::open_auto: "@,
        WorkerFault::Reindex => "full_reindex: "@,
        WorkerFault::Reopen => "Storage::open_file (disk reopen): "@,
        WorkerFault::CreateWatcher => "create_watcher: "@,
    }
}

/// What is said of a fault.
pub fn worker_error(fault: WorkerFault, cause: &str) -> (r: String)
    ensures
        r@ == fault_prefix(fault) + cause@,
{
    let prefix: &str = match fault {
        WorkerFault::ResolvePath => "Не удалось разрешить путь: ",
        WorkerFault::CreateDir => "Создание .code-index/: ",
        WorkerFault::LoadConfig => "Загрузка IndexConfig: ",
        WorkerFault::OpenFile => "Storage::open_file: ",
        WorkerFault::OpenAuto => "Storage::open_auto: ",
        WorkerFault::Reindex => "full_reindex: ",
        WorkerFault::Reopen => "Storage::open_file (disk reopen): ",
        WorkerFault::CreateWatcher => "create_watcher: ",
    };
    let mut out = prefix.to_owned();
    out.append(cause);
    out
}

/// The settings of the daemon for one directory.
#[derive(Debug, Clone)]
pub struct PathSettings {
    pub language: Option<String>,
    pub debounce_ms: Option<u64>,
    pub batch_ms: Option<u64>,
    pub max_code_file_size_bytes: Option<usize>,
    pub bulk_batch_threshold: Option<usize>,
}

/// The settings of the daemon for all directories.
#[derive(Debug, Clone)]
pub struct IndexerSettings {
    pub max_code_file_size_bytes: Option<usize>,
    pub bulk_batch_threshold: Option<usize>,
}

/// The setting that counts: that of the directory, then that of the daemon, then the default.
pub open spec fn effective(path: Option<usize>, daemon: Option<usize>, default: usize) -> usize {
    match path {
        Some(n) => n,
        None => match daemon {
            Some(n) => n,
            None => default,
        },
    }
}

fn effective_setting(path: Option<usize>, daemon: Option<usize>, default: usize) -> (r: usize)
    ensures
        r == effective(path, daemon, default),
{
    match path {
        Some(n) => n,
        None => match daemon {
            Some(n) => n,
            None => default,
        },
    }
}

/// The settings of a project as a worker uses them: the settings of the daemon are stronger
/// than those of the project.
pub fn effective_config(
    config: IndexConfig,
    path: &PathSettings,
    daemon: &IndexerSettings,
    default_code_size: usize,
    default_threshold: usize,
) -> (r: IndexConfig)
    ensures
        r.max_code_file_size_bytes == effective(
            path.max_code_file_size_bytes,
            daemon.max_code_file_size_bytes,
            default_code_size,
        ),
        r.bulk_batch_threshold == effective(
            path.bulk_batch_threshold,
            daemon.bulk_batch_threshold,
            default_threshold,
        ),
        match r.repo_language {
            Some(language) => path.language is Some && language@ == path.language->0@,
            None => path.language is None,
        },
        r == (IndexConfig {
            max_code_file_size_bytes: r.max_code_file_size_bytes,
            bulk_batch_threshold: r.bulk_batch_threshold,
            repo_language: r.repo_language,
            ..config
        }),
{
    let language = match &path.language {
        Some(l) => Some(l.clone()),
        None => None,
    };
    IndexConfig {
        max_code_file_size_bytes: effective_setting(
            path.max_code_file_size_bytes,
            daemon.max_code_file_size_bytes,
            default_code_size,
        ),
        bulk_batch_threshold: effective_setting(
            path.bulk_batch_threshold,
            daemon.bulk_batch_threshold,
            default_threshold,
        ),
        repo_language: language,
        ..config
    }
}

/// How long the watcher waits for silence, and how long it gathers at most: as the daemon says
/// for the directory, else as the project says.
pub fn watch_times(path: &PathSettings, config: &IndexConfig) -> (r: (u64, u64))
    ensures
        r.0 == (match path.debounce_ms {
            Some(ms) => ms,
            None => config.debounce_ms,
        }),
        r.1 == (match path.batch_ms {
            Some(ms) => ms,
            None => config.batch_ms,
        }),
{
    let debounce: u64 = match path.debounce_ms {
        Some(ms) => ms,
        None => config.debounce_ms,
    };
    let batch: u64 = match path.batch_ms {
        Some(ms) => ms,
        None => config.batch_ms,
    };
    (debounce, batch)
}

/// Where a worker stands.
#[derive(Debug, Clone, Copy, PartialEq, Eq, Structural)]
pub enum WorkerPhase {
    ResolvePath,
    CreateDir,
    LoadConfig,
    AcquireSlot,
    ShowInitial,
    ProbeDatabase,
    OpenFile,
    Weigh,
    OpenAuto,
    ResolveProcessor,
    MigrateSchema,
    ExtendSchema,
    Reindex,
    AskExtras,
    UpdateExtras,
    RebuildExtras,
    Flush,
    Reopen,
    ReleaseMemory,
    Checkpoint,
    ReleaseSlot,
    SetReady,
    CreateWatcher,
    CheckShutdown,
    Poll,
    ProcessBatch,
    FinalCheckpoint,
    SetError(WorkerFault),
    End,
}

/// How the last step went.
#[derive(Debug, Clone, Copy, PartialEq, Eq, Structural)]
pub enum WorkerAnswer {
    /// It went well; or it is so.
    Yes,
    /// It is not so; or there was nothing to do.
    No,
    /// It failed.
    Failed,
    /// The queue or the watcher is closed.
    Closed,
    /// The directory was indexed.
    Reindexed { files_indexed: usize, files_deleted: usize, paths_overflow: bool },
}

/// A worker. Its phase says what is to be done next:
///
/// * `ResolvePath`, `CreateDir`, `LoadConfig`: find the directory, make the one for the
///   database, read the settings;
/// * `AcquireSlot`: wait for a place among those that may index at the same time;
/// * `ShowInitial`: show that the directory is being indexed;
/// * `ProbeDatabase`: whether the database has a row;
/// * `OpenFile`: open the database on the disk; `Weigh`: whether a new one is worked on in
///   memory; `OpenAuto`: open it so;
/// * `ResolveProcessor`: whether something rests on the index; `MigrateSchema`,
///   `ExtendSchema`: make room for it;
/// * `Reindex`: bring the index up to date;
/// * `AskExtras`: whether what rests on the index is there; `UpdateExtras`: bring it up to date
///   for the files that changed; `RebuildExtras`: rebuild it as a whole;
/// * `Flush`, `Reopen`, `ReleaseMemory`: bring a database in memory to the disk;
/// * `Checkpoint`, `ReleaseSlot`, `SetReady`, `CreateWatcher`;
/// * `CheckShutdown`, `Poll`, `ProcessBatch`: follow the changes;
/// * `FinalCheckpoint`, `SetError`, `End`.
#[derive(Debug, Clone, Copy, PartialEq, Eq, Structural)]
pub struct WorkerRun {
    pub phase: WorkerPhase,
    /// Whether the database had a row.
    pub has_rows: bool,
    /// Whether the database is in memory.
    pub in_memory: bool,
    /// Whether something rests on the index.
    pub has_processor: bool,
    /// Whether a file was written or deleted.
    pub changed: bool,
    /// Whether too many files were.
    pub overflow: bool,
}

/// What is done with what rests on the index when a worker starts.
#[derive(Debug, Clone, Copy, PartialEq, Eq, Structural)]
pub enum ExtrasPlan {
    Skip,
    Update,
    Rebuild,
}

/// What is done with what rests on the index: nothing where nothing changed and it is there;
/// an update by paths where the paths are known and it is there; else it is rebuilt.
pub open spec fn extras_plan(s: WorkerRun, present: bool) -> ExtrasPlan {
    if s.has_rows && !s.changed && present {
        ExtrasPlan::Skip
    } else if s.has_rows && !s.overflow && present {
        ExtrasPlan::Update
    } else {
        ExtrasPlan::Rebuild
    }
}

impl WorkerRun {
    /// The worker in another phase.
    pub open spec fn to(self, phase: WorkerPhase) -> WorkerRun {
        WorkerRun { phase, ..self }
    }

    /// The phase that follows what rests on the index.
    pub open spec fn after_extras(self) -> WorkerRun {
        if self.in_memory {
            self.to(WorkerPhase::Flush)
        } else {
            self.to(WorkerPhase::Checkpoint)
        }
    }

    /// The next phase where a step went well, and the error where it did not.
    pub open spec fn step(self, ok: bool, phase: WorkerPhase, fault: WorkerFault) -> WorkerRun {
        if ok {
            self.to(phase)
        } else {
            self.to(WorkerPhase::SetError(fault))
        }
    }

    /// A worker that has done nothing yet.
    pub open spec fn starting() -> WorkerRun {
        WorkerRun {
            phase: WorkerPhase::ResolvePath,
            has_rows: false,
            in_memory: false,
            has_processor: false,
            changed: false,
            overflow: false,
        }
    }

    /// The worker after the step that was asked for, given how it went.
    pub open spec fn after(self, answer: WorkerAnswer) -> WorkerRun {
        let s = self;
        let ok = answer is Yes;
        match self.phase {
            WorkerPhase::ResolvePath => s.step(
                ok,
                WorkerPhase::CreateDir,
                WorkerFault::ResolvePath,
            ),
            WorkerPhase::CreateDir => s.step(ok, WorkerPhase::LoadConfig, WorkerFault::CreateDir),
            WorkerPhase::LoadConfig => s.step(
                ok,
                WorkerPhase::AcquireSlot,
                WorkerFault::LoadConfig,
            ),
            WorkerPhase::AcquireSlot => if ok {
                s.to(WorkerPhase::ShowInitial)
            } else {
                s.to(WorkerPhase::End)
            },
            WorkerPhase::ShowInitial => s.to(WorkerPhase::ProbeDatabase),
            WorkerPhase::ProbeDatabase => WorkerRun {
                has_rows: ok,
                phase: if ok {
                    WorkerPhase::OpenFile
                } else {
                    WorkerPhase::Weigh
                },
                ..s
            },
            WorkerPhase::OpenFile => s.step(
                ok,
                WorkerPhase::ResolveProcessor,
                WorkerFault::OpenFile,
            ),
            WorkerPhase::Weigh => WorkerRun { in_memory: ok, phase: WorkerPhase::OpenAuto, ..s },
            WorkerPhase::OpenAuto => s.step(
                ok,
                WorkerPhase::ResolveProcessor,
                WorkerFault::OpenAuto,
            ),
            WorkerPhase::ResolveProcessor => WorkerRun {
                has_processor: ok,
                phase: if ok {
                    WorkerPhase::MigrateSchema
                } else {
                    WorkerPhase::Reindex
                },
                ..s
            },
            WorkerPhase::MigrateSchema => s.to(WorkerPhase::ExtendSchema),
            WorkerPhase::ExtendSchema => s.to(WorkerPhase::Reindex),
            WorkerPhase::Reindex => match answer {
                WorkerAnswer::Reindexed { files_indexed, files_deleted, paths_overflow } => {
                    let n = WorkerRun {
                        changed: files_indexed > 0 || files_deleted > 0,
                        overflow: paths_overflow,
                        ..s
                    };
                    if s.has_processor {
                        n.to(WorkerPhase::AskExtras)
                    } else {
                        n.after_extras()
                    }
                },
                _ => s.to(WorkerPhase::SetError(WorkerFault::Reindex)),
            },
            WorkerPhase::AskExtras => match extras_plan(s, ok) {
                ExtrasPlan::Skip => s.after_extras(),
                ExtrasPlan::Update => s.to(WorkerPhase::UpdateExtras),
                ExtrasPlan::Rebuild => s.to(WorkerPhase::RebuildExtras),
            },
            WorkerPhase::UpdateExtras => if ok {
                s.after_extras()
            } else {
                s.to(WorkerPhase::RebuildExtras)
            },
            WorkerPhase::RebuildExtras => s.after_extras(),
            WorkerPhase::Flush => s.to(WorkerPhase::Reopen),
            WorkerPhase::Reopen => if ok {
                WorkerRun { phase: WorkerPhase::ReleaseMemory, in_memory: false, ..s }
            } else {
                s.to(WorkerPhase::SetError(WorkerFault::Reopen))
            },
            WorkerPhase::ReleaseMemory => s.to(WorkerPhase::Checkpoint),
            WorkerPhase::Checkpoint => s.to(WorkerPhase::ReleaseSlot),
            WorkerPhase::ReleaseSlot => s.to(WorkerPhase::SetReady),
            WorkerPhase::SetReady => s.to(WorkerPhase::CreateWatcher),
            WorkerPhase::CreateWatcher => s.step(
                ok,
                WorkerPhase::CheckShutdown,
                WorkerFault::CreateWatcher,
            ),
            WorkerPhase::CheckShutdown => if ok {
                s.to(WorkerPhase::FinalCheckpoint)
            } else {
                s.to(WorkerPhase::Poll)
            },
            WorkerPhase::Poll => match answer {
                WorkerAnswer::Yes => s.to(WorkerPhase::ProcessBatch),
                WorkerAnswer::No => s.to(WorkerPhase::CheckShutdown),
                _ => s.to(WorkerPhase::FinalCheckpoint),
            },
            WorkerPhase::ProcessBatch => if ok {
                s.to(WorkerPhase::CheckShutdown)
            } else {
                s.to(WorkerPhase::FinalCheckpoint)
            },
            WorkerPhase::FinalCheckpoint => s.to(WorkerPhase::End),
            WorkerPhase::SetError(_) => s.to(WorkerPhase::End),
            WorkerPhase::End => s,
        }
    }

    /// A worker that has done nothing yet.
    pub fn run_worker() -> (r: WorkerRun)
        ensures
            r == WorkerRun::starting(),
    {
        WorkerRun {
            phase: WorkerPhase::ResolvePath,
            has_rows: false,
            in_memory: false,
            has_processor: false,
            changed: false,
            overflow: false,
        }
    }

    fn in_phase(&self, phase: WorkerPhase) -> (r: WorkerRun)
        ensures
            r == self.to(phase),
    {
        WorkerRun { phase, ..*self }
    }

    fn past_extras(&self) -> (r: WorkerRun)
        ensures
            r == self.after_extras(),
    {
        if self.in_memory {
            self.in_phase(WorkerPhase::Flush)
        } else {
            self.in_phase(WorkerPhase::Checkpoint)
        }
    }

    fn step_or_error(&self, ok: bool, phase: WorkerPhase, fault: WorkerFault) -> (r: WorkerRun)
        ensures
            r == self.step(ok, phase, fault),
    {
        if ok {
            self.in_phase(phase)
        } else {
            self.in_phase(WorkerPhase::SetError(fault))
        }
    }

    /// What is done with what rests on the index, given whether it is there.
    pub fn plan_extras(&self, present: bool) -> (r: ExtrasPlan)
        ensures
            r == extras_plan(*self, present),
    {
        if self.has_rows && !self.changed && present {
            ExtrasPlan::Skip
        } else if self.has_rows && !self.overflow && present {
            ExtrasPlan::Update
        } else {
            ExtrasPlan::Rebuild
        }
    }

    /// The worker after the step that was asked for, given how it went.
    pub fn next(&self, answer: WorkerAnswer) -> (r: WorkerRun)
        ensures
            r == self.after(answer),
    {
        let ok: bool = match answer {
            WorkerAnswer::Yes => true,
            _ => false,
        };
        match self.phase {
            WorkerPhase::ResolvePath => self.step_or_error(
                ok,
                WorkerPhase::CreateDir,
                WorkerFault::ResolvePath,
            ),
            WorkerPhase::CreateDir => self.step_or_error(
                ok,
                WorkerPhase::LoadConfig,
                WorkerFault::CreateDir,
            ),
            WorkerPhase::LoadConfig => self.step_or_error(
                ok,
                WorkerPhase::AcquireSlot,
                WorkerFault::LoadConfig,
            ),
            WorkerPhase::AcquireSlot => if ok {
                self.in_phase(WorkerPhase::ShowInitial)
            } else {
                self.in_phase(WorkerPhase::End)
            },
            WorkerPhase::ShowInitial => self.in_phase(WorkerPhase::ProbeDatabase),
            WorkerPhase::ProbeDatabase => {
                let phase = if ok {
                    WorkerPhase::OpenFile
                } else {
                    WorkerPhase::Weigh
                };
                WorkerRun { has_rows: ok, phase, ..*self }
            },
            WorkerPhase::OpenFile => self.step_or_error(
                ok,
                WorkerPhase::ResolveProcessor,
                WorkerFault::OpenFile,
            ),
            WorkerPhase::Weigh => WorkerRun {
                in_memory: ok,
                phase: WorkerPhase::OpenAuto,
                ..*self
            },
            WorkerPhase::OpenAuto => self.step_or_error(
                ok,
                WorkerPhase::ResolveProcessor,
                WorkerFault::OpenAuto,
            ),
            WorkerPhase::ResolveProcessor => {
                let phase = if ok {
                    WorkerPhase::MigrateSchema
                } else {
                    WorkerPhase::Reindex
                };
                WorkerRun { has_processor: ok, phase, ..*self }
            },
            WorkerPhase::MigrateSchema => self.in_phase(WorkerPhase::ExtendSchema),
            WorkerPhase::ExtendSchema => self.in_phase(WorkerPhase::Reindex),
            WorkerPhase::Reindex => match answer {
                WorkerAnswer::Reindexed { files_indexed, files_deleted, paths_overflow } => {
                    let n = WorkerRun {
                        changed: files_indexed > 0 || files_deleted > 0,
                        overflow: paths_overflow,
                        ..*self
                    };
                    if self.has_processor {
                        n.in_phase(WorkerPhase::AskExtras)
                    } else {
                        n.past_extras()
                    }
                },
                _ => self.in_phase(WorkerPhase::SetError(WorkerFault::Reindex)),
            },
            WorkerPhase::AskExtras => match self.plan_extras(ok) {
                ExtrasPlan::Skip => self.past_extras(),
                ExtrasPlan::Update => self.in_phase(WorkerPhase::UpdateExtras),
                ExtrasPlan::Rebuild => self.in_phase(WorkerPhase::RebuildExtras),
            },
            WorkerPhase::UpdateExtras => if ok {
                self.past_extras()
            } else {
                self.in_phase(WorkerPhase::RebuildExtras)
            },
            WorkerPhase::RebuildExtras => self.past_extras(),
            WorkerPhase::Flush => self.in_phase(WorkerPhase::Reopen),
            WorkerPhase::Reopen => if ok {
                WorkerRun { phase: WorkerPhase::ReleaseMemory, in_memory: false, ..*self }
            } else {
                self.in_phase(WorkerPhase::SetError(WorkerFault::Reopen))
            },
            WorkerPhase::ReleaseMemory => self.in_phase(WorkerPhase::Checkpoint),
            WorkerPhase::Checkpoint => self.in_phase(WorkerPhase::ReleaseSlot),
            WorkerPhase::ReleaseSlot => self.in_phase(WorkerPhase::SetReady),
            WorkerPhase::SetReady => self.in_phase(WorkerPhase::CreateWatcher),
            WorkerPhase::CreateWatcher => self.step_or_error(
                ok,
                WorkerPhase::CheckShutdown,
                WorkerFault::CreateWatcher,
            ),
            WorkerPhase::CheckShutdown => if ok {
                self.in_phase(WorkerPhase::FinalCheckpoint)
            } else {
                self.in_phase(WorkerPhase::Poll)
            },
            WorkerPhase::Poll => match answer {
                WorkerAnswer::Yes => self.in_phase(WorkerPhase::ProcessBatch),
                WorkerAnswer::No => self.in_phase(WorkerPhase::CheckShutdown),
                _ => self.in_phase(WorkerPhase::FinalCheckpoint),
            },
            WorkerPhase::ProcessBatch => if ok {
                self.in_phase(WorkerPhase::CheckShutdown)
            } else {
                self.in_phase(WorkerPhase::FinalCheckpoint)
            },
            WorkerPhase::FinalCheckpoint => self.in_phase(WorkerPhase::End),
            WorkerPhase::SetError(_) => self.in_phase(WorkerPhase::End),
            WorkerPhase::End => *self,
        }
    }
}

/// A worker after a number of steps, given how each of them went.
pub open spec fn run(answers: Seq<WorkerAnswer>) -> WorkerRun
    decreases answers.len(),
{
    if answers.len() == 0 {
        WorkerRun::starting()
    } else {
        run(answers.drop_last()).after(answers.last())
    }
}

/// Whether a worker was ready in a phase.
pub open spec fn follows_changes(phase: WorkerPhase) -> bool {
    match phase {
        WorkerPhase::SetReady => true,
        WorkerPhase::CreateWatcher => true,
        WorkerPhase::CheckShutdown => true,
        WorkerPhase::Poll => true,
        WorkerPhase::ProcessBatch => true,
        WorkerPhase::FinalCheckpoint => true,
        _ => false,
    }
}

/// Whether the directory was indexed in a phase.
spec fn indexed_in(phase: WorkerPhase) -> bool {
    match phase {
        WorkerPhase::AskExtras => true,
        WorkerPhase::UpdateExtras => true,
        WorkerPhase::RebuildExtras => true,
        WorkerPhase::Flush => true,
        WorkerPhase::Reopen => true,
        WorkerPhase::ReleaseMemory => true,
        WorkerPhase::Checkpoint => true,
        WorkerPhase::ReleaseSlot => true,
        _ => follows_changes(phase),
    }
}

/// Whether the database has left the memory in a phase.
spec fn on_disk_in(phase: WorkerPhase) -> bool {
    match phase {
        WorkerPhase::ReleaseMemory => true,
        WorkerPhase::Checkpoint => true,
        WorkerPhase::ReleaseSlot => true,
        _ => follows_changes(phase),
    }
}

proof fn lemma_worker(answers: Seq<WorkerAnswer>)
    ensures
        indexed_in(run(answers).phase) ==> exists|i: int|
            0 <= i < answers.len() && #[trigger] answers[i] is Reindexed,
        on_disk_in(run(answers).phase) ==> !run(answers).in_memory,
    decreases answers.len(),
{
    if answers.len() > 0 {
        let before = answers.drop_last();
        lemma_worker(before);
        if indexed_in(run(before).phase) {
            let i = choose|i: int| 0 <= i < before.len() && #[trigger] before[i] is Reindexed;
            assert(answers[i] is Reindexed);
        } else if indexed_in(run(answers).phase) {
            assert(answers[answers.len() - 1] is Reindexed);
        }
    }
}

/// A directory is shown as ready, and its changes are followed, only after it was indexed, and
/// with the database on the disk.
pub proof fn law_ready_after_indexing(answers: Seq<WorkerAnswer>)
    requires
        follows_changes(run(answers).phase),
    ensures
        exists|i: int| 0 <= i < answers.len() && #[trigger] answers[i] is Reindexed,
        !run(answers).in_memory,
{
    lemma_worker(answers);
}

/// What rests on the index is left alone only where no file changed and it is there.
pub proof fn law_extras_are_skipped_only_without_changes(s: WorkerRun, answer: WorkerAnswer)
    requires
        s.phase is AskExtras,
    ensures
        !(s.after(answer).phase is UpdateExtras) && !(s.after(answer).phase is RebuildExtras)
            ==> s.has_rows && !s.changed && answer is Yes,
{
}

/// An update of what rests on the index that failed leads to a full rebuild.
pub proof fn law_failed_update_leads_to_a_rebuild(s: WorkerRun)
    requires
        s.phase is UpdateExtras,
    ensures
        s.after(WorkerAnswer::Failed).phase is RebuildExtras,
{
}

/// A worker that finds the queue closed ends without an error: the daemon is being stopped.
pub proof fn law_closed_queue_is_no_error(s: WorkerRun)
    requires
        s.phase is AcquireSlot,
    ensures
        s.after(WorkerAnswer::Closed).phase is End,
{
}

/// A worker that follows changes ends only by a last checkpoint of the database.
pub proof fn law_last_checkpoint(s: WorkerRun, answer: WorkerAnswer)
    requires
        s.phase is CheckShutdown || s.phase is Poll || s.phase is ProcessBatch,
    ensures
        !(s.after(answer).phase is End),
        !(s.after(answer).phase is SetError),
{
}

/// How far a worker has come in a phase.
pub open spec fn stage(phase: WorkerPhase) -> int {
    match phase {
        WorkerPhase::ResolvePath => 0,
        WorkerPhase::CreateDir => 1,
        WorkerPhase::LoadConfig => 2,
        WorkerPhase::AcquireSlot => 3,
        WorkerPhase::ShowInitial => 4,
        WorkerPhase::ProbeDatabase => 5,
        WorkerPhase::OpenFile => 6,
        WorkerPhase::Weigh => 6,
        WorkerPhase::OpenAuto => 7,
        WorkerPhase::ResolveProcessor => 8,
        WorkerPhase::MigrateSchema => 9,
        WorkerPhase::ExtendSchema => 10,
        WorkerPhase::Reindex => 11,
        WorkerPhase::AskExtras => 12,
        WorkerPhase::UpdateExtras => 13,
        WorkerPhase::RebuildExtras => 14,
        WorkerPhase::Flush => 15,
        WorkerPhase::Reopen => 16,
        WorkerPhase::ReleaseMemory => 17,
        WorkerPhase::Checkpoint => 18,
        WorkerPhase::ReleaseSlot => 19,
        WorkerPhase::SetReady => 20,
        WorkerPhase::CreateWatcher => 21,
        WorkerPhase::CheckShutdown => 22,
        WorkerPhase::Poll => 22,
        WorkerPhase::ProcessBatch => 22,
        WorkerPhase::FinalCheckpoint => 23,
        WorkerPhase::SetError(_) => 24,
        WorkerPhase::End => 25,
    }
}

/// A worker never goes back: each step leads on to a later one, until it follows the changes,
/// where three steps take turns. So the schema is made before the files are indexed, and what
/// rests on the index is there before a database in memory is brought to the disk.
pub proof fn law_worker_goes_forward(s: WorkerRun, answer: WorkerAnswer)
    requires
        !(s.phase is End),
    ensures
        stage(s.after(answer).phase) >= stage(s.phase),
        stage(s.after(answer).phase) == stage(s.phase) ==> stage(s.phase) == 22,
{
}

/// Whether a worker holds a place among those that index, in a phase.
pub open spec fn holds_slot(phase: WorkerPhase) -> bool {
    3 < stage(phase) <= 19
}

/// A place among those that index is taken before the database is opened and given back only
/// when it is on the disk: as many databases are in memory at a time as there are places.
pub proof fn law_memory_needs_a_place(answers: Seq<WorkerAnswer>)
    ensures
        run(answers).in_memory ==> holds_slot(run(answers).phase) || run(answers).phase is SetError
            || run(answers).phase is End,
    decreases answers.len(),
{
    if answers.len() > 0 {
        law_memory_needs_a_place(answers.drop_last());
        lemma_worker(answers.drop_last());
        lemma_worker(answers);
    }
}

/// A worker whose steps go well opens the database, indexes the directory, shows it as ready and
/// follows its changes: a database with rows is opened on the disk, a new one where it was weighed
/// to be.
pub proof fn law_worker_gets_ready(s: WorkerRun, answer: WorkerAnswer)
    ensures
        WorkerRun::starting().phase is ResolvePath,
        s.phase is ResolvePath ==> s.after(WorkerAnswer::Yes).phase is CreateDir,
        s.phase is CreateDir ==> s.after(WorkerAnswer::Yes).phase is LoadConfig,
        s.phase is LoadConfig ==> s.after(WorkerAnswer::Yes).phase is AcquireSlot,
        s.phase is AcquireSlot ==> s.after(WorkerAnswer::Yes).phase is ShowInitial,
        s.phase is ShowInitial ==> s.after(answer).phase is ProbeDatabase,
        s.phase is ProbeDatabase ==> s.after(WorkerAnswer::Yes).phase is OpenFile && s.after(
            WorkerAnswer::Yes,
        ).has_rows,
        s.phase is ProbeDatabase && !(answer is Yes) ==> s.after(answer).phase is Weigh && !s.after(
            answer,
        ).has_rows,
        s.phase is OpenFile ==> s.after(WorkerAnswer::Yes).phase is ResolveProcessor,
        s.phase is Weigh ==> s.after(answer).phase is OpenAuto && s.after(answer).in_memory == (
        answer is Yes),
        s.phase is OpenAuto ==> s.after(WorkerAnswer::Yes).phase is ResolveProcessor,
        s.phase is ResolveProcessor ==> s.after(WorkerAnswer::Yes).phase is MigrateSchema
            && s.after(WorkerAnswer::Yes).has_processor,
        s.phase is ResolveProcessor && !(answer is Yes) ==> s.after(answer).phase is Reindex
            && !s.after(answer).has_processor,
        s.phase is MigrateSchema ==> s.after(answer).phase is ExtendSchema,
        s.phase is ExtendSchema ==> s.after(answer).phase is Reindex,
        s.phase is SetReady ==> s.after(answer).phase is CreateWatcher,
        s.phase is CreateWatcher ==> s.after(WorkerAnswer::Yes).phase is CheckShutdown,
{
}

/// What rests on the index is looked at after every pass over the directory: it is left alone where
/// it is there and nothing changed, brought up to date where it is there and the changes are
/// known, and rebuilt otherwise. Then a database in memory is brought to the disk, and the
/// directory is shown as ready.
pub proof fn law_indexed_directory_gets_ready(
    s: WorkerRun,
    files_indexed: usize,
    files_deleted: usize,
    paths_overflow: bool,
    answer: WorkerAnswer,
)
    ensures
        s.phase is Reindex ==> {
            let n = s.after(
                WorkerAnswer::Reindexed { files_indexed, files_deleted, paths_overflow },
            );
            &&& n.changed == (files_indexed > 0 || files_deleted > 0)
            &&& n.overflow == paths_overflow
            &&& s.has_processor ==> n.phase is AskExtras
            &&& !s.has_processor && s.in_memory ==> n.phase is Flush
            &&& !s.has_processor && !s.in_memory ==> n.phase is Checkpoint
        },
        s.phase is AskExtras ==> {
            let n = s.after(answer);
            let there = s.has_rows && answer is Yes;
            if there && !s.changed {
                n.phase is Flush || n.phase is Checkpoint
            } else if there && !s.overflow {
                n.phase is UpdateExtras
            } else {
                n.phase is RebuildExtras
            }
        },
        s.phase is UpdateExtras && !(answer is Yes) ==> s.after(answer).phase is RebuildExtras,
        s.phase is UpdateExtras && answer is Yes || s.phase is RebuildExtras ==> s.after(
            answer,
        ).phase == if s.in_memory {
            WorkerPhase::Flush
        } else {
            WorkerPhase::Checkpoint
        },
        s.phase is Flush ==> s.after(answer).phase is Reopen,
        s.phase is Reopen ==> s.after(WorkerAnswer::Yes).phase is ReleaseMemory,
        s.phase is ReleaseMemory ==> s.after(answer).phase is Checkpoint,
        s.phase is Checkpoint ==> s.after(answer).phase is ReleaseSlot,
        s.phase is ReleaseSlot ==> s.after(answer).phase is SetReady,
{
}

/// A worker follows the changes until it is told to stop: it works on every batch that the watcher
/// reports, and looks whether to stop after each one and after each wait.
pub proof fn law_worker_follows_the_changes(s: WorkerRun, answer: WorkerAnswer)
    ensures
        s.phase is CheckShutdown ==> s.after(WorkerAnswer::Yes).phase is FinalCheckpoint,
        s.phase is CheckShutdown && !(answer is Yes) ==> s.after(answer).phase is Poll,
        s.phase is Poll ==> s.after(WorkerAnswer::Yes).phase is ProcessBatch,
        s.phase is Poll ==> s.after(WorkerAnswer::No).phase is CheckShutdown,
        s.phase is Poll ==> s.after(WorkerAnswer::Closed).phase is FinalCheckpoint,
        s.phase is ProcessBatch ==> s.after(WorkerAnswer::Yes).phase is CheckShutdown,
        s.phase is ProcessBatch && !(answer is Yes) ==> s.after(answer).phase is FinalCheckpoint,
        s.phase is FinalCheckpoint || s.phase is SetError ==> s.after(answer).phase is End,
        s.phase is End ==> s.after(answer).phase is End,
{
}

/// A worker shows an error only after a step that failed, and the error is that of the step.
pub proof fn law_error_is_that_of_the_step(s: WorkerRun, answer: WorkerAnswer, fault: WorkerFault)
    requires
        !(s.phase is SetError),
    ensures
        s.after(answer).phase == WorkerPhase::SetError(fault) <==> match s.phase {
            WorkerPhase::ResolvePath => !(answer is Yes) && fault is ResolvePath,
            WorkerPhase::CreateDir => !(answer is Yes) && fault is CreateDir,
            WorkerPhase::LoadConfig => !(answer is Yes) && fault is LoadConfig,
            WorkerPhase::OpenFile => !(answer is Yes) && fault is OpenFile,
            WorkerPhase::OpenAuto => !(answer is Yes) && fault is OpenAuto,
            WorkerPhase::Reindex => !(answer is Reindexed) && fault is Reindex,
            WorkerPhase::Reopen => !(answer is Yes) && fault is Reopen,
            WorkerPhase::CreateWatcher => !(answer is Yes) && fault is CreateWatcher,
            _ => false,
        },
{
}

/// What the daemon is told for one directory counts first, then what it is told for all of them, and
/// only then the default.
pub proof fn law_nearest_setting_counts(
    path: usize,
    daemon: usize,
    any: Option<usize>,
    default: usize,
)
    ensures
        effective(Some(path), any, default) == path,
        effective(None, Some(daemon), default) == daemon,
        effective(None, None, default) == default,
{
}

/// What rests on the index is left alone only where it is there and nothing changed; it is updated by
/// paths where it is there and the paths of what changed are known; otherwise it is rebuilt.
pub proof fn law_extras_follow_the_index(s: WorkerRun, present: bool)
    ensures
        extras_plan(s, present) is Skip <==> present && s.has_rows && !s.changed,
        extras_plan(s, present) is Update <==> present && s.has_rows && s.changed && !s.overflow,
        !present || !s.has_rows || (s.changed && s.overflow) ==> extras_plan(s, present) is Rebuild,
{
}

} // verus!
