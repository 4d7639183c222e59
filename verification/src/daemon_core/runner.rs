//! The daemon: it keeps one worker for each directory, restarts those that fail, and answers
//! commands until it is told to stop.

use crate::keyed::KeyedMap;
use crate::text::{in_list, lists};
use vstd::prelude::*;
use vstd::string::*;

verus! {

/// How often the watchdog looks after the workers, in seconds.
pub const WATCHDOG_SECS: u64 = 5;

/// Within which time restarts of a worker are counted, in milliseconds.
pub const RESPAWN_WINDOW_MS: u64 = 60_000;

/// How many restarts of a worker are allowed within that time.
pub const MAX_RESPAWNS: u32 = 5;

/// How often the workers were restarted, and when last, in milliseconds.
pub struct RespawnTracker {
    pub slots: KeyedMap<String, (u32, u64)>,
}

/// How often a worker was restarted once it is restarted again: anew where the last restart is
/// longer ago than the window.
pub open spec fn attempts(
    slots: Map<Seq<char>, (u32, u64)>,
    path: Seq<char>,
    now: u64,
    window: u64,
) -> u32 {
    if slots.dom().contains(path) && now - slots[path].1 <= window {
        if slots[path].0 < u32::MAX {
            (slots[path].0 + 1) as u32
        } else {
            u32::MAX
        }
    } else {
        1
    }
}

impl RespawnTracker {
    /// Whether no worker is held twice.
    pub open spec fn wf(self) -> bool {
        self.slots.wf()
    }

    /// No worker was restarted yet.
    pub fn new() -> (r: Self)
        ensures
            r.wf(),
            r.slots@ == Map::<Seq<char>, (u32, u64)>::empty(),
    {
        RespawnTracker { slots: KeyedMap::new() }
    }
}

/// Counts a restart of a worker, and says whether it is still allowed.
pub fn allow_respawn(
    tracker: &mut RespawnTracker,
    path: &str,
    now: u64,
    window: u64,
    max: u32,
) -> (r: bool)
    requires
        old(tracker).wf(),
    ensures
        final(tracker).wf(),
        ({
            let n = attempts(old(tracker).slots@, path@, now, window);
            &&& final(tracker).slots@ == old(tracker).slots@.insert(path@, (n, now))
            &&& r == (n <= max)
        }),
{
    let key = path.to_owned();
    let n: u32 = match tracker.slots.get(&key) {
        Some(slot) => {
            let last: u64 = slot.1;
            let recent: bool = now <= last || now - last <= window;
            if recent {
                if slot.0 < u32::MAX {
                    slot.0 + 1
                } else {
                    u32::MAX
                }
            } else {
                1
            }
        },
        None => 1,
    };
    tracker.slots.insert(key, (n, now));
    n <= max
}

/// What becomes of a worker that has ended though it was not told to.
#[derive(Debug, Clone, Copy, PartialEq, Eq, Structural)]
pub enum Verdict {
    /// Nothing is known of its directory, so it cannot be restarted.
    NoConfig,
    /// It fails too often.
    GiveUp,
    /// It is restarted.
    Respawn,
}

/// What is shown for the directory of such a worker.
pub fn verdict_text(verdict: Verdict) -> (r: &'static str)
    ensures
        r@ == (match verdict {
            Verdict::NoConfig =>
                "worker завершился, перезапуск невозможен (нет конфигурации пути)"@,
            Verdict::GiveUp => "worker многократно аварийно завершается — см. журнал демона"@,
            Verdict::Respawn => "worker перезапускается после аварийного завершения"@,
        }),
{
    match verdict {
        Verdict::NoConfig => "worker завершился, перезапуск невозможен (нет конфигурации пути)",
        Verdict::GiveUp => "worker многократно аварийно завершается — см. журнал демона",
        Verdict::Respawn => "worker перезапускается после аварийного завершения",
    }
}

/// What came of looking after workers.
#[verifier::ext_equal]
pub struct Watch {
    pub slots: Map<Seq<char>, (u32, u64)>,
    pub verdicts: Seq<Verdict>,
}

/// Looks after the first `n` workers that have ended.
pub open spec fn watch(
    slots: Map<Seq<char>, (u32, u64)>,
    finished: Seq<String>,
    known: Seq<String>,
    n: int,
    now: u64,
) -> Watch
    decreases n,
{
    if n <= 0 {
        Watch { slots, verdicts: Seq::empty() }
    } else {
        let w = watch(slots, finished, known, n - 1, now);
        let path = finished[n - 1]@;
        if !lists(known, path) {
            Watch { verdicts: w.verdicts.push(Verdict::NoConfig), ..w }
        } else {
            let k = attempts(w.slots, path, now, RESPAWN_WINDOW_MS);
            Watch {
                slots: w.slots.insert(path, (k, now)),
                verdicts: w.verdicts.push(
                    if k <= MAX_RESPAWNS {
                        Verdict::Respawn
                    } else {
                        Verdict::GiveUp
                    },
                ),
            }
        }
    }
}

/// Looks after the workers that have ended though they were not told to. `known` are the
/// directories whose settings are known.
pub fn supervise_workers(
    tracker: &mut RespawnTracker,
    finished: &Vec<String>,
    known: &Vec<String>,
    now: u64,
) -> (r: Vec<Verdict>)
    requires
        old(tracker).wf(),
    ensures
        final(tracker).wf(),
        ({
            let w = watch(
                old(tracker).slots@,
                finished@,
                known@,
                finished@.len() as int,
                now,
            );
            final(tracker).slots@ == w.slots && r@ == w.verdicts
        }),
{
    let ghost start = tracker.slots@;
    let mut out: Vec<Verdict> = Vec::new();
    let mut i: usize = 0;
    while i < finished.len()
        invariant
            i <= finished@.len(),
            tracker.wf(),
            tracker.slots@ == watch(start, finished@, known@, i as int, now).slots,
            out@ == watch(start, finished@, known@, i as int, now).verdicts,
        decreases finished.len() - i,
    {
        let path = finished[i].as_str();
        if !in_list(known, path) {
            out.push(Verdict::NoConfig);
        } else if allow_respawn(tracker, path, now, RESPAWN_WINDOW_MS, MAX_RESPAWNS) {
            out.push(Verdict::Respawn);
        } else {
            out.push(Verdict::GiveUp);
        }
        i += 1;
    }
    out
}

/// A worker that ends again and again within the window is restarted only so many times: once
/// more than that, it is left alone.
pub proof fn law_restarts_are_bounded(
    slots: Map<Seq<char>, (u32, u64)>,
    path: Seq<char>,
    now: u64,
    window: u64,
    max: u32,
)
    requires
        slots.dom().contains(path),
        slots[path].0 >= max,
        now - slots[path].1 <= window,
    ensures
        attempts(slots, path, now, window) > max || max == u32::MAX,
{
}

/// After the window the count begins anew.
pub proof fn law_count_begins_anew(
    slots: Map<Seq<char>, (u32, u64)>,
    path: Seq<char>,
    now: u64,
    window: u64,
)
    requires
        !slots.dom().contains(path) || now - slots[path].1 > window,
    ensures
        attempts(slots, path, now, window) == 1,
{
}

/// How many directories are indexed for the first time at the same time; zero is no limit.
pub fn initial_slots(max_concurrent_initial: usize) -> (r: Option<usize>)
    ensures
        r == (if max_concurrent_initial == 0 {
            None
        } else {
            Some(max_concurrent_initial)
        }),
{
    if max_concurrent_initial == 0 {
        None
    } else {
        Some(max_concurrent_initial)
    }
}

/// The answer to the command to read the settings again.
#[derive(Debug, Clone)]
pub struct ReloadResponse {
    pub reloaded: bool,
    pub added: Vec<String>,
    pub removed: Vec<String>,
    pub unchanged: Vec<String>,
    pub error: Option<String>,
}

/// What the settings, read again, came to.
#[derive(Debug, Clone)]
pub struct ReloadedPaths {
    /// The directories of the settings, in order.
    pub wanted: Vec<String>,
    pub added: Vec<String>,
    pub removed: Vec<String>,
    pub unchanged: Vec<String>,
}

/// The places among the first `n` directories of those that were added.
pub open spec fn added_places(wanted: Seq<String>, added: Seq<String>, n: int) -> Seq<usize>
    decreases n,
{
    if n <= 0 {
        Seq::empty()
    } else if lists(added, wanted[n - 1]@) {
        added_places(wanted, added, n - 1).push((n - 1) as usize)
    } else {
        added_places(wanted, added, n - 1)
    }
}

/// Answers the command to read the settings again, and says for which directories of the
/// settings a worker is started: those that were added. Directories that were removed are let
/// go only when the daemon is started again, and the answer says so.
pub fn handle_reload(loaded: Result<ReloadedPaths, String>) -> (r: (ReloadResponse, Vec<usize>))
    ensures
        match loaded {
            Err(cause) => {
                &&& !r.0.reloaded
                &&& r.0.added@.len() == 0
                &&& r.0.removed@.len() == 0
                &&& r.0.unchanged@.len() == 0
                &&& r.0.error is Some
                &&& r.0.error->0@ == "Не удалось перечитать конфиг: "@ + cause@
                &&& r.1@.len() == 0
            },
            Ok(paths) => {
                &&& r.0.reloaded
                &&& r.0.added == paths.added
                &&& r.0.removed == paths.removed
                &&& r.0.unchanged == paths.unchanged
                &&& match r.0.error {
                    Some(note) => paths.removed@.len() > 0 && note@
                        == "Удаление папок применится после рестарта демона (MVP-ограничение)"@,
                    None => paths.removed@.len() == 0,
                }
                &&& r.1@ == added_places(
                    paths.wanted@,
                    paths.added@,
                    paths.wanted@.len() as int,
                )
            },
        },
{
    match loaded {
        Err(cause) => {
            let mut error = "Не удалось перечитать конфиг: ".to_owned();
            error.append(cause.as_str());
            (
                ReloadResponse {
                    reloaded: false,
                    added: Vec::new(),
                    removed: Vec::new(),
                    unchanged: Vec::new(),
                    error: Some(error),
                },
                Vec::new(),
            )
        },
        Ok(paths) => {
            let mut places: Vec<usize> = Vec::new();
            let mut i: usize = 0;
            while i < paths.wanted.len()
                invariant
                    i <= paths.wanted@.len(),
                    places@ == added_places(paths.wanted@, paths.added@, i as int),
                decreases paths.wanted.len() - i,
            {
                if in_list(&paths.added, paths.wanted[i].as_str()) {
                    places.push(i);
                }
                i += 1;
            }
            let error = if paths.removed.is_empty() {
                None
            } else {
                Some(
                    "Удаление папок применится после рестарта демона (MVP-ограничение)".to_owned(),
                )
            };
            (
                ReloadResponse {
                    reloaded: true,
                    added: paths.added,
                    removed: paths.removed,
                    unchanged: paths.unchanged,
                    error,
                },
                places,
            )
        },
    }
}

/// The language of a directory after the migration.
pub open spec fn migrated(language: Option<String>, detected: Option<String>) -> Option<Seq<char>> {
    match language {
        Some(l) => Some(l@),
        None => match detected {
            Some(d) => Some(d@),
            None => None,
        },
    }
}

/// Which of the first `n` directories got a language.
pub open spec fn migrated_places(
    languages: Seq<Option<String>>,
    detected: Seq<Option<String>>,
    n: int,
) -> Seq<usize>
    decreases n,
{
    if n <= 0 {
        Seq::empty()
    } else if languages[n - 1] is None && detected[n - 1] is Some {
        migrated_places(languages, detected, n - 1).push((n - 1) as usize)
    } else {
        migrated_places(languages, detected, n - 1)
    }
}

/// Gives a language to the directories that have none, where one was detected. A language that
/// was set stays, and one that cannot be detected is no failure. Says which directories got
/// one, so that it can be written to the settings. Without settings there is nothing to do.
pub fn migrate_languages(
    config_exists: bool,
    languages: &mut Vec<Option<String>>,
    detected: &Vec<Option<String>>,
) -> (r: Vec<usize>)
    requires
        detected@.len() == old(languages)@.len(),
    ensures
        final(languages)@.len() == old(languages)@.len(),
        !config_exists ==> final(languages)@ == old(languages)@ && r@.len() == 0,
        config_exists ==> {
            &&& forall|i: int|
                0 <= i < old(languages)@.len() ==> match #[trigger] final(languages)@[i] {
                    Some(l) => migrated(old(languages)@[i], detected@[i]) == Some(l@),
                    None => migrated(old(languages)@[i], detected@[i]) is None,
                }
            &&& r@ == migrated_places(
                old(languages)@,
                detected@,
                old(languages)@.len() as int,
            )
        },
{
    let mut out: Vec<usize> = Vec::new();
    if !config_exists {
        return out;
    }
    let ghost start = languages@;
    let mut i: usize = 0;
    while i < languages.len()
        invariant
            i <= languages@.len(),
            languages@.len() == start.len(),
            detected@.len() == start.len(),
            forall|k: int| i <= k < start.len() ==> #[trigger] languages@[k] == start[k],
            forall|k: int|
                0 <= k < i ==> match #[trigger] languages@[k] {
                    Some(l) => migrated(start[k], detected@[k]) == Some(l@),
                    None => migrated(start[k], detected@[k]) is None,
                },
            out@ == migrated_places(start, detected@, i as int),
        decreases languages.len() - i,
    {
        assert(languages@[i as int] == start[i as int]);
        if languages[i].is_none() {
            if let Some(d) = &detected[i] {
                languages.set(i, Some(d.clone()));
                out.push(i);
            }
        }
        i += 1;
    }
    out
}

/// A language that was set is never replaced.
pub proof fn law_explicit_language_stays(language: Option<String>, detected: Option<String>)
    requires
        language is Some,
    ensures
        migrated(language, detected) == Some(language->0@),
{
}

/// Where the daemon stands.
#[derive(Debug, Clone, Copy, PartialEq, Eq, Structural)]
pub enum DaemonPhase {
    /// Make sure that no other daemon runs.
    AcquireLock,
    LoadConfig,
    MigrateLanguages,
    /// Listen for commands.
    Bind,
    /// Write down where the daemon listens.
    WriteRuntimeInfo,
    StartServer,
    /// Show the directories, and start a worker for each.
    StartWorkers,
    /// Wait for what happens next.
    Wait,
    Reload,
    Supervise,
    AnswerStop,
    /// Tell the workers to stop.
    StopWorkers,
    /// Wait until they have stopped.
    JoinWorkers,
    StopServer,
    RemoveRuntimeInfo,
    Done,
    Failed,
}

/// What happened.
#[derive(Debug, Clone, Copy, PartialEq, Eq, Structural)]
pub enum DaemonEvent {
    /// The step that was asked for went well.
    Success,
    /// The step that was asked for failed.
    Failure,
    /// The command to read the settings again.
    Reload,
    /// The command to stop.
    Stop,
    /// The watchdog is due.
    Tick,
    /// The daemon was interrupted.
    Interrupt,
}

/// The daemon.
#[derive(Debug, Clone, Copy, PartialEq, Eq, Structural)]
pub struct DaemonRun {
    pub phase: DaemonPhase,
}

/// The phase after an event. Only the start can fail.
pub open spec fn daemon_after(phase: DaemonPhase, event: DaemonEvent) -> DaemonPhase {
    let ok = !(event is Failure);
    match phase {
        DaemonPhase::AcquireLock => if ok {
            DaemonPhase::LoadConfig
        } else {
            DaemonPhase::Failed
        },
        DaemonPhase::LoadConfig => if ok {
            DaemonPhase::MigrateLanguages
        } else {
            DaemonPhase::Failed
        },
        DaemonPhase::MigrateLanguages => if ok {
            DaemonPhase::Bind
        } else {
            DaemonPhase::Failed
        },
        DaemonPhase::Bind => if ok {
            DaemonPhase::WriteRuntimeInfo
        } else {
            DaemonPhase::Failed
        },
        DaemonPhase::WriteRuntimeInfo => if ok {
            DaemonPhase::StartServer
        } else {
            DaemonPhase::Failed
        },
        DaemonPhase::StartServer => DaemonPhase::StartWorkers,
        DaemonPhase::StartWorkers => DaemonPhase::Wait,
        DaemonPhase::Wait => match event {
            DaemonEvent::Reload => DaemonPhase::Reload,
            DaemonEvent::Stop => DaemonPhase::AnswerStop,
            DaemonEvent::Tick => DaemonPhase::Supervise,
            DaemonEvent::Interrupt => DaemonPhase::StopWorkers,
            _ => DaemonPhase::Wait,
        },
        DaemonPhase::Reload => DaemonPhase::Wait,
        DaemonPhase::Supervise => DaemonPhase::Wait,
        DaemonPhase::AnswerStop => DaemonPhase::StopWorkers,
        DaemonPhase::StopWorkers => DaemonPhase::JoinWorkers,
        DaemonPhase::JoinWorkers => DaemonPhase::StopServer,
        DaemonPhase::StopServer => DaemonPhase::RemoveRuntimeInfo,
        DaemonPhase::RemoveRuntimeInfo => DaemonPhase::Done,
        DaemonPhase::Done => DaemonPhase::Done,
        DaemonPhase::Failed => DaemonPhase::Failed,
    }
}

impl DaemonRun {
    /// The daemon before the first step.
    pub fn run() -> (r: DaemonRun)
        ensures
            r.phase is AcquireLock,
    {
        DaemonRun { phase: DaemonPhase::AcquireLock }
    }

    /// The daemon after an event.
    pub fn next(&self, event: DaemonEvent) -> (r: DaemonRun)
        ensures
            r.phase == daemon_after(self.phase, event),
    {
        let ok: bool = match event {
            DaemonEvent::Failure => false,
            _ => true,
        };
        let phase = match self.phase {
            DaemonPhase::AcquireLock => if ok {
                DaemonPhase::LoadConfig
            } else {
                DaemonPhase::Failed
            },
            DaemonPhase::LoadConfig => if ok {
                DaemonPhase::MigrateLanguages
            } else {
                DaemonPhase::Failed
            },
            DaemonPhase::MigrateLanguages => if ok {
                DaemonPhase::Bind
            } else {
                DaemonPhase::Failed
            },
            DaemonPhase::Bind => if ok {
                DaemonPhase::WriteRuntimeInfo
            } else {
                DaemonPhase::Failed
            },
            DaemonPhase::WriteRuntimeInfo => if ok {
                DaemonPhase::StartServer
            } else {
                DaemonPhase::Failed
            },
            DaemonPhase::StartServer => DaemonPhase::StartWorkers,
            DaemonPhase::StartWorkers => DaemonPhase::Wait,
            DaemonPhase::Wait => match event {
                DaemonEvent::Reload => DaemonPhase::Reload,
                DaemonEvent::Stop => DaemonPhase::AnswerStop,
                DaemonEvent::Tick => DaemonPhase::Supervise,
                DaemonEvent::Interrupt => DaemonPhase::StopWorkers,
                _ => DaemonPhase::Wait,
            },
            DaemonPhase::Reload => DaemonPhase::Wait,
            DaemonPhase::Supervise => DaemonPhase::Wait,
            DaemonPhase::AnswerStop => DaemonPhase::StopWorkers,
            DaemonPhase::StopWorkers => DaemonPhase::JoinWorkers,
            DaemonPhase::JoinWorkers => DaemonPhase::StopServer,
            DaemonPhase::StopServer => DaemonPhase::RemoveRuntimeInfo,
            DaemonPhase::RemoveRuntimeInfo => DaemonPhase::Done,
            DaemonPhase::Done => DaemonPhase::Done,
            DaemonPhase::Failed => DaemonPhase::Failed,
        };
        DaemonRun { phase }
    }
}

/// The phase after a number of events.
pub open spec fn daemon_run(events: Seq<DaemonEvent>) -> DaemonPhase
    decreases events.len(),
{
    if events.len() == 0 {
        DaemonPhase::AcquireLock
    } else {
        daemon_after(daemon_run(events.drop_last()), events.last())
    }
}

/// Whether a phase was passed.
pub open spec fn passed(events: Seq<DaemonEvent>, phase: DaemonPhase) -> bool {
    exists|i: int| 0 <= i < events.len() && daemon_run(#[trigger] events.take(i)) == phase
}

/// A phase that was passed stays passed.
proof fn lemma_passed(events: Seq<DaemonEvent>, phase: DaemonPhase)
    requires
        events.len() > 0,
        passed(events.drop_last(), phase) || daemon_run(events.drop_last()) == phase,
    ensures
        passed(events, phase),
{
    let before = events.drop_last();
    if daemon_run(before) == phase {
        assert(events.take(before.len() as int) =~= before);
        assert(daemon_run(events.take(before.len() as int)) == phase);
    } else {
        let i = choose|i: int| 0 <= i < before.len() && daemon_run(#[trigger] before.take(i)) == phase;
        assert(events.take(i) =~= before.take(i));
        assert(daemon_run(events.take(i)) == phase);
    }
}

/// A daemon that is done has told its workers to stop, waited for them, and taken away what says
/// where it listens.
pub proof fn law_daemon_cleans_up(events: Seq<DaemonEvent>)
    ensures
        daemon_run(events) is Done ==> {
            &&& passed(events, DaemonPhase::StopWorkers)
            &&& passed(events, DaemonPhase::JoinWorkers)
            &&& passed(events, DaemonPhase::StopServer)
            &&& passed(events, DaemonPhase::RemoveRuntimeInfo)
        },
        daemon_run(events) is RemoveRuntimeInfo ==> passed(events, DaemonPhase::StopWorkers)
            && passed(events, DaemonPhase::JoinWorkers) && passed(events, DaemonPhase::StopServer),
        daemon_run(events) is StopServer ==> passed(events, DaemonPhase::StopWorkers) && passed(
            events,
            DaemonPhase::JoinWorkers,
        ),
        daemon_run(events) is JoinWorkers ==> passed(events, DaemonPhase::StopWorkers),
    decreases events.len(),
{
    if events.len() > 0 {
        let before = events.drop_last();
        law_daemon_cleans_up(before);
        if passed(before, DaemonPhase::StopWorkers) || daemon_run(before) is StopWorkers {
            lemma_passed(events, DaemonPhase::StopWorkers);
        }
        if passed(before, DaemonPhase::JoinWorkers) || daemon_run(before) is JoinWorkers {
            lemma_passed(events, DaemonPhase::JoinWorkers);
        }
        if passed(before, DaemonPhase::StopServer) || daemon_run(before) is StopServer {
            lemma_passed(events, DaemonPhase::StopServer);
        }
        if passed(before, DaemonPhase::RemoveRuntimeInfo) || daemon_run(before)
            is RemoveRuntimeInfo {
            lemma_passed(events, DaemonPhase::RemoveRuntimeInfo);
        }
    }
}

/// A daemon that waits goes on whatever happens, unless it is told to stop or interrupted.
pub proof fn law_daemon_goes_on(event: DaemonEvent)
    requires
        !(event is Stop),
        !(event is Interrupt),
    ensures
        daemon_after(DaemonPhase::Wait, event) is Wait || forall|e: DaemonEvent|
            #[trigger] daemon_after(daemon_after(DaemonPhase::Wait, event), e) is Wait,
{
}

/// A daemon whose start goes well takes the lock, reads the settings, listens, says where, and
/// starts the workers; a step of the start that fails ends it, and nothing else does.
pub proof fn law_daemon_starts(event: DaemonEvent)
    ensures
        daemon_after(DaemonPhase::AcquireLock, DaemonEvent::Success) is LoadConfig,
        daemon_after(DaemonPhase::LoadConfig, DaemonEvent::Success) is MigrateLanguages,
        daemon_after(DaemonPhase::MigrateLanguages, DaemonEvent::Success) is Bind,
        daemon_after(DaemonPhase::Bind, DaemonEvent::Success) is WriteRuntimeInfo,
        daemon_after(DaemonPhase::WriteRuntimeInfo, DaemonEvent::Success) is StartServer,
        daemon_after(DaemonPhase::StartServer, event) is StartWorkers,
        daemon_after(DaemonPhase::StartWorkers, event) is Wait,
        daemon_after(DaemonPhase::AcquireLock, DaemonEvent::Failure) is Failed,
        daemon_after(DaemonPhase::LoadConfig, DaemonEvent::Failure) is Failed,
        daemon_after(DaemonPhase::MigrateLanguages, DaemonEvent::Failure) is Failed,
        daemon_after(DaemonPhase::Bind, DaemonEvent::Failure) is Failed,
        daemon_after(DaemonPhase::WriteRuntimeInfo, DaemonEvent::Failure) is Failed,
        forall|phase: DaemonPhase|
            #[trigger] daemon_after(phase, event) is Failed ==> event is Failure || phase is Failed,
{
}

/// A daemon that waits does what it is told: it reads the settings again, looks after the workers
/// when that is due, and stops in order; each of these is done once, and then it waits again or
/// goes on to stop.
pub proof fn law_daemon_does_what_it_is_told(event: DaemonEvent)
    ensures
        daemon_after(DaemonPhase::Wait, DaemonEvent::Reload) is Reload,
        daemon_after(DaemonPhase::Wait, DaemonEvent::Tick) is Supervise,
        daemon_after(DaemonPhase::Wait, DaemonEvent::Stop) is AnswerStop,
        daemon_after(DaemonPhase::Wait, DaemonEvent::Interrupt) is StopWorkers,
        daemon_after(DaemonPhase::Reload, event) is Wait,
        daemon_after(DaemonPhase::Supervise, event) is Wait,
        daemon_after(DaemonPhase::AnswerStop, event) is StopWorkers,
        daemon_after(DaemonPhase::StopWorkers, event) is JoinWorkers,
        daemon_after(DaemonPhase::JoinWorkers, event) is StopServer,
        daemon_after(DaemonPhase::StopServer, event) is RemoveRuntimeInfo,
        daemon_after(DaemonPhase::RemoveRuntimeInfo, event) is Done,
{
}

/// Every worker that has ended gets a verdict. One whose directory is not known cannot be
/// restarted; one that is known is restarted, unless it was restarted five times already and the
/// last time is not a minute ago. Only its own restarts count.
pub proof fn law_ended_worker_is_restarted(
    slots: Map<Seq<char>, (u32, u64)>,
    finished: Seq<String>,
    known: Seq<String>,
    n: int,
    now: u64,
    i: int,
)
    requires
        0 <= i < n <= finished.len(),
        forall|j: int| 0 <= j < i ==> (#[trigger] finished[j])@ != finished[i]@,
    ensures
        watch(slots, finished, known, n, now).verdicts.len() == n,
        ({
            let path = finished[i]@;
            let verdict = watch(slots, finished, known, n, now).verdicts[i];
            if !lists(known, path) {
                verdict is NoConfig
            } else if slots.dom().contains(path) && slots[path].0 >= 5 && now - slots[path].1
                <= 60_000 {
                verdict is GiveUp
            } else {
                verdict is Respawn
            }
        }),
    decreases n,
{
    let path = finished[i]@;
    if n - 1 > i {
        law_ended_worker_is_restarted(slots, finished, known, n - 1, now, i);
    } else {
        lemma_other_slots(slots, finished, known, i, now, path);
    }
}

/// Workers of other directories do not touch the count of one.
proof fn lemma_other_slots(
    slots: Map<Seq<char>, (u32, u64)>,
    finished: Seq<String>,
    known: Seq<String>,
    n: int,
    now: u64,
    path: Seq<char>,
)
    requires
        0 <= n <= finished.len(),
        forall|j: int| 0 <= j < n ==> (#[trigger] finished[j])@ != path,
    ensures
        ({
            let w = watch(slots, finished, known, n, now);
            &&& w.verdicts.len() == n
            &&& w.slots.dom().contains(path) == slots.dom().contains(path)
            &&& slots.dom().contains(path) ==> w.slots[path] == slots[path]
        }),
    decreases n,
{
    if n > 0 {
        lemma_other_slots(slots, finished, known, n - 1, now, path);
        assert(finished[n - 1]@ != path);
    }
}

/// A worker that is restarted is counted, with the time: as once more where its last restart is at
/// most a minute ago, and as the first time otherwise.
pub proof fn law_restart_is_counted(
    slots: Map<Seq<char>, (u32, u64)>,
    path: Seq<char>,
    now: u64,
    window: u64,
)
    ensures
        ({
            let n = attempts(slots, path, now, window);
            if slots.dom().contains(path) && now - slots[path].1 <= window {
                n == if slots[path].0 < u32::MAX {
                    slots[path].0 + 1
                } else {
                    u32::MAX as int
                }
            } else {
                n == 1
            }
        }),
{
}

/// A worker is started for each directory that was added, in the order of the settings, and for no
/// other.
pub proof fn law_added_directories_get_a_worker(wanted: Seq<String>, added: Seq<String>, n: int)
    requires
        0 <= n <= wanted.len() <= usize::MAX,
    ensures
        forall|i: usize|
            #[trigger] added_places(wanted, added, n).contains(i) <==> i < n && lists(
                added,
                wanted[i as int]@,
            ),
        forall|a: int, b: int|
            0 <= a < b < added_places(wanted, added, n).len() ==> #[trigger] added_places(
                wanted,
                added,
                n,
            )[a] < #[trigger] added_places(wanted, added, n)[b],
    decreases n,
{
    if n > 0 {
        law_added_directories_get_a_worker(wanted, added, n - 1);
        let before = added_places(wanted, added, n - 1);
        let now = added_places(wanted, added, n);
        assert forall|i: usize| #[trigger] now.contains(i) <==> i < n && lists(
            added,
            wanted[i as int]@,
        ) by {
            if before.contains(i) {
                let k = choose|k: int| 0 <= k < before.len() && before[k] == i;
                assert(now[k] == i);
            }
            if i == n - 1 && lists(added, wanted[i as int]@) {
                assert(now[before.len() as int] == i);
            }
            if now.contains(i) && !before.contains(i) {
                let k = choose|k: int| 0 <= k < now.len() && now[k] == i;
                assert(k == before.len());
            }
        }
        assert forall|a: int, b: int| 0 <= a < b < now.len() implies #[trigger] now[a]
            < #[trigger] now[b] by {
            assert(now[a] == before[a]);
            if b < before.len() {
                assert(now[b] == before[b]);
            } else {
                assert(before.contains(before[a]));
            }
        }
    }
}

/// A language is written to the settings of exactly those directories that had none and for which
/// one was detected.
pub proof fn law_detected_languages_are_written(
    languages: Seq<Option<String>>,
    detected: Seq<Option<String>>,
    n: int,
)
    requires
        0 <= n <= languages.len() <= usize::MAX,
    ensures
        forall|i: usize|
            #[trigger] migrated_places(languages, detected, n).contains(i) <==> i < n
                && languages[i as int] is None && detected[i as int] is Some,
    decreases n,
{
    if n > 0 {
        law_detected_languages_are_written(languages, detected, n - 1);
        let before = migrated_places(languages, detected, n - 1);
        let now = migrated_places(languages, detected, n);
        assert forall|i: usize| #[trigger] now.contains(i) <==> i < n && languages[i as int]
            is None && detected[i as int] is Some by {
            if before.contains(i) {
                let k = choose|k: int| 0 <= k < before.len() && before[k] == i;
                assert(now[k] == i);
            }
            if i == n - 1 && languages[i as int] is None && detected[i as int] is Some {
                assert(now[before.len() as int] == i);
            }
            if now.contains(i) && !before.contains(i) {
                let k = choose|k: int| 0 <= k < now.len() && now[k] == i;
                assert(k == before.len());
            }
        }
    }
}

} // verus!
