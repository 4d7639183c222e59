use code_index::daemon_core::apply::{
    apply_dir_scan, DirItem, DirListing, EventAction, EventAnswer, EventRun,
};
use code_index::daemon_core::batch::{BatchAction, BatchPlan, BatchRun};
use code_index::daemon_core::lifecycle::{
    effective_config, watch_times, worker_error, ExtrasPlan, IndexerSettings, PathSettings,
    WorkerAnswer, WorkerFault, WorkerPhase, WorkerRun,
};
use code_index::daemon_core::worker::{
    batch_outcome, collect_dirty_paths, collect_invalidate_paths, storage_mode_ru, BatchFault,
    FileEvent, StorageMode,
};
use code_index::indexer::config::IndexConfig;

#[test]
fn ready_only_when_all_three_steps_went_well() {
    assert!(batch_outcome(true, 0, 5, true).is_ok());
}

#[test]
fn a_failed_commit_is_not_ready() {
    let err = batch_outcome(false, 0, 5, true).unwrap_err();
    assert!(err.contains("фиксация"), "текст: {err}");
}

#[test]
fn a_partly_applied_batch_is_not_ready() {
    let err = batch_outcome(true, 2, 7, true).unwrap_err();
    assert!(err.contains("2 из 7"), "текст: {err}");
}

#[test]
fn failed_extras_are_not_ready() {
    let err = batch_outcome(true, 0, 3, false).unwrap_err();
    assert!(err.contains("extras"), "текст: {err}");
}

#[test]
fn a_failed_commit_goes_before_other_causes() {
    let err = batch_outcome(false, 3, 3, false).unwrap_err();
    assert!(err.contains("фиксация"), "текст: {err}");
}

fn modified(path: &str) -> FileEvent {
    FileEvent::Modified(path.to_string())
}

#[test]
fn touched_paths_of_a_batch() {
    let batch = vec![
        modified("a"),
        FileEvent::Deleted("b".to_string()),
        FileEvent::Created("c".to_string()),
    ];
    assert_eq!(collect_invalidate_paths(&batch), vec!["a", "b", "c"]);
}

#[test]
fn deleted_files_get_no_dirty_mark() {
    let batch = vec![
        (modified("a"), Some(7)),
        (FileEvent::Deleted("b".to_string()), Some(8)),
        (modified("c"), None),
        (FileEvent::Created("d".to_string()), Some(9)),
    ];
    let marks = collect_dirty_paths(&batch);
    assert!(marks.contains(&("a".to_string(), 7)));
    assert!(marks.contains(&("d".to_string(), 9)));
    assert!(!marks.iter().any(|m| m.0 == "c"));
}

#[test]
fn storage_modes_have_names() {
    assert_ne!(storage_mode_ru(StorageMode::Disk), storage_mode_ru(StorageMode::InMemory));
}

fn plan(batch_len: usize, has_processor: bool) -> BatchPlan {
    BatchPlan {
        batch_len,
        bulk_batch_threshold: 100,
        has_cache: true,
        dirty_paths: batch_len,
        touched_paths: batch_len,
        has_processor,
    }
}

/// The actions of a batch, where `fails` says which go wrong.
fn batch_actions(plan: BatchPlan, fails: &dyn Fn(BatchAction) -> bool) -> Vec<BatchAction> {
    let mut run = BatchRun::process_batch(plan);
    let mut seen = vec![];
    loop {
        let action = run.action();
        seen.push(action);
        if matches!(action, BatchAction::Continue | BatchAction::Stop) {
            return seen;
        }
        run = run.next(!fails(action));
    }
}

#[test]
fn a_batch_is_applied_committed_and_announced() {
    let seen = batch_actions(plan(2, true), &|_| false);
    assert_eq!(
        seen,
        vec![
            BatchAction::MarkDirty,
            BatchAction::ShowStart,
            BatchAction::Begin,
            BatchAction::Apply(0),
            BatchAction::Apply(1),
            BatchAction::ShowProgress(2),
            BatchAction::ShowIdle,
            BatchAction::Commit,
            BatchAction::UpdateExtras,
            BatchAction::Checkpoint,
            BatchAction::Invalidate,
            BatchAction::SetReady,
            BatchAction::Continue,
        ]
    );
}

#[test]
fn a_failed_commit_is_rolled_back() {
    let seen = batch_actions(plan(1, true), &|a| a == BatchAction::Commit);
    assert!(seen.contains(&BatchAction::Rollback));
    assert!(!seen.contains(&BatchAction::UpdateExtras));
    assert!(!seen.contains(&BatchAction::Invalidate));
    assert!(seen.contains(&BatchAction::SetError(BatchFault::Commit)));
}

#[test]
fn a_failed_event_leaves_an_error() {
    let seen = batch_actions(plan(3, false), &|a| a == BatchAction::Apply(1));
    assert!(seen.contains(&BatchAction::Apply(2)));
    assert!(seen.contains(&BatchAction::Commit));
    assert!(seen.contains(&BatchAction::SetError(BatchFault::Partial)));
}

#[test]
fn a_failed_begin_stops_the_worker() {
    let seen = batch_actions(plan(1, true), &|a| a == BatchAction::Begin);
    assert_eq!(seen.last(), Some(&BatchAction::Stop));
    assert!(!seen.contains(&BatchAction::Commit));
}

#[test]
fn a_large_batch_becomes_a_full_pass() {
    let seen = batch_actions(plan(101, true), &|a| a == BatchAction::RebuildExtras);
    assert!(seen.contains(&BatchAction::FullPass));
    assert!(!seen.iter().any(|a| matches!(a, BatchAction::Apply(_))));
    assert!(seen.contains(&BatchAction::SetError(BatchFault::Extras)));
}

#[test]
fn progress_is_shown_every_fifty_events() {
    let seen = batch_actions(plan(100, false), &|_| false);
    let shown: Vec<usize> = seen
        .iter()
        .filter_map(|a| match a {
            BatchAction::ShowProgress(n) => Some(*n),
            _ => None,
        })
        .collect();
    assert_eq!(shown, vec![50, 100]);
}

fn event_actions(event: &FileEvent, answers: &[EventAnswer]) -> Vec<EventAction> {
    let path = event.path_text().to_string();
    let name = path.rsplit('/').next().unwrap();
    let mut run = EventRun::apply_event(event, name, None, &vec![]);
    let mut seen = vec![run.action()];
    for a in answers {
        run = run.next(*a);
        seen.push(run.action());
    }
    seen
}

#[test]
fn a_code_file_is_read_parsed_and_written() {
    let seen =
        event_actions(&modified("src/a.rs"), &[EventAnswer::No, EventAnswer::Yes, EventAnswer::Yes, EventAnswer::Yes]);
    assert_eq!(
        seen,
        vec![
            EventAction::AskDirectory,
            EventAction::Read,
            EventAction::ParseCode,
            EventAction::WriteCode { text: false },
            EventAction::Applied,
        ]
    );
    let seen = event_actions(&modified("a.html"), &[EventAnswer::No, EventAnswer::Yes, EventAnswer::Yes]);
    assert_eq!(seen.last(), Some(&EventAction::WriteCode { text: true }));
}

#[test]
fn a_vanished_or_binary_file_is_no_failure() {
    for answer in [EventAnswer::Missing, EventAnswer::Binary] {
        let seen = event_actions(&modified("a.md"), &[EventAnswer::No, answer]);
        assert_eq!(seen.last(), Some(&EventAction::Applied));
    }
    let seen = event_actions(&modified("a.md"), &[EventAnswer::No, EventAnswer::Failed]);
    assert_eq!(seen.last(), Some(&EventAction::Failed));
}

#[test]
fn a_deletion_falls_back_to_the_prefix() {
    let gone = FileEvent::Deleted("dir".to_string());
    let seen = event_actions(&gone, &[EventAnswer::Missing, EventAnswer::Yes]);
    assert_eq!(
        seen,
        vec![EventAction::FindRecord, EventAction::DeletePrefix, EventAction::Applied]
    );
}

#[test]
fn a_directory_is_scanned_without_the_excluded_ones() {
    let listing = DirListing::Items(vec![
        DirItem::File("a.rs".to_string()),
        DirItem::Dir(
            "node_modules".to_string(),
            DirListing::Items(vec![DirItem::File("x.js".to_string())]),
        ),
        DirItem::Dir(
            "sub".to_string(),
            DirListing::Items(vec![DirItem::File("b.rs".to_string()), DirItem::Other]),
        ),
        DirItem::Dir("locked".to_string(), DirListing::Unreadable),
        DirItem::Dir("gone".to_string(), DirListing::Vanished),
    ]);
    let mut files = vec![];
    let ok = apply_dir_scan("/r", &listing, &mut files);
    assert!(!ok);
    assert_eq!(files, vec!["/r/a.rs", "/r/sub/b.rs"]);
}

fn worker(answers: &[WorkerAnswer]) -> WorkerRun {
    let mut run = WorkerRun::run_worker();
    for a in answers {
        run = run.next(*a);
    }
    run
}

const YES: WorkerAnswer = WorkerAnswer::Yes;
const NO: WorkerAnswer = WorkerAnswer::No;

fn reindexed(files_indexed: usize, paths_overflow: bool) -> WorkerAnswer {
    WorkerAnswer::Reindexed { files_indexed, files_deleted: 0, paths_overflow }
}

#[test]
fn each_fault_of_a_worker_has_its_text() {
    let faults = [
        WorkerFault::ResolvePath,
        WorkerFault::CreateDir,
        WorkerFault::LoadConfig,
        WorkerFault::OpenFile,
        WorkerFault::OpenAuto,
        WorkerFault::Reindex,
        WorkerFault::Reopen,
        WorkerFault::CreateWatcher,
    ];
    for f in faults {
        let text = worker_error(f, "причина");
        assert!(text.contains("причина") && text.len() > "причина".len());
    }
    assert_eq!(worker(&[NO]).phase, WorkerPhase::SetError(WorkerFault::ResolvePath));
    assert_eq!(worker(&[YES, NO]).phase, WorkerPhase::SetError(WorkerFault::CreateDir));
    assert_eq!(worker(&[YES, YES, NO]).phase, WorkerPhase::SetError(WorkerFault::LoadConfig));
}

#[test]
fn a_closed_queue_ends_the_worker_quietly() {
    assert_eq!(worker(&[YES, YES, YES, WorkerAnswer::Closed]).phase, WorkerPhase::End);
}

#[test]
fn a_fresh_folder_is_indexed_in_memory_and_flushed() {
    // Probe: no rows; weigh: fits; open: well; no processor.
    let run = worker(&[YES, YES, YES, YES, YES, NO, YES, YES, NO, reindexed(3, false)]);
    assert_eq!(run.phase, WorkerPhase::Flush);
    assert!(run.changed);
    let run = run.next(YES).next(YES);
    assert_eq!(run.phase, WorkerPhase::ReleaseMemory);
    assert!(!run.in_memory);
    let run = run.next(YES).next(YES).next(YES);
    assert_eq!(run.phase, WorkerPhase::SetReady);
}

#[test]
fn extras_follow_what_has_changed() {
    let to_extras = |answer: WorkerAnswer| {
        worker(&[YES, YES, YES, YES, YES, YES, YES, YES, YES, YES, answer])
    };
    let quiet = to_extras(reindexed(0, false));
    assert_eq!(quiet.phase, WorkerPhase::AskExtras);
    assert_eq!(quiet.plan_extras(true), ExtrasPlan::Skip);
    assert_eq!(quiet.plan_extras(false), ExtrasPlan::Rebuild);
    let changed = to_extras(reindexed(2, false));
    assert_eq!(changed.plan_extras(true), ExtrasPlan::Update);
    let many = to_extras(reindexed(2, true));
    assert_eq!(many.plan_extras(true), ExtrasPlan::Rebuild);
}

#[test]
fn settings_of_a_path_go_before_those_of_the_daemon() {
    let none = PathSettings {
        language: None,
        debounce_ms: None,
        batch_ms: None,
        max_code_file_size_bytes: None,
        bulk_batch_threshold: None,
    };
    let own = PathSettings {
        language: Some("rust".to_string()),
        debounce_ms: Some(11),
        batch_ms: Some(22),
        max_code_file_size_bytes: Some(33),
        bulk_batch_threshold: None,
    };
    let daemon = IndexerSettings { max_code_file_size_bytes: Some(44), bulk_batch_threshold: Some(55) };
    let silent = IndexerSettings { max_code_file_size_bytes: None, bulk_batch_threshold: None };
    let c = effective_config(IndexConfig::default(), &own, &daemon, 1, 2);
    assert_eq!((c.max_code_file_size_bytes, c.bulk_batch_threshold), (33, 55));
    assert_eq!(c.repo_language.as_deref(), Some("rust"));
    let c = effective_config(IndexConfig::default(), &none, &silent, 1, 2);
    assert_eq!((c.max_code_file_size_bytes, c.bulk_batch_threshold), (1, 2));
    assert_eq!(watch_times(&own, &c), (11, 22));
    assert_eq!(watch_times(&none, &c), (c.debounce_ms, c.batch_ms));
}

#[test]
fn paths_of_events_have_slashes() {
    assert_eq!(modified("dir\\sub\\a.rs").rel_path_text(), "dir/sub/a.rs");
    assert_eq!(FileEvent::Deleted("a/b".to_string()).rel_path_text(), "a/b");
}

#[test]
fn files_of_the_root_have_their_names_for_paths() {
    let listing = DirListing::Items(vec![
        DirItem::File("a.py".to_string()),
        DirItem::Dir("sub".to_string(), DirListing::Items(vec![DirItem::File("b.py".to_string())])),
    ]);
    let mut files = Vec::new();
    assert!(apply_dir_scan("", &listing, &mut files));
    assert_eq!(files, vec!["a.py", "sub/b.py"]);
}
