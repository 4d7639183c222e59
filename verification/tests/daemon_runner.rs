use code_index::daemon_core::runner::{
    allow_respawn, handle_reload, initial_slots, migrate_languages, supervise_workers,
    verdict_text, DaemonEvent, DaemonPhase, DaemonRun, ReloadedPaths, RespawnTracker, Verdict,
    MAX_RESPAWNS,
};

fn texts(items: &[&str]) -> Vec<String> {
    items.iter().map(|s| s.to_string()).collect()
}

#[test]
fn allow_respawn_up_to_the_limit_and_again_after_the_window() {
    let mut tracker = RespawnTracker::new();
    let path = "/tmp/repo";
    let window: u64 = 60 * 1_000;
    let t0: u64 = 1_000_000;
    for i in 1..=5 {
        assert!(
            allow_respawn(&mut tracker, path, t0, window, 5),
            "попытка {i} должна быть разрешена"
        );
    }
    assert!(!allow_respawn(&mut tracker, path, t0, window, 5));
    let later = t0 + 61 * 1_000;
    assert!(allow_respawn(&mut tracker, path, later, window, 5));
}

#[test]
fn attempts_of_another_path_are_not_counted() {
    let mut tracker = RespawnTracker::new();
    assert!(allow_respawn(&mut tracker, "/a", 0, 10, 1));
    assert!(!allow_respawn(&mut tracker, "/a", 5, 10, 1));
    assert!(allow_respawn(&mut tracker, "/b", 5, 10, 1));
}

#[test]
fn every_attempt_prolongs_the_window() {
    let mut tracker = RespawnTracker::new();
    assert!(allow_respawn(&mut tracker, "/a", 0, 10, 2));
    assert!(allow_respawn(&mut tracker, "/a", 10, 10, 2));
    assert!(!allow_respawn(&mut tracker, "/a", 20, 10, 2));
    assert!(allow_respawn(&mut tracker, "/a", 31, 10, 2));
}

#[test]
fn supervision_tells_the_three_outcomes_apart() {
    let mut tracker = RespawnTracker::new();
    let finished = texts(&["/repo", "/gone"]);
    let known = texts(&["/repo"]);
    for round in 0..MAX_RESPAWNS {
        let v = supervise_workers(&mut tracker, &finished, &known, round as u64);
        assert_eq!(v, vec![Verdict::Respawn, Verdict::NoConfig]);
    }
    let v = supervise_workers(&mut tracker, &finished, &known, 100);
    assert_eq!(v[0], Verdict::GiveUp);
    assert_ne!(verdict_text(Verdict::GiveUp), verdict_text(Verdict::NoConfig));
}

#[test]
fn no_limit_on_initial_indexing_means_no_slots() {
    assert_eq!(initial_slots(0), None);
    assert_eq!(initial_slots(3), Some(3));
}

#[test]
fn a_reload_starts_the_added_paths() {
    let (response, start) = handle_reload(Ok(ReloadedPaths {
        wanted: texts(&["/old", "/new"]),
        added: texts(&["/new"]),
        removed: texts(&["/gone"]),
        unchanged: texts(&["/old"]),
    }));
    assert!(response.reloaded);
    assert_eq!(response.added, texts(&["/new"]));
    assert_eq!(response.removed, texts(&["/gone"]));
    assert_eq!(response.unchanged, texts(&["/old"]));
    // A path that left the settings stays until the daemon restarts.
    assert!(response.error.unwrap().contains("рестарта"));
    assert_eq!(start, vec![1]);
    let (response, start) = handle_reload(Ok(ReloadedPaths {
        wanted: texts(&["/old"]),
        added: vec![],
        removed: vec![],
        unchanged: texts(&["/old"]),
    }));
    assert_eq!(response.error, None);
    assert!(start.is_empty());
}

#[test]
fn a_failed_reload_changes_nothing() {
    let (response, start) = handle_reload(Err("нет файла".to_string()));
    assert!(!response.reloaded);
    assert!(response.added.is_empty() && response.removed.is_empty());
    assert!(response.unchanged.is_empty());
    assert_eq!(response.error.as_deref(), Some("Не удалось перечитать конфиг: нет файла"));
    assert!(start.is_empty());
}

#[test]
fn fills_language_for_entries_without_it() {
    let mut languages = vec![None, None];
    let detected = vec![Some("rust".to_string()), Some("bsl".to_string())];
    let changed = migrate_languages(true, &mut languages, &detected);
    assert_eq!(languages[0].as_deref(), Some("rust"));
    assert_eq!(languages[1].as_deref(), Some("bsl"));
    assert_eq!(changed, vec![0, 1]);
}

#[test]
fn keeps_explicit_language_unchanged() {
    let mut languages = vec![Some("python".to_string())];
    let changed = migrate_languages(true, &mut languages, &vec![Some("rust".to_string())]);
    assert_eq!(languages[0].as_deref(), Some("python"));
    assert!(changed.is_empty());
}

#[test]
fn warns_but_doesnt_fail_when_language_undetectable() {
    let mut languages = vec![None, None];
    let changed = migrate_languages(true, &mut languages, &vec![None, Some("bsl".to_string())]);
    assert_eq!(languages[0], None);
    assert_eq!(languages[1].as_deref(), Some("bsl"));
    assert_eq!(changed, vec![1]);
}

#[test]
fn without_a_config_file_no_language_is_filled_in() {
    let mut languages = vec![None];
    let changed = migrate_languages(false, &mut languages, &vec![Some("bsl".to_string())]);
    assert_eq!(languages, vec![None]);
    assert!(changed.is_empty());
}

fn through(events: &[DaemonEvent]) -> Vec<DaemonPhase> {
    let mut run = DaemonRun::run();
    let mut seen = vec![run.phase];
    for e in events {
        run = run.next(*e);
        seen.push(run.phase);
    }
    seen
}

#[test]
fn the_daemon_starts_waits_and_cleans_up() {
    let mut events = vec![DaemonEvent::Success; 7];
    events.extend([DaemonEvent::Tick, DaemonEvent::Success, DaemonEvent::Reload, DaemonEvent::Failure]);
    events.extend([DaemonEvent::Stop, DaemonEvent::Success, DaemonEvent::Success]);
    events.extend([DaemonEvent::Success, DaemonEvent::Success, DaemonEvent::Success]);
    assert_eq!(
        through(&events),
        vec![
            DaemonPhase::AcquireLock,
            DaemonPhase::LoadConfig,
            DaemonPhase::MigrateLanguages,
            DaemonPhase::Bind,
            DaemonPhase::WriteRuntimeInfo,
            DaemonPhase::StartServer,
            DaemonPhase::StartWorkers,
            DaemonPhase::Wait,
            DaemonPhase::Supervise,
            DaemonPhase::Wait,
            DaemonPhase::Reload,
            DaemonPhase::Wait,
            DaemonPhase::AnswerStop,
            DaemonPhase::StopWorkers,
            DaemonPhase::JoinWorkers,
            DaemonPhase::StopServer,
            DaemonPhase::RemoveRuntimeInfo,
            DaemonPhase::Done,
        ]
    );
}

#[test]
fn a_daemon_without_a_lock_does_not_start() {
    let seen = through(&[DaemonEvent::Failure, DaemonEvent::Success]);
    assert_eq!(seen, vec![DaemonPhase::AcquireLock, DaemonPhase::Failed, DaemonPhase::Failed]);
}
