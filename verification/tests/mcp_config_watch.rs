use code_index::mcp::config_watch::{
    active_languages, is_config_change, path_languages, reload_from_disk, wants_reload,
    watched_dirs, DiskReload, PathLanguage, WatchEvent,
};
use notify_debouncer_full::notify::event::{AccessKind, AccessMode, CreateKind, ModifyKind};
use notify_debouncer_full::notify::EventKind;

fn change(kind: EventKind, paths: &[&str], targets: &[&str]) -> bool {
    let texts = |items: &[&str]| items.iter().map(|s| s.to_string()).collect::<Vec<String>>();
    is_config_change(kind.is_access(), &texts(paths), &texts(targets))
}

#[test]
fn access_events_do_not_trigger_reload() {
    let target = "/cfg/daemon.toml";
    assert!(!change(
        EventKind::Access(AccessKind::Open(AccessMode::Read)),
        &[target],
        &[target]
    ));
    assert!(!change(
        EventKind::Access(AccessKind::Close(AccessMode::Read)),
        &[target],
        &[target]
    ));
    assert!(change(EventKind::Modify(ModifyKind::Any), &[target], &[target]));
    assert!(change(EventKind::Create(CreateKind::File), &[target], &[target]));
    assert!(!change(EventKind::Modify(ModifyKind::Any), &["/cfg/daemon.json"], &[target]));
}

#[test]
fn federated_filter_accepts_both_targets_only() {
    let targets = ["/cfg/serve.toml", "/cfg/daemon.toml"];
    let modified = EventKind::Modify(ModifyKind::Any);
    assert!(change(modified, &["/cfg/serve.toml"], &targets));
    assert!(change(modified, &["/cfg/daemon.toml"], &targets));
    assert!(!change(modified, &["/cfg/neighbor.toml"], &targets));
    assert!(!change(
        EventKind::Access(AccessKind::Open(AccessMode::Read)),
        &["/cfg/serve.toml"],
        &targets
    ));
}

fn entry(alias: &str, language: Option<&str>, detected: Option<&str>) -> PathLanguage {
    PathLanguage {
        alias: alias.to_string(),
        language: language.map(|s| s.to_string()),
        detected: detected.map(|s| s.to_string()),
    }
}

#[test]
fn languages_are_set_or_detected() {
    let entries = vec![
        entry("x", Some("bsl"), None),
        entry("y", Some("python"), Some("rust")),
        entry("z", None, None),
        entry("w", None, Some("bsl")),
    ];
    let names = active_languages(&entries);
    assert!(names.contains(&"bsl".to_string()));
    assert!(names.contains(&"python".to_string()));
    assert!(!names.contains(&"rust".to_string()));
    assert_eq!(names.len(), 2);
    let by_alias = path_languages(&entries);
    assert_eq!(by_alias.get(&"w".to_string()).map(|s| s.as_str()), Some("bsl"));
    assert_eq!(by_alias.get(&"y".to_string()).map(|s| s.as_str()), Some("python"));
    assert!(by_alias.get(&"z".to_string()).is_none());
}

#[test]
fn a_missing_file_keeps_the_state() {
    assert_eq!(reload_from_disk(false, false), DiskReload::Keep);
    assert_eq!(reload_from_disk(true, false), DiskReload::Fail);
    assert_eq!(reload_from_disk(true, true), DiskReload::Apply);
}

#[test]
fn only_changes_lead_to_a_reload() {
    assert!(wants_reload(WatchEvent::Changes(1)));
    assert!(!wants_reload(WatchEvent::Changes(0)));
    assert!(!wants_reload(WatchEvent::Errors));
}

#[test]
fn directories_are_watched_once() {
    let targets = vec!["/cfg/a.toml".to_string(), "/cfg/b.toml".to_string()];
    let parents = vec![Some("/cfg".to_string()), Some("/cfg".to_string())];
    assert_eq!(watched_dirs(&targets, &parents), Ok(vec!["/cfg".to_string()]));
    let orphan = watched_dirs(&targets, &vec![Some("/cfg".to_string()), None]).unwrap_err();
    assert!(orphan.contains("/cfg/b.toml"));
}
