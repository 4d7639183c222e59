use code_index::federation::client::{
    FederatedReply, RemoteClientPool, RemoteServeClient, DEFAULT_REMOTE_PORT,
};
use code_index::federation::reload::{
    diff_repos, missing_aliases, pool_differs, repo_changed, PoolConfig, ReloadAction,
    ServeConfigReloader, ServePath, ServeSettings,
};
use code_index::federation::server::{
    handle_get_stats, is_forwarded, resolve_local, stats_body, stats_summary, LocalFault, StatsRoute,
};
use code_index::federation::RepoEntry;
use code_index::json::Json;
use code_index::serve_cache::ServeCache;
use std::sync::Arc;

#[test]
fn pool_returns_same_client_for_same_ip() {
    let mut pool = RemoteClientPool::with_defaults();
    let a = pool.get_or_create("192.0.2.50");
    let b = pool.get_or_create("192.0.2.50");
    assert!(Arc::ptr_eq(&a, &b));
}

#[test]
fn pool_creates_separate_clients_for_different_ips() {
    let mut pool = RemoteClientPool::with_defaults();
    let a = pool.get_or_create("192.0.2.50");
    let b = pool.get_or_create("192.0.2.51");
    assert!(!Arc::ptr_eq(&a, &b));
    assert_eq!(a.base_url(), "http://192.0.2.50:8011");
    assert_eq!(b.base_url(), "http://192.0.2.51:8011");
}

#[test]
fn a_call_gives_the_body_or_says_what_went_wrong() {
    let client = RemoteServeClient::new("127.0.0.1", DEFAULT_REMOTE_PORT);
    assert_eq!(client.federate_url("t"), "http://127.0.0.1:8011/federate/t");
    let answer = |success: bool| FederatedReply::Answer {
        success,
        status: "404 Not Found".to_string(),
        body: "тело".to_string(),
    };
    assert_eq!(client.call_federated("t", answer(true)), Ok("тело".to_string()));
    assert_eq!(
        client.call_federated("t", answer(false)),
        Err("http://127.0.0.1:8011/federate/t вернул статус 404 Not Found: тело".to_string())
    );
    let unsent = client.call_federated("t", FederatedReply::Unsent("отказ".to_string()));
    assert_eq!(unsent, Err("HTTP-запрос к http://127.0.0.1:8011/federate/t упал: отказ".to_string()));
    let unread = client.call_federated("t", FederatedReply::Unread("обрыв".to_string()));
    assert!(unread.unwrap_err().ends_with(": обрыв"));
}

const POOL: PoolConfig = PoolConfig { max_size: 4, cache_kib: 2000, busy_timeout_ms: 100 };

fn local(root: &str) -> RepoEntry {
    RepoEntry {
        root_path: Some(root.to_string()),
        ip: "10.0.0.1".to_string(),
        port: 8011,
        is_local: true,
        language: None,
    }
}

fn remote(ip: &str) -> RepoEntry {
    RepoEntry { root_path: None, ip: ip.to_string(), port: 8011, is_local: false, language: None }
}

fn repos(items: &[(&str, RepoEntry)]) -> Vec<(String, RepoEntry)> {
    items.iter().map(|(k, v)| (k.to_string(), v.clone())).collect()
}

fn settings(me_ip: &str, paths: &[(&str, &str)], pool: PoolConfig) -> ServeSettings {
    ServeSettings {
        me_ip: me_ip.to_string(),
        paths: paths
            .iter()
            .map(|(alias, ip)| ServePath { alias: alias.to_string(), ip: ip.to_string() })
            .collect(),
        pool,
    }
}

fn reloader() -> ServeConfigReloader {
    ServeConfigReloader::new(
        "/cfg/serve.toml".to_string(),
        "/cfg/daemon.toml".to_string(),
        "10.0.0.1".to_string(),
        POOL,
    )
}

#[test]
fn added_removed_and_changed_repositories() {
    let before = repos(&[("a", local("/a")), ("b", remote("10.0.0.2")), ("c", local("/c"))]);
    let after = repos(&[("a", local("/a2")), ("c", local("/c")), ("d", remote("10.0.0.3"))]);
    let (added, removed, changed) = diff_repos(&before, &after);
    assert_eq!(added, vec!["d"]);
    assert_eq!(removed, vec!["b"]);
    assert_eq!(changed, vec!["a"]);
    assert!(repo_changed(&local("/a"), &remote("10.0.0.1")));
    assert!(!repo_changed(&local("/a"), &local("/a")));
}

#[test]
fn a_reload_moves_the_generation_once() {
    let mut r = reloader();
    let before = repos(&[("a", local("/a"))]);
    let after = repos(&[("a", local("/a2")), ("r", remote("10.0.0.2"))]);
    let (result, actions) = r.reload(vec![], &before, &Ok(after.clone()), 77);
    assert!(result.reloaded && result.error.is_none());
    assert_eq!(result.generation, 1);
    assert_eq!((result.added, result.changed), (vec!["r".to_string()], vec!["a".to_string()]));
    assert_eq!(result.finished_at_unix, 77);
    let scopes: Vec<&ReloadAction> =
        actions.iter().filter(|a| matches!(a, ReloadAction::InvalidateScope(_))).collect();
    // Before the switch and after it.
    let scope = ReloadAction::InvalidateScope("a".to_string());
    assert_eq!(scopes, vec![&scope, &scope]);
    let at = |a: ReloadAction| actions.iter().position(|x| *x == a).unwrap();
    assert!(at(ReloadAction::AllowBoth) < at(ReloadAction::StoreRepos));
    assert!(at(ReloadAction::StoreRepos) < at(ReloadAction::AllowNew));

    let (result, _) = r.reload(vec![], &after, &Ok(after.clone()), 78);
    assert!(result.reloaded);
    assert_eq!(result.generation, 1);
    assert!(result.added.is_empty() && result.removed.is_empty() && result.changed.is_empty());
}

#[test]
fn a_failed_reload_keeps_the_generation() {
    let mut r = reloader();
    let before = repos(&[("a", local("/a"))]);
    let (result, actions) = r.reload(vec!["[pool]".to_string()], &before, &Err("сбой".to_string()), 5);
    assert!(!result.reloaded);
    assert_eq!(result.generation, 0);
    assert_eq!(result.error.as_deref(), Some("сбой"));
    assert_eq!(result.restart_required, vec!["[pool]"]);
    assert!(actions.is_empty());
}

#[test]
fn unreadable_files_fail_the_check() {
    let r = reloader();
    assert_eq!((r.serve_path(), r.daemon_path()), ("/cfg/serve.toml", "/cfg/daemon.toml"));
    let good = Ok(settings("10.0.0.1", &[], POOL));
    let bad = r.check(&Err("serve".to_string()), &Ok(vec![]), 1).unwrap_err();
    assert_eq!(bad.error.as_deref(), Some("serve"));
    let bad = r.check(&good, &Err("daemon".to_string()), 1).unwrap_err();
    assert_eq!(bad.error.as_deref(), Some("daemon"));
    assert_eq!(bad.generation, 0);
    assert_eq!(r.check(&good, &Ok(vec![]), 1), Ok(vec![]));
}

#[test]
fn another_own_address_needs_a_restart() {
    let bad = reloader().check(&Ok(settings("10.0.0.9", &[], POOL)), &Ok(vec![]), 1).unwrap_err();
    assert_eq!(bad.restart_required, vec!["[me].ip"]);
    assert!(!bad.reloaded);
    let padded = Ok(settings(" 10.0.0.1 ", &[], POOL));
    assert!(reloader().check(&padded, &Ok(vec![]), 1).is_ok());
}

#[test]
fn a_local_alias_needs_its_pair() {
    let s = settings("10.0.0.1", &[("a", "10.0.0.1"), ("r", "10.0.0.2")], POOL);
    assert_eq!(missing_aliases(&s, &vec![]), vec!["a"]);
    let bad = reloader().check(&Ok(s.clone()), &Ok(vec![]), 1).unwrap_err();
    assert!(bad.error.unwrap().contains("a"));
    assert_eq!(reloader().check(&Ok(s), &Ok(vec!["a".to_string()]), 1), Ok(vec![]));
}

#[test]
fn another_pool_is_reported() {
    let other = PoolConfig { max_size: 5, ..POOL };
    assert!(pool_differs(other, POOL) && !pool_differs(POOL, POOL));
    let s = Ok(settings("10.0.0.1", &[], other));
    assert_eq!(reloader().check(&s, &Ok(vec![]), 1), Ok(vec!["[pool]".to_string()]));
}

#[test]
fn a_repository_is_resolved_if_it_is_local() {
    let all = repos(&[("a", local("/a")), ("r", remote("10.0.0.2"))]);
    assert!(matches!(resolve_local(&all, "a"), Ok(0)));
    assert!(matches!(resolve_local(&all, "zz"), Err(LocalFault::Unknown)));
    match resolve_local(&all, "r") {
        Err(LocalFault::Diverged { ip, message }) => {
            assert_eq!(ip, "10.0.0.2");
            assert!(message.contains("'r'") && message.ends_with("ip=10.0.0.2"));
        }
        _ => panic!("the configurations differ"),
    }
}

#[test]
fn statistics_of_one_or_of_all_local_repositories() {
    let all = repos(&[("a", local("/a")), ("r", remote("10.0.0.2")), ("z", local("/z"))]);
    assert!(matches!(handle_get_stats(&all, Some("z")), StatsRoute::Local(2)));
    assert!(matches!(handle_get_stats(&all, Some("r")), StatsRoute::Diverged { .. }));
    match handle_get_stats(&all, Some("none")) {
        StatsRoute::Unknown(message) => {
            assert!(message.contains("none") && message.contains("\"a\""));
        }
        _ => panic!("the repository is unknown"),
    }
    match handle_get_stats(&all, None) {
        StatsRoute::All(places) => assert_eq!(places, vec![0, 2]),
        _ => panic!("all are asked for"),
    }
}

#[test]
fn a_summary_holds_a_body_for_each_repository() {
    let bodies = vec![
        ("a".to_string(), "{\"files\":1}".to_string()),
        ("b".to_string(), "not json".to_string()),
    ];
    let pretty: serde_json::Value = serde_json::from_str(&stats_body(&bodies)).unwrap();
    let plain: serde_json::Value =
        serde_json::from_str(&stats_summary(&bodies).text().unwrap()).unwrap();
    assert_eq!(pretty, plain);
    assert!(stats_body(&bodies).contains('\n'));
    assert!(plain.to_string().contains("\"files\":1"));
}

#[test]
fn twelve_tools_answer_forwarded_calls() {
    let tools = [
        "search_function",
        "search_class",
        "get_function",
        "get_class",
        "get_callers",
        "get_callees",
        "find_symbol",
        "get_imports",
        "get_file_summary",
        "get_stats",
        "search_text",
        "grep_body",
    ];
    assert!(tools.iter().all(|t| is_forwarded(t)));
    assert!(!is_forwarded("read_file") && !is_forwarded(""));
}

#[test]
fn adds_remote_alias_for_existing_server_clone_and_whitelist() {
    let mut r = reloader();
    let before = repos(&[("old", remote("192.0.2.10"))]);
    let after = repos(&[("new", remote("192.0.2.20")), ("old", remote("192.0.2.10"))]);
    let (result, actions) = r.reload(vec![], &before, &Ok(after), 1);
    assert!(result.reloaded);
    assert_eq!(result.added, vec!["new"]);
    assert!(actions.contains(&ReloadAction::StoreRepos) && actions.contains(&ReloadAction::AllowNew));
}

#[test]
fn missing_local_pair_preserves_repos_and_whitelist() {
    let s = settings("10.0.0.1", &[("old", "192.0.2.10"), ("local", "10.0.0.1")], POOL);
    let result = reloader().check(&Ok(s), &Ok(vec![]), 1).unwrap_err();
    assert!(!result.reloaded);
    assert!(result.error.unwrap().contains("local"));
}

#[test]
fn me_ip_change_requires_restart_and_preserves_state() {
    let result =
        reloader().check(&Ok(settings("127.0.0.2", &[], POOL)), &Ok(vec![]), 1).unwrap_err();
    assert!(!result.reloaded);
    assert_eq!(result.restart_required, vec!["[me].ip"]);
}

#[test]
fn pool_change_is_reported_while_repo_change_is_applied() {
    let mut r = reloader();
    let s = settings("10.0.0.1", &[], PoolConfig { max_size: 9, ..POOL });
    let restart = r.check(&Ok(s), &Ok(vec![]), 1).unwrap();
    let before = repos(&[("old", remote("192.0.2.10"))]);
    let after = repos(&[("new", remote("192.0.2.20")), ("old", remote("192.0.2.10"))]);
    let (result, _) = r.reload(restart, &before, &Ok(after), 1);
    assert!(result.reloaded);
    assert_eq!(result.restart_required, vec!["[pool]"]);
    assert_eq!(result.added, vec!["new"]);
}

#[test]
fn changed_path_invalidates_only_its_cache_scope() {
    let mut cache = ServeCache::new(60, true);
    let args = Json::parse("{}").unwrap();
    let one = ServeCache::key("one", "tool", &args);
    let two = ServeCache::key("two", "tool", &args);
    cache.insert(one.clone(), Arc::new("one".to_string()), "one", &vec![], 0);
    cache.insert(two.clone(), Arc::new("two".to_string()), "two", &vec![], 0);
    let before = repos(&[("one", local("/one")), ("two", local("/two"))]);
    let after = repos(&[("one", local("/one")), ("two", local("/moved"))]);
    let (_, actions) = reloader().reload(vec![], &before, &Ok(after), 1);
    for action in actions {
        if let ReloadAction::InvalidateScope(scope) = action {
            cache.invalidate_scope(&scope);
        }
    }
    assert!(cache.get(&two, 1).is_none());
    assert!(cache.get(&one, 1).is_some());
}

#[test]
fn unchanged_reload_does_not_advance_generation() {
    let same = repos(&[("old", remote("192.0.2.10"))]);
    let (result, _) = reloader().reload(vec![], &same, &Ok(same.clone()), 1);
    assert!(result.reloaded);
    assert_eq!(result.generation, 0);
    assert!(result.added.is_empty() && result.removed.is_empty() && result.changed.is_empty());
}

#[test]
fn one_reload_after_another_moves_the_generation_once() {
    let mut r = reloader();
    let before = repos(&[("old", remote("192.0.2.10"))]);
    let after = repos(&[("new", remote("192.0.2.20")), ("old", remote("192.0.2.10"))]);
    let (first, _) = r.reload(vec![], &before, &Ok(after.clone()), 1);
    let (second, _) = r.reload(vec![], &after, &Ok(after.clone()), 2);
    assert!(first.reloaded && second.reloaded);
    assert_eq!((first.generation, second.generation), (1, 1));
}

#[test]
fn differences_are_in_order_and_turn_round() {
    let before = repos(&[("a", local("/a")), ("b", local("/b")), ("d", local("/d")), ("e", local("/e"))]);
    let after = repos(&[("b", local("/b2")), ("c", local("/c")), ("e", remote("10.0.0.2")), ("f", local("/f"))]);
    let (added, removed, changed) = diff_repos(&before, &after);
    assert_eq!(added, vec!["c", "f"]);
    assert_eq!(removed, vec!["a", "d"]);
    assert_eq!(changed, vec!["b", "e"]);
    assert_eq!(diff_repos(&after, &before), (removed, added, changed));
    let none: Vec<String> = Vec::new();
    assert_eq!(diff_repos(&before, &before), (none.clone(), none.clone(), none));
}
