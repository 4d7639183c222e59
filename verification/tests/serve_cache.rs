use code_index::json::Json;
use code_index::serve_cache::ServeCache;
use std::sync::Arc;

fn js(text: &str) -> Json {
    Json::parse(text).unwrap()
}

fn none() -> Vec<String> {
    vec![]
}

fn one(path: &str) -> Vec<String> {
    vec![path.to_string()]
}

fn payload(text: &str) -> Arc<String> {
    Arc::new(text.to_string())
}

#[test]
fn key_is_stable_regardless_of_arg_order() {
    let a = js(r#"{"repo": "ut", "name": "X", "language": "bsl"}"#);
    let b = js(r#"{"language": "bsl", "name": "X", "repo": "ut"}"#);
    assert_eq!(ServeCache::key("ut", "get_function", &a), ServeCache::key("ut", "get_function", &b));
}

#[test]
fn key_excludes_repo_from_hash_but_keeps_scope_prefix() {
    let args = js(r#"{"repo": "ut", "name": "X"}"#);
    let k_ut = ServeCache::key("ut", "get_function", &args);
    let k_bp = ServeCache::key("bp", "get_function", &js(r#"{"repo": "bp", "name": "X"}"#));
    assert!(k_ut.starts_with("ut|get_function|"));
    assert!(k_bp.starts_with("bp|get_function|"));
    let tail_ut = k_ut.rsplit('|').next().unwrap();
    let tail_bp = k_bp.rsplit('|').next().unwrap();
    assert_eq!(tail_ut, tail_bp);
}

#[test]
fn get_insert_roundtrip() {
    let mut c = ServeCache::new(60, true);
    let key = ServeCache::key("ut", "get_function", &js(r#"{"name": "X"}"#));
    assert!(c.get(&key, 0).is_none());
    c.insert(key.clone(), payload("payload"), "ut", &none(), 0);
    assert_eq!(c.get(&key, 0).as_deref().map(String::as_str), Some("payload"));
}

#[test]
fn depless_entry_expires_by_its_own_ttl() {
    let mut c = ServeCache::new(3600, true);
    let short = ServeCache::key("ut", "grep_code", &js(r#"{"regex": "нет-такого"}"#));
    c.insert_with_ttl(
        short.clone(),
        payload("{\"result\":{\"files\":{}}}"),
        "ut",
        &none(),
        40,
        1_000,
    );
    assert!(c.get(&short, 1_000).is_some(), "сразу после вставки — попадание");
    assert!(
        c.get(&short, 1_090).is_none(),
        "после своего короткого срока запись перестаёт отдаваться"
    );

    let long = ServeCache::key("ut", "get_function", &js(r#"{"name": "X"}"#));
    c.insert(long.clone(), payload("{}"), "ut", &one("src/X.bsl"), 1_090);
    assert!(c.get(&long, 1_180).is_some(), "базовый срок не истёк");
    assert_eq!(c.invalidate_files("ut", &one("src/X.bsl")), 1);
    assert!(c.get(&long, 1_180).is_none(), "вытеснена точечной инвалидацией");
}

#[test]
fn invalidate_scope_drops_only_that_repo() {
    let mut c = ServeCache::new(60, true);
    let k_ut = ServeCache::key("ut", "grep_code", &js(r#"{"q": "x"}"#));
    let k_bp = ServeCache::key("bp", "grep_code", &js(r#"{"q": "x"}"#));
    c.insert(k_ut.clone(), payload("a"), "ut", &none(), 0);
    c.insert(k_bp.clone(), payload("b"), "bp", &none(), 0);
    assert_eq!(c.invalidate_scope("ut"), 1);
    assert!(c.get(&k_ut, 0).is_none());
    assert!(c.get(&k_bp, 0).is_some());
}

#[test]
fn dirty_marks_and_per_file_invalidation() {
    let mut c = ServeCache::new(60, true);
    c.mark_dirty("ut", &vec![("src/X.bsl".to_string(), 200)], 0);
    // The index is behind what was observed.
    assert!(c.is_path_stale("ut", "src/X.bsl", 100, 0));
    // The index has caught up.
    assert!(!c.is_path_stale("ut", "src/X.bsl", 200, 0));
    // Another file, another repository.
    assert!(!c.is_path_stale("ut", "src/Y.bsl", 1, 0));
    assert!(!c.is_path_stale("bp", "src/X.bsl", 1, 0));

    let k_x = ServeCache::key("ut", "get_function", &js(r#"{"name": "x"}"#));
    let k_y = ServeCache::key("ut", "get_function", &js(r#"{"name": "y"}"#));
    c.insert(k_x.clone(), payload("a"), "ut", &one("src/X.bsl"), 0);
    c.insert(k_y.clone(), payload("b"), "ut", &one("src/Y.bsl"), 0);
    assert_eq!(c.invalidate_files("ut", &one("src/X.bsl")), 1);
    assert!(c.get(&k_x, 0).is_none());
    assert!(c.get(&k_y, 0).is_some());
    assert!(!c.is_path_stale("ut", "src/X.bsl", 100, 0));
}

#[test]
fn an_expired_entry_frees_its_memory() {
    // A life of zero is one second.
    let mut c = ServeCache::new(0, true);
    let key = ServeCache::key("ut", "t", &js(r#"{"a": 1}"#));
    c.insert(key.clone(), payload("x"), "ut", &one("src/X.bsl"), 0);
    assert_eq!(c.stats().0, 1);
    assert!(c.get(&key, 1_100).is_none(), "истёкшая запись не должна отдаваться");
    assert_eq!(c.stats().0, 0, "истёкшая запись должна уйти из памяти");
}

#[test]
fn a_sweep_clears_the_reverse_index() {
    let mut c = ServeCache::new(0, true);
    let key = ServeCache::key("ut", "t", &js(r#"{"a": 1}"#));
    c.insert(key, payload("x"), "ut", &one("src/X.bsl"), 0);
    assert_eq!(c.tracked_files(), 1);
    c.sweep(1_100);
    assert_eq!(c.stats().0, 0);
    assert_eq!(c.tracked_files(), 0, "ссылки на снесённые ключи должны уйти");
}

#[test]
fn the_generation_grows_with_every_signal_of_the_daemon() {
    let mut c = ServeCache::new(60, true);
    let e0 = c.epoch("ut");
    c.mark_dirty("ut", &vec![("src/X.bsl".to_string(), 100)], 0);
    let e1 = c.epoch("ut");
    assert!(e1 > e0, "mark_dirty обязан двигать поколение");
    c.invalidate_files("ut", &one("src/X.bsl"));
    let e2 = c.epoch("ut");
    assert!(e2 > e1, "точечная инвалидация обязана двигать поколение");
    c.invalidate_scope("ut");
    assert!(c.epoch("ut") > e2, "сброс репо обязан двигать поколение");
    let bp_before = c.epoch("bp");
    assert_eq!(bp_before, 0);
    c.invalidate_all();
    assert!(c.epoch("bp") > bp_before);
}

#[test]
fn dropping_a_repository_takes_back_its_dirty_marks() {
    let mut cache = ServeCache::new(60, true);
    cache.mark_dirty("repo1", &vec![("a.bsl".to_string(), 200)], 0);
    cache.mark_dirty("repo2", &vec![("b.bsl".to_string(), 200)], 0);
    assert_eq!(cache.dirty_count(), 2);
    assert!(cache.is_path_stale("repo1", "a.bsl", 100, 0), "пометка стоит");

    cache.invalidate_scope("repo1");

    assert!(
        !cache.is_path_stale("repo1", "a.bsl", 100, 0),
        "после сброса репо пометка снята"
    );
    assert!(
        cache.is_path_stale("repo2", "b.bsl", 100, 0),
        "чужой репозиторий не затронут"
    );
    assert_eq!(cache.dirty_count(), 1, "снята ровно одна пометка");
}

#[test]
fn disabled_cache_is_noop() {
    let mut c = ServeCache::new(60, false);
    assert!(!c.enabled());
    let key = ServeCache::key("ut", "t", &js("{}"));
    c.insert(key.clone(), payload("x"), "ut", &none(), 0);
    assert!(c.get(&key, 0).is_none());
}

#[test]
fn hits_and_misses_are_counted() {
    let mut c = ServeCache::new(60, true);
    c.insert("ut|t|1".to_string(), payload("x"), "ut", &none(), 0);
    c.get("ut|t|1", 10);
    c.get("ut|t|1", 20);
    c.get("ut|t|2", 30);
    let (entries, hits, misses, _) = c.stats();
    assert_eq!((entries, hits, misses), (1, 2, 1));
}

#[test]
fn dropping_all_empties_the_cache() {
    let mut c = ServeCache::new(60, true);
    c.insert("ut|t|1".to_string(), payload("x"), "ut", &one("a"), 0);
    c.insert("bp|t|1".to_string(), payload("y"), "bp", &one("b"), 0);
    assert_eq!(c.invalidate_all(), 2);
    assert_eq!(c.stats().0, 0);
    assert_eq!(c.tracked_files(), 0);
}

#[test]
fn the_key_is_a_digest_of_the_arguments() {
    let a = ServeCache::key("ut", "t", &js(r#"{"name": "X"}"#));
    let b = ServeCache::key("ut", "t", &js(r#"{"name": "Y"}"#));
    assert_ne!(a, b);
    let tail = a.rsplit('|').next().unwrap();
    assert!(tail.len() >= 16 && tail.chars().all(|c| c.is_ascii_hexdigit()));
}

#[test]
fn the_digest_of_a_key_has_sixty_four_lower_case_digits() {
    let args = js(r#"{"name": "X", "repo": "ut", "list": [1, 2]}"#);
    let key = ServeCache::key("ut", "get_function", &args);
    assert_eq!(key.len(), "ut".len() + "get_function".len() + 66);
    let tail = key.rsplit('|').next().unwrap();
    assert_eq!(tail.len(), 64);
    assert!(tail.chars().all(|c| c.is_ascii_digit() || ('a'..='f').contains(&c)));
    let other = ServeCache::key("another", "tool", &args);
    assert_eq!(other.rsplit('|').next().unwrap(), tail);
    let swapped = js(r#"{"name": "X", "repo": "ut", "list": [2, 1]}"#);
    assert_ne!(ServeCache::key("ut", "get_function", &swapped), key);
    let nested = js(r#"{"name": "X", "list": [1, 2], "in": {"repo": "ut"}}"#);
    let bare = js(r#"{"name": "X", "list": [1, 2], "in": {}}"#);
    assert_ne!(ServeCache::key("ut", "t", &nested), ServeCache::key("ut", "t", &bare));
}

#[test]
fn a_response_outlasts_other_calls() {
    let mut c = ServeCache::new(60, true);
    let file = vec!["a.rs".to_string()];
    c.insert_with_ttl("ut|t|1".to_string(), payload("old"), "ut", &file, 5, 0);
    c.insert_with_ttl("ut|t|1".to_string(), payload("new"), "ut", &file, 1000, 10);
    c.insert("ut|t|2".to_string(), payload("free"), "ut", &none(), 20);
    c.insert("bp|t|1".to_string(), payload("other"), "bp", &file, 20);
    c.invalidate_scope("bp");
    c.invalidate_files("bp", &file);
    c.sweep(500);
    assert_eq!(c.get("ut|t|1", 1009).as_deref().map(String::as_str), Some("new"));
    assert!(c.get("bp|t|1", 600).is_none());
    assert_eq!(c.invalidate_files("ut", &file), 1);
    assert!(c.get("ut|t|1", 600).is_none());
    assert_eq!(c.get("ut|t|2", 600).as_deref().map(String::as_str), Some("free"));
    assert_eq!(c.stats(), (1, 2, 2, 2));
    assert!(c.get("ut|t|2", 60_020).is_none());
}
