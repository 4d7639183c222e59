use code_index::indexer::config::{
    built_or_empty, default_batch_size, default_bulk_threshold, default_languages,
    default_max_code_file_size, default_max_file_size, default_storage_mode, excludes_file,
    IndexConfig,
};

#[test]
fn test_default_config() {
    let cfg = IndexConfig::default();
    assert_eq!(cfg.max_file_size, 1_048_576);
    assert_eq!(cfg.max_files, 0);
    assert!(cfg.exclude_dirs.is_empty());
    assert!(cfg.extra_text_extensions.is_empty());
}

#[test]
fn defaults_are_those_of_the_fields() {
    let cfg = IndexConfig::default();
    assert_eq!(cfg.max_file_size, default_max_file_size());
    assert_eq!(cfg.max_code_file_size_bytes, default_max_code_file_size());
    assert_eq!(cfg.batch_size, default_batch_size());
    assert_eq!(cfg.bulk_threshold, default_bulk_threshold());
    assert_eq!(cfg.storage_mode, default_storage_mode());
    assert_eq!(cfg.languages, default_languages());
    assert_eq!(cfg.repo_language, None);
}

#[test]
fn test_is_excluded_dir_standard() {
    let cfg = IndexConfig::default();
    assert!(cfg.is_excluded_dir("node_modules"));
    assert!(cfg.is_excluded_dir(".git"));
    assert!(cfg.is_excluded_dir("target"));
    assert!(!cfg.is_excluded_dir("src"));
}

#[test]
fn test_is_excluded_dir_custom() {
    let cfg = IndexConfig {
        exclude_dirs: vec!["vendor".to_string(), "tmp".to_string()],
        ..Default::default()
    };
    assert!(cfg.is_excluded_dir("vendor"));
    assert!(cfg.is_excluded_dir("tmp"));
    assert!(cfg.is_excluded_dir("node_modules"));
    assert!(!cfg.is_excluded_dir("src"));
}

#[test]
fn file_patterns_exclude_by_name() {
    let cfg = IndexConfig {
        exclude_file_patterns: vec!["*.min.js".to_string(), "lock?.json".to_string()],
        ..Default::default()
    };
    let set = cfg.build_file_exclude_matcher();
    assert!(excludes_file(&set, "app.min.js"));
    assert!(excludes_file(&set, "lock1.json"));
    assert!(!excludes_file(&set, "app.js"));
    assert!(!excludes_file(&set, "lock.json"));
}

#[test]
fn a_bad_pattern_is_passed_over() {
    let cfg = IndexConfig {
        exclude_file_patterns: vec!["[".to_string(), "*.tmp".to_string()],
        ..Default::default()
    };
    let set = cfg.build_file_exclude_matcher();
    assert!(excludes_file(&set, "a.tmp"));
    assert!(!excludes_file(&set, "["));
}

#[test]
fn no_set_excludes_nothing() {
    let set = built_or_empty(None);
    assert!(!excludes_file(&set, "a.tmp"));
    let none = IndexConfig::default().build_file_exclude_matcher();
    assert!(!excludes_file(&none, "a.tmp"));
}

#[test]
fn simple_patterns_are_names_and_endings() {
    let cfg = IndexConfig {
        exclude_file_patterns: vec![
            "package-lock.json".to_string(),
            "*.log".to_string(),
            "*.min.js".to_string(),
            "*_test".to_string(),
            ".env".to_string(),
        ],
        ..IndexConfig::default()
    };
    let set = cfg.build_file_exclude_matcher();
    for name in ["package-lock.json", "a.log", ".log", "a.b.log", "x.min.js", ".min.js", "a_test", "_test", ".env"] {
        assert!(excludes_file(&set, name), "{name}");
    }
    for name in ["", "..", ".", "my-package-lock.json", "log", "a.logs", "a.js", "a_tests", "a.env", "a.log/"] {
        assert!(!excludes_file(&set, name), "{name}");
    }
}

#[test]
fn stars_stand_for_any_characters() {
    let cfg = IndexConfig {
        exclude_file_patterns: vec!["*.tmp.*".to_string(), "gen_*_v*".to_string()],
        ..Default::default()
    };
    let set = cfg.build_file_exclude_matcher();
    assert!(excludes_file(&set, "a.tmp.txt"));
    assert!(excludes_file(&set, ".tmp."));
    assert!(excludes_file(&set, "отчёт.tmp.хвост"));
    assert!(!excludes_file(&set, "a.tmp"));
    assert!(excludes_file(&set, "gen_a_v"));
    assert!(excludes_file(&set, "gen__vb_v2"));
    assert!(!excludes_file(&set, "gen_a"));
    assert!(!excludes_file(&set, "xgen_a_v"));
}

#[test]
fn a_thousand_characters_of_patterns_are_not_too_many() {
    let mut patterns: Vec<String> = Vec::new();
    for i in 0..250 {
        patterns.push(format!("{}*{}*", i % 10, i / 26));
    }
    patterns.truncate(200);
    let cfg = IndexConfig { exclude_file_patterns: patterns, ..Default::default() };
    let set = cfg.build_file_exclude_matcher();
    assert!(excludes_file(&set, "5a3b"));
    assert!(!excludes_file(&set, "a5a3b"));

    let pattern = "a*".repeat(500);
    let cfg = IndexConfig { exclude_file_patterns: vec![pattern], ..Default::default() };
    let set = cfg.build_file_exclude_matcher();
    assert!(excludes_file(&set, &"ab".repeat(500)));
    assert!(!excludes_file(&set, &"ab".repeat(499)));
}

#[test]
fn what_is_well_formed_is_gathered() {
    let cfg = IndexConfig {
        exclude_file_patterns: vec!["[".to_string(), "*.tmp.*".to_string(), "a?.{js,ts}".to_string()],
        ..Default::default()
    };
    assert_eq!(cfg.gather_file_patterns().build().unwrap().len(), 2);
    let set = cfg.build_file_exclude_matcher();
    assert!(excludes_file(&set, "x.tmp.y"));
    assert!(excludes_file(&set, "a1.ts"));
    assert!(!excludes_file(&set, "["));
}
