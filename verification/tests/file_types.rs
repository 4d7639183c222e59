use code_index::indexer::file_types::{
    categorize_extension, categorize_file, categorize_file_in_repo, is_dual_indexed_language,
    is_excluded_dir, is_size_exempt, matches_extra_text, FileCategory,
};

#[test]
fn test_code_extension() {
    assert_eq!(
        categorize_file("script.py"),
        FileCategory::Code("python".to_string())
    );
}

#[test]
fn test_text_extensions() {
    assert_eq!(categorize_file("readme.md"), FileCategory::Text);
    assert_eq!(categorize_file("config.toml"), FileCategory::Text);
    assert_eq!(categorize_file("data.json"), FileCategory::Text);
    assert_eq!(categorize_file("setup.cfg"), FileCategory::Text);
}

#[test]
fn html_is_code_with_dual_indexing() {
    assert_eq!(
        categorize_file("index.html"),
        FileCategory::Code("html".to_string())
    );
    assert_eq!(
        categorize_file("legacy.htm"),
        FileCategory::Code("html".to_string())
    );
    assert!(is_dual_indexed_language("html"));
    assert!(!is_dual_indexed_language("python"));
}

#[test]
fn multilang_extensions_are_code_with_dual_indexing() {
    for (path, lang) in [
        ("main.c", "c"),
        ("api.h", "c"),
        ("engine.cpp", "cpp"),
        ("engine.hpp", "cpp"),
        ("Service.cs", "csharp"),
        ("worker.rb", "ruby"),
        ("View.swift", "swift"),
    ] {
        assert_eq!(
            categorize_file(path),
            FileCategory::Code(lang.to_string()),
            "{} должен быть code/{}",
            path,
            lang
        );
        assert!(is_dual_indexed_language(lang), "{} — dual-indexed", lang);
    }
    assert_eq!(categorize_file("Main.kt"), FileCategory::Text);
}

#[test]
fn h_header_follows_repo_language() {
    let h = "db/db_impl.h";
    assert_eq!(
        categorize_file_in_repo(h, Some("cpp"), &vec![]),
        FileCategory::Code("cpp".to_string()),
        "в C++-проекте .h — заголовок C++"
    );
    assert_eq!(
        categorize_file_in_repo(h, Some("c"), &vec![]),
        FileCategory::Code("c".to_string()),
        "в C-проекте .h — заголовок C"
    );
    assert_eq!(
        categorize_file_in_repo(h, None, &vec![]),
        FileCategory::Code("c".to_string()),
        "язык репо неизвестен — как раньше, по таблице расширений"
    );
    assert_eq!(
        categorize_file_in_repo("SRC/SERVER.H", Some("cpp"), &vec![]),
        FileCategory::Code("cpp".to_string()),
        "регистр расширения значения не имеет"
    );
}

#[test]
fn extra_text_extensions_of_the_settings_apply() {
    let extra = vec!["log".to_string(), ".conf".to_string(), "TPL".to_string()];

    assert_eq!(
        categorize_file_in_repo("app.log", None, &extra),
        FileCategory::Text
    );
    assert_eq!(
        categorize_file_in_repo("nginx.conf", None, &extra),
        FileCategory::Text
    );
    assert_eq!(
        categorize_file_in_repo("Page.tpl", None, &extra),
        FileCategory::Text
    );
    assert_eq!(
        categorize_file_in_repo("image.png", None, &extra),
        FileCategory::Binary
    );
    assert_eq!(
        categorize_file_in_repo("app.log", None, &vec![]),
        FileCategory::Binary
    );
}

#[test]
fn extra_extensions_do_not_override_code_and_text() {
    let extra = vec!["py".to_string(), "md".to_string()];
    assert_eq!(
        categorize_file_in_repo("script.py", None, &extra),
        FileCategory::Code("python".to_string())
    );
    assert_eq!(
        categorize_file_in_repo("readme.md", None, &extra),
        FileCategory::Text
    );
}

#[test]
fn repo_language_touches_only_h_extension() {
    for (path, lang) in [
        ("main.c", "c"),
        ("engine.cpp", "cpp"),
        ("engine.hpp", "cpp"),
        ("script.py", "python"),
        ("app.rb", "ruby"),
        ("Service.cs", "csharp"),
        ("mod.rs", "rust"),
    ] {
        assert_eq!(
            categorize_file_in_repo(path, Some("cpp"), &vec![]),
            FileCategory::Code(lang.to_string()),
            "{} не должен зависеть от языка репозитория",
            path
        );
    }
    assert_eq!(
        categorize_file_in_repo("readme.md", Some("cpp"), &vec![]),
        FileCategory::Text
    );
    assert_eq!(
        categorize_file_in_repo("image.png", Some("cpp"), &vec![]),
        FileCategory::Binary
    );
}

#[test]
fn test_binary_extension() {
    assert_eq!(categorize_file("image.png"), FileCategory::Binary);
    assert_eq!(categorize_file("archive.zip"), FileCategory::Binary);
    assert_eq!(categorize_file("lib.so"), FileCategory::Binary);
}

#[test]
fn test_no_extension() {
    assert_eq!(categorize_file("Makefile"), FileCategory::Binary);
}

#[test]
fn config_dump_info_skipped_by_name() {
    assert_eq!(
        categorize_file("extensions/ent_Наборы/ConfigDumpInfo.xml"),
        FileCategory::Binary
    );
    assert_eq!(
        categorize_file("base/ConfigDumpInfo.xml"),
        FileCategory::Binary
    );
    assert_eq!(
        categorize_file("base/Catalogs/Контрагенты.xml"),
        FileCategory::Text
    );
}

#[test]
fn test_case_insensitive() {
    assert_eq!(
        categorize_file("script.PY"),
        FileCategory::Code("python".to_string())
    );
    assert_eq!(categorize_file("README.MD"), FileCategory::Text);
}

#[test]
fn test_excluded_dirs() {
    assert!(is_excluded_dir("node_modules"));
    assert!(is_excluded_dir(".git"));
    assert!(is_excluded_dir("target"));
    assert!(is_excluded_dir("__pycache__"));
    assert!(!is_excluded_dir("src"));
    assert!(!is_excluded_dir("my_project"));
}

#[test]
fn an_extension_alone_decides_the_category() {
    assert_eq!(categorize_extension("rs"), FileCategory::Code("rust".to_string()));
    assert_eq!(categorize_extension("yaml"), FileCategory::Text);
    assert_eq!(categorize_extension("exe"), FileCategory::Binary);
    assert_eq!(categorize_extension(""), FileCategory::Binary);
}

#[test]
fn a_leading_dot_and_case_do_not_matter_in_settings() {
    let extra = vec![".CONF".to_string(), "".to_string()];
    assert!(matches_extra_text("conf/nginx.conf", &extra));
    assert!(!matches_extra_text("conf/nginx", &extra));
    assert!(!matches_extra_text("conf/nginx.ini", &extra));
}

#[test]
fn tables_of_contents_are_free_of_the_size_limit() {
    for name in ["Configuration.xml", "Rights.xml", "Form.xml", "Configuration.mdo", "Rights.rights", "Form.form"] {
        assert!(is_size_exempt(&format!("base/{}", name)), "{}", name);
    }
    assert!(!is_size_exempt("base/form.xml"));
    assert!(!is_size_exempt("base/Form.xml/data.json"));
    assert!(!is_size_exempt(""));
}

#[test]
fn the_case_of_any_alphabet_does_not_matter_in_settings() {
    assert!(matches_extra_text("a.ЛОГ", &vec!["ЛОГ".to_string()]));
    assert!(matches_extra_text("a.лог", &vec![".ЛОГ".to_string()]));
    assert!(matches_extra_text("a.ЛОГ", &vec!["лог".to_string()]));
    assert!(!matches_extra_text("a.ЛОГИ", &vec!["лог".to_string()]));
}

#[test]
fn white_space_of_any_alphabet_is_taken_off_settings() {
    for space in ["\u{85}", "\u{a0}", "\u{1680}", "\u{2003}", "\u{2028}", "\u{202f}", "\u{3000}", "\t"] {
        assert!(matches_extra_text("a.log", &vec![format!("{}log{}", space, space)]), "{:?}", space);
    }
    assert!(!matches_extra_text("a.log", &vec!["\u{200b}log".to_string()]));
}
