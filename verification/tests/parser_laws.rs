use code_index::parser::bsl::{bsl_result, BslParser};
use code_index::parser::c::{c_result, CParser};
use code_index::parser::c_sharp::{csharp_result, CSharpParser};
use code_index::parser::cpp::CppParser;
use code_index::parser::php::{php_result, PhpParser};
use code_index::parser::ruby::{ruby_result, RubyParser};
use code_index::parser::swift::{swift_result, SwiftParser};
use code_index::parser::types::{empty_parse_result, looks_binary, sha256_hex, ParseResult};

fn tree(language: tree_sitter::Language, source: &str) -> Option<tree_sitter::Tree> {
    let mut parser = tree_sitter::Parser::new();
    parser.set_language(&language).unwrap();
    parser.parse(source, None)
}

fn function_names(result: &ParseResult) -> Vec<&str> {
    result.functions.iter().map(|f| f.name.as_str()).collect()
}

#[test]
fn a_tree_gives_the_facts_of_a_file() {
    let source = "int add(int a, int b) {\n    return a + b;\n}\n";
    let c = c_result(Ok(tree(tree_sitter_c::LANGUAGE.into(), source)), source, false).unwrap();
    assert_eq!(function_names(&c), vec!["add"]);
    assert_eq!(c.lines_total, 3);
    assert_eq!((c.functions[0].line_start, c.functions[0].line_end), (1, 3));

    let source = "class A { void Run() { Log(); } }";
    let tree_cs = tree(tree_sitter_c_sharp::LANGUAGE.into(), source);
    let cs = csharp_result(Ok(tree_cs), source).unwrap();
    assert_eq!(function_names(&cs), vec!["Run"]);
    assert_eq!(cs.functions[0].qualified_name.as_deref(), Some("A.Run"));

    let source = "<?php function go() { return 1; }";
    let php = php_result(Ok(tree(tree_sitter_php::LANGUAGE_PHP.into(), source)), source).unwrap();
    assert_eq!(function_names(&php), vec!["go"]);

    let source = "def run\n  prepare(1)\nend\n";
    let ruby = ruby_result(Ok(tree(tree_sitter_ruby::LANGUAGE.into(), source)), source).unwrap();
    assert_eq!(function_names(&ruby), vec!["run"]);
    assert_eq!(ruby.calls[0].caller, "run");

    let source = "func go() -> Int { return 1 }";
    let swift = swift_result(Ok(tree(tree_sitter_swift::LANGUAGE.into(), source)), source).unwrap();
    assert_eq!(function_names(&swift), vec!["go"]);

    let source = "Процедура Старт()\nКонецПроцедуры\n";
    let bsl = bsl_result(Ok(tree(tree_sitter_onescript::LANGUAGE.into(), source)), source).unwrap();
    assert_eq!(function_names(&bsl), vec!["Старт"]);
}

fn is_empty(result: &ParseResult) -> bool {
    result.functions.is_empty()
        && result.classes.is_empty()
        && result.imports.is_empty()
        && result.calls.is_empty()
        && result.variables.is_empty()
}

#[test]
fn a_file_that_runs_over_the_time_stays_without_facts() {
    let source = "int x;\nint y;";
    let results = [
        c_result(Ok(None), source, true),
        csharp_result(Ok(None), source),
        php_result(Ok(None), source),
        ruby_result(Ok(None), source),
        swift_result(Ok(None), source),
        bsl_result(Ok(None), source),
    ];
    for r in results {
        let result = r.unwrap();
        assert!(is_empty(&result));
        assert_eq!(result.lines_total, 2);
    }
}

#[test]
fn a_binary_file_stays_without_facts() {
    let binary = "int add(int a) { return a; }\n\0class A { void Run() {} }\ndef run\nend\n";
    let results = [
        CParser::new().parse(binary, "a.c"),
        CppParser::new().parse(binary, "a.cpp"),
        CSharpParser::new().parse(binary, "a.cs"),
        PhpParser::new().parse(binary, "a.php"),
        RubyParser::new().parse(binary, "a.rb"),
        SwiftParser::new().parse(binary, "a.swift"),
        BslParser::new().parse(binary, "a.bsl"),
    ];
    for r in results {
        let result = r.unwrap();
        assert!(is_empty(&result));
        assert_eq!(result.lines_total, 4);
    }
}

#[test]
fn a_chain_of_calls_is_recorded_by_names() {
    let source = "class A { void Run() { db.Open(path).Query<int>(\"x\").First(); handlers[0](); } }";
    let result = CSharpParser::new().parse(source, "a.cs").unwrap();
    let mut names: Vec<&str> = result.calls.iter().map(|c| c.callee.as_str()).collect();
    names.sort();
    assert!(names.contains(&"First") && names.contains(&"Open"), "{names:?}");
    for name in names {
        assert!(name.chars().all(|c| c.is_alphanumeric() || c == '_'), "{name}");
    }
}

#[test]
fn files_brought_in_are_no_calls() {
    let source = "require 'set'\nrequire_relative 'a'\nLIMIT = 5\ndef go\n  local = 1\n  load('b.rb')\n  run(2)\nend\n";
    let result = RubyParser::new().parse(source, "a.rb").unwrap();
    let kinds: Vec<&str> = result.imports.iter().map(|i| i.kind.as_str()).collect();
    assert_eq!(kinds, vec!["require", "require_relative", "load"]);
    let callees: Vec<&str> = result.calls.iter().map(|c| c.callee.as_str()).collect();
    assert_eq!(callees, vec!["run"]);
    let variables: Vec<&str> = result.variables.iter().map(|v| v.name.as_str()).collect();
    assert_eq!(variables, vec!["LIMIT"]);
}

#[test]
fn a_module_has_no_classes_and_no_imports() {
    let source = "Перем Счётчик;\nПроцедура Старт() Экспорт\n    Сообщить(1);\nКонецПроцедуры\n";
    let result = BslParser::new().parse(source, "a.bsl").unwrap();
    assert!(result.classes.is_empty() && result.imports.is_empty());
    assert_eq!(function_names(&result), vec!["Старт"]);
    assert_eq!(result.calls[0].callee, "Сообщить");
}

#[test]
fn line_numbers_are_those_of_the_file() {
    let source = "let a = 1\n\nfunc one() -> Int {\n    return 1\n}\nfunc two() -> Int { return 2 }\n";
    let lines = |text: &str| -> Vec<(usize, usize)> {
        let result = SwiftParser::new().parse(text, "a.swift").unwrap();
        result.functions.iter().map(|f| (f.line_start, f.line_end)).collect()
    };
    assert_eq!(lines(source), vec![(3, 5), (6, 6)]);
    assert_eq!(lines(&source.replace('\n', "\r\n")), vec![(3, 5), (6, 6)]);
    let total = |text: &str| SwiftParser::new().parse(text, "a.swift").unwrap().lines_total;
    assert_eq!((total(source), total(&source.replace('\n', "\r\n"))), (6, 6));
}

#[test]
fn a_zero_byte_at_the_start_tells_binary_data() {
    assert!(looks_binary("a\0b"));
    assert!(!looks_binary("текст"));
    assert!(looks_binary(&format!("{}\0", "a".repeat(8191))));
    assert!(!looks_binary(&format!("{}\0", "a".repeat(8192))));
}

#[test]
fn a_skipped_file_has_only_its_lines() {
    let result = empty_parse_result("раз\nдва\nтри");
    assert_eq!(result.lines_total, 3);
    assert!(result.functions.is_empty() && result.calls.is_empty());
    assert_eq!(empty_parse_result("").lines_total, 0);
    assert_eq!(empty_parse_result("a\n").lines_total, 1);
}

#[test]
fn digests_are_written_in_hexadecimal() {
    assert_eq!(
        sha256_hex("abc"),
        "ba7816bf8f01cfea414140de5dae2223b00361a396177a9cb410ff61f20015ad"
    );
}

#[test]
fn an_empty_text_has_no_facts() {
    let languages: [tree_sitter::Language; 7] = [
        tree_sitter_c::LANGUAGE.into(),
        tree_sitter_cpp::LANGUAGE.into(),
        tree_sitter_c_sharp::LANGUAGE.into(),
        tree_sitter_php::LANGUAGE_PHP.into(),
        tree_sitter_ruby::LANGUAGE.into(),
        tree_sitter_swift::LANGUAGE.into(),
        tree_sitter_onescript::LANGUAGE.into(),
    ];
    for language in languages {
        assert_eq!(tree(language, "").unwrap().root_node().child_count(), 0);
    }
    let results = [
        CParser::new().parse("", "a.c"),
        CppParser::new().parse("", "a.cpp"),
        CSharpParser::new().parse("", "a.cs"),
        PhpParser::new().parse("", "a.php"),
        RubyParser::new().parse("", "a.rb"),
        SwiftParser::new().parse("", "a.swift"),
        BslParser::new().parse("", "a.bsl"),
    ];
    for result in results {
        let result = result.unwrap();
        assert_eq!(result.lines_total, 0);
        assert!(result.functions.is_empty() && result.classes.is_empty());
        assert!(result.imports.is_empty() && result.calls.is_empty() && result.variables.is_empty());
    }
}
