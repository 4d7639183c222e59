use code_index::parser::heredocs::heredocs_have_room;
use code_index::parser::ruby::RubyParser;

#[test]
fn ruby_test_parse_class_with_methods() {
    let parser = RubyParser::new();
    let source = r#"
# Сервис заказов.
class OrderService < BaseService
  def initialize(repo)
    @repo = repo
  end

  def self.build
    new(Repo.new)
  end
end
"#;
    let result = parser.parse(source, "test.rb").unwrap();
    assert_eq!(result.classes.len(), 1);
    assert_eq!(result.classes[0].name, "OrderService");
    assert!(result.classes[0].docstring.is_some());
    assert!(result.classes[0]
        .bases
        .as_deref()
        .unwrap()
        .contains("BaseService"));

    assert!(result
        .functions
        .iter()
        .any(|f| f.qualified_name.as_deref() == Some("OrderService#initialize")));
    assert!(result
        .functions
        .iter()
        .any(|f| f.qualified_name.as_deref() == Some("OrderService.build")));
}

#[test]
fn test_parse_module_and_calls() {
    let parser = RubyParser::new();
    let source = r#"
module Utils
  def self.run
    prepare()
    bare_call
    puts "done"
  end
end

Utils.run
"#;
    let result = parser.parse(source, "test.rb").unwrap();
    assert!(result.classes.iter().any(|c| c.name == "Utils"));
    assert!(result
        .calls
        .iter()
        .any(|c| c.callee == "prepare" && c.caller == "run"));
    assert!(result.calls.iter().any(|c| c.callee == "puts"));
    // A call without brackets, receiver and arguments cannot be told from reading a
    // variable, so it is not recorded.
    assert!(!result.calls.iter().any(|c| c.callee == "bare_call"));
    assert!(result
        .calls
        .iter()
        .any(|c| c.callee == "run" && c.caller == "<module>"));
}

#[test]
fn test_parse_requires() {
    let parser = RubyParser::new();
    let source = r#"
require 'json'
require_relative "../lib/helper"
"#;
    let result = parser.parse(source, "test.rb").unwrap();
    assert!(result
        .imports
        .iter()
        .any(|i| i.kind == "require" && i.module.as_deref() == Some("json")));
    assert!(result
        .imports
        .iter()
        .any(|i| i.kind == "require_relative"
            && i.module.as_deref() == Some("../lib/helper")));
    // What brings in a file is no call.
    assert!(!result.calls.iter().any(|c| c.callee == "require"));
}

#[test]
fn test_parse_top_level_assignment() {
    let parser = RubyParser::new();
    let source = r#"
MAX_RETRIES = 5

def retry_count
  local = 1
  MAX_RETRIES
end
"#;
    let result = parser.parse(source, "test.rb").unwrap();
    assert!(result.variables.iter().any(|v| v.name == "MAX_RETRIES"));
    // A variable inside a method is not one of the file.
    assert!(!result.variables.iter().any(|v| v.name == "local"));
    assert!(result.functions.iter().any(|f| f.name == "retry_count"));
}

#[test]
fn a_heredoc_whose_word_is_too_long_is_passed_over() {
    let source = format!("def run\n  1\nend\nx = <<{}\n", "a".repeat(300));
    let result = RubyParser::new().parse(&source, "a.rb").unwrap();
    assert!(result.functions.is_empty());
    assert_eq!(result.lines_total, 4);

    for length in [1, 4, 255] {
        let word = "W".repeat(length);
        let source = format!("x = <<~{}\n  text\n{}\ndef run\n  1\nend\n", word, word);
        let result = RubyParser::new().parse(&source, "a.rb").unwrap();
        assert_eq!(result.functions.len(), 1, "{}", length);
    }
}

#[test]
fn heredocs_beside_strings_keep_their_room() {
    let strings = "puts 'a'\n".repeat(60);
    let source = format!("{}x = <<HTML\n<b>\nHTML\ndef run\n  1\nend\n", strings);
    assert!(heredocs_have_room(&source));
    assert_eq!(RubyParser::new().parse(&source, "a.rb").unwrap().functions.len(), 1);

    let strings = "puts 'a'\n".repeat(500);
    let source = format!("{}x = <<~SQL\nselect 1\nSQL\ndef run\n  1\nend\n", strings);
    assert!(heredocs_have_room(&source));
    assert_eq!(RubyParser::new().parse(&source, "a.rb").unwrap().functions.len(), 1);

    assert!(heredocs_have_room(&strings));
    assert!(heredocs_have_room("a << b; c <<= 1"));
    assert!(!heredocs_have_room(&format!("{}x = <<HTML\nHTML\n", strings)));
}

#[test]
fn the_one_size_that_has_no_room_is_told() {
    // 200 strings and a word of 19 characters take 1023 bytes, one of 18 takes a byte less.
    let strings = "'".repeat(200);
    let with = |length: usize| format!("{}<<{}", strings, "w".repeat(length));
    assert!(heredocs_have_room(&with(18)));
    assert!(!heredocs_have_room(&with(19)));
    assert!(heredocs_have_room(&with(20)));
    // Quoted words hold whatever stands before the next quote.
    assert!(!heredocs_have_room(&format!("<<-\"{}\"", "w ".repeat(200))));
    assert!(heredocs_have_room(&format!("<<-\"{}\"", "w ".repeat(100))));
}
