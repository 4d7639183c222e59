use code_index::parser::swift::SwiftParser;

#[test]
fn swift_test_parse_class_with_methods() {
    let parser = SwiftParser::new();
    let source = r#"
import Foundation

/// Сервис заказов.
class OrderService: BaseService, Reloadable {
    init(repo: Repo) {
        self.repo = repo
    }

    func calculate(id: Int, retries: Int = 3) -> Int {
        let order = repo.find(id)
        return sum(order)
    }
}
"#;
    let result = parser.parse(source, "test.swift").unwrap();
    assert_eq!(result.classes.len(), 1);
    assert_eq!(result.classes[0].name, "OrderService");
    assert!(result.classes[0].docstring.is_some());
    assert!(result.classes[0]
        .bases
        .as_deref()
        .unwrap()
        .contains("Reloadable"));

    let calc = result
        .functions
        .iter()
        .find(|f| f.name == "calculate")
        .expect("метод calculate должен быть найден");
    assert_eq!(calc.qualified_name.as_deref(), Some("OrderService.calculate"));
    assert!(calc.args.as_deref().unwrap().contains("retries"));
    assert_eq!(calc.return_type.as_deref(), Some("Int"));

    assert!(result.functions.iter().any(|f| f.name == "init"));
    assert!(result
        .imports
        .iter()
        .any(|i| i.module.as_deref() == Some("Foundation")));
}

#[test]
fn swift_test_parse_calls() {
    let parser = SwiftParser::new();
    let source = r#"
func run() {
    Logger.log("x")
    process()
}
"#;
    let result = parser.parse(source, "test.swift").unwrap();
    assert!(result
        .calls
        .iter()
        .any(|c| c.callee == "log" && c.caller == "run"));
    assert!(result.calls.iter().any(|c| c.callee == "process"));
}

#[test]
fn test_parse_struct_enum_protocol() {
    let parser = SwiftParser::new();
    let source = r#"
struct Point {
    var x: Int
}

enum Color {
    case red
}

protocol Runnable {
    func run()
}
"#;
    let result = parser.parse(source, "test.swift").unwrap();
    assert!(result.classes.iter().any(|c| c.name == "Point"));
    assert!(result.classes.iter().any(|c| c.name == "Color"));
    assert!(result.classes.iter().any(|c| c.name == "Runnable"));
    assert!(result
        .functions
        .iter()
        .any(|f| f.qualified_name.as_deref() == Some("Runnable.run")));
}

#[test]
fn test_parse_crlf_multiline_string() {
    // What follows a literal of several lines, with a line break escaped in it, is found
    // whatever the lines end in.
    let parser = SwiftParser::new();
    let source = [
        "public func before() -> Int { return 1 }\n",
        "public func makeMsg(_ x: Int) -> String {\n",
        "    let s = \"\"\"\n",
        "        Value (\\(x)) is more than allowed \\\n",
        "        and the text continues here.\n",
        "        \"\"\"\n",
        "    return s\n",
        "}\n",
        "public func after() -> Int { return 2 }\n",
    ]
    .concat();
    let crlf = source.replace('\n', "\r\n");

    for (tag, text) in [("LF", source.to_string()), ("CRLF", crlf)] {
        let result = parser.parse(&text, "test.swift").unwrap();
        let names: Vec<&str> = result.functions.iter().map(|f| f.name.as_str()).collect();
        assert!(names.contains(&"before"), "{}: before", tag);
        assert!(names.contains(&"makeMsg"), "{}: makeMsg", tag);
        assert!(names.contains(&"after"), "{}: after — теряется при CRLF", tag);
    }
}

#[test]
fn test_parse_top_level_property() {
    let parser = SwiftParser::new();
    let source = r#"
let maxRetries = 5

func retryCount() -> Int {
    let local = 1
    return maxRetries
}
"#;
    let result = parser.parse(source, "test.swift").unwrap();
    assert!(result.variables.iter().any(|v| v.name == "maxRetries"));
    assert!(!result.variables.iter().any(|v| v.name == "local"));
    assert!(result.functions.iter().any(|f| f.name == "retryCount"));
}
