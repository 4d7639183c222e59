use code_index::parser::php::PhpParser;

#[test]
fn test_parse_simple_function() {
    let parser = PhpParser::new();
    let source = r#"<?php
/** Приветствие. */
function hello(string $name): string {
    return "Hello, {$name}!";
}
"#;
    let result = parser.parse(source, "test.php").unwrap();
    assert_eq!(result.functions.len(), 1);
    assert_eq!(result.functions[0].name, "hello");
    assert!(result.functions[0].docstring.is_some());
    assert!(!result.functions[0].is_async);
}

#[test]
fn php_test_parse_class_with_methods() {
    let parser = PhpParser::new();
    let source = r#"<?php
class MyClass extends Base {
    public function methodOne() {
        return 1;
    }

    private function methodTwo($x) {
        return $x * 2;
    }
}
"#;
    let result = parser.parse(source, "test.php").unwrap();
    assert_eq!(result.classes.len(), 1);
    assert_eq!(result.classes[0].name, "MyClass");
    assert_eq!(result.functions.len(), 2);
    assert_eq!(
        result.functions[0].qualified_name,
        Some("MyClass::methodOne".to_string())
    );
    assert_eq!(
        result.functions[1].qualified_name,
        Some("MyClass::methodTwo".to_string())
    );
}

#[test]
fn test_parse_interface_and_trait() {
    let parser = PhpParser::new();
    let source = r#"<?php
interface Runnable {
    public function run();
}

trait Loggable {
    public function log($msg) {}
}
"#;
    let result = parser.parse(source, "test.php").unwrap();
    // An interface and a trait are two classes.
    assert_eq!(result.classes.len(), 2);
    assert!(result.classes.iter().any(|c| c.name == "Runnable"));
    assert!(result.classes.iter().any(|c| c.name == "Loggable"));
}

#[test]
fn test_parse_use_imports() {
    let parser = PhpParser::new();
    let source = r#"<?php
use enterego\EnteregoUser;
use Bitrix\Main\Loader as BxLoader;
"#;
    let result = parser.parse(source, "test.php").unwrap();
    assert!(result.imports.iter().any(|i| i.kind == "use"
        && i.module.as_deref() == Some("enterego\\EnteregoUser")));
    assert!(result
        .imports
        .iter()
        .any(|i| i.alias.as_deref() == Some("BxLoader")));
}

#[test]
fn php_test_parse_calls() {
    let parser = PhpParser::new();
    let source = r#"<?php
function process() {
    $data = fetchData();
    $result = transform($data);
    save($result);
}

print_r("done");
"#;
    let result = parser.parse(source, "test.php").unwrap();
    assert!(result.calls.iter().any(|c| c.callee == "fetchData"));
    assert!(result.calls.iter().any(|c| c.callee == "transform"));
    assert!(result.calls.iter().any(|c| c.callee == "save"));
    // A call outside of any function.
    let module_call = result.calls.iter().find(|c| c.callee == "print_r");
    assert!(module_call.is_some());
    assert_eq!(module_call.unwrap().caller, "<module>");
}

#[test]
fn test_parse_method_call_callee() {
    let parser = PhpParser::new();
    let source = r#"<?php
function run() {
    $obj->doWork();
    Helper::staticCall();
}
"#;
    let result = parser.parse(source, "test.php").unwrap();
    assert!(result.calls.iter().any(|c| c.callee == "doWork"));
    assert!(result.calls.iter().any(|c| c.callee == "staticCall"));
}

#[test]
fn test_parse_inline_html_mixed() {
    // PHP mixed with HTML.
    let parser = PhpParser::new();
    let source = r#"<?php
function header() { return "h"; }
?>
<div>Some HTML</div>
<?php
function footer() { return "f"; }
"#;
    let result = parser.parse(source, "template.php").unwrap();
    assert!(result.functions.iter().any(|f| f.name == "header"));
    assert!(result.functions.iter().any(|f| f.name == "footer"));
}
