use code_index::parser::cpp::CppParser;

#[test]
fn test_parse_cpp_class_method() {
    let parser = CppParser::new();
    let source = r#"
class Widget {
public:
    int compute(int x) {
        return helper(x);
    }
};
"#;
    let result = parser.parse(source, "test.cpp").unwrap();
    assert!(result.classes.iter().any(|c| c.name == "Widget"));
    assert!(result.functions.iter().any(|f| f.name == "compute"));
    assert!(result.calls.iter().any(|c| c.callee == "helper"));
}

#[test]
fn test_parse_cpp_free_function() {
    let parser = CppParser::new();
    let source = r#"
namespace app {
    void start() {
        init();
    }
}
"#;
    let result = parser.parse(source, "test.cpp").unwrap();
    assert!(result.functions.iter().any(|f| f.name == "start"));
    assert!(result.calls.iter().any(|c| c.callee == "init"));
}
