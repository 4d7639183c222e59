use code_index::parser::c::CParser;

#[test]
fn test_parse_c_function() {
    let parser = CParser::new();
    let source = r#"
int add(int a, int b) {
    return a + b;
}
"#;
    let result = parser.parse(source, "test.c").unwrap();
    assert_eq!(result.functions.len(), 1);
    assert_eq!(result.functions[0].name, "add");
}

#[test]
fn test_parse_c_struct_and_call() {
    let parser = CParser::new();
    let source = r#"
struct Point {
    int x;
    int y;
};

void run() {
    do_work();
}
"#;
    let result = parser.parse(source, "test.c").unwrap();
    assert!(result.classes.iter().any(|c| c.name == "Point"));
    assert!(result.calls.iter().any(|c| c.callee == "do_work"));
}

#[test]
fn test_parse_c_include() {
    let parser = CParser::new();
    let source = "#include <stdio.h>\n#include \"local.h\"\n";
    let result = parser.parse(source, "test.c").unwrap();
    assert!(result.imports.len() >= 2);
    assert_eq!(result.imports[0].kind, "include");
}
