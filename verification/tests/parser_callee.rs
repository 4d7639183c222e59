use code_index::parser::callee::{is_plain_name, is_plain_qualifier};

#[test]
fn plain_name_accepts_identifiers() {
    assert!(is_plain_name("compress_content"));
    assert!(is_plain_name("ЗначениеРеквизита"));
    assert!(is_plain_name("empty?"));
    assert!(is_plain_name("$fn"));
}

#[test]
fn plain_name_rejects_expressions() {
    assert!(!is_plain_name("Self::compress_content(&x)"));
    assert!(!is_plain_name("json.dumps"));
    assert!(!is_plain_name("f(1)\n    .context"));
    assert!(!is_plain_name(""));
}

#[test]
fn plain_qualifier_accepts_dotted_names() {
    assert!(is_plain_qualifier("ОбщегоНазначения"));
    assert!(is_plain_qualifier("Справочники.Номенклатура"));
    assert!(!is_plain_qualifier("Ф(1)"));
    assert!(!is_plain_qualifier("Массив[0]"));
}
