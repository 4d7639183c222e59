use code_index::parser::bsl::BslParser;

#[test]
fn test_parse_bsl_procedure() {
    let parser = BslParser::new();
    let source = "Процедура ПриОткрытии()\n    Сообщить(\"Привет\");\nКонецПроцедуры";
    let result = parser.parse(source, "test.bsl").unwrap();
    assert_eq!(result.functions.len(), 1);
    assert_eq!(result.functions[0].name, "ПриОткрытии");
}

#[test]
fn test_parse_bsl_function() {
    let parser = BslParser::new();
    let source = "Функция ПолучитьДанные(Параметр1, Параметр2) Экспорт\n    Возврат Параметр1 + Параметр2;\nКонецФункции";
    let result = parser.parse(source, "test.bsl").unwrap();
    assert_eq!(result.functions.len(), 1);
    assert_eq!(result.functions[0].name, "ПолучитьДанные");
}

#[test]
fn test_parse_bsl_with_directive() {
    let parser = BslParser::new();
    let source = "&НаСервере\nПроцедура ОбработатьНаСервере()\n    // код\nКонецПроцедуры";
    let result = parser.parse(source, "test.bsl").unwrap();
    assert_eq!(result.functions.len(), 1);
    assert_eq!(result.functions[0].name, "ОбработатьНаСервере");
}

#[test]
fn test_parse_bsl_calls() {
    let parser = BslParser::new();
    let source = "Процедура Тест()\n    Сообщить(\"Привет\");\n    ОбщийМодуль.МетодМодуля();\nКонецПроцедуры";
    let result = parser.parse(source, "test.bsl").unwrap();
    assert!(result.calls.len() >= 1);
}

#[test]
fn test_parse_bsl_module_vars() {
    let parser = BslParser::new();
    let source = "Перем МояПеременная Экспорт;\nПерем ВтораяПеременная;\n\nПроцедура Тест()\nКонецПроцедуры";
    let result = parser.parse(source, "test.bsl").unwrap();
    assert!(result.variables.len() >= 2);
}

#[test]
fn test_parse_bsl_english_keywords() {
    let parser = BslParser::new();
    let source = "Procedure OnOpen() Export\n    Message(\"Hello\");\nEndProcedure";
    let result = parser.parse(source, "test.bsl").unwrap();
    assert_eq!(result.functions.len(), 1);
    assert_eq!(result.functions[0].name, "OnOpen");
}

#[test]
fn test_parse_bsl_export_marker() {
    let parser = BslParser::new();
    // An exported function has the suffix "Экспорт" in its arguments.
    let source = "Функция ПолучитьДанные(Пар1) Экспорт\n    Возврат Пар1;\nКонецФункции";
    let result = parser.parse(source, "test.bsl").unwrap();
    assert_eq!(result.functions.len(), 1);
    let f = &result.functions[0];
    assert!(f.args.as_deref().unwrap_or("").contains("Экспорт"));
}

#[test]
fn test_parse_bsl_directive_in_return_type() {
    let parser = BslParser::new();
    let source = "&НаКлиенте\nПроцедура НаКлиенте()\nКонецПроцедуры";
    let result = parser.parse(source, "test.bsl").unwrap();
    assert_eq!(result.functions.len(), 1);
    // The directive is kept in the return type.
    assert!(result.functions[0].return_type.is_some());
    assert!(result.functions[0].return_type.as_deref().unwrap().contains("НаКлиенте"));
}

#[test]
fn test_parse_bsl_docstring_contains_type() {
    let parser = BslParser::new();
    let source = "Процедура МояПроц()\nКонецПроцедуры";
    let result = parser.parse(source, "test.bsl").unwrap();
    assert_eq!(result.functions.len(), 1);
    // The docstring names the kind of declaration.
    let doc = result.functions[0].docstring.as_deref().unwrap_or("");
    assert!(doc.contains("procedure"));
}

#[test]
fn test_parse_bsl_override_before() {
    let parser = BslParser::new();
    let source = "&Перед(\"ОригинальнаяПроцедура\")\nПроцедура Ext_ОригинальнаяПроцедура()\nКонецПроцедуры";
    let result = parser.parse(source, "test.bsl").unwrap();
    assert_eq!(result.functions.len(), 1);
    let f = &result.functions[0];
    assert_eq!(f.override_type.as_deref(), Some("Перед"));
    assert_eq!(f.override_target.as_deref(), Some("ОригинальнаяПроцедура"));
    // The directive is there too.
    assert_eq!(f.return_type.as_deref(), Some("&Перед"));
}

#[test]
fn test_parse_bsl_override_instead() {
    let parser = BslParser::new();
    let source = "&Вместо(\"ПолучитьДанные\")\nФункция Ext_ПолучитьДанные()\n    Возврат 42;\nКонецФункции";
    let result = parser.parse(source, "test.bsl").unwrap();
    assert_eq!(result.functions.len(), 1);
    let f = &result.functions[0];
    assert_eq!(f.override_type.as_deref(), Some("Вместо"));
    assert_eq!(f.override_target.as_deref(), Some("ПолучитьДанные"));
}

#[test]
fn test_parse_bsl_override_after() {
    let parser = BslParser::new();
    let source = "&После(\"ПриЗаписи\")\nПроцедура Ext_ПриЗаписи()\nКонецПроцедуры";
    let result = parser.parse(source, "test.bsl").unwrap();
    assert_eq!(result.functions.len(), 1);
    let f = &result.functions[0];
    assert_eq!(f.override_type.as_deref(), Some("После"));
    assert_eq!(f.override_target.as_deref(), Some("ПриЗаписи"));
}

#[test]
fn test_parse_bsl_no_override_for_regular_directive() {
    let parser = BslParser::new();
    let source = "&НаСервере\nПроцедура Тест()\nКонецПроцедуры";
    let result = parser.parse(source, "test.bsl").unwrap();
    assert_eq!(result.functions.len(), 1);
    let f = &result.functions[0];
    assert!(f.override_type.is_none());
    assert!(f.override_target.is_none());
    assert_eq!(f.return_type.as_deref(), Some("&НаСервере"));
}

#[test]
fn a_name_that_begins_like_the_keyword_is_not_exported() {
    let source = "Процедура ЭкспортДанных()\nКонецПроцедуры";
    let result = BslParser::new().parse(source, "test.bsl").unwrap();
    assert_eq!(result.functions.len(), 1);
    assert_eq!(result.functions[0].name, "ЭкспортДанных");
    assert_eq!(result.functions[0].docstring.as_deref(), Some("procedure"));

    let source = "Процедура Старт(ФлагЭкспорт)\n    ЭкспортДанных();\nКонецПроцедуры";
    let result = BslParser::new().parse(source, "test.bsl").unwrap();
    assert_eq!(result.functions[0].docstring.as_deref(), Some("procedure"));
}

#[test]
fn the_keyword_counts_below_annotations_and_in_any_case() {
    let source = "&НаСервере\nФункция Данные(А,\n    Б) ЭКСПОРТ\n    Возврат 1;\nКонецФункции";
    let result = BslParser::new().parse(source, "test.bsl").unwrap();
    assert_eq!(result.functions.len(), 1);
    assert!(result.functions[0].docstring.as_deref().unwrap().ends_with("export"));
    assert!(result.functions[0].args.as_deref().unwrap().ends_with(" Экспорт"));

    let source = "Procedure OnOpen() Export\nEndProcedure\nProcedure ExportAll()\nEndProcedure";
    let result = BslParser::new().parse(source, "test.bsl").unwrap();
    let docs: Vec<Option<&str>> = result.functions.iter().map(|f| f.docstring.as_deref()).collect();
    assert_eq!(docs, vec![Some("procedure export"), Some("procedure")]);
}

#[test]
fn an_exported_variable_is_told_from_one_that_is_named_alike() {
    let source = "Перем Общая Экспорт;\nПерем ЭкспортФлаг;\n";
    let result = BslParser::new().parse(source, "test.bsl").unwrap();
    let values: Vec<(&str, Option<&str>)> =
        result.variables.iter().map(|v| (v.name.as_str(), v.value.as_deref())).collect();
    assert_eq!(values, vec![("Общая", Some("Экспорт")), ("ЭкспортФлаг", None)]);
}

#[test]
fn a_comment_before_the_keyword_is_passed_over() {
    let source = "Процедура А() // для всех\n    Экспорт\nКонецПроцедуры\nПроцедура Б() // Экспорт\nКонецПроцедуры";
    let result = BslParser::new().parse(source, "test.bsl").unwrap();
    let docs: Vec<Option<&str>> = result.functions.iter().map(|f| f.docstring.as_deref()).collect();
    assert_eq!(docs, vec![Some("procedure export"), Some("procedure")]);
}
