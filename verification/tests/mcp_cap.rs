use code_index::json::Json;
use code_index::mcp::cap::{
    cap_applies, cap_enabled, cap_response, default_cap_set, function_body_cap, is_structural_tool,
    omit_oversize_sections, resolve_request_budget, response_cap, response_cap_hard, set_cap_enabled,
    set_cap_tools, set_function_body_cap, set_response_cap, set_response_cap_hard,
    shrink_search_results, CapSettings, DEFAULT_MAX_RESPONSE_BYTES_HARD,
};
use serde_json::Value;

/// The settings that nothing was set in.
fn settings() -> CapSettings {
    let mut s = CapSettings {
        response_bytes: 0,
        response_bytes_hard: 0,
        function_body_chars: 0,
        tools: vec![],
        enabled: false,
    };
    set_response_cap(&mut s, None);
    set_response_cap_hard(&mut s, None);
    set_function_body_cap(&mut s, None);
    set_cap_tools(&mut s, None);
    set_cap_enabled(&mut s, None);
    s
}

fn js(text: &str) -> Value {
    serde_json::from_str(text).unwrap()
}

fn num(n: usize) -> Value {
    Value::from(n)
}

fn to_json(v: &Value) -> Json {
    Json::parse(&v.to_string()).unwrap()
}

fn to_value(j: &Json) -> Value {
    serde_json::from_str(&j.text().unwrap()).unwrap()
}

fn ser_len(v: &Value) -> usize {
    v.to_string().len()
}

fn capped(v: &Value, budget: usize) -> (Value, bool) {
    let (out, cut) = cap_response(to_json(v), budget);
    (to_value(&out), cut)
}

fn omitted(v: &Value, budget: usize) -> (Value, bool) {
    let (out, cut) = omit_oversize_sections(to_json(v), budget);
    (to_value(&out), cut)
}

fn object(entries: Vec<(&str, Value)>) -> Value {
    let mut map = serde_json::Map::new();
    for (k, v) in entries {
        map.insert(k.to_string(), v);
    }
    Value::Object(map)
}

#[test]
fn under_budget_unchanged() {
    let v = js(r#"{"a": [1, 2, 3], "b": "hello"}"#);
    let (out, trunc) = capped(&v, 10_000);
    assert!(!trunc);
    assert_eq!(out, v);
}

#[test]
fn budget_zero_disables() {
    let big: Vec<i64> = (0..5000).collect();
    let v = object(vec![("items", Value::from(big))]);
    let (out, trunc) = capped(&v, 0);
    assert!(!trunc);
    assert_eq!(out, v);
}

#[test]
fn truncates_single_big_array_and_marks_total() {
    let items: Vec<Value> = (0..2000usize)
        .map(|i| object(vec![("name", Value::from(format!("Операция_{}", i))), ("v", num(i))]))
        .collect();
    let v = object(vec![("object", Value::from("Документ")), ("enum_values", Value::from(items))]);
    let budget = 4_000;
    let (out, trunc) = capped(&v, budget);
    assert!(trunc);
    assert!(ser_len(&out) <= budget, "ser_len={}", ser_len(&out));
    let arr = out["enum_values"].as_array().unwrap();
    assert!(arr.len() < 2000 && !arr.is_empty());
    assert_eq!(out["enum_values_total"], num(2000));
    assert_eq!(out["enum_values_truncated"], Value::from(true));
}

#[test]
fn truncates_nested_array_under_object() {
    let items: Vec<Value> = (0..3000).map(|i| Value::from(format!("реквизит_{}", i))).collect();
    let v = object(vec![(
        "result",
        object(vec![(
            "structure",
            object(vec![("attributes", Value::from(items)), ("name", Value::from("Контрагенты"))]),
        )]),
    )]);
    let budget = 3_000;
    let (out, trunc) = capped(&v, budget);
    assert!(trunc);
    assert!(ser_len(&out) <= budget);
    let st = &out["result"]["structure"];
    assert_eq!(st["attributes_total"], num(3000));
    assert_eq!(st["attributes_truncated"], Value::from(true));
    assert!(st["attributes"].as_array().unwrap().len() < 3000);
    // The scalar beside the array is left alone.
    assert_eq!(st["name"], Value::from("Контрагенты"));
}

#[test]
fn picks_heaviest_among_several_arrays() {
    let small: Vec<Value> = (0..5usize).map(num).collect();
    let big: Vec<Value> = (0..4000).map(|i| Value::from(format!("x{}", i))).collect();
    let v = object(vec![("small", Value::from(small)), ("big", Value::from(big))]);
    let budget = 5_000;
    let (out, trunc) = capped(&v, budget);
    assert!(trunc);
    assert!(ser_len(&out) <= budget);
    assert_eq!(out["big_truncated"], Value::from(true));
    assert!(out.get("small_truncated").is_none());
    assert_eq!(out["small"].as_array().unwrap().len(), 5);
}

#[test]
fn is_structural_tool_policy() {
    assert!(is_structural_tool("get_object_structure"));
    assert!(!is_structural_tool("get_event_subscriptions"));
    assert!(!is_structural_tool("get_callers"));
}

#[test]
fn cap_enabled_gates_cap_applies() {
    let mut s = settings();
    set_cap_tools(&mut s, Some(vec!["get_event_subscriptions".to_string()]));
    set_cap_enabled(&mut s, Some(true));
    assert!(cap_applies(&s, "get_event_subscriptions"), "enabled+в списке → cap применяется");
    set_cap_enabled(&mut s, Some(false));
    assert!(!cap_applies(&s, "get_event_subscriptions"), "disabled → cap не применяется ни к чему");
    assert!(!cap_enabled(&s));
    set_cap_enabled(&mut s, Some(true));
    set_cap_tools(&mut s, None);
    assert!(cap_applies(&s, "find_references"));
    assert!(!cap_applies(&s, "get_function"));
}

#[test]
fn default_cap_tools_include_list_tools() {
    let set = default_cap_set();
    assert!(set.contains(&"find_references".to_string()));
    assert!(set.contains(&"get_register_writers".to_string()));
    assert!(set.contains(&"get_event_subscriptions".to_string()));
    assert!(set.contains(&"bsl_sql".to_string()));
}

#[test]
fn omit_drops_heavy_map_wholesale_keeps_small() {
    let mut syn = serde_json::Map::new();
    for i in 0..800 {
        syn.insert(
            format!("Значение_{}", i),
            Value::from(format!("Синоним значения номер {}", i)),
        );
    }
    let values: Vec<Value> = (0..800).map(|i| Value::from(format!("Значение_{}", i))).collect();
    let v = object(vec![
        (
            "attributes",
            object(vec![
                ("enum_synonyms", Value::Object(syn)),
                ("enum_values", Value::from(values)),
            ]),
        ),
        ("counts", object(vec![("enum_values", num(800))])),
        ("full_name", Value::from("Enum.Тест")),
        ("meta_type", Value::from("Enum")),
    ]);
    let budget = 30_000;
    let (out, cut) = omitted(&v, budget);
    assert!(cut);
    assert!(ser_len(&out) <= budget, "ser_len={}", ser_len(&out));
    let a = &out["attributes"];
    assert_eq!(a["enum_synonyms_omitted"], Value::from(true));
    assert_eq!(a["enum_synonyms_count"], num(800));
    assert!(a.get("enum_synonyms").is_none(), "map должна быть удалена целиком");
    // What stays is not shortened.
    assert_eq!(a["enum_values"].as_array().unwrap().len(), 800);
    assert_eq!(out["full_name"], Value::from("Enum.Тест"));
    assert_eq!(out["counts"]["enum_values"], num(800));
}

#[test]
fn omit_noop_when_small() {
    let v = js(r#"{"attributes": {"enum_values": [1, 2, 3]}, "full_name": "X"}"#);
    let (out, cut) = omitted(&v, 30_000);
    assert!(!cut);
    assert_eq!(out, v);
}

/// A search response: objects that each have a passport and a heavy section.
fn search_response(objects: usize, attrs_per_object: usize) -> Value {
    let results: Vec<Value> = (0..objects)
        .map(|i| {
            let attrs: Vec<Value> = (0..attrs_per_object)
                .map(|j| {
                    object(vec![
                        ("name", Value::from(format!("Реквизит{}_{}", i, j))),
                        ("type", Value::from("СправочникСсылка.Номенклатура")),
                    ])
                })
                .collect();
            object(vec![
                ("full_name", Value::from(format!("Catalog.Объект{}", i))),
                ("meta_type", Value::from("Catalog")),
                ("name", Value::from(format!("Объект{}", i))),
                ("synonym", Value::from(format!("Объект {}", i))),
                ("attributes", object(vec![("attributes", Value::from(attrs))])),
                ("counts", object(vec![("attributes", num(attrs_per_object))])),
            ])
        })
        .collect();
    object(vec![
        ("matched", num(objects)),
        ("truncated", Value::from(false)),
        ("results", Value::from(results)),
    ])
}

#[test]
fn search_results_never_dropped_wholesale() {
    for budget in [50usize, 500, 5_000, 20_000, 48_000] {
        let (out, sh) = shrink_search_results(to_json(&search_response(38, 20)), budget);
        let out = to_value(&out);
        let arr = out
            .get("results")
            .and_then(|v| v.as_array())
            .unwrap_or_else(|| panic!("бюджет {}: массив results выброшен целиком", budget));
        assert!(!arr.is_empty(), "бюджет {}: отдан пустой массив", budget);
        for item in arr {
            assert!(item.get("full_name").is_some(), "бюджет {}: потерян full_name", budget);
            assert!(item.get("meta_type").is_some(), "бюджет {}: потерян meta_type", budget);
        }
        assert!(sh.any(), "бюджет {}: ужатие не отмечено", budget);
    }
}

#[test]
fn search_omits_sections_inside_items_keeping_all_names() {
    let (out, sh) = shrink_search_results(to_json(&search_response(38, 20)), 20_000);
    let out = to_value(&out);
    let arr = out.get("results").unwrap().as_array().unwrap();
    assert_eq!(arr.len(), 38, "укорачивать массив не требовалось");
    assert!(sh.sections_omitted);
    assert!(!sh.results_shortened);
    assert!(ser_len(&out) <= 20_000);
    for (i, item) in arr.iter().enumerate() {
        assert_eq!(item["full_name"], Value::from(format!("Catalog.Объект{}", i)));
        assert_eq!(item["meta_type"], Value::from("Catalog"));
        assert_eq!(item["counts"]["attributes"], num(20));
    }
    let without: Vec<&Value> = arr
        .iter()
        .map(|it| &it["attributes"])
        .filter(|a| a.get("attributes_omitted").is_some())
        .collect();
    assert!(!without.is_empty(), "ни одна секция не снята — бюджет не соблюдён?");
    for a in without {
        assert_eq!(a["attributes_omitted"], Value::from(true));
        assert_eq!(a["attributes_count"], num(20));
        assert!(a.get("attributes").is_none());
    }
}

#[test]
fn search_shortens_array_when_names_alone_exceed_budget() {
    let (out, sh) = shrink_search_results(to_json(&search_response(38, 20)), 600);
    let out = to_value(&out);
    let arr = out.get("results").unwrap().as_array().unwrap();
    assert!(!arr.is_empty());
    assert!(sh.results_shortened);
    assert_eq!(sh.results_total, 38);
    assert_eq!(sh.results_shown, arr.len());
    assert_eq!(out["results_total"], num(38));
    assert_eq!(out["results_shown"], num(arr.len()));
    assert!(out.get("results_omitted").is_none());
}

#[test]
fn search_shrink_noop_when_under_budget() {
    let v = search_response(2, 3);
    let (out, sh) = shrink_search_results(to_json(&v), 48_000);
    assert_eq!(to_value(&out), v);
    assert!(!sh.any());
    assert!(sh.full_bytes > 0);
    assert_eq!(sh.full_bytes, ser_len(&v));
}

#[test]
fn search_shrink_disabled_on_zero_budget() {
    let v = search_response(38, 20);
    let (out, sh) = shrink_search_results(to_json(&v), 0);
    assert_eq!(to_value(&out), v);
    assert!(!sh.any());
}

#[test]
fn request_budget_overrides_and_clamps() {
    let mut s = settings();
    set_response_cap(&mut s, Some(48_000));
    set_response_cap_hard(&mut s, Some(192_000));
    let b = resolve_request_budget(&s, None);
    assert_eq!(b.applied, 48_000);
    assert!(!b.clamped);
    let b = resolve_request_budget(&s, Some(70_000));
    assert_eq!(b.applied, 70_000);
    assert!(!b.clamped);
    let b = resolve_request_budget(&s, Some(500_000));
    assert_eq!(b.applied, 192_000);
    assert!(b.clamped);
    // A client cannot switch the guard off.
    let b = resolve_request_budget(&s, Some(0));
    assert_eq!(b.applied, 48_000);
    // A ceiling of zero stands for the default.
    set_response_cap_hard(&mut s, Some(0));
    assert_eq!(response_cap_hard(&s), DEFAULT_MAX_RESPONSE_BYTES_HARD);
    set_response_cap_hard(&mut s, None);
    set_response_cap(&mut s, None);
    assert_eq!(response_cap_hard(&s), DEFAULT_MAX_RESPONSE_BYTES_HARD);
}

#[test]
fn setters_are_read_back() {
    let mut s = settings();
    set_response_cap(&mut s, Some(0));
    assert_eq!(response_cap(&s), 0);
    set_function_body_cap(&mut s, Some(77));
    assert_eq!(function_body_cap(&s), 77);
    set_response_cap_hard(&mut s, Some(5));
    assert_eq!(response_cap_hard(&s), 5);
}

#[test]
fn one_cut_halves_the_list() {
    let v = js(r#"{"a": [10, 11, 12, 13, 14], "b": 1}"#);
    let (out, trunc) = capped(&v, 60);
    assert_eq!((out, trunc), (v, false));
    let wide: Vec<Value> = (0..100usize).map(num).collect();
    let v = object(vec![("a", Value::from(wide))]);
    let size = ser_len(&v);
    let (out, trunc) = capped(&v, size - 1);
    assert!(trunc);
    assert_eq!(out["a"].as_array().unwrap().len(), 50);
    assert_eq!(out["a"][49], num(49));
    assert_eq!(out["a_total"], num(100));
}

#[test]
fn only_lists_are_shortened() {
    let items: Vec<Value> = (0..50usize).map(num).collect();
    let text = "очень длинный текст ".repeat(40);
    let v = object(vec![
        ("body", Value::from(text.clone())),
        ("flag", Value::Bool(true)),
        ("rows", Value::from(items)),
        ("inner", object(vec![("count", num(3)), ("list", js("[1]"))])),
    ]);
    let (out, trunc) = capped(&v, 10);
    assert!(trunc);
    assert_eq!(out["body"], Value::from(text));
    assert_eq!(out["flag"], Value::Bool(true));
    assert_eq!(out["inner"], v["inner"]);
    assert_eq!(out["rows"], js("[0]"));
    assert_eq!(out["rows_total"], num(50));
}

#[test]
fn a_section_is_there_as_a_whole_or_left_out() {
    let wide: Vec<Value> = (0..200usize).map(num).collect();
    let v = object(vec![
        ("name", Value::from("X")),
        ("small", js("[1, 2, 3]")),
        ("wide", Value::from(wide)),
    ]);
    let (out, cut) = omitted(&v, 120);
    assert!(cut);
    assert_eq!(out["name"], Value::from("X"));
    assert_eq!(out["small"], js("[1, 2, 3]"));
    assert!(out.get("wide").is_none());
    assert_eq!(out["wide_omitted"], Value::Bool(true));
    assert_eq!(out["wide_count"], num(200));
}

#[test]
fn the_ceiling_is_never_nothing() {
    let mut s = CapSettings::default();
    assert_eq!(s.response_bytes_hard, DEFAULT_MAX_RESPONSE_BYTES_HARD);
    set_response_cap_hard(&mut s, Some(0));
    assert_eq!(s.response_bytes_hard, DEFAULT_MAX_RESPONSE_BYTES_HARD);
    set_response_cap_hard(&mut s, Some(7));
    assert_eq!(s.response_bytes_hard, 7);
}
