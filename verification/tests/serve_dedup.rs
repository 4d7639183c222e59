use code_index::serve_dedup::SessionDedup;
use serde_json::Value;

/// A row belongs to a tool and a repository.
const SCOPE: &str = "get_callers|ut";

fn js(text: &str) -> Value {
    serde_json::from_str(text).unwrap()
}

/// A tabular result.
fn with_rows(rows: Value) -> Value {
    let mut v = js(r#"{ "result": {} }"#);
    v["result"]["rows"] = rows;
    v
}

/// A tool's answer with one part, a text.
fn text_content(text: String) -> Value {
    let mut v = js(r#"{ "content": [ { "type": "text" } ] }"#);
    v["content"][0]["text"] = Value::from(text);
    v
}

fn mcp_payload(rows: Value) -> String {
    let inner = with_rows(rows).to_string();
    text_content(inner).to_string()
}

fn rows_of(payload: &str) -> Vec<Value> {
    let outer: Value = serde_json::from_str(payload).unwrap();
    let text = outer["content"][0]["text"].as_str().unwrap();
    let inner: Value = serde_json::from_str(text).unwrap();
    inner["result"]["rows"].as_array().unwrap().clone()
}

#[test]
fn first_delivery_keeps_all() {
    let mut d = SessionDedup::new(true);
    let p = mcp_payload(js(r#"[["A", 1], ["B", 2]]"#));
    let (out, elided) = d.process(Some("s1"), SCOPE, &p);
    assert_eq!(elided, 0);
    assert_eq!(rows_of(&out).len(), 2);
}

#[test]
fn second_delivery_elides_repeats() {
    let mut d = SessionDedup::new(true);
    let p = mcp_payload(js(r#"[["A", 1], ["B", 2]]"#));
    d.process(Some("s1"), SCOPE, &p);
    let p2 = mcp_payload(js(r#"[["A", 1], ["B", 2], ["C", 3]]"#));
    let (out, elided) = d.process(Some("s1"), SCOPE, &p2);
    assert_eq!(elided, 2);
    let kept = rows_of(&out);
    assert_eq!(kept.len(), 1);
    let outer: Value = serde_json::from_str(&out).unwrap();
    let inner: Value = serde_json::from_str(outer["content"][0]["text"].as_str().unwrap()).unwrap();
    assert_eq!(inner["result"]["rows_elided_already_delivered"], Value::from(2));
}

#[test]
fn sessions_are_isolated() {
    let mut d = SessionDedup::new(true);
    let p = mcp_payload(js(r#"[["A", 1]]"#));
    d.process(Some("s1"), SCOPE, &p);
    let (_, elided) = d.process(Some("s2"), SCOPE, &p);
    assert_eq!(elided, 0);
}

#[test]
fn scopes_are_isolated() {
    let mut d = SessionDedup::new(true);
    let p = mcp_payload(js(r#"[["AccumulationRegister.ent_Инвентарь"]]"#));
    d.process(Some("s1"), "bsl_sql|ut-test", &p);
    let (_, other_repo) = d.process(Some("s1"), "bsl_sql|ut", &p);
    assert_eq!(other_repo, 0);
    let (_, other_tool) = d.process(Some("s1"), "search_text|ut-test", &p);
    assert_eq!(other_tool, 0);
    let (_, same_scope) = d.process(Some("s1"), "bsl_sql|ut", &p);
    assert_eq!(same_scope, 1);
}

#[test]
fn no_session_no_dedup() {
    let mut d = SessionDedup::new(true);
    let p = mcp_payload(js(r#"[["A", 1]]"#));
    d.process(None, SCOPE, &p);
    let (_, elided) = d.process(None, SCOPE, &p);
    assert_eq!(elided, 0);
}

#[test]
fn disabled_passthrough() {
    let mut d = SessionDedup::new(false);
    let p = mcp_payload(js(r#"[["A", 1]]"#));
    d.process(Some("s1"), SCOPE, &p);
    let (out, elided) = d.process(Some("s1"), SCOPE, &p);
    assert_eq!(elided, 0);
    assert_eq!(rows_of(&out).len(), 1);
}

#[test]
fn non_tabular_untouched() {
    let mut d = SessionDedup::new(true);
    let inner = js(r#"{ "result": { "functions": [{"name": "X"}] } }"#).to_string();
    let p = text_content(inner).to_string();
    let (out, elided) = d.process(Some("s1"), SCOPE, &p);
    assert_eq!(elided, 0);
    assert_eq!(out, p);
}

#[test]
fn bare_array_marks_elided_next_to_result() {
    let mut d = SessionDedup::new(true);
    let inner = js(r#"{ "result": [{"caller": "A"}, {"caller": "B"}] }"#).to_string();
    let p = text_content(inner).to_string();
    d.process(Some("s1"), SCOPE, &p);
    let (out, elided) = d.process(Some("s1"), SCOPE, &p);
    assert_eq!(elided, 2);
    let outer: Value = serde_json::from_str(&out).unwrap();
    let inner: Value =
        serde_json::from_str(outer["content"][0]["text"].as_str().unwrap()).unwrap();
    assert_eq!(inner["result"].as_array().unwrap().len(), 0);
    assert_eq!(inner["rows_elided_already_delivered"], Value::from(2));
    assert!(inner["hint"].as_str().unwrap().contains("does NOT mean"));
}

#[test]
fn originally_empty_result_gets_no_marker() {
    let mut d = SessionDedup::new(true);
    let inner = js(r#"{ "result": [], "hint": "0 вызывателей" }"#).to_string();
    let p = text_content(inner).to_string();
    let (out, elided) = d.process(Some("s1"), SCOPE, &p);
    assert_eq!(elided, 0);
    assert_eq!(out, p);
}

#[test]
fn foreign_hint_is_kept() {
    let mut d = SessionDedup::new(true);
    let inner =
        js(r#"{ "result": [{"caller": "A"}], "hint": "truncated", "truncated": true }"#)
            .to_string();
    let p = text_content(inner).to_string();
    d.process(Some("s1"), SCOPE, &p);
    let (out, elided) = d.process(Some("s1"), SCOPE, &p);
    assert_eq!(elided, 1);
    let outer: Value = serde_json::from_str(&out).unwrap();
    let inner: Value =
        serde_json::from_str(outer["content"][0]["text"].as_str().unwrap()).unwrap();
    assert_eq!(inner["hint"], Value::from("truncated"));
    assert_eq!(inner["rows_elided_already_delivered"], Value::from(1));
}

#[test]
fn the_structured_form_is_not_emptied_by_a_second_pass() {
    let mut d = SessionDedup::new(true);
    let mk = |rows: Value| {
        let inner = with_rows(rows);
        let mut outer = text_content(inner.to_string());
        outer["structuredContent"] = inner;
        outer.to_string()
    };
    d.process(Some("s1"), SCOPE, &mk(js(r#"[["A", 1], ["B", 2]]"#)));
    let (out, elided) =
        d.process(Some("s1"), SCOPE, &mk(js(r#"[["A", 1], ["B", 2], ["C", 3]]"#)));
    assert_eq!(elided, 2);

    let outer: Value = serde_json::from_str(&out).unwrap();
    let text: Value =
        serde_json::from_str(outer["content"][0]["text"].as_str().unwrap()).unwrap();
    assert_eq!(text["result"]["rows"], js(r#"[["C", 3]]"#));
    assert_eq!(
        outer["structuredContent"]["result"]["rows"],
        js(r#"[["C", 3]]"#),
        "структурная форма обязана содержать те же строки, что и текстовая"
    );
    assert_eq!(
        outer["structuredContent"]["result"]["rows_elided_already_delivered"],
        Value::from(2)
    );
}

#[test]
fn the_structured_form_without_a_text_is_processed_by_itself() {
    let mut d = SessionDedup::new(true);
    let p = js(r#"{ "structuredContent": { "result": [{"caller": "A"}] } }"#).to_string();
    let (_, first) = d.process(Some("s1"), SCOPE, &p);
    assert_eq!(first, 0, "первая доставка ничего не опускает");
    let (out, second) = d.process(Some("s1"), SCOPE, &p);
    assert_eq!(second, 1, "повтор обязан быть опущен");
    let outer: Value = serde_json::from_str(&out).unwrap();
    assert_eq!(
        outer["structuredContent"]["result"].as_array().unwrap().len(),
        0
    );
}

#[test]
fn reset_all_returns_rows_again() {
    let mut d = SessionDedup::new(true);
    let inner = js(r#"{ "result": [{"caller": "A"}] }"#).to_string();
    let p = text_content(inner).to_string();
    d.process(Some("s1"), SCOPE, &p);
    assert_eq!(d.reset_all(), 1);
    let (_, elided) = d.process(Some("s1"), SCOPE, &p);
    assert_eq!(elided, 0);
}

#[test]
fn a_forgotten_session_gets_its_rows_again() {
    let mut d = SessionDedup::new(true);
    assert!(d.enabled());
    let p = mcp_payload(js(r#"[["A", 1]]"#));
    d.process(Some("s1"), SCOPE, &p);
    d.process(Some("s2"), SCOPE, &p);
    assert_eq!(d.stats(), (2, 0));
    d.forget("s1");
    let (_, first) = d.process(Some("s1"), SCOPE, &p);
    let (_, second) = d.process(Some("s2"), SCOPE, &p);
    assert_eq!((first, second), (0, 1));
    assert_eq!(d.stats(), (2, 1));
}

#[test]
fn what_is_no_json_passes_as_it_is() {
    let mut d = SessionDedup::new(true);
    assert_eq!(d.process(Some("s1"), SCOPE, "not json"), ("not json".to_string(), 0));
    assert_eq!(d.process(Some("s1"), SCOPE, ""), (String::new(), 0));
    assert_eq!(d.process(Some("s1"), SCOPE, "[1, 2]"), ("[1, 2]".to_string(), 0));
    assert_eq!(d.stats().0, 0);
}

#[test]
fn equal_rows_in_one_answer() {
    let mut d = SessionDedup::new(true);
    let p = mcp_payload(js(r#"[["A", 1], ["A", 1], ["B", 2]]"#));
    let (out, elided) = d.process(Some("s1"), SCOPE, &p);
    assert_eq!(elided, 1);
    assert_eq!(rows_of(&out), vec![js(r#"["A", 1]"#), js(r#"["B", 2]"#)]);
}

#[test]
fn the_fields_of_a_row_are_told_apart() {
    let mut d = SessionDedup::new(true);
    d.process(Some("s1"), SCOPE, &mcp_payload(js(r#"[{"a": 1, "b": 2}]"#)));
    let (_, other) = d.process(Some("s1"), SCOPE, &mcp_payload(js(r#"[{"a": 2, "b": 1}]"#)));
    assert_eq!(other, 0);
    let (_, same) = d.process(Some("s1"), SCOPE, &mcp_payload(js(r#"[{"b": 2, "a": 1}]"#)));
    assert_eq!(same, 1);
}

#[test]
fn a_row_that_stands_twice_stands_twice_in_both_forms() {
    let mut d = SessionDedup::new(true);
    let mk = |rows: Value| {
        let inner = with_rows(rows);
        let mut outer = text_content(inner.to_string());
        outer["structuredContent"] = inner;
        outer.to_string()
    };
    let payload = mk(js(r#"[["A", 1], ["A", 1]]"#));
    let (out, _) = d.process(Some("s1"), SCOPE, &payload);
    let outer: Value = serde_json::from_str(&out).unwrap();
    let text: Value = serde_json::from_str(outer["content"][0]["text"].as_str().unwrap()).unwrap();
    assert!(!text["result"]["rows"].as_array().unwrap().is_empty());
    assert_eq!(outer["structuredContent"]["result"]["rows"], text["result"]["rows"]);
    assert_eq!(
        outer["structuredContent"]["result"]["rows_elided_already_delivered"],
        text["result"]["rows_elided_already_delivered"]
    );

    let payload = mk(js(r#"[["A", 1], ["B", 2], ["B", 2], ["A", 1]]"#));
    let (out, _) = d.process(Some("s1"), SCOPE, &payload);
    let outer: Value = serde_json::from_str(&out).unwrap();
    let text: Value = serde_json::from_str(outer["content"][0]["text"].as_str().unwrap()).unwrap();
    assert_eq!(outer["structuredContent"], text);
}

#[test]
fn a_forgotten_session_is_as_a_new_one() {
    let mut d = SessionDedup::new(true);
    let p = mcp_payload(js(r#"[["A", 1], ["B", 2]]"#));
    let first = d.process(Some("s1"), SCOPE, &p);
    d.process(Some("s1"), SCOPE, &p);
    d.forget("s1");
    assert_eq!(d.process(Some("s1"), SCOPE, &p), first);
}

#[test]
fn a_new_row_stays_among_repeated_ones() {
    let mut d = SessionDedup::new(true);
    d.process(Some("s1"), SCOPE, &mcp_payload(js(r#"[["A", 1], ["B", 2]]"#)));
    let p = mcp_payload(js(r#"[["A", 1], ["C", 3], ["C", 3], ["B", 2], ["D", 4]]"#));
    let (out, elided) = d.process(Some("s1"), SCOPE, &p);
    assert_eq!(elided, 3);
    assert_eq!(rows_of(&out), vec![js(r#"["C", 3]"#), js(r#"["D", 4]"#)]);
}

#[test]
fn forgetting_concerns_one_session() {
    let mut d = SessionDedup::new(true);
    let p = mcp_payload(js(r#"[["A", 1], ["B", 2]]"#));
    d.process(Some("a"), SCOPE, &p);
    d.process(Some("b"), SCOPE, &p);
    let before = d.stats();
    d.forget("unknown");
    assert_eq!(d.stats(), before);
    d.forget("a");
    assert_eq!(d.stats(), (before.0 - 1, before.1));
    assert_eq!(d.process(Some("a"), SCOPE, &p), (p.clone(), 0));
    assert_eq!(d.process(Some("b"), SCOPE, &p).1, 2);
}
