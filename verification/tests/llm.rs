use nylon::json::Json;
use nylon::llm::{parse_json_loose, LlmError};

fn member<'a>(j: &'a Json, k: &str) -> Option<&'a Json> {
    match j {
        Json::Object(fields) => fields.iter().find(|(name, _)| name == k).map(|(_, v)| v),
        _ => None,
    }
}

fn number(j: Option<&Json>) -> Option<String> {
    match j {
        Some(Json::Number(t)) => Some(t.clone()),
        _ => None,
    }
}

#[test]
fn parse_json_loose_handles_markdown() {
    let v = parse_json_loose(
        r#"```json
{"a": 1}
```"#,
    )
    .unwrap();
    assert_eq!(number(member(&v, "a")), Some("1".to_string()));
    let v = parse_json_loose(r#"{"b": 2}"#).unwrap();
    assert_eq!(number(member(&v, "b")), Some("2".to_string()));
    assert!(parse_json_loose("b9;䷧ JSON").is_err());
}

#[test]
fn loose_reply_error_quotes_tail() {
    assert_eq!(
        parse_json_loose("  no json here }{ ").err(),
        Some(LlmError("响应不是 JSON: no json here }{".to_string()))
    );
    let long = "x".repeat(300);
    match parse_json_loose(&long) {
        Err(LlmError(m)) => assert_eq!(m.chars().count(), "响应不是 JSON: ".chars().count() + 200),
        Ok(_) => panic!("not JSON"),
    }
}

#[test]
fn loose_reply_error_quotes_last_bytes() {
    let wide = "é".repeat(150);
    match parse_json_loose(&wide) {
        Err(LlmError(m)) => assert_eq!(m, format!("响应不是 JSON: {}", "é".repeat(100))),
        Ok(_) => panic!("not JSON"),
    }
    let uneven = format!("{}x", "é".repeat(150));
    match parse_json_loose(&uneven) {
        Err(LlmError(m)) => assert_eq!(m, format!("响应不是 JSON: {}x", "é".repeat(99))),
        Ok(_) => panic!("not JSON"),
    }
}

#[test]
fn loose_reply_trims_unicode_whitespace() {
    assert_eq!(
        parse_json_loose("\u{3000}\u{a0} nope \u{85}\u{2029}").err(),
        Some(LlmError("响应不是 JSON: nope".to_string()))
    );
}
