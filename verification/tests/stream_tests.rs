use rust_json_parser::stream::parse;
use rust_json_parser::{JsonError, JsonObject, JsonValue};

fn num(x: &JsonValue) -> f64 {
    x.as_number().unwrap().parse::<f64>().unwrap()
}

#[test]
fn test_parse_small() {
    let v = parse(r#"{"name": "Alice", "age": 30}"#).unwrap();
    let o = v.as_object().unwrap();
    assert_eq!(o.get("name"), Some(&JsonValue::Text("Alice".to_string())));
    assert_eq!(o.get("age").map(num), Some(30.0));
}

#[test]
fn test_parse_nested() {
    let v = parse(r#"{"a": [1, [2, 3], {"b": null}]}"#).unwrap();
    let arr = v.get("a").unwrap().as_array().unwrap();
    assert_eq!(arr.len(), 3);
}

#[test]
fn test_parse_escapes() {
    let v = parse(r#""hello\nworld\t\"quoted\"\u0041""#).unwrap();
    assert_eq!(v.as_str(), Some("hello\nworld\t\"quoted\"A"));
}

#[test]
fn test_parse_error_trailing() {
    assert!(parse("{}x").is_err());
}

#[test]
fn test_parse_error_trailing_comma_array() {
    assert!(parse("[1, 2,]").is_err());
}

#[test]
fn test_parse_error_trailing_comma_object() {
    assert!(parse(r#"{"a": 1,}"#).is_err());
}

#[test]
fn test_parse_empty_containers() {
    assert_eq!(parse("{}").unwrap(), JsonValue::Object(JsonObject::default()));
    assert_eq!(parse("[]").unwrap(), JsonValue::Array(vec![]));
}

#[test]
fn test_parse_numbers() {
    assert_eq!(num(&parse("42").unwrap()), 42.0);
    assert_eq!(num(&parse("-3.14").unwrap()), -3.14);
    assert_eq!(num(&parse("1.5e-3").unwrap()), 0.0015);
}

// ---- further cases ----

#[test]
fn stream_errors_carry_byte_positions() {
    assert_eq!(
        parse("{}x"),
        Err(JsonError::UnexpectedToken { expected: "end of input".to_string(), found: "x".to_string(), position: 2 })
    );
    assert_eq!(
        parse("[1, 2,]"),
        Err(JsonError::UnexpectedToken { expected: "value".to_string(), found: "]".to_string(), position: 6 })
    );
    assert_eq!(
        parse(r#"{"a": 1,}"#),
        Err(JsonError::UnexpectedToken { expected: "string key".to_string(), found: "}".to_string(), position: 8 })
    );
    assert_eq!(
        parse("[1, 2"),
        Err(JsonError::UnexpectedEndOfInput { expected: "] or ,".to_string(), position: 5 })
    );
    assert_eq!(
        parse(r#"{"key" 1}"#),
        Err(JsonError::UnexpectedToken { expected: ":".to_string(), found: "1".to_string(), position: 7 })
    );
    assert_eq!(
        parse(r#"{123: "value"}"#),
        Err(JsonError::UnexpectedToken { expected: "string key".to_string(), found: "1".to_string(), position: 1 })
    );
    assert_eq!(
        parse("[1 2]"),
        Err(JsonError::UnexpectedToken { expected: ", or ]".to_string(), found: "2".to_string(), position: 3 })
    );
    assert_eq!(
        parse("   "),
        Err(JsonError::UnexpectedEndOfInput { expected: "JSON value".to_string(), position: 3 })
    );
    assert_eq!(
        parse(r#""abc"#),
        Err(JsonError::UnexpectedEndOfInput { expected: "closing quote".to_string(), position: 4 })
    );
    assert_eq!(
        parse(r#""a\nb"#),
        Err(JsonError::UnexpectedEndOfInput { expected: "closing quote".to_string(), position: 5 })
    );
    assert_eq!(
        parse("tru"),
        Err(JsonError::UnexpectedToken { expected: "true".to_string(), found: "tru".to_string(), position: 0 })
    );
    assert_eq!(
        parse("[nul]"),
        Err(JsonError::UnexpectedToken { expected: "null".to_string(), found: "nul]".to_string(), position: 1 })
    );
    assert_eq!(parse("01.2.3"), Err(JsonError::InvalidNumber { value: "01.2.3".to_string(), position: 0 }));
    assert_eq!(parse(r#""\x""#), Err(JsonError::InvalidEscape { ch: 'x', position: 1 }));
    assert_eq!(
        parse(r#""\uDFFF""#),
        Err(JsonError::InvalidUnicode { sequence: "DFFF".to_string(), position: 1 })
    );
}

#[test]
fn stream_form_feed_is_not_whitespace() {
    assert_eq!(
        parse("\u{000C}1"),
        Err(JsonError::UnexpectedToken {
            expected: "JSON value".to_string(),
            found: "\u{000C}".to_string(),
            position: 0,
        })
    );
}

#[test]
fn stream_keeps_non_ascii_text() {
    let v = parse("{\"cl\u{e9}\": \"\u{4e2d}\u{6587} \\u00e9\\n\u{1F600}\"}").unwrap();
    assert_eq!(v.get("cl\u{e9}").and_then(|x| x.as_str()), Some("\u{4e2d}\u{6587} \u{e9}\n\u{1F600}"));
}

#[test]
fn stream_whitespace_around_everything() {
    let v = parse(" \t\r\n{ \"a\" : [ 1 , true , null ] }\n ").unwrap();
    let a = v.get("a").unwrap();
    assert_eq!(a.get_index(1).and_then(|x| x.as_bool()), Some(true));
    assert!(a.get_index(2).unwrap().is_null());
}

#[test]
fn stream_rejects_numbers_outside_json_grammar() {
    for bad in ["007", "-01", "1.", "-", "1.e5", "2e"].iter() {
        assert_eq!(
            parse(bad),
            Err(JsonError::InvalidNumber { value: bad.to_string(), position: 0 }),
            "{}",
            bad
        );
    }
    assert!(parse("[0, -0.0, 1.5E+10, 10e-2]").is_ok());
}
