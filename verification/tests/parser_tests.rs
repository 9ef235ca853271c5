use rust_json_parser::parser::JsonParser;
use rust_json_parser::{parse_json, JsonError, JsonObject, JsonValue};
use std::collections::HashMap;

/// A value with numbers read as `f64` and objects as maps, for comparing
/// with expected values.
#[derive(Debug, PartialEq)]
enum V {
    Null,
    Bool(bool),
    Num(f64),
    Text(String),
    Arr(Vec<V>),
    Obj(HashMap<String, V>),
}

fn v(x: &JsonValue) -> V {
    match x {
        JsonValue::Null => V::Null,
        JsonValue::Boolean(b) => V::Bool(*b),
        JsonValue::Number(n) => V::Num(n.parse::<f64>().unwrap()),
        JsonValue::Text(s) => V::Text(s.clone()),
        JsonValue::Array(a) => V::Arr(a.iter().map(v).collect()),
        JsonValue::Object(o) => V::Obj(o.entries().iter().map(|(k, x)| (k.clone(), v(x))).collect()),
    }
}

// === arrays ===

#[test]
fn test_parse_empty_array() {
    let value = parse_json("[]").unwrap();
    assert_eq!(value, JsonValue::Array(vec![]));
}

#[test]
fn test_parse_array_single() {
    let value = parse_json("[1]").unwrap();
    assert_eq!(v(&value), V::Arr(vec![V::Num(1.0)]));
}

#[test]
fn test_parse_array_multiple() {
    let value = parse_json("[1, 2, 3]").unwrap();
    let expected = V::Arr(vec![V::Num(1.0), V::Num(2.0), V::Num(3.0)]);
    assert_eq!(v(&value), expected);
}

#[test]
fn test_parse_array_mixed_types() {
    let value = parse_json(r#"[1, "two", true, null]"#).unwrap();
    let expected = V::Arr(vec![V::Num(1.0), V::Text("two".to_string()), V::Bool(true), V::Null]);
    assert_eq!(v(&value), expected);
}

#[test]
fn test_parse_nested_arrays() {
    let value = parse_json("[[1, 2], [3, 4]]").unwrap();
    let expected = V::Arr(vec![
        V::Arr(vec![V::Num(1.0), V::Num(2.0)]),
        V::Arr(vec![V::Num(3.0), V::Num(4.0)]),
    ]);
    assert_eq!(v(&value), expected);
}

#[test]
fn test_parse_deeply_nested() {
    let value = parse_json("[[[1]]]").unwrap();
    let expected = V::Arr(vec![V::Arr(vec![V::Arr(vec![V::Num(1.0)])])]);
    assert_eq!(v(&value), expected);
}

#[test]
fn test_array_accessor() {
    let value = parse_json("[1, 2, 3]").unwrap();
    let arr = value.as_array().unwrap();
    assert_eq!(arr.len(), 3);
}

#[test]
fn test_array_get_index() {
    let value = parse_json("[10, 20, 30]").unwrap();
    assert_eq!(value.get_index(1).map(v), Some(V::Num(20.0)));
    assert_eq!(value.get_index(5), None);
}

// === objects ===

#[test]
fn test_parse_empty_object() {
    let value = parse_json("{}").unwrap();
    assert_eq!(value, JsonValue::Object(JsonObject::default()));
}

#[test]
fn test_parse_object_single_key() {
    let value = parse_json(r#"{"key": "value"}"#).unwrap();
    let mut expected = JsonObject::default();
    expected.insert("key".to_string(), JsonValue::Text("value".to_string()));
    assert_eq!(value, JsonValue::Object(expected));
}

#[test]
fn test_parse_object_multiple_keys() {
    let value = parse_json(r#"{"name": "Alice", "age": 30}"#).unwrap();
    if let JsonValue::Object(obj) = value {
        assert_eq!(obj.get("name"), Some(&JsonValue::Text("Alice".to_string())));
        assert_eq!(obj.get("age").map(v), Some(V::Num(30.0)));
    } else {
        panic!("Expected object");
    }
}

#[test]
fn test_parse_nested_object() {
    let value = parse_json(r#"{"outer": {"inner": 1}}"#).unwrap();
    if let JsonValue::Object(outer) = value {
        if let Some(JsonValue::Object(inner)) = outer.get("outer") {
            assert_eq!(inner.get("inner").map(v), Some(V::Num(1.0)));
        } else {
            panic!("Expected nested object");
        }
    } else {
        panic!("Expected object");
    }
}

#[test]
fn test_parse_array_in_object() {
    let value = parse_json(r#"{"items": [1, 2, 3]}"#).unwrap();
    if let JsonValue::Object(obj) = value {
        if let Some(JsonValue::Array(arr)) = obj.get("items") {
            assert_eq!(arr.len(), 3);
        } else {
            panic!("Expected array");
        }
    } else {
        panic!("Expected object");
    }
}

#[test]
fn test_parse_object_in_array() {
    let value = parse_json(r#"[{"a": 1}, {"b": 2}]"#).unwrap();
    if let JsonValue::Array(arr) = value {
        assert_eq!(arr.len(), 2);
    } else {
        panic!("Expected array");
    }
}

#[test]
fn test_object_accessor() {
    let value = parse_json(r#"{"name": "test"}"#).unwrap();
    let obj = value.as_object().unwrap();
    assert_eq!(obj.len(), 1);
}

#[test]
fn test_object_get() {
    let value = parse_json(r#"{"name": "Alice", "age": 30}"#).unwrap();
    assert_eq!(value.get("name"), Some(&JsonValue::Text("Alice".to_string())));
    assert_eq!(value.get("missing"), None);
}

// === errors ===

#[test]
fn test_error_unclosed_array() {
    let result = parse_json("[1, 2");
    assert!(result.is_err());
}

#[test]
fn test_error_unclosed_object() {
    let result = parse_json(r#"{"key": 1"#);
    assert!(result.is_err());
}

#[test]
fn test_error_trailing_comma_array() {
    let result = parse_json("[1, 2,]");
    assert!(result.is_err());
}

#[test]
fn test_error_trailing_comma_object() {
    let result = parse_json(r#"{"a": 1,}"#);
    assert!(result.is_err());
}

#[test]
fn test_error_missing_colon() {
    let result = parse_json(r#"{"key" 1}"#);
    assert!(result.is_err());
}

#[test]
fn test_error_invalid_key() {
    let result = parse_json(r#"{123: "value"}"#);
    assert!(result.is_err());
}

#[test]
fn test_error_missing_comma_array() {
    let result = parse_json("[1 2 3]");
    assert!(result.is_err());
}

#[test]
fn test_error_missing_comma_object() {
    let result = parse_json(r#"{"a": 1 "b": 2}"#);
    assert!(result.is_err());
}

// === the two-pass parser ===

fn two_pass(input: &str) -> Result<JsonValue, JsonError> {
    JsonParser::new(input).and_then(|mut p| p.parse())
}

#[test]
fn two_pass_parses_values() {
    let value = two_pass(r#"{"arr": [1, 2, {"x": null}], "s": "a\nb"}"#).unwrap();
    assert_eq!(value.get("s"), Some(&JsonValue::Text("a\nb".to_string())));
    let arr = value.get("arr").unwrap().as_array().unwrap();
    assert_eq!(arr.len(), 3);
    assert_eq!(arr[2].get("x"), Some(&JsonValue::Null));
    assert_eq!(
        v(&two_pass(r#""Hello\nWorld\t\"quoted\"\u0041""#).unwrap()),
        V::Text("Hello\nWorld\t\"quoted\"A".to_string())
    );
}

#[test]
fn two_pass_errors_carry_byte_positions() {
    assert_eq!(
        two_pass("[1, 2,]"),
        Err(JsonError::UnexpectedToken { expected: "value".to_string(), found: "]".to_string(), position: 6 })
    );
    assert_eq!(
        two_pass("[1 2]"),
        Err(JsonError::UnexpectedToken { expected: ", or ]".to_string(), found: "Number(2)".to_string(), position: 3 })
    );
    assert_eq!(
        two_pass("[1, 2"),
        Err(JsonError::UnexpectedEndOfInput { expected: "] or ,".to_string(), position: 5 })
    );
    assert_eq!(
        two_pass(r#"{"a": 1,}"#),
        Err(JsonError::UnexpectedToken { expected: "string key".to_string(), found: "}".to_string(), position: 8 })
    );
    assert_eq!(
        two_pass(r#"{"key" 1}"#),
        Err(JsonError::UnexpectedToken { expected: ":".to_string(), found: "Number(1)".to_string(), position: 7 })
    );
    assert_eq!(
        two_pass(r#"{123: "value"}"#),
        Err(JsonError::UnexpectedToken { expected: "string key".to_string(), found: "Number(123)".to_string(), position: 1 })
    );
    assert_eq!(
        two_pass(r#"{"a" : "b" "c"}"#),
        Err(JsonError::UnexpectedToken {
            expected: ", or }".to_string(),
            found: "String(\"c\")".to_string(),
            position: 11,
        })
    );
    assert_eq!(
        two_pass(""),
        Err(JsonError::UnexpectedEndOfInput { expected: "JSON value".to_string(), position: 0 })
    );
    assert_eq!(
        two_pass("]"),
        Err(JsonError::UnexpectedToken { expected: "JSON value".to_string(), found: "RightBracket".to_string(), position: 0 })
    );
    assert_eq!(
        two_pass(r#""\q""#),
        Err(JsonError::InvalidEscape { ch: 'q', position: 1 })
    );
    assert_eq!(
        two_pass("["),
        Err(JsonError::UnexpectedEndOfInput { expected: "JSON value".to_string(), position: 1 })
    );
}

#[test]
fn two_pass_parse_reads_one_value_at_a_time() {
    let mut parser = JsonParser::new("1 [2] {}").unwrap();
    assert_eq!(parser.parse().map(|x| v(&x)), Ok(V::Num(1.0)));
    assert_eq!(parser.parse().map(|x| v(&x)), Ok(V::Arr(vec![V::Num(2.0)])));
    assert_eq!(parser.parse().map(|x| v(&x)), Ok(V::Obj(HashMap::new())));
    assert_eq!(
        parser.parse(),
        Err(JsonError::UnexpectedEndOfInput { expected: "JSON value".to_string(), position: 8 })
    );
}

#[test]
fn duplicate_keys_last_wins() {
    let value = parse_json(r#"{"a": 1, "b": 2, "a": 3}"#).unwrap();
    let obj = value.as_object().unwrap();
    assert_eq!(obj.len(), 2);
    assert_eq!(obj.get("a").map(v), Some(V::Num(3.0)));
    assert_eq!(obj.entries()[0].0, "a");
    let value = two_pass(r#"{"a": 1, "a": "x"}"#).unwrap();
    assert_eq!(value.get("a"), Some(&JsonValue::Text("x".to_string())));
    assert_eq!(value.as_object().unwrap().len(), 1);
}
