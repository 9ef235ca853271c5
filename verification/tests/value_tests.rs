use rust_json_parser::parser::JsonParser;
use rust_json_parser::value::escape_json_string;
use rust_json_parser::{parse_json, JsonObject, JsonValue};

/// A number value written the way `Display` writes an `f64`.
fn number(x: f64) -> JsonValue {
    JsonValue::Number(format!("{}", x))
}

#[test]
fn test_display_primitives() {
    assert_eq!(JsonValue::Null.to_string(), "null");
    assert_eq!(JsonValue::Boolean(true).to_string(), "true");
    assert_eq!(JsonValue::Boolean(false).to_string(), "false");
    assert_eq!(number(42.0).to_string(), "42");
    assert_eq!(number(3.14).to_string(), "3.14");
    assert_eq!(JsonValue::Text("hello".to_string()).to_string(), "\"hello\"");
}

#[test]
fn test_display_array() {
    let value = JsonValue::Array(vec![number(1.0), number(2.0)]);
    assert_eq!(value.to_string(), "[1,2]");
}

#[test]
fn test_display_empty_containers() {
    assert_eq!(JsonValue::Array(vec![]).to_string(), "[]");
    assert_eq!(JsonValue::Object(JsonObject::new()).to_string(), "{}");
}

#[test]
fn test_display_escape_string() {
    let value = JsonValue::Text("hello\nworld".to_string());
    assert_eq!(value.to_string(), "\"hello\\nworld\"");
}

#[test]
fn test_display_escape_quotes() {
    let value = JsonValue::Text("say \"hi\"".to_string());
    assert_eq!(value.to_string(), "\"say \\\"hi\\\"\"");
}

#[test]
fn test_display_nested() {
    let value = JsonParser::new(r#"{"arr": [1, 2]}"#).unwrap().parse().unwrap();
    let output = value.to_string();
    assert!(output.contains("\"arr\""));
    assert!(output.contains("[1,2]"));
}

#[test]
fn test_display_nested_array() {
    let value = JsonValue::Array(vec![JsonValue::Array(vec![number(1.0), number(2.0)])]);
    assert_eq!(value.to_string(), "[[1,2]]");
}

// ---- further cases ----

#[test]
fn escape_json_string_escapes_five_characters() {
    assert_eq!(escape_json_string("a\"b\\c\nd\re\tf\u{8}g"), "a\\\"b\\\\c\\nd\\re\\tf\u{8}g");
    assert_eq!(escape_json_string(""), "");
    assert_eq!(escape_json_string("\u{e9}\u{4e2d}"), "\u{e9}\u{4e2d}");
}

#[test]
fn display_object_members_in_insertion_order() {
    let mut o = JsonObject::new();
    o.insert("b".to_string(), JsonValue::Null);
    o.insert("a\"".to_string(), JsonValue::Array(vec![]));
    o.insert("b".to_string(), JsonValue::Boolean(true));
    assert_eq!(JsonValue::Object(o).to_string(), "{\"b\":true,\"a\\\"\":[]}");
}

#[test]
fn serialized_text_parses_back() {
    let inputs = [
        r#"{"name": "Alice", "tags": ["x", "y\n\"z\""], "n": -1.5e3, "ok": true, "none": null}"#,
        r#"[[], {}, [{}], "\u00e9\t\\", 0]"#,
        "\"\u{1F600} \\u0001\"",
    ];
    for input in inputs.iter() {
        let value = parse_json(input).unwrap();
        let text = value.to_string();
        assert_eq!(parse_json(&text).unwrap(), value);
        let again = JsonParser::new(&text).unwrap().parse().unwrap();
        assert_eq!(again, value);
    }
}

#[test]
fn accessors_pick_the_right_variant() {
    let v = parse_json(r#"{"t": "s", "n": 2, "b": false, "z": null, "a": [1], "o": {}}"#).unwrap();
    assert_eq!(v.get("t").unwrap().as_str(), Some("s"));
    assert_eq!(v.get("n").unwrap().as_number(), Some("2"));
    assert_eq!(v.get("b").unwrap().as_bool(), Some(false));
    assert!(v.get("z").unwrap().is_null());
    assert_eq!(v.get("a").unwrap().as_array().map(|a| a.len()), Some(1));
    assert!(v.get("o").unwrap().as_object().unwrap().is_empty());
    assert_eq!(v.get("t").unwrap().as_number(), None);
    assert_eq!(v.get("n").unwrap().as_str(), None);
    assert_eq!(v.get("a").unwrap().get("x"), None);
    assert_eq!(v.get("o").unwrap().get_index(0), None);
    assert!(!v.is_null());
}
