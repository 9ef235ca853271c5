use rust_json_parser::parser::JsonParser;
use rust_json_parser::tokenizer::Tokenizer;
use rust_json_parser::{parse_json, JsonObject, JsonValue};

#[test]
fn built_value_serializes_and_parses_back() {
    let mut inner = JsonObject::new();
    inner.insert("k".to_string(), JsonValue::Text("tab\there \"q\" \\ é".to_string()));
    inner.insert("e".to_string(), JsonValue::Number("-0.5E+7".to_string()));
    let value = JsonValue::Array(vec![
        JsonValue::Null,
        JsonValue::Boolean(false),
        JsonValue::Number("12".to_string()),
        JsonValue::Object(inner),
        JsonValue::Array(vec![]),
        JsonValue::Text("\r\n".to_string()),
    ]);
    let text = value.to_string();
    assert_eq!(text, r#"[null,false,12,{"k":"tab\there \"q\" \\ é","e":-0.5E+7},[],"\r\n"]"#);
    assert_eq!(parse_json(&text).unwrap(), value);
}

#[test]
fn parsing_serialized_parse_result_gives_same_value() {
    let input = " { \"a\" : [ 1 , 2.5e-3 ] , \"a\" : { \"b\" : \"\\u0041\\/\" } , \"c\" : -0 } ";
    let value = parse_json(input).unwrap();
    let text = value.to_string();
    assert_eq!(text, r#"{"a":{"b":"A/"},"c":-0}"#);
    assert_eq!(parse_json(&text).unwrap(), value);
}

#[test]
fn parse_errors_point_into_the_input() {
    let inputs = ["", "   ", "[1,", "{\"a\"", "\"abc", "\"\\u12", "\"\\", "nul", "[1 2]", "1 x", "{\"a\":1,}"];
    for input in inputs.iter() {
        let err = parse_json(input).unwrap_err();
        assert!(err.position() <= input.len(), "{:?} at {}", input, err.position());
    }
    assert_eq!(parse_json("\"\\u12").unwrap_err().position(), 1);
    assert_eq!(parse_json("\"abc").unwrap_err().position(), 4);
}

#[test]
fn tokenize_errors_point_into_the_input() {
    let inputs = ["\"abc", "\"\\u12", "\"\\", "tru", "fals", "@", "-", "1e", "\"\\x\""];
    for input in inputs.iter() {
        let err = Tokenizer::new(input).tokenize().unwrap_err();
        assert!(err.position() <= input.len(), "{:?} at {}", input, err.position());
    }
    assert_eq!(Tokenizer::new("  tru").tokenize().unwrap_err().position(), 2);
}

#[test]
fn token_parse_errors_point_into_the_input() {
    let inputs = ["[", "[1,", "[1 2]", "{\"a\" 1}", "{\"a\":1,}", "{1:2}", "]", "[1,]", "{\"a\":"];
    for input in inputs.iter() {
        let err = JsonParser::new(input).unwrap().parse().unwrap_err();
        assert!(err.position() <= input.len(), "{:?} at {}", input, err.position());
    }
    assert_eq!(JsonParser::new("[").unwrap().parse().unwrap_err().position(), 1);
    assert_eq!(JsonParser::new("  [1, ]").unwrap().parse().unwrap_err().position(), 6);
}

#[test]
fn two_pass_route_reads_serialized_text_back() {
    let mut obj = JsonObject::new();
    obj.insert("list".to_string(), JsonValue::Array(vec![JsonValue::Number("1e3".to_string()), JsonValue::Null]));
    obj.insert("s".to_string(), JsonValue::Text("\"\\\n".to_string()));
    let value = JsonValue::Object(obj);
    let text = value.to_string();
    let tokens = Tokenizer::new(&text).tokenize().unwrap();
    assert_eq!(tokens.len(), 13);
    let mut parser = JsonParser::new(&text).unwrap();
    assert_eq!(parser.parse().unwrap(), value);
}

#[test]
fn both_parsers_agree_on_accepted_documents() {
    let inputs = [
        " {\"a\": [1, -2.5e+3, true, false, null], \"a\": \"dup\", \"b\": {\"c\": []}}\n",
        "\t[\"\\u00e9\\n\\\"x\\\"\", {}, [[]]]\r\n",
        "\"caf\u{e9} \\/ \\b\\f\"",
        "0",
    ];
    for input in inputs.iter() {
        let single = parse_json(input).unwrap();
        let tokens = Tokenizer::new(input).tokenize().unwrap();
        assert!(!tokens.is_empty());
        let two_pass = JsonParser::new(input).unwrap().parse().unwrap();
        assert_eq!(single, two_pass);
    }
}
