use rust_json_parser::tokenizer::{Token, Tokenizer};
use rust_json_parser::JsonError;

/// A token with its number read as `f64`, for comparing with expected values.
#[derive(Debug, PartialEq)]
enum T {
    LeftBrace,
    RightBrace,
    LeftBracket,
    RightBracket,
    Comma,
    Colon,
    Str(String),
    Num(f64),
    Bool(bool),
    Null,
}

fn t(token: &Token) -> T {
    match token {
        Token::LeftBrace => T::LeftBrace,
        Token::RightBrace => T::RightBrace,
        Token::LeftBracket => T::LeftBracket,
        Token::RightBracket => T::RightBracket,
        Token::Comma => T::Comma,
        Token::Colon => T::Colon,
        Token::String(s) => T::Str(s.clone()),
        Token::Number(n) => T::Num(n.parse::<f64>().unwrap()),
        Token::Boolean(b) => T::Bool(*b),
        Token::Null => T::Null,
    }
}

fn ts(tokens: &[Token]) -> Vec<T> {
    tokens.iter().map(t).collect()
}

#[test]
fn test_tokenizer_struct_creation() {}

#[test]
fn test_tokenizer_multiple_tokens() {
    let mut tokenizer = Tokenizer::new("123 456");
    let tokens = tokenizer.tokenize().unwrap();
    assert_eq!(tokens.len(), 2);
}

#[test]
fn test_tokenize_number() {
    let mut tokenizer = Tokenizer::new("42");
    let tokens = tokenizer.tokenize().unwrap();
    assert_eq!(ts(&tokens), vec![T::Num(42.0)]);
}

#[test]
fn test_tokenize_negative_number() {
    let mut tokenizer = Tokenizer::new("-3.14");
    let tokens = tokenizer.tokenize().unwrap();
    assert_eq!(ts(&tokens), vec![T::Num(-3.14)]);
}

#[test]
fn test_tokenize_literals() {
    let mut t1 = Tokenizer::new("true");
    assert_eq!(t1.tokenize().unwrap(), vec![Token::Boolean(true)]);

    let mut t2 = Tokenizer::new("false");
    assert_eq!(t2.tokenize().unwrap(), vec![Token::Boolean(false)]);

    let mut t3 = Tokenizer::new("null");
    assert_eq!(t3.tokenize().unwrap(), vec![Token::Null]);
}

#[test]
fn test_tokenize_simple_string() {
    let mut tokenizer = Tokenizer::new(r#""hello""#);
    let tokens = tokenizer.tokenize().unwrap();
    assert_eq!(tokens, vec![Token::String("hello".to_string())]);
}

#[test]
fn test_escape_newline() {
    let mut tokenizer = Tokenizer::new(r#""hello\nworld""#);
    let tokens = tokenizer.tokenize().unwrap();
    assert_eq!(tokens, vec![Token::String("hello\nworld".to_string())]);
}

#[test]
fn test_escape_tab() {
    let mut tokenizer = Tokenizer::new(r#""col1\tcol2""#);
    let tokens = tokenizer.tokenize().unwrap();
    assert_eq!(tokens, vec![Token::String("col1\tcol2".to_string())]);
}

#[test]
fn test_escape_quote() {
    let mut tokenizer = Tokenizer::new(r#""say \"hi\"""#);
    let tokens = tokenizer.tokenize().unwrap();
    assert_eq!(tokens, vec![Token::String("say \"hi\"".to_string())]);
}

#[test]
fn test_escape_backslash() {
    let mut tokenizer = Tokenizer::new(r#""path\\to\\file""#);
    let tokens = tokenizer.tokenize().unwrap();
    assert_eq!(tokens, vec![Token::String("path\\to\\file".to_string())]);
}

#[test]
fn test_escape_forward_slash() {
    let mut tokenizer = Tokenizer::new(r#""a\/b""#);
    let tokens = tokenizer.tokenize().unwrap();
    assert_eq!(tokens, vec![Token::String("a/b".to_string())]);
}

#[test]
fn test_escape_carriage_return() {
    let mut tokenizer = Tokenizer::new(r#""line\r\n""#);
    let tokens = tokenizer.tokenize().unwrap();
    assert_eq!(tokens, vec![Token::String("line\r\n".to_string())]);
}

#[test]
fn test_escape_backspace_formfeed() {
    let mut tokenizer = Tokenizer::new(r#""\b\f""#);
    let tokens = tokenizer.tokenize().unwrap();
    assert_eq!(tokens, vec![Token::String("\u{0008}\u{000C}".to_string())]);
}

#[test]
fn test_multiple_escapes() {
    let mut tokenizer = Tokenizer::new(r#""a\nb\tc\"""#);
    let tokens = tokenizer.tokenize().unwrap();
    assert_eq!(tokens, vec![Token::String("a\nb\tc\"".to_string())]);
}

#[test]
fn test_unicode_escape_basic() {
    let mut tokenizer = Tokenizer::new(r#""\u0041""#);
    let tokens = tokenizer.tokenize().unwrap();
    assert_eq!(tokens, vec![Token::String("A".to_string())]);
}

#[test]
fn test_unicode_escape_multiple() {
    let mut tokenizer = Tokenizer::new(r#""\u0048\u0069""#);
    let tokens = tokenizer.tokenize().unwrap();
    assert_eq!(tokens, vec![Token::String("Hi".to_string())]);
}

#[test]
fn test_unicode_escape_mixed() {
    let mut tokenizer = Tokenizer::new(r#""Hello \u0057orld""#);
    let tokens = tokenizer.tokenize().unwrap();
    assert_eq!(tokens, vec![Token::String("Hello World".to_string())]);
}

#[test]
fn test_unicode_escape_lowercase() {
    let mut tokenizer = Tokenizer::new(r#""\u004a""#);
    let tokens = tokenizer.tokenize().unwrap();
    assert_eq!(tokens, vec![Token::String("J".to_string())]);
}

#[test]
fn test_invalid_escape_sequence() {
    let mut tokenizer = Tokenizer::new(r#""\q""#);
    let result = tokenizer.tokenize();
    assert!(matches!(result, Err(JsonError::InvalidEscape { .. })));
}

#[test]
fn test_invalid_unicode_too_short() {
    let mut tokenizer = Tokenizer::new(r#""\u004""#);
    let result = tokenizer.tokenize();
    assert!(matches!(result, Err(JsonError::InvalidUnicode { .. })));
}

#[test]
fn test_invalid_unicode_bad_hex() {
    let mut tokenizer = Tokenizer::new(r#""\u00GG""#);
    let result = tokenizer.tokenize();
    assert!(matches!(result, Err(JsonError::InvalidUnicode { .. })));
}

#[test]
fn test_unterminated_string_with_escape() {
    let mut tokenizer = Tokenizer::new(r#""hello\n"#);
    let result = tokenizer.tokenize();
    assert!(result.is_err());
}

// ---- further cases ----

#[test]
fn tokenize_structure_of_object() {
    let mut tokenizer = Tokenizer::new(r#"{"name": "Alice"}"#);
    let tokens = tokenizer.tokenize().unwrap();
    assert_eq!(
        tokens,
        vec![
            Token::LeftBrace,
            Token::String("name".to_string()),
            Token::Colon,
            Token::String("Alice".to_string()),
            Token::RightBrace,
        ]
    );
}

#[test]
fn tokenize_keeps_number_text() {
    let mut tokenizer = Tokenizer::new("[1.5e-3, -0, 10]");
    let tokens = tokenizer.tokenize().unwrap();
    assert_eq!(
        tokens,
        vec![
            Token::LeftBracket,
            Token::Number("1.5e-3".to_string()),
            Token::Comma,
            Token::Number("-0".to_string()),
            Token::Comma,
            Token::Number("10".to_string()),
            Token::RightBracket,
        ]
    );
}

#[test]
fn tokenize_form_feed_is_whitespace() {
    let mut tokenizer = Tokenizer::new("1\u{000C}2");
    assert_eq!(ts(&tokenizer.tokenize().unwrap()), vec![T::Num(1.0), T::Num(2.0)]);
}

#[test]
fn tokenize_invalid_number() {
    let mut tokenizer = Tokenizer::new("1.2.3");
    let r = tokenizer.tokenize();
    assert_eq!(r, Err(JsonError::InvalidNumber { value: "1.2.3".to_string(), position: 0 }));
    let mut tokenizer = Tokenizer::new(" -");
    let r = tokenizer.tokenize();
    assert_eq!(r, Err(JsonError::InvalidNumber { value: "-".to_string(), position: 1 }));
    let mut tokenizer = Tokenizer::new("1e");
    assert!(matches!(tokenizer.tokenize(), Err(JsonError::InvalidNumber { .. })));
    let mut tokenizer = Tokenizer::new("1.");
    assert_eq!(tokenizer.tokenize(), Err(JsonError::InvalidNumber { value: "1.".to_string(), position: 0 }));
    let mut tokenizer = Tokenizer::new("007");
    assert_eq!(tokenizer.tokenize(), Err(JsonError::InvalidNumber { value: "007".to_string(), position: 0 }));
    let mut tokenizer = Tokenizer::new("-0.5e-3 0 10");
    assert_eq!(tokenizer.tokenize().unwrap().len(), 3);
}

#[test]
fn tokenize_unexpected_character() {
    let mut tokenizer = Tokenizer::new("[1, @]");
    let r = tokenizer.tokenize();
    assert_eq!(
        r,
        Err(JsonError::UnexpectedToken {
            expected: "valid JSON token".to_string(),
            found: "@".to_string(),
            position: 4,
        })
    );
}

#[test]
fn tokenize_bad_keyword_reports_bytes_read() {
    let mut tokenizer = Tokenizer::new("trux");
    let r = tokenizer.tokenize();
    assert_eq!(
        r,
        Err(JsonError::UnexpectedToken { expected: "true".to_string(), found: "trux".to_string(), position: 0 })
    );
    let mut tokenizer = Tokenizer::new("nu");
    let r = tokenizer.tokenize();
    assert_eq!(
        r,
        Err(JsonError::UnexpectedToken { expected: "null".to_string(), found: "nu".to_string(), position: 0 })
    );
}

#[test]
fn tokenize_escape_errors_in_detail() {
    let mut tokenizer = Tokenizer::new(r#""\q""#);
    assert_eq!(tokenizer.tokenize(), Err(JsonError::InvalidEscape { ch: 'q', position: 1 }));
    let mut tokenizer = Tokenizer::new(r#""\u00GG""#);
    assert_eq!(
        tokenizer.tokenize(),
        Err(JsonError::InvalidUnicode { sequence: "00GG".to_string(), position: 1 })
    );
    let mut tokenizer = Tokenizer::new(r#""\u12"#);
    assert_eq!(
        tokenizer.tokenize(),
        Err(JsonError::InvalidUnicode { sequence: "12".to_string(), position: 1 })
    );
    let mut tokenizer = Tokenizer::new(r#""\uD800""#);
    assert_eq!(
        tokenizer.tokenize(),
        Err(JsonError::InvalidUnicode { sequence: "D800".to_string(), position: 1 })
    );
    let mut tokenizer = Tokenizer::new(r#""abc\"#);
    assert_eq!(
        tokenizer.tokenize(),
        Err(JsonError::UnexpectedEndOfInput { expected: "escape character".to_string(), position: 5 })
    );
    let mut tokenizer = Tokenizer::new(r#""abc"#);
    assert_eq!(
        tokenizer.tokenize(),
        Err(JsonError::UnexpectedEndOfInput { expected: "closing quote".to_string(), position: 4 })
    );
}

#[test]
fn tokenize_non_ascii_and_unicode_escapes() {
    let mut tokenizer = Tokenizer::new("\"h\u{e9}llo \\u00e9 \\u4e2d\"");
    let tokens = tokenizer.tokenize().unwrap();
    assert_eq!(tokens, vec![Token::String("h\u{e9}llo \u{e9} \u{4e2d}".to_string())]);
}

#[test]
fn tokenize_again_after_the_end_gives_nothing() {
    let mut tokenizer = Tokenizer::new("[]");
    assert_eq!(tokenizer.tokenize().unwrap().len(), 2);
    assert_eq!(tokenizer.tokenize().unwrap().len(), 0);
}

#[test]
fn unicode_escape_errors_keep_non_ascii_characters() {
    let mut tokenizer = Tokenizer::new("\"\\u00\u{e9}1\"");
    assert_eq!(
        tokenizer.tokenize(),
        Err(JsonError::InvalidUnicode { sequence: "00\u{e9}1".to_string(), position: 1 })
    );
    let mut tokenizer = Tokenizer::new("\"\\u0\u{e9}");
    assert_eq!(
        tokenizer.tokenize(),
        Err(JsonError::InvalidUnicode { sequence: "0\u{e9}".to_string(), position: 1 })
    );
}
