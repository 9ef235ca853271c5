use rust_json_parser::error::python_message;
use rust_json_parser::JsonError;

#[test]
fn test_invalid_escape_display() {
    let err = JsonError::InvalidEscape { ch: 'q', position: 5 };
    let msg = err.to_string();
    assert!(msg.contains("escape"));
    assert!(msg.contains("q"));
}

#[test]
fn test_invalid_unicode_display() {
    let err = JsonError::InvalidUnicode { sequence: "00GG".to_string(), position: 3 };
    let msg = err.to_string();
    assert!(msg.contains("unicode") || msg.contains("Unicode"));
}

/// A `JsonError` carries everything a `std::error::Error` needs: a message
/// and `Debug`.
#[derive(Debug)]
struct Reported(JsonError);

impl std::fmt::Display for Reported {
    fn fmt(&self, f: &mut std::fmt::Formatter<'_>) -> std::fmt::Result {
        f.write_str(&self.0.to_string())
    }
}

impl std::error::Error for Reported {}

#[test]
fn test_error_is_std_error() {
    let err = JsonError::InvalidEscape { ch: 'x', position: 0 };
    let reported = Reported(err);
    let as_error: &dyn std::error::Error = &reported;
    assert!(!as_error.to_string().is_empty());
}

#[test]
fn error_messages_are_exact() {
    let e = JsonError::UnexpectedToken { expected: ":".to_string(), found: "1".to_string(), position: 7 };
    assert_eq!(e.to_string(), "Unexpected token at position 7: expected :, found 1");
    let e = JsonError::UnexpectedEndOfInput { expected: "] or ,".to_string(), position: 120 };
    assert_eq!(e.to_string(), "Unexpected end of input at position 120: expected ] or ,");
    let e = JsonError::InvalidNumber { value: "1.2.3".to_string(), position: 0 };
    assert_eq!(e.to_string(), "Invalid number '1.2.3' at position 0");
    let e = JsonError::InvalidEscape { ch: 'q', position: 5 };
    assert_eq!(e.to_string(), "Invalid escape sequence '\\q' at position 5");
    let e = JsonError::InvalidUnicode { sequence: "00GG".to_string(), position: 3 };
    assert_eq!(e.to_string(), "Invalid Unicode '\\u00GG' at position 3");
}

#[test]
fn error_position_is_reported() {
    let e = JsonError::InvalidEscape { ch: 'q', position: 42 };
    assert_eq!(e.position(), 42);
    let e = JsonError::UnexpectedEndOfInput { expected: "x".to_string(), position: 9 };
    assert_eq!(e.position(), 9);
}

#[test]
fn python_messages_name_the_problem_and_position() {
    assert_eq!(
        python_message(&JsonError::UnexpectedToken { expected: "]".to_string(), found: "x".to_string(), position: 3 }),
        "JSON parse error at position 3: expected ], found x"
    );
    assert_eq!(
        python_message(&JsonError::UnexpectedEndOfInput { expected: "JSON value".to_string(), position: 0 }),
        "Unexpected end of input at position 0: expected JSON value"
    );
    assert_eq!(
        python_message(&JsonError::InvalidNumber { value: "007".to_string(), position: 12 }),
        "Invalid number '007' at position 12"
    );
    assert_eq!(
        python_message(&JsonError::InvalidEscape { ch: 'q', position: 1 }),
        "Invalid escape '\\q' at position 1"
    );
    assert_eq!(
        python_message(&JsonError::InvalidUnicode { sequence: "00GG".to_string(), position: 1 }),
        "Invalid unicode escape '\\u00GG' at position 1"
    );
}
