//! Errors reported while tokenizing or parsing JSON.

use vstd::prelude::*;
use crate::text::{decimal_text, push_decimal, push_text};

verus! {

/// Errors that can occur while tokenizing or parsing JSON.
///
/// Every variant carries a `position`, a byte offset into the input, so the
/// caller can report where things went wrong.
#[derive(Debug, Clone, PartialEq)]
pub enum JsonError {
    /// A token was found where a different one was expected.
    UnexpectedToken { expected: String, found: String, position: usize },
    /// Input ended while the parser was still expecting more.
    UnexpectedEndOfInput { expected: String, position: usize },
    /// A numeric literal that is not a valid number.
    InvalidNumber { value: String, position: usize },
    /// An unknown `\X` escape sequence inside a string literal.
    InvalidEscape { ch: char, position: usize },
    /// A `\uXXXX` escape where `XXXX` is not a valid code point in hex.
    InvalidUnicode { sequence: String, position: usize },
}

/// The mathematical content of a `JsonError`: its variant, its texts as
/// character sequences, and its position.
pub enum JsonErrorView {
    UnexpectedToken { expected: Seq<char>, found: Seq<char>, position: nat },
    UnexpectedEndOfInput { expected: Seq<char>, position: nat },
    InvalidNumber { value: Seq<char>, position: nat },
    InvalidEscape { ch: char, position: nat },
    InvalidUnicode { sequence: Seq<char>, position: nat },
}

impl View for JsonError {
    type V = JsonErrorView;

    open spec fn view(&self) -> JsonErrorView {
        match self {
            JsonError::UnexpectedToken { expected, found, position } =>
                JsonErrorView::UnexpectedToken { expected: expected@, found: found@, position: *position as nat },
            JsonError::UnexpectedEndOfInput { expected, position } =>
                JsonErrorView::UnexpectedEndOfInput { expected: expected@, position: *position as nat },
            JsonError::InvalidNumber { value, position } =>
                JsonErrorView::InvalidNumber { value: value@, position: *position as nat },
            JsonError::InvalidEscape { ch, position } =>
                JsonErrorView::InvalidEscape { ch: *ch, position: *position as nat },
            JsonError::InvalidUnicode { sequence, position } =>
                JsonErrorView::InvalidUnicode { sequence: sequence@, position: *position as nat },
        }
    }
}

impl JsonErrorView {
    /// The position every variant carries.
    pub open spec fn position(self) -> nat {
        match self {
            JsonErrorView::UnexpectedToken { position, .. } => position,
            JsonErrorView::UnexpectedEndOfInput { position, .. } => position,
            JsonErrorView::InvalidNumber { position, .. } => position,
            JsonErrorView::InvalidEscape { position, .. } => position,
            JsonErrorView::InvalidUnicode { position, .. } => position,
        }
    }

    /// The human-readable message for this error.
    pub open spec fn message(self) -> Seq<char> {
        match self {
            JsonErrorView::UnexpectedToken { expected, found, position } =>
                "Unexpected token at position "@ + decimal_text(position) + ": expected "@
                    + expected + ", found "@ + found,
            JsonErrorView::UnexpectedEndOfInput { expected, position } =>
                "Unexpected end of input at position "@ + decimal_text(position) + ": expected "@
                    + expected,
            JsonErrorView::InvalidNumber { value, position } =>
                "Invalid number '"@ + value + "' at position "@ + decimal_text(position),
            JsonErrorView::InvalidEscape { ch, position } =>
                "Invalid escape sequence '\\"@ + seq![ch] + "' at position "@ + decimal_text(position),
            JsonErrorView::InvalidUnicode { sequence, position } =>
                "Invalid Unicode '\\u"@ + sequence + "' at position "@ + decimal_text(position),
        }
    }
}

/// An unexpected-end-of-input error: what was expected, and where the input
/// ended.
pub open spec fn eoi(expected: Seq<char>, position: int) -> JsonErrorView {
    JsonErrorView::UnexpectedEndOfInput { expected, position: position as nat }
}

/// An unexpected-token error: what was expected, what was found, and where.
pub open spec fn unexpected(expected: Seq<char>, found: Seq<char>, position: int) -> JsonErrorView {
    JsonErrorView::UnexpectedToken { expected, found, position: position as nat }
}

/// The message a Python caller sees for an error, raised as `ValueError`.
pub open spec fn python_message_text(e: JsonErrorView) -> Seq<char> {
    match e {
        JsonErrorView::UnexpectedToken { expected, found, position } =>
            "JSON parse error at position "@ + decimal_text(position) + ": expected "@ + expected
                + ", found "@ + found,
        JsonErrorView::UnexpectedEndOfInput { expected, position } =>
            "Unexpected end of input at position "@ + decimal_text(position) + ": expected "@ + expected,
        JsonErrorView::InvalidNumber { value, position } =>
            "Invalid number '"@ + value + "' at position "@ + decimal_text(position),
        JsonErrorView::InvalidEscape { ch, position } =>
            "Invalid escape '\\"@ + seq![ch] + "' at position "@ + decimal_text(position),
        JsonErrorView::InvalidUnicode { sequence, position } =>
            "Invalid unicode escape '\\u"@ + sequence + "' at position "@ + decimal_text(position),
    }
}

/// The message a Python caller sees for `err`.
pub fn python_message(err: &JsonError) -> (m: String)
    ensures
        m@ == python_message_text(err@),
{
    let mut s = String::new();
    match err {
        JsonError::UnexpectedToken { expected, found, position } => {
            push_text(&mut s, "JSON parse error at position ");
            push_decimal(&mut s, *position);
            push_text(&mut s, ": expected ");
            push_text(&mut s, expected.as_str());
            push_text(&mut s, ", found ");
            push_text(&mut s, found.as_str());
        },
        JsonError::UnexpectedEndOfInput { expected, position } => {
            push_text(&mut s, "Unexpected end of input at position ");
            push_decimal(&mut s, *position);
            push_text(&mut s, ": expected ");
            push_text(&mut s, expected.as_str());
        },
        JsonError::InvalidNumber { value, position } => {
            push_text(&mut s, "Invalid number '");
            push_text(&mut s, value.as_str());
            push_text(&mut s, "' at position ");
            push_decimal(&mut s, *position);
        },
        JsonError::InvalidEscape { ch, position } => {
            push_text(&mut s, "Invalid escape '\\");
            s.push(*ch);
            push_text(&mut s, "' at position ");
            push_decimal(&mut s, *position);
        },
        JsonError::InvalidUnicode { sequence, position } => {
            push_text(&mut s, "Invalid unicode escape '\\u");
            push_text(&mut s, sequence.as_str());
            push_text(&mut s, "' at position ");
            push_decimal(&mut s, *position);
        },
    }
    assert(s@ =~= python_message_text(err@));
    s
}

impl JsonError {
    /// The position every variant carries.
    pub fn position(&self) -> (p: usize)
        ensures
            p as nat == self@.position(),
    {
        match self {
            JsonError::UnexpectedToken { position, .. } => *position,
            JsonError::UnexpectedEndOfInput { position, .. } => *position,
            JsonError::InvalidNumber { position, .. } => *position,
            JsonError::InvalidEscape { position, .. } => *position,
            JsonError::InvalidUnicode { position, .. } => *position,
        }
    }

    /// A human-readable message naming the problem and where it occurred.
    pub fn to_string(&self) -> (msg: String)
        ensures
            msg@ == self@.message(),
    {
        let mut s = String::new();
        match self {
            JsonError::UnexpectedToken { expected, found, position } => {
                push_text(&mut s, "Unexpected token at position ");
                push_decimal(&mut s, *position);
                push_text(&mut s, ": expected ");
                push_text(&mut s, expected.as_str());
                push_text(&mut s, ", found ");
                push_text(&mut s, found.as_str());
            },
            JsonError::UnexpectedEndOfInput { expected, position } => {
                push_text(&mut s, "Unexpected end of input at position ");
                push_decimal(&mut s, *position);
                push_text(&mut s, ": expected ");
                push_text(&mut s, expected.as_str());
            },
            JsonError::InvalidNumber { value, position } => {
                push_text(&mut s, "Invalid number '");
                push_text(&mut s, value.as_str());
                push_text(&mut s, "' at position ");
                push_decimal(&mut s, *position);
            },
            JsonError::InvalidEscape { ch, position } => {
                push_text(&mut s, "Invalid escape sequence '\\");
                s.push(*ch);
                push_text(&mut s, "' at position ");
                push_decimal(&mut s, *position);
            },
            JsonError::InvalidUnicode { sequence, position } => {
                push_text(&mut s, "Invalid Unicode '\\u");
                push_text(&mut s, sequence.as_str());
                push_text(&mut s, "' at position ");
                push_decimal(&mut s, *position);
            },
        }
        assert(s@ =~= self@.message());
        s
    }
}

} // verus!
