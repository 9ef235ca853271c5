//! Lexical pieces shared by the tokenizer and the single-pass parser: escape
//! sequences, `\uXXXX` escapes and number literals.

use vstd::prelude::*;
use vstd::utf8::*;
use vstd::slice::slice_subrange;
use crate::error::{JsonError, JsonErrorView};
use crate::text::{byte_chars, byte_string, char_from_u32, text_of, text_of_bytes};

verus! {

broadcast use vstd::seq::group_seq_axioms;

/// An outcome paired with the position reached, with the error taken by view.
pub open spec fn err_view<T>(r: Result<T, JsonError>) -> Result<T, JsonErrorView> {
    match r {
        Ok(t) => Ok(t),
        Err(e) => Err(e@),
    }
}

// ---------------------------------------------------------------------------
// Escape sequences
// ---------------------------------------------------------------------------

/// The byte that a one-character escape `\X` stands for.
pub open spec fn simple_escape(b: u8) -> Option<u8> {
    if b == 0x22 { Some(0x22u8) }          // \"
    else if b == 0x5C { Some(0x5Cu8) }     // \\
    else if b == 0x2F { Some(0x2Fu8) }     // \/
    else if b == 0x62 { Some(0x08u8) }     // \b
    else if b == 0x66 { Some(0x0Cu8) }     // \f
    else if b == 0x6E { Some(0x0Au8) }     // \n
    else if b == 0x72 { Some(0x0Du8) }     // \r
    else if b == 0x74 { Some(0x09u8) }     // \t
    else { None }
}

pub open spec fn is_hex(b: u8) -> bool {
    (0x30 <= b <= 0x39) || (0x41 <= b <= 0x46) || (0x61 <= b <= 0x66)
}

pub open spec fn hex_val(b: u8) -> int {
    if 0x30 <= b <= 0x39 {
        b - 0x30
    } else if 0x41 <= b <= 0x46 {
        b - 0x41 + 10
    } else {
        b - 0x61 + 10
    }
}

/// The value of four hexadecimal digits.
pub open spec fn hex_code(h: Seq<u8>) -> u32 {
    (hex_val(h[0]) * 4096 + hex_val(h[1]) * 256 + hex_val(h[2]) * 16 + hex_val(h[3])) as u32
}

pub open spec fn all_hex(h: Seq<u8>) -> bool {
    forall|i: int| 0 <= i < h.len() ==> is_hex(#[trigger] h[i])
}

/// The number of bytes of the character whose leading byte is `b`.
pub open spec fn char_width(b: u8) -> int {
    if b < 0x80 {
        1
    } else if b >= 0xF0 {
        4
    } else if b >= 0xE0 {
        3
    } else if b >= 0xC0 {
        2
    } else {
        1
    }
}

/// The position after the first `n` characters from `p`, or the end of `s`
/// if fewer remain.
pub open spec fn chars_end(s: Seq<u8>, p: int, n: nat) -> int
    decreases n,
{
    if n == 0 || p < 0 || p >= s.len() {
        p
    } else {
        let q = p + char_width(s[p]);
        chars_end(s, if q < s.len() { q } else { s.len() as int }, (n - 1) as nat)
    }
}

/// A `\uXXXX` escape whose four digits start at `p` (just after the `u`):
/// the character, or the error, and the position reached. An error carries
/// the four characters after `\u` as text (those left, where the input ends
/// sooner) and the position of the backslash.
pub open spec fn unicode_escape(s: Seq<u8>, p: int) -> (Result<char, JsonErrorView>, int) {
    let sequence = text_of(s.subrange(p, chars_end(s, p, 4)));
    if p + 4 > s.len() {
        (Err(JsonErrorView::InvalidUnicode { sequence, position: (p - 2) as nat }), s.len() as int)
    } else {
        let h = s.subrange(p, p + 4);
        if all_hex(h) && is_scalar(hex_code(h)) {
            (Ok(hex_code(h) as char), p + 4)
        } else {
            (Err(JsonErrorView::InvalidUnicode { sequence, position: (p - 2) as nat }), p + 4)
        }
    }
}

/// An escape sequence whose character after the backslash is at `p`: the
/// character it stands for, or the error, and the position reached. An
/// unknown escape is reported at its backslash; an escape cut short by the
/// end of input, where the input ended.
pub open spec fn escape_sequence(s: Seq<u8>, p: int) -> (Result<char, JsonErrorView>, int) {
    if p >= s.len() {
        (Err(JsonErrorView::UnexpectedEndOfInput { expected: "escape character"@, position: p as nat }), p)
    } else {
        match simple_escape(s[p]) {
            Some(c) => (Ok(c as char), p + 1),
            None => if s[p] == 0x75 {
                unicode_escape(s, p + 1)
            } else {
                (Err(JsonErrorView::InvalidEscape { ch: s[p] as char, position: (p - 1) as nat }), p + 1)
            },
        }
    }
}

fn hex_digit_value(b: u8) -> (v: u32)
    requires
        is_hex(b),
    ensures
        v as int == hex_val(b),
        v < 16,
{
    if b >= 0x30 && b <= 0x39 {
        (b - 0x30) as u32
    } else if b >= 0x41 && b <= 0x46 {
        (b - 0x41 + 10) as u32
    } else {
        (b - 0x61 + 10) as u32
    }
}

fn is_hex_byte(b: u8) -> (r: bool)
    ensures
        r == is_hex(b),
{
    (b >= 0x30 && b <= 0x39) || (b >= 0x41 && b <= 0x46) || (b >= 0x61 && b <= 0x66)
}

/// The position after the first four characters from `p` (see `chars_end`).
fn four_chars_end(input: &[u8], p: usize) -> (e: usize)
    requires
        p <= input@.len(),
    ensures
        e as int == chars_end(input@, p as int, 4),
        p <= e <= input@.len(),
{
    let mut e = p;
    let mut n: usize = 0;
    while n < 4 && e < input.len()
        invariant
            p <= e <= input@.len(),
            n <= 4,
            chars_end(input@, p as int, 4) == chars_end(input@, e as int, (4 - n) as nat),
        decreases 4 - n,
    {
        let b = input[e];
        let w: usize = if b < 0x80 {
            1
        } else if b >= 0xF0 {
            4
        } else if b >= 0xE0 {
            3
        } else if b >= 0xC0 {
            2
        } else {
            1
        };
        e = if input.len() - e > w { e + w } else { input.len() };
        n = n + 1;
    }
    e
}

/// Reads a `\uXXXX` escape whose digits start at `p`; its backslash is at
/// `p - 2`.
pub fn unicode_escape_at(input: &[u8], p: usize) -> (r: (Result<char, JsonError>, usize))
    requires
        2 <= p <= input@.len(),
    ensures
        (err_view(r.0), r.1 as int) == unicode_escape(input@, p as int),
        r.1 <= input@.len(),
{
    let seq_end = four_chars_end(input, p);
    if input.len() - p < 4 {
        let sequence = text_of_bytes(slice_subrange(input, p, seq_end));
        return (Err(JsonError::InvalidUnicode { sequence, position: p - 2 }), input.len());
    }
    let h = slice_subrange(input, p, p + 4);
    let mut k: usize = 0;
    while k < 4 && is_hex_byte(h[k])
        invariant
            k <= 4,
            h@.len() == 4,
            forall|j: int| 0 <= j < k ==> is_hex(#[trigger] h@[j]),
        decreases 4 - k,
    {
        k = k + 1;
    }
    if k < 4 {
        assert(!is_hex(h@[k as int]));
        assert(!all_hex(h@));
        let sequence = text_of_bytes(slice_subrange(input, p, seq_end));
        return (Err(JsonError::InvalidUnicode { sequence, position: p - 2 }), p + 4);
    }
    assert(all_hex(h@));
    let code = hex_digit_value(h[0]) * 4096 + hex_digit_value(h[1]) * 256
        + hex_digit_value(h[2]) * 16 + hex_digit_value(h[3]);
    match char_from_u32(code) {
        Some(c) => {
            proof {
                vstd::utf8::char_u32_cast(c, code);
            }
            (Ok(c), p + 4)
        },
        None => {
            let sequence = text_of_bytes(slice_subrange(input, p, seq_end));
            (Err(JsonError::InvalidUnicode { sequence, position: p - 2 }), p + 4)
        },
    }
}

// ---------------------------------------------------------------------------
// Numbers
// ---------------------------------------------------------------------------

pub open spec fn is_digit(b: u8) -> bool {
    0x30 <= b <= 0x39
}

pub open spec fn is_sign(b: u8) -> bool {
    b == 0x2B || b == 0x2D
}

/// The bytes a number literal is scanned over: digits, `-`, `+`, `.`, `e`, `E`.
pub open spec fn is_number_byte(b: u8) -> bool {
    is_digit(b) || is_sign(b) || b == 0x2E || b == 0x65 || b == 0x45
}

/// The first position at or after `p` that does not hold a number byte.
pub open spec fn number_end(s: Seq<u8>, p: int) -> int
    decreases s.len() - p,
{
    if 0 <= p < s.len() && is_number_byte(s[p]) {
        number_end(s, p + 1)
    } else {
        p
    }
}

/// The first position at or after `i` that does not hold a decimal digit.
pub open spec fn digits_end(t: Seq<u8>, i: int) -> int
    decreases t.len() - i,
{
    if 0 <= i < t.len() && is_digit(t[i]) {
        digits_end(t, i + 1)
    } else {
        i
    }
}

/// Whether `t` is a JSON number: an optional minus sign, an integer part
/// that is `0` or a digit other than `0` followed by digits, optionally `.`
/// and at least one digit, then optionally `e` or `E`, an optional sign and at
/// least one digit. A leading zero followed by more digits is not a number.
pub open spec fn json_number(t: Seq<u8>) -> bool {
    let i0: int = if t.len() > 0 && t[0] == 0x2D { 1 } else { 0 };
    let i1: int = if i0 < t.len() && t[i0] == 0x30 { i0 + 1 } else { digits_end(t, i0) };
    let has_point = i1 < t.len() && t[i1] == 0x2E;
    let i2 = if has_point { digits_end(t, i1 + 1) } else { i1 };
    &&& i1 > i0
    &&& (!has_point || i2 > i1 + 1)
    &&& (i2 == t.len() || {
        &&& (t[i2] == 0x65 || t[i2] == 0x45)
        &&& {
            let i3: int = if i2 + 1 < t.len() && is_sign(t[i2 + 1]) { i2 + 2 } else { i2 + 1 };
            let i4 = digits_end(t, i3);
            i4 > i3 && i4 == t.len()
        }
    })
}

/// A number literal starting at `p`: its text, or the error, and the
/// position reached.
pub open spec fn number_literal(s: Seq<u8>, p: int) -> (Result<Seq<char>, JsonErrorView>, int) {
    let e = number_end(s, p);
    let t = s.subrange(p, e);
    if json_number(t) {
        (Ok(byte_chars(t)), e)
    } else {
        (Err(JsonErrorView::InvalidNumber { value: byte_chars(t), position: p as nat }), e)
    }
}

pub proof fn lemma_number_end(s: Seq<u8>, p: int)
    requires
        0 <= p <= s.len(),
    ensures
        p <= number_end(s, p) <= s.len(),
        forall|i: int| p <= i < number_end(s, p) ==> is_number_byte(#[trigger] s[i]),
    decreases s.len() - p,
{
    if p < s.len() && is_number_byte(s[p]) {
        lemma_number_end(s, p + 1);
    }
}

pub proof fn lemma_digits_end(t: Seq<u8>, i: int)
    requires
        0 <= i <= t.len(),
    ensures
        i <= digits_end(t, i) <= t.len(),
        digits_end(t, i) < t.len() ==> !is_digit(t[digits_end(t, i)]),
    decreases t.len() - i,
{
    if i < t.len() && is_digit(t[i]) {
        lemma_digits_end(t, i + 1);
    }
}

fn digits_end_at(t: &[u8], i: usize) -> (e: usize)
    requires
        i <= t@.len(),
    ensures
        e as int == digits_end(t@, i as int),
{
    let mut e = i;
    while e < t.len() && t[e] >= 0x30 && t[e] <= 0x39
        invariant
            i <= e <= t@.len(),
            digits_end(t@, i as int) == digits_end(t@, e as int),
        decreases t@.len() - e,
    {
        e = e + 1;
    }
    e
}

fn is_sign_byte(b: u8) -> (r: bool)
    ensures
        r == is_sign(b),
{
    b == 0x2B || b == 0x2D
}

/// Whether `t` is a JSON number (see `json_number`).
pub fn is_json_number(t: &[u8]) -> (r: bool)
    ensures
        r == json_number(t@),
{
    let n = t.len();
    let i0: usize = if n > 0 && t[0] == 0x2D { 1 } else { 0 };
    let i1 = if i0 < n && t[i0] == 0x30 { i0 + 1 } else { digits_end_at(t, i0) };
    proof { lemma_digits_end(t@, i0 as int); }
    if i1 == i0 {
        return false;
    }
    let has_point = i1 < n && t[i1] == 0x2E;
    let i2 = if has_point { digits_end_at(t, i1 + 1) } else { i1 };
    proof { if has_point { lemma_digits_end(t@, i1 + 1); } }
    if has_point && i2 == i1 + 1 {
        return false;
    }
    if i2 == n {
        return true;
    }
    if !(t[i2] == 0x65 || t[i2] == 0x45) {
        return false;
    }
    let i3: usize = if i2 + 1 < n && is_sign_byte(t[i2 + 1]) { i2 + 2 } else { i2 + 1 };
    let i4 = digits_end_at(t, i3);
    i4 > i3 && i4 == n
}

/// The end of the run of number bytes starting at `p`.
pub fn number_end_at(input: &[u8], p: usize) -> (e: usize)
    requires
        p <= input@.len(),
    ensures
        e as int == number_end(input@, p as int),
        p <= e <= input@.len(),
{
    let mut e = p;
    while e < input.len() && is_number_byte_exec(input[e])
        invariant
            p <= e <= input@.len(),
            number_end(input@, p as int) == number_end(input@, e as int),
        decreases input@.len() - e,
    {
        e = e + 1;
    }
    e
}

fn is_number_byte_exec(b: u8) -> (r: bool)
    ensures
        r == is_number_byte(b),
{
    (b >= 0x30 && b <= 0x39) || b == 0x2D || b == 0x2B || b == 0x2E || b == 0x65 || b == 0x45
}

/// Reads a number literal starting at `p`.
pub fn number_literal_at(input: &[u8], p: usize) -> (r: (Result<String, JsonError>, usize))
    requires
        p <= input@.len(),
    ensures
        (match r.0 {
            Ok(t) => Ok(t@),
            Err(e) => Err(e@),
        }, r.1 as int) == number_literal(input@, p as int),
        r.1 <= input@.len(),
{
    let e = number_end_at(input, p);
    let t = slice_subrange(input, p, e);
    let text = byte_string(t);
    if is_json_number(t) {
        (Ok(text), e)
    } else {
        (Err(JsonError::InvalidNumber { value: text, position: p }), e)
    }
}

/// The UTF-8 bytes of the three keywords.
pub proof fn lemma_literal_bytes()
    ensures
        encode_utf8("true"@) == seq![0x74u8, 0x72u8, 0x75u8, 0x65u8],
        encode_utf8("false"@) == seq![0x66u8, 0x61u8, 0x6Cu8, 0x73u8, 0x65u8],
        encode_utf8("null"@) == seq![0x6Eu8, 0x75u8, 0x6Cu8, 0x6Cu8],
{
    reveal_strlit("true");
    reveal_strlit("false");
    reveal_strlit("null");
    is_ascii_chars_encode_utf8("true"@);
    is_ascii_chars_encode_utf8("false"@);
    is_ascii_chars_encode_utf8("null"@);
    assert(encode_utf8("true"@) =~= seq![0x74u8, 0x72u8, 0x75u8, 0x65u8]);
    assert(encode_utf8("false"@) =~= seq![0x66u8, 0x61u8, 0x6Cu8, 0x73u8, 0x65u8]);
    assert(encode_utf8("null"@) =~= seq![0x6Eu8, 0x75u8, 0x6Cu8, 0x6Cu8]);
}

} // verus!
