//! Byte and character helpers shared by the tokenizer, the parsers and the
//! serializer: UTF-8 encoding of single characters, decoding of byte slices,
//! decimal rendering of positions, and the few standard-library and `memchr`
//! calls that the rest of the crate relies on.

use vstd::prelude::*;
use vstd::utf8::*;

verus! {

broadcast use vstd::seq::group_seq_axioms;

// ---------------------------------------------------------------------------
// Trusted items
// ---------------------------------------------------------------------------

/// `String::push` appends the given character to the end of the string.
pub assume_specification[ std::string::String::push ](s: &mut std::string::String, ch: char)
    ensures
        final(s)@ == old(s)@.push(ch),
;

/// Wraps `String::from_utf8`: the standard library documents that it succeeds
/// exactly when the bytes are valid UTF-8, and that the resulting string holds
/// the characters those bytes encode.
#[verifier::external_body]
pub(crate) fn string_from_utf8(bytes: Vec<u8>) -> (r: Option<String>)
    ensures
        r is Some <==> valid_utf8(bytes@),
        r matches Some(s) ==> s@ == decode_utf8(bytes@),
{
    String::from_utf8(bytes).ok()
}

/// Wraps `char::from_u32`: documented to return the character with the given
/// code point, or `None` for surrogates and values above `0x10FFFF`.
#[verifier::external_body]
pub(crate) fn char_from_u32(code: u32) -> (r: Option<char>)
    ensures
        r is Some <==> is_scalar(code),
        r matches Some(c) ==> c as u32 == code,
{
    char::from_u32(code)
}

/// Wraps `memchr::memchr2`: the index of the first byte of `haystack` equal to
/// either needle, or `None` when no byte is.
#[verifier::external_body]
pub(crate) fn memchr2(needle1: u8, needle2: u8, haystack: &[u8]) -> (r: Option<usize>)
    ensures
        match r {
            Some(i) => {
                &&& i < haystack@.len()
                &&& (haystack@[i as int] == needle1 || haystack@[i as int] == needle2)
                &&& forall|j: int|
                    0 <= j < i ==> haystack@[j] != needle1 && haystack@[j] != needle2
            },
            None => forall|j: int|
                0 <= j < haystack@.len() ==> haystack@[j] != needle1 && haystack@[j] != needle2,
        },
{
    memchr::memchr2(needle1, needle2, haystack)
}

/// The text that the standard library's `Debug` formatting of a `str` produces
/// (the string in double quotes, with escapes).
pub uninterp spec fn str_debug_text(s: Seq<char>) -> Seq<char>;

/// Wraps the standard library's `Debug` formatting of a `str`; its result is
/// named by `str_debug_text` and nothing more is claimed about it.
#[verifier::external_body]
pub(crate) fn str_debug(s: &str) -> (r: String)
    ensures
        r@ == str_debug_text(s@),
{
    format!("{:?}", s)
}

// ---------------------------------------------------------------------------
// Specifications
// ---------------------------------------------------------------------------

/// The characters of a byte sequence read one byte per character (Latin-1).
pub open spec fn byte_chars(b: Seq<u8>) -> Seq<char> {
    Seq::new(b.len(), |i: int| b[i] as char)
}

/// The text a byte slice decodes to, or the empty text when it is not valid
/// UTF-8.
pub open spec fn text_of(b: Seq<u8>) -> Seq<char> {
    if valid_utf8(b) {
        decode_utf8(b)
    } else {
        Seq::empty()
    }
}

/// Decimal digits of a natural number, most significant first.
pub open spec fn decimal_text(n: nat) -> Seq<char>
    decreases n,
{
    if n < 10 {
        seq![digit_char((n % 10) as nat)]
    } else {
        decimal_text(n / 10) + seq![digit_char((n % 10) as nat)]
    }
}

pub open spec fn digit_char(d: nat) -> char {
    if d == 0 { '0' }
    else if d == 1 { '1' }
    else if d == 2 { '2' }
    else if d == 3 { '3' }
    else if d == 4 { '4' }
    else if d == 5 { '5' }
    else if d == 6 { '6' }
    else if d == 7 { '7' }
    else if d == 8 { '8' }
    else { '9' }
}

// ---------------------------------------------------------------------------
// Executable helpers
// ---------------------------------------------------------------------------

/// A string holding the single character `c`.
pub fn char_string(c: char) -> (r: String)
    ensures
        r@ == seq![c],
{
    let mut s = String::new();
    s.push(c);
    s
}

/// The bytes of `b`, each read as one character.
pub fn byte_string(b: &[u8]) -> (r: String)
    ensures
        r@ == byte_chars(b@),
{
    let mut s = String::new();
    let mut i: usize = 0;
    while i < b.len()
        invariant
            i <= b@.len(),
            s@ == byte_chars(b@.subrange(0, i as int)),
        decreases b@.len() - i,
    {
        s.push(b[i] as char);
        i = i + 1;
        assert(byte_chars(b@.subrange(0, i as int)) =~= byte_chars(b@.subrange(0, i - 1)).push(
            b@[i - 1] as char,
        ));
    }
    assert(b@.subrange(0, b@.len() as int) =~= b@);
    s
}

/// The text `b` decodes to as UTF-8, or the empty string when it does not.
pub fn text_of_bytes(b: &[u8]) -> (r: String)
    ensures
        r@ == text_of(b@),
{
    let v = vstd::slice::slice_to_vec(b);
    match string_from_utf8(v) {
        Some(s) => s,
        None => String::new(),
    }
}

/// Appends the UTF-8 encoding of `c` to `buf`.
pub fn push_utf8(buf: &mut Vec<u8>, c: char)
    ensures
        final(buf)@ == old(buf)@ + encode_scalar(c as u32),
{
    let v = c as u32;
    proof {
        char_is_scalar(c);
    }
    if v <= 0x7F {
        buf.push((v & 0x7F) as u8);
    } else if v <= 0x7FF {
        buf.push(0xC0 | ((v >> 6) & 0x1F) as u8);
        buf.push(0x80 | (v & 0x3F) as u8);
    } else if v <= 0xFFFF {
        buf.push(0xE0 | ((v >> 12) & 0x0F) as u8);
        buf.push(0x80 | ((v >> 6) & 0x3F) as u8);
        buf.push(0x80 | (v & 0x3F) as u8);
    } else {
        buf.push(0xF0 | ((v >> 18) & 0x7) as u8);
        buf.push(0x80 | ((v >> 12) & 0x3F) as u8);
        buf.push(0x80 | ((v >> 6) & 0x3F) as u8);
        buf.push(0x80 | (v & 0x3F) as u8);
    }
    assert(final(buf)@ =~= old(buf)@ + encode_scalar(c as u32));
}

/// The decimal digit character for `d < 10`.
fn digit(d: usize) -> (c: char)
    requires
        d < 10,
    ensures
        c == digit_char(d as nat),
{
    if d == 0 { '0' }
    else if d == 1 { '1' }
    else if d == 2 { '2' }
    else if d == 3 { '3' }
    else if d == 4 { '4' }
    else if d == 5 { '5' }
    else if d == 6 { '6' }
    else if d == 7 { '7' }
    else if d == 8 { '8' }
    else { '9' }
}

/// Appends the decimal digits of `n` to `s`.
pub fn push_decimal(s: &mut String, n: usize)
    ensures
        final(s)@ == old(s)@ + decimal_text(n as nat),
    decreases n,
{
    if n >= 10 {
        push_decimal(s, n / 10);
    }
    s.push(digit(n % 10));
    assert(final(s)@ =~= old(s)@ + decimal_text(n as nat));
}

/// Whether two strings hold the same text.
pub fn str_eq(a: &str, b: &str) -> (r: bool)
    ensures
        r == (a@ == b@),
{
    let x = a.as_bytes();
    let y = b.as_bytes();
    proof {
        encode_utf8_decode_utf8(a@);
        encode_utf8_decode_utf8(b@);
    }
    assert(x@ == encode_utf8(a@));
    assert(y@ == encode_utf8(b@));
    if x.len() != y.len() {
        return false;
    }
    let mut i: usize = 0;
    while i < x.len()
        invariant
            x@.len() == y@.len(),
            x@ == encode_utf8(a@),
            y@ == encode_utf8(b@),
            i <= x@.len(),
            forall|j: int| 0 <= j < i ==> x@[j] == y@[j],
        decreases x@.len() - i,
    {
        if x[i] != y[i] {
            assert(x@ != y@);
            return false;
        }
        i = i + 1;
    }
    assert(x@ =~= y@);
    true
}

/// Appends `t` to `s`.
pub fn push_text(s: &mut String, t: &str)
    ensures
        final(s)@ == old(s)@ + t@,
{
    s.append(t);
}

// ---------------------------------------------------------------------------
// Facts about UTF-8
// ---------------------------------------------------------------------------

/// Position `i` of `s` starts a character's encoding or is the end of `s`.
pub open spec fn at_boundary(s: Seq<u8>, i: int) -> bool {
    i == s.len() || (0 <= i < s.len() && !is_continuation_byte(s[i]))
}

pub proof fn lemma_boundary(s: Seq<u8>, i: int)
    requires
        valid_utf8(s),
        0 <= i <= s.len(),
        at_boundary(s, i),
    ensures
        is_char_boundary(s, i),
{
    if i == s.len() {
        is_char_boundary_start_end_of_seq(s);
    } else {
        is_char_boundary_iff_not_is_continuation_byte(s, i);
    }
}

/// The bytes between two character boundaries of valid UTF-8 are valid UTF-8.
pub proof fn lemma_slice_valid(s: Seq<u8>, a: int, b: int)
    requires
        valid_utf8(s),
        0 <= a <= b <= s.len(),
        at_boundary(s, a),
        at_boundary(s, b),
    ensures
        valid_utf8(s.subrange(a, b)),
{
    lemma_boundary(s, b);
    valid_utf8_split(s, b);
    let t = s.subrange(0, b);
    if a == b {
        assert(t.subrange(a, b) =~= Seq::<u8>::empty());
        assert(s.subrange(a, b) =~= Seq::<u8>::empty());
    } else {
        assert(t[a] == s[a]);
        is_char_boundary_iff_not_is_continuation_byte(t, a);
        valid_utf8_split(t, a);
        assert(t.subrange(a, t.len() as int) =~= s.subrange(a, b));
    }
}

/// In valid UTF-8, the byte after an ASCII byte starts a character (or is the end).
pub proof fn lemma_after_ascii(s: Seq<u8>, p: int)
    requires
        valid_utf8(s),
        0 <= p < s.len(),
        s[p] < 0x80,
    ensures
        at_boundary(s, p + 1),
{
    if p + 1 < s.len() {
        is_char_boundary_iff_not_is_continuation_byte(s, p);
        valid_utf8_split(s, p);
        let u = s.subrange(p, s.len() as int);
        assert(u[0] == s[p]);
        assert(length_of_first_scalar(u) == 1);
        let rest = pop_first_scalar(u);
        assert(rest =~= s.subrange(p + 1, s.len() as int));
        assert(valid_utf8(rest));
        assert(rest.len() > 0);
        assert(valid_first_scalar(rest));
        assert(rest[0] == s[p + 1]);
    }
}

/// The encoding of one character is valid UTF-8.
pub proof fn lemma_scalar_valid(c: char)
    ensures
        valid_utf8(encode_scalar(c as u32)),
{
    encode_utf8_valid_utf8(seq![c]);
    reveal_with_fuel(encode_utf8, 2);
    assert(encode_utf8(seq![c]) =~= encode_scalar(c as u32));
}

} // verus!
