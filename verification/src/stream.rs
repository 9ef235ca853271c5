//! The single-pass parser: one recursive descent over the bytes of the
//! input, with no intermediate token sequence. String bodies are scanned with
//! `memchr2` for the next quote or backslash.

use vstd::prelude::*;
use vstd::utf8::*;
use vstd::slice::slice_subrange;
use crate::error::{eoi, unexpected, JsonError, JsonErrorView};
use crate::lexical::{err_view, escape_sequence, is_digit, lemma_literal_bytes, lemma_number_end, number_literal, number_literal_at, unicode_escape, unicode_escape_at};
use crate::text::{
    at_boundary, char_string, lemma_after_ascii, lemma_scalar_valid, lemma_slice_valid, memchr2, push_utf8,
    string_from_utf8, text_of, text_of_bytes,
};
use crate::value::{lemma_array_view, obj_insert, value_result, values_view, JsonObject, JsonValue, JsonValueView};

verus! {

broadcast use vstd::seq::group_seq_axioms;

// ---------------------------------------------------------------------------
// The grammar over bytes
// ---------------------------------------------------------------------------

/// JSON whitespace: space, tab, line feed, carriage return.
pub open spec fn is_json_ws(b: u8) -> bool {
    b == 0x20 || b == 0x09 || b == 0x0A || b == 0x0D
}

/// The first position at or after `p` that is not whitespace.
pub open spec fn skip_ws(s: Seq<u8>, p: int) -> int
    decreases s.len() - p,
{
    if 0 <= p < s.len() && is_json_ws(s[p]) {
        skip_ws(s, p + 1)
    } else {
        p
    }
}

/// The first position at or after `p` holding a quote or a backslash.
pub open spec fn quote_or_backslash(s: Seq<u8>, p: int) -> Option<int>
    decreases s.len() - p,
{
    if p < 0 || p >= s.len() {
        None
    } else if s[p] == 0x22 || s[p] == 0x5C {
        Some(p)
    } else {
        quote_or_backslash(s, p + 1)
    }
}

/// A string body that starts at `p` (just after the opening quote): the
/// bytes it decodes to, or the error, and the position after the closing
/// quote (or where reading stopped).
pub open spec fn string_at(s: Seq<u8>, p: int) -> (Result<Seq<u8>, JsonErrorView>, int) {
    match quote_or_backslash(s, p) {
        None => (Err(eoi("closing quote"@, s.len() as int)), p),
        Some(e) => if s[e] == 0x22 {
            (Ok(s.subrange(p, e)), e + 1)
        } else {
            escaped_at(s, e, s.subrange(p, e))
        },
    }
}

/// The rest of a string body that contains escapes, from `p` on, with the
/// decoded bytes `acc` so far. A body that the input ends in is reported where
/// the input ended.
pub open spec fn escaped_at(s: Seq<u8>, p: int, acc: Seq<u8>) -> (Result<Seq<u8>, JsonErrorView>, int)
    decreases s.len() - p,
{
    if p < 0 || p >= s.len() {
        (Err(eoi("closing quote"@, s.len() as int)), p)
    } else if s[p] == 0x22 {
        (Ok(acc), p + 1)
    } else if s[p] == 0x5C {
        let (r, q) = escape_sequence(s, p + 1);
        match r {
            Ok(c) => escaped_at(s, q, acc + encode_scalar(c as u32)),
            Err(e) => (Err(e), q),
        }
    } else {
        match quote_or_backslash(s, p) {
            None => (Err(eoi("closing quote"@, s.len() as int)), p),
            Some(e) => {
                proof {
                    lemma_quote_or_backslash(s, p);
                }
                escaped_at(s, e, acc + s.subrange(p, e))
            },
        }
    }
}

/// The keyword `kw` at `p`.
pub open spec fn keyword_at(s: Seq<u8>, p: int, kw: Seq<char>) -> (Result<(), JsonErrorView>, int) {
    let k = encode_utf8(kw);
    let end = p + k.len();
    if end > s.len() || s.subrange(p, end) != k {
        let saw_end = if end < s.len() { end } else { s.len() as int };
        (Err(unexpected(kw, text_of(s.subrange(p, saw_end)), p)), p)
    } else {
        (Ok(()), end)
    }
}

/// The value that starts at `p`.
pub open spec fn value_at(s: Seq<u8>, p: int) -> (Result<JsonValueView, JsonErrorView>, int)
    decreases s.len() - p, 0nat,
{
    if p < 0 || p >= s.len() {
        (Err(eoi("JSON value"@, p)), p)
    } else {
        let b = s[p];
        if b == 0x7B {
            object_at(s, p + 1)
        } else if b == 0x5B {
            array_at(s, p + 1)
        } else if b == 0x22 {
            let (r, q) = string_at(s, p + 1);
            (
                match r {
                    Ok(t) => Ok(JsonValueView::Text(decode_utf8(t))),
                    Err(e) => Err(e),
                },
                q,
            )
        } else if b == 0x74 {
            let (r, q) = keyword_at(s, p, "true"@);
            (
                match r {
                    Ok(_) => Ok(JsonValueView::Boolean(true)),
                    Err(e) => Err(e),
                },
                q,
            )
        } else if b == 0x66 {
            let (r, q) = keyword_at(s, p, "false"@);
            (
                match r {
                    Ok(_) => Ok(JsonValueView::Boolean(false)),
                    Err(e) => Err(e),
                },
                q,
            )
        } else if b == 0x6E {
            let (r, q) = keyword_at(s, p, "null"@);
            (
                match r {
                    Ok(_) => Ok(JsonValueView::Null),
                    Err(e) => Err(e),
                },
                q,
            )
        } else if b == 0x2D || is_digit(b) {
            let (r, q) = number_literal(s, p);
            (
                match r {
                    Ok(t) => Ok(JsonValueView::Number(t)),
                    Err(e) => Err(e),
                },
                q,
            )
        } else {
            (Err(unexpected("JSON value"@, seq![b as char], p)), p)
        }
    }
}

/// An array whose `[` has been consumed, from `p` on.
pub open spec fn array_at(s: Seq<u8>, p: int) -> (Result<JsonValueView, JsonErrorView>, int)
    decreases s.len() - p, 2nat,
{
    let w = skip_ws(s, p);
    if 0 <= w < s.len() && s[w] == 0x5D {
        (Ok(JsonValueView::Array(Seq::empty())), w + 1)
    } else {
        proof {
            lemma_skip_ws(s, p);
        }
        elements_at(s, w, Seq::empty())
    }
}

/// The elements of an array from the value at `p` on, after the elements
/// `acc`.
pub open spec fn elements_at(s: Seq<u8>, p: int, acc: Seq<JsonValueView>) -> (Result<JsonValueView, JsonErrorView>, int)
    decreases s.len() - p, 1nat,
{
    let (r, j) = value_at(s, p);
    match r {
        Err(e) => (Err(e), j),
        Ok(v) => {
            let k = skip_ws(s, j);
            if k < 0 || k >= s.len() {
                (Err(eoi("] or ,"@, k)), k)
            } else if s[k] == 0x2C {
                let w = skip_ws(s, k + 1);
                if 0 <= w < s.len() && s[w] == 0x5D {
                    (Err(unexpected("value"@, "]"@, w)), w)
                } else if j <= p || p < 0 {
                    // never: a value always takes at least one byte
                    (Err(eoi("] or ,"@, k)), k)
                } else {
                    proof {
                        lemma_skip_ws(s, j);
                        lemma_skip_ws(s, k + 1);
                    }
                    elements_at(s, w, acc.push(v))
                }
            } else if s[k] == 0x5D {
                (Ok(JsonValueView::Array(acc.push(v))), k + 1)
            } else {
                (Err(unexpected(", or ]"@, seq![s[k] as char], k)), k)
            }
        },
    }
}

/// An object whose `{` has been consumed, from `p` on.
pub open spec fn object_at(s: Seq<u8>, p: int) -> (Result<JsonValueView, JsonErrorView>, int)
    decreases s.len() - p, 2nat,
{
    let w = skip_ws(s, p);
    if 0 <= w < s.len() && s[w] == 0x7D {
        (Ok(JsonValueView::Object(Seq::empty())), w + 1)
    } else {
        proof {
            lemma_skip_ws(s, p);
        }
        members_at(s, w, Seq::empty())
    }
}

/// The members of an object from the key at `p` on, after the entries `acc`.
pub open spec fn members_at(
    s: Seq<u8>,
    p: int,
    acc: Seq<(Seq<char>, JsonValueView)>,
) -> (Result<JsonValueView, JsonErrorView>, int)
    decreases s.len() - p, 1nat,
{
    if p < 0 || p >= s.len() {
        (Err(eoi("string key"@, p)), p)
    } else if s[p] != 0x22 {
        (Err(unexpected("string key"@, seq![s[p] as char], p)), p)
    } else {
        let (kr, q) = string_at(s, p + 1);
        match kr {
            Err(e) => (Err(e), q),
            Ok(kb) => {
                let c = skip_ws(s, q);
                if c < 0 || c >= s.len() {
                    (Err(eoi(":"@, c)), c)
                } else if s[c] != 0x3A {
                    (Err(unexpected(":"@, seq![s[c] as char], c)), c)
                } else {
                    let v0 = skip_ws(s, c + 1);
                    proof {
                        lemma_string_at_progress(s, p + 1);
                        lemma_skip_ws(s, q);
                        lemma_skip_ws(s, c + 1);
                    }
                    let (r, m) = value_at(s, v0);
                    match r {
                        Err(e) => (Err(e), m),
                        Ok(v) => {
                            let acc2 = obj_insert(acc, decode_utf8(kb), v);
                            let k = skip_ws(s, m);
                            if k < 0 || k >= s.len() {
                                (Err(eoi("} or ,"@, k)), k)
                            } else if s[k] == 0x2C {
                                let w = skip_ws(s, k + 1);
                                if 0 <= w < s.len() && s[w] == 0x7D {
                                    (Err(unexpected("string key"@, "}"@, w)), w)
                                } else if m <= p {
                                    // never: a member always takes at least one byte
                                    (Err(eoi("} or ,"@, k)), k)
                                } else {
                                    proof {
                                        lemma_skip_ws(s, m);
                                        lemma_skip_ws(s, k + 1);
                                    }
                                    members_at(s, w, acc2)
                                }
                            } else if s[k] == 0x7D {
                                (Ok(JsonValueView::Object(acc2)), k + 1)
                            } else {
                                (Err(unexpected(", or }"@, seq![s[k] as char], k)), k)
                            }
                        },
                    }
                }
            },
        }
    }
}

/// A whole document: a value with nothing but whitespace around it.
pub open spec fn document(s: Seq<u8>) -> Result<JsonValueView, JsonErrorView> {
    let (r, q) = value_at(s, skip_ws(s, 0));
    match r {
        Err(e) => Err(e),
        Ok(v) => {
            let e = skip_ws(s, q);
            if 0 <= e < s.len() {
                Err(unexpected("end of input"@, seq![s[e] as char], e))
            } else {
                Ok(v)
            }
        },
    }
}

// ---------------------------------------------------------------------------
// Lemmas
// ---------------------------------------------------------------------------

pub proof fn lemma_skip_ws(s: Seq<u8>, p: int)
    ensures
        p <= skip_ws(s, p),
        0 <= p <= s.len() ==> skip_ws(s, p) <= s.len(),
        forall|i: int| p <= i < skip_ws(s, p) ==> is_json_ws(#[trigger] s[i]),
        0 <= skip_ws(s, p) < s.len() ==> !is_json_ws(s[skip_ws(s, p)]),
    decreases s.len() - p,
{
    if 0 <= p < s.len() && is_json_ws(s[p]) {
        lemma_skip_ws(s, p + 1);
    }
}

pub proof fn lemma_quote_or_backslash(s: Seq<u8>, p: int)
    requires
        0 <= p,
    ensures
        match quote_or_backslash(s, p) {
            Some(e) => p <= e < s.len() && (s[e] == 0x22 || s[e] == 0x5C) && forall|i: int|
                p <= i < e ==> #[trigger] s[i] != 0x22 && s[i] != 0x5C,
            None => forall|i: int| p <= i < s.len() ==> #[trigger] s[i] != 0x22 && s[i] != 0x5C,
        },
    decreases s.len() - p,
{
    if p < s.len() && !(s[p] == 0x22 || s[p] == 0x5C) {
        lemma_quote_or_backslash(s, p + 1);
    }
}

pub proof fn lemma_escaped_at_progress(s: Seq<u8>, p: int, acc: Seq<u8>)
    requires
        0 <= p <= s.len(),
    ensures
        p <= escaped_at(s, p, acc).1 <= s.len(),
        escaped_at(s, p, acc).0 is Ok ==> escaped_at(s, p, acc).1 > p,
    decreases s.len() - p,
{
    if p < s.len() {
        if s[p] == 0x22 {
        } else if s[p] == 0x5C {
            let (r, q) = escape_sequence(s, p + 1);
            if let Ok(c) = r {
                lemma_escaped_at_progress(s, q, acc + encode_scalar(c as u32));
            }
        } else {
            lemma_quote_or_backslash(s, p);
            if let Some(e) = quote_or_backslash(s, p) {
                lemma_escaped_at_progress(s, e, acc + s.subrange(p, e));
            }
        }
    }
}

pub proof fn lemma_string_at_progress(s: Seq<u8>, p: int)
    requires
        0 <= p <= s.len(),
    ensures
        p <= string_at(s, p).1 <= s.len(),
        string_at(s, p).0 is Ok ==> string_at(s, p).1 > p,
{
    lemma_quote_or_backslash(s, p);
    if let Some(e) = quote_or_backslash(s, p) {
        if s[e] != 0x22 {
            lemma_escaped_at_progress(s, e, s.subrange(p, e));
        }
    }
}

/// `quote_or_backslash` finds the first quote or backslash.
pub proof fn lemma_quote_or_backslash_first(s: Seq<u8>, p: int, e: int)
    requires
        0 <= p <= e <= s.len(),
        forall|i: int| p <= i < e ==> #[trigger] s[i] != 0x22 && s[i] != 0x5C,
        e == s.len() || s[e] == 0x22 || s[e] == 0x5C,
    ensures
        quote_or_backslash(s, p) == (if e == s.len() { None } else { Some(e) }),
    decreases e - p,
{
    if p < e {
        lemma_quote_or_backslash_first(s, p + 1, e);
    }
}

/// The bytes a string body decodes to are valid UTF-8 when the input is.
pub proof fn lemma_escaped_at_valid(s: Seq<u8>, p: int, acc: Seq<u8>)
    requires
        valid_utf8(s),
        valid_utf8(acc),
        0 <= p <= s.len(),
        at_boundary(s, p),
    ensures
        escaped_at(s, p, acc).0 matches Ok(b) ==> valid_utf8(b),
    decreases s.len() - p,
{
    broadcast use vstd::utf8::valid_utf8_concat;

    if p < s.len() {
        if s[p] == 0x22 {
        } else if s[p] == 0x5C {
            let (r, q) = escape_sequence(s, p + 1);
            if let Ok(c) = r {
                lemma_scalar_valid(c);
                lemma_after_ascii(s, q - 1);
                lemma_escaped_at_valid(s, q, acc + encode_scalar(c as u32));
            }
        } else {
            lemma_quote_or_backslash(s, p);
            if let Some(e) = quote_or_backslash(s, p) {
                lemma_slice_valid(s, p, e);
                lemma_escaped_at_valid(s, e, acc + s.subrange(p, e));
            }
        }
    }
}

pub proof fn lemma_string_at_valid(s: Seq<u8>, p: int)
    requires
        valid_utf8(s),
        0 <= p <= s.len(),
        at_boundary(s, p),
    ensures
        string_at(s, p).0 matches Ok(b) ==> valid_utf8(b),
{
    lemma_quote_or_backslash(s, p);
    if let Some(e) = quote_or_backslash(s, p) {
        lemma_slice_valid(s, p, e);
        if s[e] != 0x22 {
            lemma_escaped_at_valid(s, e, s.subrange(p, e));
        }
    }
}

/// Parsing never moves backwards nor past the end, and a value always takes
/// at least one byte.
pub proof fn lemma_value_at_progress(s: Seq<u8>, p: int)
    requires
        0 <= p <= s.len(),
    ensures
        p <= value_at(s, p).1 <= s.len(),
        value_at(s, p).0 is Ok ==> value_at(s, p).1 > p,
    decreases s.len() - p, 0nat,
{
    if p < s.len() {
        let b = s[p];
        if b == 0x7B {
            lemma_object_at_progress(s, p + 1);
        } else if b == 0x5B {
            lemma_array_at_progress(s, p + 1);
        } else if b == 0x22 {
            lemma_string_at_progress(s, p + 1);
        } else if b == 0x2D || is_digit(b) {
            lemma_number_end(s, p + 1);
        } else {
            lemma_literal_bytes();
        }
    }
}

pub proof fn lemma_array_at_progress(s: Seq<u8>, p: int)
    requires
        0 <= p <= s.len(),
    ensures
        p <= array_at(s, p).1 <= s.len(),
        array_at(s, p).0 is Ok ==> array_at(s, p).1 > p,
    decreases s.len() - p, 2nat,
{
    lemma_skip_ws(s, p);
    let w = skip_ws(s, p);
    if !(0 <= w < s.len() && s[w] == 0x5D) {
        lemma_elements_at_progress(s, w, Seq::empty());
    }
}

pub proof fn lemma_elements_at_progress(s: Seq<u8>, p: int, acc: Seq<JsonValueView>)
    requires
        0 <= p <= s.len(),
    ensures
        p <= elements_at(s, p, acc).1 <= s.len(),
        elements_at(s, p, acc).0 is Ok ==> elements_at(s, p, acc).1 > p,
    decreases s.len() - p, 1nat,
{
    lemma_value_at_progress(s, p);
    let (r, j) = value_at(s, p);
    if let Ok(v) = r {
        lemma_skip_ws(s, j);
        let k = skip_ws(s, j);
        if 0 <= k < s.len() && s[k] == 0x2C {
            lemma_skip_ws(s, k + 1);
            let w = skip_ws(s, k + 1);
            if !(0 <= w < s.len() && s[w] == 0x5D) && j > p {
                lemma_elements_at_progress(s, w, acc.push(v));
            }
        }
    }
}

pub proof fn lemma_object_at_progress(s: Seq<u8>, p: int)
    requires
        0 <= p <= s.len(),
    ensures
        p <= object_at(s, p).1 <= s.len(),
        object_at(s, p).0 is Ok ==> object_at(s, p).1 > p,
    decreases s.len() - p, 2nat,
{
    lemma_skip_ws(s, p);
    let w = skip_ws(s, p);
    if !(0 <= w < s.len() && s[w] == 0x7D) {
        lemma_members_at_progress(s, w, Seq::empty());
    }
}

pub proof fn lemma_members_at_progress(s: Seq<u8>, p: int, acc: Seq<(Seq<char>, JsonValueView)>)
    requires
        0 <= p <= s.len(),
    ensures
        p <= members_at(s, p, acc).1 <= s.len(),
        members_at(s, p, acc).0 is Ok ==> members_at(s, p, acc).1 > p,
    decreases s.len() - p, 1nat,
{
    if p < s.len() && s[p] == 0x22 {
        lemma_string_at_progress(s, p + 1);
        let (kr, q) = string_at(s, p + 1);
        if let Ok(kb) = kr {
            lemma_skip_ws(s, q);
            let c = skip_ws(s, q);
            if 0 <= c < s.len() && s[c] == 0x3A {
                lemma_skip_ws(s, c + 1);
                let v0 = skip_ws(s, c + 1);
                lemma_value_at_progress(s, v0);
                let (r, m) = value_at(s, v0);
                if let Ok(v) = r {
                    lemma_skip_ws(s, m);
                    let k = skip_ws(s, m);
                    if 0 <= k < s.len() && s[k] == 0x2C {
                        lemma_skip_ws(s, k + 1);
                        let w = skip_ws(s, k + 1);
                        if !(0 <= w < s.len() && s[w] == 0x7D) && m > p {
                            lemma_members_at_progress(s, w, obj_insert(acc, decode_utf8(kb), v));
                        }
                    }
                }
            }
        }
    }
}

/// A string body's outcome with the decoded bytes read as text.
pub open spec fn string_text_at(s: Seq<u8>, p: int) -> (Result<Seq<char>, JsonErrorView>, int) {
    let (r, q) = string_at(s, p);
    (
        match r {
            Ok(b) => Ok(decode_utf8(b)),
            Err(e) => Err(e),
        },
        q,
    )
}

pub open spec fn text_result(r: Result<String, JsonError>) -> Result<Seq<char>, JsonErrorView> {
    match r {
        Ok(t) => Ok(t@),
        Err(e) => Err(e@),
    }
}

// ---------------------------------------------------------------------------
// The parser
// ---------------------------------------------------------------------------

/// Parses a JSON document into a [`JsonValue`] in a single pass.
pub fn parse(input: &str) -> (r: Result<JsonValue, JsonError>)
    ensures
        value_result(r) == document(encode_utf8(input@)),
{
    let mut p = StreamParser::new(input);
    p.skip_ws();
    let value = p.parse_value()?;
    p.skip_ws();
    proof {
        use_type_invariant(&p);
    }
    if p.position < p.input.len() {
        return Err(
            JsonError::UnexpectedToken {
                expected: "end of input".to_owned(),
                found: char_string(p.input[p.position] as char),
                position: p.position,
            },
        );
    }
    Ok(value)
}

/// The parser's state: the input bytes and the position of the next one.
struct StreamParser<'a> {
    input: &'a [u8],
    position: usize,
}

impl<'a> StreamParser<'a> {
    #[verifier::type_invariant]
    spec fn well_formed(self) -> bool {
        &&& self.position <= self.input@.len()
        &&& valid_utf8(self.input@)
    }

    spec fn bytes(self) -> Seq<u8> {
        self.input@
    }

    spec fn pos(self) -> int {
        self.position as int
    }

    fn new(input: &'a str) -> (p: Self)
        ensures
            p.bytes() == encode_utf8(input@),
            p.pos() == 0,
    {
        proof {
            encode_utf8_valid_utf8(input@);
        }
        StreamParser { input: input.as_bytes(), position: 0 }
    }

    fn peek(&self) -> (r: Option<u8>)
        ensures
            self.pos() < self.bytes().len() ==> r == Some(self.bytes()[self.pos()]),
            self.pos() >= self.bytes().len() ==> r is None,
            self.bytes().len() <= usize::MAX,
    {
        if self.position < self.input.len() {
            Some(self.input[self.position])
        } else {
            None
        }
    }

    /// Moves past JSON whitespace.
    fn skip_ws(&mut self)
        ensures
            final(self).bytes() == old(self).bytes(),
            final(self).pos() == skip_ws(old(self).bytes(), old(self).pos()),
    {
        proof {
            use_type_invariant(&*self);
        }
        let ghost s = self.input@;
        while self.position < self.input.len()
            invariant
                s == self.input@,
                s == old(self).input@,
                valid_utf8(s),
                self.position <= s.len(),
                skip_ws(s, old(self).pos()) == skip_ws(s, self.position as int),
            ensures
                skip_ws(s, old(self).pos()) == self.position as int,
            decreases s.len() - self.position,
        {
            let b = self.input[self.position];
            if b == 0x20 || b == 0x09 || b == 0x0A || b == 0x0D {
                self.position = self.position + 1;
            } else {
                break;
            }
        }
    }

    fn parse_value(&mut self) -> (r: Result<JsonValue, JsonError>)
        ensures
            final(self).bytes() == old(self).bytes(),
            (value_result(r), final(self).pos()) == value_at(old(self).bytes(), old(self).pos()),
        decreases old(self).input@.len() - old(self).position, 0nat,
    {
        proof {
            use_type_invariant(&*self);
        }
        let ghost s = self.input@;
        let ghost p = self.pos();
        match self.peek() {
            Some(b) => {
                if b == 0x7B {
                    self.position = self.position + 1;
                    self.parse_object()
                } else if b == 0x5B {
                    self.position = self.position + 1;
                    self.parse_array()
                } else if b == 0x22 {
                    self.position = self.position + 1;
                    proof {
                        lemma_after_ascii(s, p);
                    }
                    let text = self.parse_string_body()?;
                    Ok(JsonValue::Text(text))
                } else if b == 0x74 {
                    self.expect_keyword("true")?;
                    Ok(JsonValue::Boolean(true))
                } else if b == 0x66 {
                    self.expect_keyword("false")?;
                    Ok(JsonValue::Boolean(false))
                } else if b == 0x6E {
                    self.expect_keyword("null")?;
                    Ok(JsonValue::Null)
                } else if b == 0x2D || (b >= 0x30 && b <= 0x39) {
                    let n = self.parse_number()?;
                    Ok(JsonValue::Number(n))
                } else {
                    Err(
                        JsonError::UnexpectedToken {
                            expected: "JSON value".to_owned(),
                            found: char_string(b as char),
                            position: self.position,
                        },
                    )
                }
            },
            None => Err(
                JsonError::UnexpectedEndOfInput { expected: "JSON value".to_owned(), position: self.position },
            ),
        }
    }

    /// Parses an array whose `[` has been consumed.
    fn parse_array(&mut self) -> (r: Result<JsonValue, JsonError>)
        ensures
            final(self).bytes() == old(self).bytes(),
            (value_result(r), final(self).pos()) == array_at(old(self).bytes(), old(self).pos()),
        decreases old(self).input@.len() - old(self).position, 2nat,
    {
        proof {
            use_type_invariant(&*self);
        }
        let ghost s = self.input@;
        let ghost start = self.pos();
        self.skip_ws();
        proof {
            lemma_skip_ws(s, start);
        }
        if let Some(b) = self.peek() {
            if b == 0x5D {
                self.position = self.position + 1;
                let empty: Vec<JsonValue> = Vec::new();
                proof {
                    lemma_array_view(empty);
                    assert(values_view(empty@) =~= Seq::<JsonValueView>::empty());
                }
                return Ok(JsonValue::Array(empty));
            }
        }
        let mut elements: Vec<JsonValue> = Vec::with_capacity(4);
        proof {
            assert(values_view(elements@) =~= Seq::<JsonValueView>::empty());
        }
        loop
            invariant
                s == self.input@,
                s == old(self).input@,
                start == old(self).pos(),
                start <= self.position <= s.len(),
                array_at(s, start) == elements_at(s, self.position as int, values_view(elements@)),
            decreases s.len() - self.position,
        {
            let ghost p = self.pos();
            let ghost acc = values_view(elements@);
            proof {
                use_type_invariant(&*self);
            }
            let value = self.parse_value();
            proof {
                lemma_value_at_progress(s, p);
            }
            let value = match value {
                Ok(v) => v,
                Err(e) => return Err(e),
            };
            let ghost j = self.pos();
            elements.push(value);
            proof {
                assert(values_view(elements@) =~= acc.push(value@));
            }
            self.skip_ws();
            proof {
                lemma_skip_ws(s, j);
            }
            match self.peek() {
                Some(c) => {
                    if c == 0x2C {
                        let ghost k = self.pos();
                        self.position = self.position + 1;
                        self.skip_ws();
                        proof {
                            lemma_skip_ws(s, k + 1);
                        }
                        if let Some(d) = self.peek() {
                            if d == 0x5D {
                                return Err(
                                    JsonError::UnexpectedToken {
                                        expected: "value".to_owned(),
                                        found: "]".to_owned(),
                                        position: self.position,
                                    },
                                );
                            }
                        }
                    } else if c == 0x5D {
                        self.position = self.position + 1;
                        proof {
                            lemma_array_view(elements);
                        }
                        return Ok(JsonValue::Array(elements));
                    } else {
                        return Err(
                            JsonError::UnexpectedToken {
                                expected: ", or ]".to_owned(),
                                found: char_string(c as char),
                                position: self.position,
                            },
                        );
                    }
                },
                None => {
                    return Err(
                        JsonError::UnexpectedEndOfInput { expected: "] or ,".to_owned(), position: self.position },
                    );
                },
            }
        }
    }

    /// Parses an object whose `{` has been consumed.
    fn parse_object(&mut self) -> (r: Result<JsonValue, JsonError>)
        ensures
            final(self).bytes() == old(self).bytes(),
            (value_result(r), final(self).pos()) == object_at(old(self).bytes(), old(self).pos()),
        decreases old(self).input@.len() - old(self).position, 2nat,
    {
        proof {
            use_type_invariant(&*self);
        }
        let ghost s = self.input@;
        let ghost start = self.pos();
        self.skip_ws();
        proof {
            lemma_skip_ws(s, start);
        }
        if let Some(b) = self.peek() {
            if b == 0x7D {
                self.position = self.position + 1;
                return Ok(JsonValue::Object(JsonObject::new()));
            }
        }
        let mut map = JsonObject::new();
        loop
            invariant
                s == self.input@,
                s == old(self).input@,
                start == old(self).pos(),
                start <= self.position <= s.len(),
                object_at(s, start) == members_at(s, self.position as int, map@),
            decreases s.len() - self.position,
        {
            let ghost p = self.pos();
            proof {
                use_type_invariant(&*self);
            }
            match self.peek() {
                Some(b) => {
                    if b == 0x22 {
                        self.position = self.position + 1;
                    } else {
                        return Err(
                            JsonError::UnexpectedToken {
                                expected: "string key".to_owned(),
                                found: char_string(b as char),
                                position: self.position,
                            },
                        );
                    }
                },
                None => {
                    return Err(
                        JsonError::UnexpectedEndOfInput { expected: "string key".to_owned(), position: self.position },
                    );
                },
            }
            proof {
                lemma_after_ascii(s, p);
                lemma_string_at_progress(s, p + 1);
            }
            let key = self.parse_string_body()?;
            let ghost q = self.pos();
            self.skip_ws();
            proof {
                lemma_skip_ws(s, q);
            }
            match self.peek() {
                Some(b) => {
                    if b == 0x3A {
                        self.position = self.position + 1;
                    } else {
                        return Err(
                            JsonError::UnexpectedToken {
                                expected: ":".to_owned(),
                                found: char_string(b as char),
                                position: self.position,
                            },
                        );
                    }
                },
                None => {
                    return Err(JsonError::UnexpectedEndOfInput { expected: ":".to_owned(), position: self.position });
                },
            }
            let ghost c1 = self.pos();
            self.skip_ws();
            proof {
                lemma_skip_ws(s, c1);
                use_type_invariant(&*self);
            }
            let ghost v0 = self.pos();
            let value = self.parse_value();
            proof {
                lemma_value_at_progress(s, v0);
            }
            let value = match value {
                Ok(v) => v,
                Err(e) => return Err(e),
            };
            let ghost m = self.pos();
            map.insert(key, value);
            self.skip_ws();
            proof {
                lemma_skip_ws(s, m);
            }
            match self.peek() {
                Some(c) => {
                    if c == 0x2C {
                        let ghost k = self.pos();
                        self.position = self.position + 1;
                        self.skip_ws();
                        proof {
                            lemma_skip_ws(s, k + 1);
                        }
                        if let Some(d) = self.peek() {
                            if d == 0x7D {
                                return Err(
                                    JsonError::UnexpectedToken {
                                        expected: "string key".to_owned(),
                                        found: "}".to_owned(),
                                        position: self.position,
                                    },
                                );
                            }
                        }
                    } else if c == 0x7D {
                        self.position = self.position + 1;
                        return Ok(JsonValue::Object(map));
                    } else {
                        return Err(
                            JsonError::UnexpectedToken {
                                expected: ", or }".to_owned(),
                                found: char_string(c as char),
                                position: self.position,
                            },
                        );
                    }
                },
                None => {
                    return Err(
                        JsonError::UnexpectedEndOfInput { expected: "} or ,".to_owned(), position: self.position },
                    );
                },
            }
        }
    }

    /// Parses a string body; the opening quote has been consumed.
    fn parse_string_body(&mut self) -> (r: Result<String, JsonError>)
        requires
            at_boundary(old(self).bytes(), old(self).pos()),
        ensures
            final(self).bytes() == old(self).bytes(),
            (text_result(r), final(self).pos()) == string_text_at(old(self).bytes(), old(self).pos()),
    {
        proof {
            use_type_invariant(&*self);
        }
        let ghost s = self.input@;
        let start = self.position;
        let bytes = self.input;
        proof {
            lemma_string_at_valid(s, start as int);
            lemma_quote_or_backslash(s, start as int);
        }
        match memchr2(0x22, 0x5C, slice_subrange(bytes, self.position, bytes.len())) {
            Some(offset) => {
                let end = self.position + offset;
                proof {
                    assert forall|i: int| start <= i < end implies #[trigger] s[i] != 0x22 && s[i] != 0x5C by {
                        assert(s[i] == s.subrange(start as int, s.len() as int)[i - start]);
                    }
                    assert(s[end as int] == s.subrange(start as int, s.len() as int)[offset as int]);
                    lemma_quote_or_backslash_first(s, start as int, end as int);
                }
                if bytes[end] == 0x22 {
                    let text = string_from_utf8(vstd::slice::slice_to_vec(slice_subrange(bytes, start, end)));
                    self.position = end + 1;
                    return Ok(text.unwrap());
                }
                self.position = end;
                self.parse_string_with_escapes(start)
            },
            None => {
                proof {
                    assert forall|i: int| start <= i < s.len() implies #[trigger] s[i] != 0x22 && s[i] != 0x5C by {
                        assert(s[i] == s.subrange(start as int, s.len() as int)[i - start]);
                    }
                    lemma_quote_or_backslash_first(s, start as int, s.len() as int);
                }
                Err(JsonError::UnexpectedEndOfInput { expected: "closing quote".to_owned(), position: bytes.len() })
            },
        }
    }

    /// The part of a string body from its first backslash on; the body
    /// began at `clean_start`.
    fn parse_string_with_escapes(&mut self, clean_start: usize) -> (r: Result<String, JsonError>)
        requires
            clean_start <= old(self).pos() < old(self).bytes().len(),
            old(self).bytes()[old(self).pos()] == 0x5C,
            at_boundary(old(self).bytes(), clean_start as int),
            forall|i: int| clean_start <= i < old(self).pos() ==> #[trigger] old(self).bytes()[i] != 0x22
                && old(self).bytes()[i] != 0x5C,
        ensures
            final(self).bytes() == old(self).bytes(),
            (text_result(r), final(self).pos()) == ({
                let (rr, q) = escaped_at(
                    old(self).bytes(),
                    old(self).pos(),
                    old(self).bytes().subrange(clean_start as int, old(self).pos()),
                );
                (
                    match rr {
                        Ok(b) => Ok(decode_utf8(b)),
                        Err(e) => Err(e),
                    },
                    q,
                )
            }),
    {
        proof {
            use_type_invariant(&*self);
        }
        let ghost s = self.input@;
        let ghost p0 = self.pos();
        let bytes = self.input;
        let mut buf: Vec<u8> = vstd::slice::slice_to_vec(slice_subrange(bytes, clean_start, self.position));
        proof {
            lemma_slice_valid(s, clean_start as int, p0);
        }
        loop
            invariant
                s == self.input@,
                s == old(self).input@,
                bytes@ == s,
                p0 == old(self).pos(),
                valid_utf8(s),
                clean_start <= p0 <= self.position <= s.len(),
                valid_utf8(buf@),
                at_boundary(s, self.position as int),
                escaped_at(s, p0, s.subrange(clean_start as int, p0))
                    == escaped_at(s, self.position as int, buf@),
            decreases s.len() - self.position,
        {
            let ghost p = self.pos();
            match self.peek() {
                Some(b) => {
                    if b == 0x22 {
                        self.position = self.position + 1;
                        let text = string_from_utf8(buf);
                        return Ok(text.unwrap());
                    } else if b == 0x5C {
                        self.position = self.position + 1;
                        let ghost before = buf@;
                        self.decode_escape(&mut buf)?;
                        proof {
                            let (r, q) = escape_sequence(s, p + 1);
                            if let Ok(c) = r {
                                lemma_scalar_valid(c);
                                vstd::utf8::valid_utf8_concat(before, encode_scalar(c as u32));
                                lemma_after_ascii(s, q - 1);
                            }
                        }
                    } else {
                        proof {
                            lemma_quote_or_backslash(s, p);
                        }
                        match memchr2(0x22, 0x5C, slice_subrange(bytes, self.position, bytes.len())) {
                            Some(offset) => {
                                let end = self.position + offset;
                                proof {
                                    assert forall|i: int| p <= i < end implies #[trigger] s[i] != 0x22 && s[i] != 0x5C by {
                                        assert(s[i] == s.subrange(p, s.len() as int)[i - p]);
                                    }
                                    assert(s[end as int] == s.subrange(p, s.len() as int)[offset as int]);
                                    lemma_quote_or_backslash_first(s, p, end as int);
                                    lemma_slice_valid(s, p, end as int);
                                    vstd::utf8::valid_utf8_concat(buf@, s.subrange(p, end as int));
                                }
                                let mut run = vstd::slice::slice_to_vec(slice_subrange(bytes, self.position, end));
                                buf.append(&mut run);
                                self.position = end;
                            },
                            None => {
                                proof {
                                    assert forall|i: int| p <= i < s.len() implies #[trigger] s[i] != 0x22 && s[i] != 0x5C by {
                                        assert(s[i] == s.subrange(p, s.len() as int)[i - p]);
                                    }
                                    lemma_quote_or_backslash_first(s, p, s.len() as int);
                                }
                                return Err(
                                    JsonError::UnexpectedEndOfInput {
                                        expected: "closing quote".to_owned(),
                                        position: bytes.len(),
                                    },
                                );
                            },
                        }
                    }
                },
                None => {
                    return Err(
                        JsonError::UnexpectedEndOfInput { expected: "closing quote".to_owned(), position: bytes.len() },
                    );
                },
            }
        }
    }

    /// Handles one escape sequence after its backslash has been consumed,
    /// appending the bytes it stands for to `buf`.
    fn decode_escape(&mut self, buf: &mut Vec<u8>) -> (r: Result<(), JsonError>)
        requires
            old(self).pos() >= 1,
        ensures
            final(self).bytes() == old(self).bytes(),
            final(self).pos() == escape_sequence(old(self).bytes(), old(self).pos()).1,
            match escape_sequence(old(self).bytes(), old(self).pos()).0 {
                Ok(c) => r is Ok && final(buf)@ == old(buf)@ + encode_scalar(c as u32),
                Err(e) => r matches Err(x) && x@ == e && final(buf)@ == old(buf)@,
            },
    {
        proof {
            use_type_invariant(&*self);
        }
        let pos = self.position;
        if pos >= self.input.len() {
            return Err(JsonError::UnexpectedEndOfInput { expected: "escape character".to_owned(), position: pos });
        }
        let b = self.input[pos];
        self.position = self.position + 1;
        if b == 0x22 {
            push_utf8(buf, '"');
        } else if b == 0x5C {
            push_utf8(buf, '\\');
        } else if b == 0x2F {
            push_utf8(buf, '/');
        } else if b == 0x62 {
            push_utf8(buf, '\u{0008}');
        } else if b == 0x66 {
            push_utf8(buf, '\u{000C}');
        } else if b == 0x6E {
            push_utf8(buf, '\n');
        } else if b == 0x72 {
            push_utf8(buf, '\r');
        } else if b == 0x74 {
            push_utf8(buf, '\t');
        } else if b == 0x75 {
            let ch = self.parse_unicode_escape()?;
            push_utf8(buf, ch);
        } else {
            return Err(JsonError::InvalidEscape { ch: b as char, position: pos - 1 });
        }
        Ok(())
    }

    /// Reads the four hex digits of a `\uXXXX` escape.
    fn parse_unicode_escape(&mut self) -> (r: Result<char, JsonError>)
        requires
            old(self).pos() >= 2,
        ensures
            final(self).bytes() == old(self).bytes(),
            (err_view(r), final(self).pos()) == unicode_escape(old(self).bytes(), old(self).pos()),
    {
        proof {
            use_type_invariant(&*self);
        }
        let (r, end) = unicode_escape_at(self.input, self.position);
        self.position = end;
        r
    }

    /// Reads a number literal.
    fn parse_number(&mut self) -> (r: Result<String, JsonError>)
        ensures
            final(self).bytes() == old(self).bytes(),
            (text_result(r), final(self).pos()) == number_literal(old(self).bytes(), old(self).pos()),
    {
        proof {
            use_type_invariant(&*self);
        }
        let (r, end) = number_literal_at(self.input, self.position);
        self.position = end;
        r
    }

    /// Checks that `keyword` is at the current position and moves past it.
    fn expect_keyword(&mut self, keyword: &str) -> (r: Result<(), JsonError>)
        ensures
            final(self).bytes() == old(self).bytes(),
            (err_view(r), final(self).pos()) == keyword_at(old(self).bytes(), old(self).pos(), keyword@),
    {
        proof {
            use_type_invariant(&*self);
        }
        let ghost s = self.input@;
        let start = self.position;
        let k = keyword.as_bytes();
        let fits = self.input.len() - start >= k.len();
        let mut matches = fits;
        if fits {
            let mut i: usize = 0;
            while i < k.len()
                invariant
                    s == self.input@,
                    k@ == encode_utf8(keyword@),
                    start + k@.len() <= s.len(),
                    s.len() <= usize::MAX,
                    i <= k@.len(),
                    matches <==> forall|j: int| 0 <= j < i ==> s[start + j] == #[trigger] k@[j],
                decreases k@.len() - i,
            {
                if self.input[start + i] != k[i] {
                    matches = false;
                }
                i = i + 1;
            }
            proof {
                if matches {
                    assert(s.subrange(start as int, start + k@.len()) =~= k@);
                } else {
                    assert(s.subrange(start as int, start + k@.len()) != k@) by {
                        let j = choose|j: int| 0 <= j < k@.len() && s[start + j] != k@[j];
                        assert(s.subrange(start as int, start + k@.len())[j] == s[start + j]);
                    }
                }
            }
        }
        if !matches {
            let saw_end = if self.input.len() - start > k.len() { start + k.len() } else { self.input.len() };
            let found = text_of_bytes(slice_subrange(self.input, start, saw_end));
            return Err(JsonError::UnexpectedToken { expected: keyword.to_owned(), found, position: start });
        }
        self.position = start + k.len();
        Ok(())
    }
}

} // verus!
