//! Laws of the parsers: serializing a value and parsing the text gives the
//! value back, what the parser returns is well formed, and every error points
//! into the input.

use vstd::prelude::*;
use vstd::utf8::*;
use crate::lexical::{escape_sequence, json_number, is_number_byte, lemma_literal_bytes, number_end, number_literal};
use crate::stream::{array_at, document, elements_at, escaped_at, members_at, object_at, quote_or_backslash, skip_ws, string_at, value_at};
use crate::error::JsonErrorView;
use crate::text::byte_chars;
use crate::parser::{token_array, token_elements, token_members, token_object, token_value};
use crate::tokenizer::{after_tokens, is_token_ws, keyword_from, lex, string_body, token_at, token_starts, TokenView};
use crate::value::{
    escape_char, escape_text, items_text, json_text, key_index, keys_unique, members_text, obj_insert, quoted,
    JsonValueView,
};

verus! {

broadcast use vstd::seq::group_seq_axioms;

// ---------------------------------------------------------------------------
// UTF-8 encoding of character sequences
// ---------------------------------------------------------------------------

pub proof fn lemma_encode_concat(a: Seq<char>, b: Seq<char>)
    ensures
        encode_utf8(a + b) == encode_utf8(a) + encode_utf8(b),
    decreases a.len(),
{
    if a.len() == 0 {
        assert(a + b =~= b);
    } else {
        assert((a + b).drop_first() =~= a.drop_first() + b);
        lemma_encode_concat(a.drop_first(), b);
        assert(encode_utf8(a + b) =~= encode_utf8(a) + encode_utf8(b));
    }
}

pub proof fn lemma_encode_one(c: char)
    ensures
        encode_utf8(seq![c]) == encode_scalar(c as u32),
{
    reveal_with_fuel(encode_utf8, 2);
    assert(seq![c].drop_first() =~= Seq::<char>::empty());
    assert(encode_utf8(seq![c]) =~= encode_scalar(c as u32));
}

pub proof fn lemma_encode_push(a: Seq<char>, c: char)
    ensures
        encode_utf8(a.push(c)) == encode_utf8(a) + encode_scalar(c as u32),
{
    assert(a.push(c) =~= a + seq![c]);
    lemma_encode_concat(a, seq![c]);
    lemma_encode_one(c);
}

/// An ASCII character is encoded as its own code.
pub proof fn lemma_scalar_ascii(c: char)
    requires
        (c as u32) < 0x80,
    ensures
        encode_scalar(c as u32) == seq![c as u8],
{
    let v = c as u32;
    assert((v & 0x7F) as u8 == v as u8) by (bit_vector)
        requires
            v < 0x80,
    ;
    assert(encode_scalar(c as u32) =~= seq![c as u8]);
}

/// Every byte of the encoding of a character other than `"` and `\` differs
/// from the bytes of `"` and `\`.
pub proof fn lemma_scalar_not_special(c: char)
    requires
        c != '"',
        c != '\\',
    ensures
        forall|i: int| 0 <= i < encode_scalar(c as u32).len() ==> #[trigger] encode_scalar(c as u32)[i] != 0x22
            && encode_scalar(c as u32)[i] != 0x5C,
{
    let v = c as u32;
    if v < 0x80 {
        lemma_scalar_ascii(c);
    } else {
        assert(0x80 <= (0xC0 | ((v >> 6) & 0x1F) as u8)) by (bit_vector);
        assert(0x80 <= (0xE0 | ((v >> 12) & 0x0F) as u8)) by (bit_vector);
        assert(0x80 <= (0xF0 | ((v >> 18) & 0x7) as u8)) by (bit_vector);
        assert(0x80 <= (0x80 | (v & 0x3F) as u8)) by (bit_vector);
        assert(0x80 <= (0x80 | ((v >> 6) & 0x3F) as u8)) by (bit_vector);
        assert(0x80 <= (0x80 | ((v >> 12) & 0x3F) as u8)) by (bit_vector);
    }
}

// ---------------------------------------------------------------------------
// Escaped text
// ---------------------------------------------------------------------------

/// The characters `escape_char` writes as a two-character escape.
pub open spec fn is_special(c: char) -> bool {
    c == '"' || c == '\\' || c == '\n' || c == '\r' || c == '\t'
}

/// The length of the longest prefix of `x` without special characters.
pub open spec fn plain_len(x: Seq<char>) -> int
    decreases x.len(),
{
    if x.len() == 0 || is_special(x[0]) {
        0
    } else {
        1 + plain_len(x.drop_first())
    }
}

pub proof fn lemma_plain_len(x: Seq<char>)
    ensures
        0 <= plain_len(x) <= x.len(),
        forall|i: int| 0 <= i < plain_len(x) ==> !is_special(#[trigger] x[i]),
        plain_len(x) < x.len() ==> is_special(x[plain_len(x)]),
    decreases x.len(),
{
    if x.len() > 0 && !is_special(x[0]) {
        lemma_plain_len(x.drop_first());
        assert forall|i: int| 0 <= i < plain_len(x) implies !is_special(#[trigger] x[i]) by {
            if i > 0 {
                assert(x[i] == x.drop_first()[i - 1]);
            }
        }
    }
}

pub proof fn lemma_escape_concat(a: Seq<char>, b: Seq<char>)
    ensures
        escape_text(a + b) == escape_text(a) + escape_text(b),
    decreases b.len(),
{
    if b.len() == 0 {
        assert(a + b =~= a);
        assert(escape_text(a) + escape_text(b) =~= escape_text(a));
    } else {
        assert((a + b).drop_last() =~= a + b.drop_last());
        assert((a + b).last() == b.last());
        lemma_escape_concat(a, b.drop_last());
        assert(escape_text(a + b) =~= escape_text(a) + escape_text(b));
    }
}

pub proof fn lemma_escape_first(c: char, rest: Seq<char>)
    ensures
        escape_text(seq![c] + rest) == escape_char(c) + escape_text(rest),
{
    lemma_escape_concat(seq![c], rest);
    reveal_with_fuel(escape_text, 2);
    assert(seq![c].drop_last() =~= Seq::<char>::empty());
    assert(escape_text(seq![c]) =~= escape_char(c));
}

/// Text without special characters is written unchanged.
pub proof fn lemma_escape_plain(r: Seq<char>)
    requires
        forall|i: int| 0 <= i < r.len() ==> !is_special(#[trigger] r[i]),
    ensures
        escape_text(r) == r,
    decreases r.len(),
{
    if r.len() > 0 {
        assert(!is_special(r[r.len() - 1]));
        lemma_escape_plain(r.drop_last());
        assert(escape_text(r) =~= r);
    }
}

/// The encoding of text without `"` and `\` holds no byte of either.
pub proof fn lemma_encode_plain(r: Seq<char>)
    requires
        forall|i: int| 0 <= i < r.len() ==> #[trigger] r[i] != '"' && r[i] != '\\',
    ensures
        forall|i: int| 0 <= i < encode_utf8(r).len() ==> #[trigger] encode_utf8(r)[i] != 0x22
            && encode_utf8(r)[i] != 0x5C,
        encode_utf8(r).len() >= r.len(),
    decreases r.len(),
{
    if r.len() > 0 {
        let a = r.drop_last();
        let c = r.last();
        assert(r =~= a.push(c));
        lemma_encode_plain(a);
        lemma_encode_push(a, c);
        lemma_scalar_not_special(c);
        let e = encode_utf8(a);
        let f = encode_scalar(c as u32);
        assert forall|i: int| 0 <= i < encode_utf8(r).len() implies #[trigger] encode_utf8(r)[i] != 0x22
            && encode_utf8(r)[i] != 0x5C by {
            if i < e.len() {
                assert(encode_utf8(r)[i] == e[i]);
            } else {
                assert(encode_utf8(r)[i] == f[i - e.len()]);
            }
        }
    }
}

/// The two bytes of the escape of a special character, and what they read as.
pub proof fn lemma_escape_special(c: char)
    requires
        is_special(c),
    ensures
        encode_utf8(escape_char(c)).len() == 2,
        encode_utf8(escape_char(c))[0] == 0x5C,
        crate::lexical::simple_escape(encode_utf8(escape_char(c))[1]) matches Some(b) && b as char == c,
{
    let e = escape_char(c);
    assert(e =~= seq![e[0]] + seq![e[1]]);
    lemma_encode_concat(seq![e[0]], seq![e[1]]);
    lemma_encode_one(e[0]);
    lemma_encode_one(e[1]);
    lemma_scalar_ascii(e[0]);
    lemma_scalar_ascii(e[1]);
    assert(encode_utf8(e) =~= seq![e[0] as u8, e[1] as u8]);
}

/// Reading escaped text followed by a closing quote from `p` on, after the
/// bytes `acc`, gives `acc` with the encoding of the text.
#[verifier::spinoff_prover]
pub proof fn lemma_escaped_roundtrip(s: Seq<u8>, p: int, acc: Seq<u8>, x: Seq<char>)
    requires
        0 <= p,
        p + encode_utf8(escape_text(x)).len() < s.len(),
        s.subrange(p, p + encode_utf8(escape_text(x)).len()) == encode_utf8(escape_text(x)),
        s[p + encode_utf8(escape_text(x)).len()] == 0x22,
    ensures
        escaped_at(s, p, acc) == (
            Ok::<Seq<u8>, crate::error::JsonErrorView>(acc + encode_utf8(x)),
            p + encode_utf8(escape_text(x)).len() + 1,
        ),
    decreases x.len(),
{
    let n = encode_utf8(escape_text(x)).len();
    if x.len() == 0 {
        assert(acc + encode_utf8(x) =~= acc);
    } else if is_special(x[0]) {
        let rest = x.drop_first();
        assert(x =~= seq![x[0]] + rest);
        lemma_escape_first(x[0], rest);
        lemma_encode_concat(escape_char(x[0]), escape_text(rest));
        lemma_escape_special(x[0]);
        let e1 = encode_utf8(escape_char(x[0]));
        let e2 = encode_utf8(escape_text(rest));
        assert(s[p] == s.subrange(p, p + n)[0]);
        assert(s[p + 1] == s.subrange(p, p + n)[1]);
        assert(s.subrange(p + 2, p + 2 + e2.len()) =~= e2) by {
            assert forall|i: int| 0 <= i < e2.len() implies s.subrange(p + 2, p + 2 + e2.len())[i] == e2[i] by {
                assert(s.subrange(p + 2, p + 2 + e2.len())[i] == s.subrange(p, p + n)[i + 2]);
            }
        }
        lemma_escaped_roundtrip(s, p + 2, acc + encode_scalar(x[0] as u32), rest);
        lemma_encode_concat(seq![x[0]], rest);
        lemma_encode_one(x[0]);
        assert(acc + encode_scalar(x[0] as u32) + encode_utf8(rest) =~= acc + encode_utf8(x));
    } else {
        lemma_plain_len(x);
        let k = plain_len(x);
        let r = x.take(k);
        let rest = x.skip(k);
        assert(x =~= r + rest);
        assert forall|i: int| 0 <= i < r.len() implies !is_special(#[trigger] r[i]) by {
            assert(r[i] == x[i]);
        }
        lemma_escape_plain(r);
        lemma_escape_concat(r, rest);
        lemma_encode_concat(r, escape_text(rest));
        lemma_encode_plain(r);
        let er = encode_utf8(r);
        let e2 = encode_utf8(escape_text(rest));
        let e = p + er.len();
        assert forall|i: int| p <= i < e implies #[trigger] s[i] != 0x22 && s[i] != 0x5C by {
            assert(s[i] == s.subrange(p, p + n)[i - p]);
            assert(s.subrange(p, p + n)[i - p] == er[i - p]);
        }
        if rest.len() > 0 {
            lemma_plain_len(x);
            assert(rest[0] == x[k]);
            assert(rest =~= seq![rest[0]] + rest.drop_first());
            lemma_escape_first(rest[0], rest.drop_first());
            lemma_encode_concat(escape_char(rest[0]), escape_text(rest.drop_first()));
            lemma_escape_special(rest[0]);
            assert(s[e] == s.subrange(p, p + n)[er.len() as int]);
            assert(s[e] == 0x5C);
        } else {
            assert(escape_text(rest) =~= Seq::<char>::empty());
            assert(s[e] == 0x22);
        }
        crate::stream::lemma_quote_or_backslash_first(s, p, e);
        assert(s[p] == s.subrange(p, p + n)[0]);
        assert(s[p] != 0x22 && s[p] != 0x5C);
        assert(s.subrange(p, e) =~= er) by {
            assert forall|i: int| 0 <= i < er.len() implies s.subrange(p, e)[i] == er[i] by {
                assert(s.subrange(p, e)[i] == s.subrange(p, p + n)[i]);
            }
        }
        assert(s.subrange(e, e + e2.len()) =~= e2) by {
            assert forall|i: int| 0 <= i < e2.len() implies s.subrange(e, e + e2.len())[i] == e2[i] by {
                assert(s.subrange(e, e + e2.len())[i] == s.subrange(p, p + n)[er.len() + i]);
            }
        }
        lemma_escaped_roundtrip(s, e, acc + er, rest);
        lemma_encode_concat(r, rest);
        assert(acc + er + encode_utf8(rest) =~= acc + encode_utf8(x));
    }
}

/// Reading a quoted text's body (after its opening quote) gives the text's
/// encoding and moves past the closing quote.
#[verifier::spinoff_prover]
pub proof fn lemma_string_roundtrip(s: Seq<u8>, p: int, x: Seq<char>)
    requires
        0 <= p,
        p + encode_utf8(escape_text(x)).len() < s.len(),
        s.subrange(p, p + encode_utf8(escape_text(x)).len()) == encode_utf8(escape_text(x)),
        s[p + encode_utf8(escape_text(x)).len()] == 0x22,
    ensures
        string_at(s, p) == (
            Ok::<Seq<u8>, crate::error::JsonErrorView>(encode_utf8(x)),
            p + encode_utf8(escape_text(x)).len() + 1,
        ),
{
    let n = encode_utf8(escape_text(x)).len();
    lemma_plain_len(x);
    let k = plain_len(x);
    let r = x.take(k);
    let rest = x.skip(k);
    assert(x =~= r + rest);
    assert forall|i: int| 0 <= i < r.len() implies !is_special(#[trigger] r[i]) by {
        assert(r[i] == x[i]);
    }
    lemma_escape_plain(r);
    lemma_escape_concat(r, rest);
    lemma_encode_concat(r, escape_text(rest));
    lemma_encode_plain(r);
    lemma_encode_concat(r, rest);
    let er = encode_utf8(r);
    let e2 = encode_utf8(escape_text(rest));
    let e = p + er.len();
    assert forall|i: int| p <= i < e implies #[trigger] s[i] != 0x22 && s[i] != 0x5C by {
        assert(s[i] == s.subrange(p, p + n)[i - p]);
        assert(s.subrange(p, p + n)[i - p] == er[i - p]);
    }
    assert(s.subrange(p, e) =~= er) by {
        assert forall|i: int| 0 <= i < er.len() implies s.subrange(p, e)[i] == er[i] by {
            assert(s.subrange(p, e)[i] == s.subrange(p, p + n)[i]);
        }
    }
    if rest.len() > 0 {
        assert(rest[0] == x[k]);
        assert(rest =~= seq![rest[0]] + rest.drop_first());
        lemma_escape_first(rest[0], rest.drop_first());
        lemma_encode_concat(escape_char(rest[0]), escape_text(rest.drop_first()));
        lemma_escape_special(rest[0]);
        assert(s[e] == s.subrange(p, p + n)[er.len() as int]);
        crate::stream::lemma_quote_or_backslash_first(s, p, e);
        assert(s.subrange(e, e + e2.len()) =~= e2) by {
            assert forall|i: int| 0 <= i < e2.len() implies s.subrange(e, e + e2.len())[i] == e2[i] by {
                assert(s.subrange(e, e + e2.len())[i] == s.subrange(p, p + n)[er.len() + i]);
            }
        }
        lemma_escaped_roundtrip(s, e, er, rest);
        assert(er + encode_utf8(rest) =~= encode_utf8(x));
    } else {
        assert(escape_text(rest) =~= Seq::<char>::empty());
        assert(rest =~= Seq::<char>::empty());
        assert(encode_utf8(rest) =~= Seq::<u8>::empty());
        crate::stream::lemma_quote_or_backslash_first(s, p, e);
        assert(er =~= encode_utf8(x));
    }
}

// ---------------------------------------------------------------------------
// Well-formed values
// ---------------------------------------------------------------------------

/// The characters a number literal is made of.
pub open spec fn is_number_char(c: char) -> bool {
    ('0' <= c <= '9') || c == '-' || c == '+' || c == '.' || c == 'e' || c == 'E'
}

/// The bytes of a text of ASCII characters.
pub open spec fn ascii_bytes(t: Seq<char>) -> Seq<u8> {
    Seq::new(t.len(), |i: int| t[i] as u8)
}

/// A number text that the parsers read back as itself: it starts with `-` or
/// a digit, holds only number characters, and is a JSON number.
pub open spec fn number_text_ok(t: Seq<char>) -> bool {
    &&& t.len() > 0
    &&& (t[0] == '-' || ('0' <= t[0] <= '9'))
    &&& forall|i: int| 0 <= i < t.len() ==> is_number_char(#[trigger] t[i])
    &&& json_number(ascii_bytes(t))
}

/// A value that serializes to text the parsers read back as the same value:
/// every number is a valid literal and no object has a key twice.
pub open spec fn well_formed(v: JsonValueView) -> bool
    decreases v,
{
    match v {
        JsonValueView::Number(t) => number_text_ok(t),
        JsonValueView::Array(items) => items_well_formed(items),
        JsonValueView::Object(e) => keys_unique(e) && members_well_formed(e),
        _ => true,
    }
}

pub open spec fn items_well_formed(items: Seq<JsonValueView>) -> bool
    decreases items,
{
    forall|i: int| 0 <= i < items.len() ==> well_formed(#[trigger] items[i])
}

pub open spec fn members_well_formed(e: Seq<(Seq<char>, JsonValueView)>) -> bool
    decreases e,
{
    forall|i: int| 0 <= i < e.len() ==> well_formed(#[trigger] e[i].1)
}

pub proof fn lemma_items_text_first(items: Seq<JsonValueView>)
    requires
        items.len() >= 2,
    ensures
        items_text(items) == json_text(items[0]) + seq![','] + items_text(items.drop_first()),
    decreases items.len(),
{
    let rest = items.drop_first();
    if items.len() == 2 {
        assert(items.drop_last() =~= seq![items[0]]);
        assert(rest =~= seq![items[1]]);
        assert(items_text(seq![items[0]]) == json_text(items[0]));
        assert(items_text(rest) == json_text(items[1]));
    } else {
        lemma_items_text_first(items.drop_last());
        assert(items.drop_last().drop_first() =~= rest.drop_last());
        assert(rest.last() == items.last());
        assert(items.drop_last()[0] == items[0]);
    }
}

/// One object member as JSON text.
pub open spec fn member_text(m: (Seq<char>, JsonValueView)) -> Seq<char> {
    quoted(m.0) + seq![':'] + json_text(m.1)
}

pub proof fn lemma_members_text_first(e: Seq<(Seq<char>, JsonValueView)>)
    requires
        e.len() >= 1,
    ensures
        e.len() == 1 ==> members_text(e) == member_text(e[0]),
        e.len() >= 2 ==> members_text(e) == member_text(e[0]) + seq![','] + members_text(e.drop_first()),
    decreases e.len(),
{
    let rest = e.drop_first();
    if e.len() == 1 {
        assert(members_text(e) =~= member_text(e[0]));
    } else if e.len() == 2 {
        assert(e.drop_last() =~= seq![e[0]]);
        assert(rest =~= seq![e[1]]);
        assert(members_text(seq![e[0]]) =~= member_text(e[0]));
        assert(members_text(rest) =~= member_text(e[1]));
        assert(members_text(e) =~= member_text(e[0]) + seq![','] + members_text(rest));
    } else {
        lemma_members_text_first(e.drop_last());
        assert(e.drop_last().drop_first() =~= rest.drop_last());
        assert(rest.last() == e.last());
        assert(e.drop_last()[0] == e[0]);
        assert(members_text(e) =~= member_text(e[0]) + seq![','] + members_text(rest));
    }
}

/// A byte that can begin the text of a value.
pub open spec fn starts_value(b: u8) -> bool {
    b == 0x6E || b == 0x74 || b == 0x66 || b == 0x22 || b == 0x5B || b == 0x7B || b == 0x2D || (0x30 <= b <= 0x39)
}

/// Text that starts with an ASCII character starts with that character's byte.
pub proof fn lemma_first_ascii(t: Seq<char>)
    requires
        t.len() >= 1,
        (t[0] as u32) < 0x80,
    ensures
        encode_utf8(t).len() >= 1,
        encode_utf8(t)[0] == t[0] as u8,
{
    assert(t =~= seq![t[0]] + t.drop_first());
    lemma_encode_concat(seq![t[0]], t.drop_first());
    lemma_encode_one(t[0]);
    lemma_scalar_ascii(t[0]);
}

pub proof fn lemma_first_byte(v: JsonValueView)
    requires
        well_formed(v),
    ensures
        encode_utf8(json_text(v)).len() >= 1,
        starts_value(encode_utf8(json_text(v))[0]),
{
    match v {
        JsonValueView::Null | JsonValueView::Boolean(_) => {
            lemma_literal_bytes();
        },
        JsonValueView::Number(t) => {
            lemma_first_ascii(t);
        },
        JsonValueView::Text(x) => {
            lemma_first_ascii(quoted(x));
        },
        JsonValueView::Array(items) => {
            lemma_first_ascii(json_text(v));
        },
        JsonValueView::Object(e) => {
            lemma_first_ascii(json_text(v));
        },
    }
}

pub proof fn lemma_number_end_at(s: Seq<u8>, i: int, e: int)
    requires
        0 <= i <= e <= s.len(),
        forall|j: int| i <= j < e ==> is_number_byte(#[trigger] s[j]),
        e == s.len() || !is_number_byte(s[e]),
    ensures
        number_end(s, i) == e,
    decreases e - i,
{
    if i < e {
        lemma_number_end_at(s, i + 1, e);
    }
}

/// A valid number text is encoded as its ASCII bytes.
pub proof fn lemma_number_ascii(t: Seq<char>)
    requires
        number_text_ok(t),
    ensures
        encode_utf8(t) == ascii_bytes(t),
{
    assert(is_ascii_chars(t)) by {
        assert forall|i: int| 0 <= i < t.len() implies '\0' <= #[trigger] t[i] <= '\u{7f}' by {
            assert(is_number_char(t[i]));
        }
    }
    is_ascii_chars_encode_utf8(t);
    assert(encode_utf8(t) =~= ascii_bytes(t));
}

/// A valid number text is read back as itself.
pub proof fn lemma_number_roundtrip(s: Seq<u8>, p: int, t: Seq<char>)
    requires
        number_text_ok(t),
        0 <= p,
        p + t.len() <= s.len(),
        s.subrange(p, p + t.len()) == encode_utf8(t),
        p + t.len() == s.len() || !is_number_byte(s[p + t.len()]),
    ensures
        number_literal(s, p) == (Ok::<Seq<char>, crate::error::JsonErrorView>(t), p + t.len()),
{
    lemma_number_ascii(t);
    let e = p + t.len();
    assert forall|j: int| p <= j < e implies is_number_byte(#[trigger] s[j]) by {
        assert(s[j] == s.subrange(p, e)[j - p]);
        assert(is_number_char(t[j - p]));
    }
    lemma_number_end_at(s, p, e);
    assert(byte_chars(s.subrange(p, e)) =~= t) by {
        assert forall|i: int| 0 <= i < t.len() implies byte_chars(s.subrange(p, e))[i] == t[i] by {
            assert(is_number_char(t[i]));
        }
    }
}

/// The elements `b` stand at `p` in `s`.
pub open spec fn seq_at<A>(s: Seq<A>, p: int, b: Seq<A>) -> bool {
    &&& 0 <= p
    &&& p + b.len() <= s.len()
    &&& s.subrange(p, p + b.len()) == b
}

pub proof fn lemma_seq_at_split<A>(s: Seq<A>, p: int, a: Seq<A>, b: Seq<A>)
    requires
        seq_at(s, p, a + b),
    ensures
        seq_at(s, p, a),
        seq_at(s, p + a.len(), b),
        forall|i: int| 0 <= i < a.len() ==> s[p + i] == #[trigger] a[i],
{
    assert(s.subrange(p, p + a.len()) =~= a) by {
        assert forall|i: int| 0 <= i < a.len() implies s.subrange(p, p + a.len())[i] == a[i] by {
            assert(s.subrange(p, p + a.len())[i] == s.subrange(p, p + (a + b).len())[i]);
        }
    }
    assert(s.subrange(p + a.len(), p + a.len() + b.len()) =~= b) by {
        assert forall|i: int| 0 <= i < b.len() implies s.subrange(p + a.len(), p + a.len() + b.len())[i] == b[i] by {
            assert(s.subrange(p + a.len(), p + a.len() + b.len())[i] == s.subrange(p, p + (a + b).len())[a.len() + i]);
        }
    }
    assert forall|i: int| 0 <= i < a.len() implies s[p + i] == #[trigger] a[i] by {
        assert(s[p + i] == s.subrange(p, p + (a + b).len())[i]);
    }
}

/// The bytes of a single ASCII character.
pub proof fn lemma_encode_ascii_char(c: char)
    requires
        (c as u32) < 0x80,
    ensures
        encode_utf8(seq![c]) == seq![c as u8],
{
    lemma_encode_one(c);
    lemma_scalar_ascii(c);
}


pub proof fn lemma_elem_at<A>(s: Seq<A>, p: int, b: A)
    requires
        seq_at(s, p, seq![b]),
    ensures
        0 <= p < s.len(),
        s[p] == b,
{
    assert(s.subrange(p, p + 1)[0] == s[p]);
}

pub proof fn lemma_seq_at_join<A>(s: Seq<A>, p: int, a: Seq<A>, b: Seq<A>)
    requires
        seq_at(s, p, a),
        seq_at(s, p + a.len(), b),
    ensures
        seq_at(s, p, a + b),
{
    assert(s.subrange(p, p + (a + b).len()) =~= a + b) by {
        assert forall|i: int| 0 <= i < (a + b).len() implies s.subrange(p, p + (a + b).len())[i] == (a + b)[i] by {
            if i < a.len() {
                assert(s.subrange(p, p + a.len())[i] == s[p + i]);
            } else {
                assert(s.subrange(p + a.len(), p + a.len() + b.len())[i - a.len()] == s[p + i]);
            }
        }
    }
}

/// The bytes of text between two ASCII delimiters.
pub proof fn lemma_encode_wrapped(open: char, body: Seq<char>, close: char)
    requires
        (open as u32) < 0x80,
        (close as u32) < 0x80,
    ensures
        encode_utf8(seq![open] + body + seq![close]) == seq![open as u8] + encode_utf8(body) + seq![close as u8],
{
    lemma_encode_concat(seq![open] + body, seq![close]);
    lemma_encode_concat(seq![open], body);
    lemma_encode_ascii_char(open);
    lemma_encode_ascii_char(close);
}

/// The bytes of a value's compact text.
pub open spec fn value_bytes(v: JsonValueView) -> Seq<u8> {
    encode_utf8(json_text(v))
}

/// Position `i` of `s` is the end of the input or a byte that cannot continue
/// a number.
pub open spec fn ends_number(s: Seq<u8>, i: int) -> bool {
    i == s.len() || (0 <= i < s.len() && !is_number_byte(s[i]))
}

/// The text of a non-empty sequence of elements starts with a byte that
/// begins a value.
pub proof fn lemma_items_first_byte(items: Seq<JsonValueView>)
    requires
        items.len() >= 1,
        items_well_formed(items),
    ensures
        encode_utf8(items_text(items)).len() >= 1,
        starts_value(encode_utf8(items_text(items))[0]),
{
    assert(well_formed(items[0]));
    lemma_first_byte(items[0]);
    if items.len() == 1 {
    } else {
        lemma_items_text_first(items);
        lemma_encode_concat(json_text(items[0]) + seq![','], items_text(items.drop_first()));
        lemma_encode_concat(json_text(items[0]), seq![',']);
    }
}

/// The text of a non-empty sequence of members starts with a quote.
pub proof fn lemma_members_first_byte(e: Seq<(Seq<char>, JsonValueView)>)
    requires
        e.len() >= 1,
    ensures
        encode_utf8(members_text(e)).len() >= 1,
        encode_utf8(members_text(e))[0] == 0x22,
{
    lemma_members_text_first(e);
    assert(members_text(e)[0] == '"');
    lemma_first_ascii(members_text(e));
}

/// The bytes of one member: the quoted key, a colon, the value.
pub proof fn lemma_member_bytes(m: (Seq<char>, JsonValueView))
    ensures
        encode_utf8(member_text(m)) == seq![0x22u8] + encode_utf8(escape_text(m.0)) + seq![0x22u8] + seq![0x3Au8]
            + value_bytes(m.1),
{
    lemma_encode_concat(quoted(m.0) + seq![':'], json_text(m.1));
    lemma_encode_concat(quoted(m.0), seq![':']);
    lemma_encode_ascii_char(':');
    lemma_encode_wrapped('"', escape_text(m.0), '"');
}

/// The value whose compact text stands at `p`, followed by a byte that cannot
/// continue a number, reads back as itself and ends where its text ends.
#[verifier::spinoff_prover]
pub proof fn lemma_value_roundtrip(s: Seq<u8>, p: int, v: JsonValueView)
    requires
        well_formed(v),
        seq_at(s, p, value_bytes(v)),
        ends_number(s, p + value_bytes(v).len()),
    ensures
        value_at(s, p) == (Ok::<JsonValueView, crate::error::JsonErrorView>(v), p + value_bytes(v).len()),
    decreases v,
{
    let n = value_bytes(v).len();
    lemma_first_byte(v);
    assert(s[p] == value_bytes(v)[0]) by {
        assert(s.subrange(p, p + n)[0] == s[p]);
    }
    match v {
        JsonValueView::Null => {
            lemma_literal_bytes();
        },
        JsonValueView::Boolean(b) => {
            lemma_literal_bytes();
        },
        JsonValueView::Number(t) => {
            lemma_number_ascii(t);
            lemma_number_roundtrip(s, p, t);
        },
        JsonValueView::Text(x) => {
            lemma_encode_wrapped('"', escape_text(x), '"');
            let ex = encode_utf8(escape_text(x));
            lemma_seq_at_split(s, p, seq![0x22u8] + ex, seq![0x22u8]);
            lemma_seq_at_split(s, p, seq![0x22u8], ex);
            assert(s[p + 1 + ex.len()] == 0x22) by {
                assert(s.subrange(p + 1 + ex.len(), p + 1 + ex.len() + 1)[0] == s[p + 1 + ex.len()]);
            }
            lemma_string_roundtrip(s, p + 1, x);
            encode_utf8_decode_utf8(x);
        },
        JsonValueView::Array(items) => {
            lemma_encode_wrapped('[', items_text(items), ']');
            let ei = encode_utf8(items_text(items));
            lemma_seq_at_split(s, p, seq![0x5Bu8] + ei, seq![0x5Du8]);
            lemma_seq_at_split(s, p, seq![0x5Bu8], ei);
            let close = p + 1 + ei.len();
            assert(s[close] == 0x5D) by {
                assert(s.subrange(close, close + 1)[0] == s[close]);
            }
            if items.len() == 0 {
                assert(items_text(items) =~= Seq::<char>::empty());
                assert(items =~= Seq::<JsonValueView>::empty());
            } else {
                lemma_items_first_byte(items);
                assert(s[p + 1] == ei[0]) by {
                    assert(s.subrange(p + 1, p + 1 + ei.len())[0] == s[p + 1]);
                }
                lemma_seq_at_join(s, p + 1, ei, seq![0x5Du8]);
                lemma_elements_roundtrip(s, p + 1, Seq::empty(), items);
                assert(Seq::<JsonValueView>::empty() + items =~= items);
            }
        },
        JsonValueView::Object(e) => {
            lemma_encode_wrapped('{', members_text(e), '}');
            let em = encode_utf8(members_text(e));
            lemma_seq_at_split(s, p, seq![0x7Bu8] + em, seq![0x7Du8]);
            lemma_seq_at_split(s, p, seq![0x7Bu8], em);
            let close = p + 1 + em.len();
            assert(s[close] == 0x7D) by {
                assert(s.subrange(close, close + 1)[0] == s[close]);
            }
            if e.len() == 0 {
                assert(members_text(e) =~= Seq::<char>::empty());
                assert(e =~= Seq::<(Seq<char>, JsonValueView)>::empty());
            } else {
                lemma_members_first_byte(e);
                assert(s[p + 1] == em[0]) by {
                    assert(s.subrange(p + 1, p + 1 + em.len())[0] == s[p + 1]);
                }
                lemma_seq_at_join(s, p + 1, em, seq![0x7Du8]);
                assert(Seq::<(Seq<char>, JsonValueView)>::empty() + e =~= e);
                lemma_members_roundtrip(s, p + 1, Seq::empty(), e);
            }
        },
    }
}

/// Elements written as compact text, followed by `]`, read back as the
/// elements after `acc`.
#[verifier::spinoff_prover]
pub proof fn lemma_elements_roundtrip(s: Seq<u8>, p: int, acc: Seq<JsonValueView>, items: Seq<JsonValueView>)
    requires
        items.len() >= 1,
        items_well_formed(items),
        seq_at(s, p, encode_utf8(items_text(items)) + seq![0x5Du8]),
    ensures
        elements_at(s, p, acc) == (
            Ok::<JsonValueView, crate::error::JsonErrorView>(JsonValueView::Array(acc + items)),
            p + encode_utf8(items_text(items)).len() + 1,
        ),
    decreases items,
{
    let v0 = items[0];
    let rest = items.drop_first();
    let b0 = value_bytes(v0);
    assert(well_formed(v0));
    assert(items_well_formed(rest)) by {
        assert forall|i: int| 0 <= i < rest.len() implies well_formed(#[trigger] rest[i]) by {
            assert(rest[i] == items[i + 1]);
        }
    }
    lemma_first_byte(v0);
    if items.len() == 1 {
        lemma_seq_at_split(s, p, b0, seq![0x5Du8]);
        lemma_elem_at(s, p + b0.len(), 0x5D);
        lemma_value_roundtrip(s, p, v0);
        assert(acc.push(v0) =~= acc + items);
    } else {
        lemma_items_text_first(items);
        let er = encode_utf8(items_text(rest));
        lemma_encode_concat(json_text(v0) + seq![','], items_text(rest));
        lemma_encode_concat(json_text(v0), seq![',']);
        lemma_encode_ascii_char(',');
        assert(encode_utf8(items_text(items)) + seq![0x5Du8] =~= b0 + (seq![0x2Cu8] + (er + seq![0x5Du8])));
        lemma_seq_at_split(s, p, b0, seq![0x2Cu8] + (er + seq![0x5Du8]));
        lemma_seq_at_split(s, p + b0.len(), seq![0x2Cu8], er + seq![0x5Du8]);
        let k = p + b0.len();
        lemma_seq_at_split(s, k, seq![0x2Cu8], er + seq![0x5Du8]);
        lemma_elem_at(s, k, 0x2C);
        lemma_value_roundtrip(s, p, v0);
        lemma_items_first_byte(rest);
        lemma_seq_at_split(s, k + 1, er, seq![0x5Du8]);
        assert(s[k + 1] == er[0]);
        lemma_elements_roundtrip(s, k + 1, acc.push(v0), rest);
        assert(acc.push(v0) + rest =~= acc + items);
    }
}

/// Members written as compact text, followed by `}`, read back as the
/// members after `acc` when no key repeats.
#[verifier::spinoff_prover]
#[verifier::rlimit(40)]
pub proof fn lemma_members_roundtrip(
    s: Seq<u8>,
    p: int,
    acc: Seq<(Seq<char>, JsonValueView)>,
    e: Seq<(Seq<char>, JsonValueView)>,
)
    requires
        e.len() >= 1,
        members_well_formed(e),
        keys_unique(acc + e),
        seq_at(s, p, encode_utf8(members_text(e)) + seq![0x7Du8]),
    ensures
        members_at(s, p, acc) == (
            Ok::<JsonValueView, crate::error::JsonErrorView>(JsonValueView::Object(acc + e)),
            p + encode_utf8(members_text(e)).len() + 1,
        ),
    decreases e,
{
    let m = e[0];
    let rest = e.drop_first();
    assert(well_formed(m.1));
    assert(members_well_formed(rest)) by {
        assert forall|i: int| 0 <= i < rest.len() implies well_formed(#[trigger] rest[i].1) by {
            assert(rest[i] == e[i + 1]);
        }
    }
    let ek = encode_utf8(escape_text(m.0));
    let bv = value_bytes(m.1);
    let bm = encode_utf8(member_text(m));
    lemma_member_bytes(m);
    lemma_first_byte(m.1);
    lemma_members_text_first(e);
    let tail = if e.len() == 1 {
        seq![0x7Du8]
    } else {
        seq![0x2Cu8] + (encode_utf8(members_text(rest)) + seq![0x7Du8])
    };
    if e.len() == 1 {
        assert(encode_utf8(members_text(e)) + seq![0x7Du8] =~= bm + tail);
    } else {
        lemma_encode_concat(member_text(m) + seq![','], members_text(rest));
        lemma_encode_concat(member_text(m), seq![',']);
        lemma_encode_ascii_char(',');
        assert(encode_utf8(members_text(e)) + seq![0x7Du8] =~= bm + tail);
    }
    assert(bm + tail =~= seq![0x22u8] + (ek + (seq![0x22u8] + (seq![0x3Au8] + (bv + tail)))));
    lemma_seq_at_split(s, p, seq![0x22u8], ek + (seq![0x22u8] + (seq![0x3Au8] + (bv + tail))));
    lemma_seq_at_split(s, p + 1, ek, seq![0x22u8] + (seq![0x3Au8] + (bv + tail)));
    let q0 = p + 1 + ek.len();
    lemma_seq_at_split(s, q0, seq![0x22u8], seq![0x3Au8] + (bv + tail));
    lemma_seq_at_split(s, q0 + 1, seq![0x3Au8], bv + tail);
    let c = q0 + 1;
    lemma_seq_at_split(s, c + 1, bv, tail);
    let mend = c + 1 + bv.len();
    lemma_elem_at(s, p, 0x22);
    lemma_elem_at(s, q0, 0x22);
    lemma_elem_at(s, c, 0x3A);
    assert(s[c + 1] == bv[0]);
    lemma_string_roundtrip(s, p + 1, m.0);
    encode_utf8_decode_utf8(m.0);
    assert(s[mend] == tail[0]);
    lemma_value_roundtrip(s, c + 1, m.1);
    // the key is new: inserting it appends the member
    crate::value::lemma_key_index(acc, m.0);
    if key_index(acc, m.0) >= 0 {
        let ki = key_index(acc, m.0);
        assert((acc + e)[ki] == acc[ki]);
        assert((acc + e)[acc.len() as int] == m);
        assert(false);
    }
    assert(obj_insert(acc, m.0, m.1) == acc.push(m));
    if e.len() == 1 {
        assert(acc.push(m) =~= acc + e);
    } else {
        let er = encode_utf8(members_text(rest));
        lemma_seq_at_split(s, mend, seq![0x2Cu8], er + seq![0x7Du8]);
        lemma_members_first_byte(rest);
        lemma_seq_at_split(s, mend + 1, er, seq![0x7Du8]);
        assert(s[mend + 1] == er[0]);
        assert(acc.push(m) + rest =~= acc + e);
        lemma_members_roundtrip(s, mend + 1, acc.push(m), rest);
    }
}

/// Serializing a value as compact JSON text (what `JsonValue::to_string`
/// returns) and parsing that text (what `parse_json` does) gives the value
/// back, provided every number in it is a valid literal and no object in it
/// has a key twice.
pub proof fn lemma_parse_serialized(v: JsonValueView)
    requires
        well_formed(v),
    ensures
        document(encode_utf8(json_text(v))) == Ok::<JsonValueView, crate::error::JsonErrorView>(v),
{
    let s = value_bytes(v);
    lemma_first_byte(v);
    assert(s.subrange(0, s.len() as int) =~= s);
    lemma_value_roundtrip(s, 0, v);
}


// ---------------------------------------------------------------------------
// What the parser gives back is well formed
// ---------------------------------------------------------------------------

/// A number literal that the parser accepts is a valid number text.
pub proof fn lemma_number_literal_ok(s: Seq<u8>, p: int)
    requires
        0 <= p < s.len(),
        s[p] == 0x2D || (0x30 <= s[p] <= 0x39),
    ensures
        number_literal(s, p).0 matches Ok(t) ==> number_text_ok(t),
{
    crate::lexical::lemma_number_end(s, p);
    let e = number_end(s, p);
    let b = s.subrange(p, e);
    let t = byte_chars(b);
    if json_number(b) {
        assert(ascii_bytes(t) =~= b);
        assert forall|i: int| 0 <= i < t.len() implies is_number_char(#[trigger] t[i]) by {
            assert(is_number_byte(s[p + i]));
        }
    }
}

/// Inserting a well-formed value into well-formed members keeps them well
/// formed.
pub proof fn lemma_insert_well_formed(e: Seq<(Seq<char>, JsonValueView)>, k: Seq<char>, v: JsonValueView)
    requires
        members_well_formed(e),
        well_formed(v),
    ensures
        members_well_formed(obj_insert(e, k, v)),
{
    crate::value::lemma_key_index(e, k);
    let e2 = obj_insert(e, k, v);
    let ki = key_index(e, k);
    assert forall|i: int| 0 <= i < e2.len() implies well_formed(#[trigger] e2[i].1) by {
        if ki >= 0 {
            if i == ki {
                assert(e2[i] == (k, v));
            } else {
                assert(e2[i] == e[i]);
            }
        } else if i < e.len() {
            assert(e2[i] == e[i]);
        } else {
            assert(e2[i] == (k, v));
        }
    }
}

pub proof fn lemma_value_at_well_formed(s: Seq<u8>, p: int)
    requires
        0 <= p <= s.len(),
    ensures
        value_at(s, p).0 matches Ok(v) ==> well_formed(v),
    decreases s.len() - p, 0nat,
{
    if p < s.len() {
        let b = s[p];
        if b == 0x7B {
            lemma_object_at_well_formed(s, p + 1);
        } else if b == 0x5B {
            lemma_array_at_well_formed(s, p + 1);
        } else if b == 0x2D || (0x30 <= b <= 0x39) {
            lemma_number_literal_ok(s, p);
        }
    }
}

pub proof fn lemma_array_at_well_formed(s: Seq<u8>, p: int)
    requires
        0 <= p <= s.len(),
    ensures
        array_at(s, p).0 matches Ok(v) ==> well_formed(v),
    decreases s.len() - p, 2nat,
{
    crate::stream::lemma_skip_ws(s, p);
    let w = skip_ws(s, p);
    if !(0 <= w < s.len() && s[w] == 0x5D) {
        lemma_elements_at_well_formed(s, w, Seq::empty());
    }
}

pub proof fn lemma_elements_at_well_formed(s: Seq<u8>, p: int, acc: Seq<JsonValueView>)
    requires
        0 <= p <= s.len(),
        items_well_formed(acc),
    ensures
        elements_at(s, p, acc).0 matches Ok(v) ==> well_formed(v),
    decreases s.len() - p, 1nat,
{
    crate::stream::lemma_value_at_progress(s, p);
    lemma_value_at_well_formed(s, p);
    let (r, j) = value_at(s, p);
    if let Ok(v) = r {
        let acc2 = acc.push(v);
        assert(items_well_formed(acc2)) by {
            assert forall|i: int| 0 <= i < acc2.len() implies well_formed(#[trigger] acc2[i]) by {
                if i < acc.len() {
                    assert(acc2[i] == acc[i]);
                }
            }
        }
        crate::stream::lemma_skip_ws(s, j);
        let k = skip_ws(s, j);
        if 0 <= k < s.len() && s[k] == 0x2C {
            crate::stream::lemma_skip_ws(s, k + 1);
            let w = skip_ws(s, k + 1);
            if !(0 <= w < s.len() && s[w] == 0x5D) && j > p {
                lemma_elements_at_well_formed(s, w, acc2);
            }
        }
    }
}

pub proof fn lemma_object_at_well_formed(s: Seq<u8>, p: int)
    requires
        0 <= p <= s.len(),
    ensures
        object_at(s, p).0 matches Ok(v) ==> well_formed(v),
    decreases s.len() - p, 2nat,
{
    crate::stream::lemma_skip_ws(s, p);
    let w = skip_ws(s, p);
    if !(0 <= w < s.len() && s[w] == 0x7D) {
        lemma_members_at_well_formed(s, w, Seq::empty());
    }
}

pub proof fn lemma_members_at_well_formed(s: Seq<u8>, p: int, acc: Seq<(Seq<char>, JsonValueView)>)
    requires
        0 <= p <= s.len(),
        keys_unique(acc),
        members_well_formed(acc),
    ensures
        members_at(s, p, acc).0 matches Ok(v) ==> well_formed(v),
    decreases s.len() - p, 1nat,
{
    if p < s.len() && s[p] == 0x22 {
        crate::stream::lemma_string_at_progress(s, p + 1);
        let (kr, q) = string_at(s, p + 1);
        if let Ok(kb) = kr {
            crate::stream::lemma_skip_ws(s, q);
            let c = skip_ws(s, q);
            if 0 <= c < s.len() && s[c] == 0x3A {
                crate::stream::lemma_skip_ws(s, c + 1);
                let v0 = skip_ws(s, c + 1);
                crate::stream::lemma_value_at_progress(s, v0);
                lemma_value_at_well_formed(s, v0);
                let (r, m) = value_at(s, v0);
                if let Ok(v) = r {
                    let acc2 = obj_insert(acc, decode_utf8(kb), v);
                    crate::value::lemma_insert_unique(acc, decode_utf8(kb), v);
                    lemma_insert_well_formed(acc, decode_utf8(kb), v);
                    crate::stream::lemma_skip_ws(s, m);
                    let k = skip_ws(s, m);
                    if 0 <= k < s.len() && s[k] == 0x2C {
                        crate::stream::lemma_skip_ws(s, k + 1);
                        let w = skip_ws(s, k + 1);
                        if !(0 <= w < s.len() && s[w] == 0x7D) && m > p {
                            lemma_members_at_well_formed(s, w, acc2);
                        }
                    }
                }
            }
        }
    }
}

/// Every value that `parse_json` returns is well formed: each number is a
/// valid literal and no object has a key twice.
pub proof fn lemma_parsed_well_formed(s: Seq<u8>)
    ensures
        document(s) matches Ok(v) ==> well_formed(v),
{
    crate::stream::lemma_skip_ws(s, 0);
    lemma_value_at_well_formed(s, skip_ws(s, 0));
}

/// Parsing a text, serializing what it gives and parsing again gives the same
/// value.
pub proof fn lemma_reparse(s: Seq<u8>)
    ensures
        document(s) matches Ok(v) ==> document(encode_utf8(json_text(v))) == Ok::<JsonValueView, crate::error::JsonErrorView>(v),
{
    lemma_parsed_well_formed(s);
    if let Ok(v) = document(s) {
        lemma_parse_serialized(v);
    }
}


// ---------------------------------------------------------------------------
// Error positions lie within the input
// ---------------------------------------------------------------------------

/// The outcome is a success or an error at a position no later than `n`.
pub open spec fn within<T>(r: Result<T, JsonErrorView>, n: int) -> bool {
    r matches Err(e) ==> e.position() <= n
}

pub proof fn lemma_escape_within(s: Seq<u8>, p: int)
    requires
        1 <= p <= s.len(),
    ensures
        within(escape_sequence(s, p).0, s.len() as int),
        p <= escape_sequence(s, p).1 <= s.len(),
{
}

pub proof fn lemma_escaped_within(s: Seq<u8>, p: int, acc: Seq<u8>)
    requires
        0 <= p <= s.len(),
    ensures
        within(escaped_at(s, p, acc).0, s.len() as int),
    decreases s.len() - p,
{
    if 0 <= p < s.len() && s[p] != 0x22 {
        if s[p] == 0x5C {
            lemma_escape_within(s, p + 1);
            let (r, q) = escape_sequence(s, p + 1);
            if let Ok(c) = r {
                lemma_escaped_within(s, q, acc + encode_scalar(c as u32));
            }
        } else {
            crate::stream::lemma_quote_or_backslash(s, p);
            if let Some(e) = quote_or_backslash(s, p) {
                lemma_escaped_within(s, e, acc + s.subrange(p, e));
            }
        }
    }
}

pub proof fn lemma_string_within(s: Seq<u8>, p: int)
    requires
        0 <= p <= s.len(),
    ensures
        within(string_at(s, p).0, s.len() as int),
{
    crate::stream::lemma_quote_or_backslash(s, p);
    if let Some(e) = quote_or_backslash(s, p) {
        if s[e] != 0x22 {
            lemma_escaped_within(s, e, s.subrange(p, e));
        }
    }
}

pub proof fn lemma_value_within(s: Seq<u8>, p: int)
    requires
        0 <= p <= s.len(),
    ensures
        within(value_at(s, p).0, s.len() as int),
    decreases s.len() - p, 0nat,
{
    if p < s.len() {
        let b = s[p];
        if b == 0x7B {
            lemma_object_within(s, p + 1);
        } else if b == 0x5B {
            lemma_array_within(s, p + 1);
        } else if b == 0x22 {
            lemma_string_within(s, p + 1);
        }
    }
}

pub proof fn lemma_array_within(s: Seq<u8>, p: int)
    requires
        0 <= p <= s.len(),
    ensures
        within(array_at(s, p).0, s.len() as int),
    decreases s.len() - p, 2nat,
{
    crate::stream::lemma_skip_ws(s, p);
    let w = skip_ws(s, p);
    if !(0 <= w < s.len() && s[w] == 0x5D) {
        lemma_elements_within(s, w, Seq::empty());
    }
}

pub proof fn lemma_elements_within(s: Seq<u8>, p: int, acc: Seq<JsonValueView>)
    requires
        0 <= p <= s.len(),
    ensures
        within(elements_at(s, p, acc).0, s.len() as int),
    decreases s.len() - p, 1nat,
{
    crate::stream::lemma_value_at_progress(s, p);
    lemma_value_within(s, p);
    let (r, j) = value_at(s, p);
    if let Ok(v) = r {
        crate::stream::lemma_skip_ws(s, j);
        let k = skip_ws(s, j);
        if 0 <= k < s.len() && s[k] == 0x2C {
            crate::stream::lemma_skip_ws(s, k + 1);
            let w = skip_ws(s, k + 1);
            if !(0 <= w < s.len() && s[w] == 0x5D) && j > p {
                lemma_elements_within(s, w, acc.push(v));
            }
        }
    }
}

pub proof fn lemma_object_within(s: Seq<u8>, p: int)
    requires
        0 <= p <= s.len(),
    ensures
        within(object_at(s, p).0, s.len() as int),
    decreases s.len() - p, 2nat,
{
    crate::stream::lemma_skip_ws(s, p);
    let w = skip_ws(s, p);
    if !(0 <= w < s.len() && s[w] == 0x7D) {
        lemma_members_within(s, w, Seq::empty());
    }
}

pub proof fn lemma_members_within(s: Seq<u8>, p: int, acc: Seq<(Seq<char>, JsonValueView)>)
    requires
        0 <= p <= s.len(),
    ensures
        within(members_at(s, p, acc).0, s.len() as int),
    decreases s.len() - p, 1nat,
{
    if p < s.len() && s[p] == 0x22 {
        crate::stream::lemma_string_at_progress(s, p + 1);
        lemma_string_within(s, p + 1);
        let (kr, q) = string_at(s, p + 1);
        if let Ok(kb) = kr {
            crate::stream::lemma_skip_ws(s, q);
            let c = skip_ws(s, q);
            if 0 <= c < s.len() && s[c] == 0x3A {
                crate::stream::lemma_skip_ws(s, c + 1);
                let v0 = skip_ws(s, c + 1);
                crate::stream::lemma_value_at_progress(s, v0);
                lemma_value_within(s, v0);
                let (r, m) = value_at(s, v0);
                if let Ok(v) = r {
                    crate::stream::lemma_skip_ws(s, m);
                    let k = skip_ws(s, m);
                    if 0 <= k < s.len() && s[k] == 0x2C {
                        crate::stream::lemma_skip_ws(s, k + 1);
                        let w = skip_ws(s, k + 1);
                        if !(0 <= w < s.len() && s[w] == 0x7D) && m > p {
                            lemma_members_within(s, w, obj_insert(acc, decode_utf8(kb), v));
                        }
                    }
                }
            }
        }
    }
}

/// Every error that `parse_json` reports is at a byte position within the
/// input: no later than its length.
pub proof fn lemma_parse_error_position(s: Seq<u8>)
    ensures
        document(s) matches Err(e) ==> e.position() <= s.len(),
{
    crate::stream::lemma_skip_ws(s, 0);
    lemma_value_within(s, skip_ws(s, 0));
}


pub proof fn lemma_string_body_within(s: Seq<u8>, p: int, acc: Seq<u8>)
    requires
        0 <= p <= s.len(),
    ensures
        within(string_body(s, p, acc).0, s.len() as int),
    decreases s.len() - p,
{
    if p < s.len() && s[p] != 0x22 {
        if s[p] == 0x5C {
            lemma_escape_within(s, p + 1);
            let (r, q) = escape_sequence(s, p + 1);
            if let Ok(c) = r {
                lemma_string_body_within(s, q, acc + encode_scalar(c as u32));
            }
        } else {
            lemma_string_body_within(s, p + 1, acc.push(s[p]));
        }
    }
}

pub proof fn lemma_keyword_within(s: Seq<u8>, start: int, kw: Seq<char>, j: int)
    requires
        0 <= start,
        0 <= j,
    ensures
        within(keyword_from(s, start, kw, j).0, start),
    decreases encode_utf8(kw).len() - j,
{
    let k = encode_utf8(kw);
    if 0 <= j < k.len() && start + j < s.len() && s[start + j] == k[j] {
        lemma_keyword_within(s, start, kw, j + 1);
    }
}

pub proof fn lemma_token_within(s: Seq<u8>, p: int)
    requires
        0 <= p < s.len(),
    ensures
        within(token_at(s, p).0, s.len() as int),
{
    if s[p] == 0x22 {
        lemma_string_body_within(s, p + 1, Seq::empty());
    } else {
        lemma_keyword_within(s, p, "true"@, 0);
        lemma_keyword_within(s, p, "false"@, 0);
        lemma_keyword_within(s, p, "null"@, 0);
    }
}

pub proof fn lemma_lex_within(s: Seq<u8>, p: int)
    requires
        0 <= p <= s.len(),
    ensures
        within(lex(s, p).0, s.len() as int),
    decreases s.len() - p,
{
    if p < s.len() {
        if is_token_ws(s[p]) {
            lemma_lex_within(s, p + 1);
        } else {
            lemma_token_within(s, p);
            crate::tokenizer::lemma_token_progress(s, p);
            let (r, q) = token_at(s, p);
            if r is Ok {
                lemma_lex_within(s, q);
            }
        }
    }
}

/// Every error that `Tokenizer::tokenize` reports is at a byte position
/// within the input: no later than its length.
pub proof fn lemma_tokenize_error_position(s: Seq<u8>)
    ensures
        lex(s, 0).0 matches Err(e) ==> e.position() <= s.len(),
{
    lemma_lex_within(s, 0);
}


// ---------------------------------------------------------------------------
// The two-pass route: tokens of serialized text
// ---------------------------------------------------------------------------

/// The tokens of a value's compact text.
pub open spec fn value_tokens(v: JsonValueView) -> Seq<TokenView>
    decreases v,
{
    match v {
        JsonValueView::Null => seq![TokenView::Null],
        JsonValueView::Boolean(b) => seq![TokenView::Boolean(b)],
        JsonValueView::Number(t) => seq![TokenView::Number(t)],
        JsonValueView::Text(x) => seq![TokenView::String(x)],
        JsonValueView::Array(items) => seq![TokenView::LeftBracket] + items_tokens(items) + seq![TokenView::RightBracket],
        JsonValueView::Object(e) => seq![TokenView::LeftBrace] + members_tokens(e) + seq![TokenView::RightBrace],
    }
}

/// The tokens of array elements, separated by commas.
pub open spec fn items_tokens(items: Seq<JsonValueView>) -> Seq<TokenView>
    decreases items,
{
    if items.len() == 0 {
        Seq::empty()
    } else if items.len() == 1 {
        value_tokens(items[0])
    } else {
        value_tokens(items[0]) + seq![TokenView::Comma] + items_tokens(items.drop_first())
    }
}

/// The tokens of object members, separated by commas.
pub open spec fn members_tokens(e: Seq<(Seq<char>, JsonValueView)>) -> Seq<TokenView>
    decreases e,
{
    if e.len() == 0 {
        Seq::empty()
    } else if e.len() == 1 {
        seq![TokenView::String(e[0].0), TokenView::Colon] + value_tokens(e[0].1)
    } else {
        seq![TokenView::String(e[0].0), TokenView::Colon] + value_tokens(e[0].1) + seq![TokenView::Comma]
            + members_tokens(e.drop_first())
    }
}

/// A string body holding escaped text followed by a closing quote reads back
/// as the text's encoding after the bytes `acc`.
#[verifier::spinoff_prover]
pub proof fn lemma_string_body_roundtrip(s: Seq<u8>, p: int, acc: Seq<u8>, x: Seq<char>)
    requires
        seq_at(s, p, encode_utf8(escape_text(x)) + seq![0x22u8]),
    ensures
        string_body(s, p, acc) == (
            Ok::<Seq<u8>, JsonErrorView>(acc + encode_utf8(x)),
            p + encode_utf8(escape_text(x)).len() + 1,
        ),
    decreases x.len(),
{
    if x.len() == 0 {
        assert(escape_text(x) =~= Seq::<char>::empty());
        assert(encode_utf8(escape_text(x)) =~= Seq::<u8>::empty());
        assert(encode_utf8(escape_text(x)) + seq![0x22u8] =~= seq![0x22u8]);
        lemma_elem_at(s, p, 0x22u8);
        assert(acc + encode_utf8(x) =~= acc);
    } else {
        let c = x[0];
        let rest = x.drop_first();
        assert(x =~= seq![c] + rest);
        lemma_escape_first(c, rest);
        lemma_encode_concat(escape_char(c), escape_text(rest));
        lemma_encode_concat(seq![c], rest);
        lemma_encode_one(c);
        let ec = encode_utf8(escape_char(c));
        let er = encode_utf8(escape_text(rest));
        assert(encode_utf8(escape_text(x)) + seq![0x22u8] =~= ec + (er + seq![0x22u8]));
        lemma_seq_at_split(s, p, ec, er + seq![0x22u8]);
        if is_special(c) {
            lemma_escape_special(c);
            assert(ec =~= seq![ec[0]] + seq![ec[1]]);
            lemma_seq_at_split(s, p, seq![ec[0]], seq![ec[1]]);
            lemma_elem_at(s, p, ec[0]);
            lemma_elem_at(s, p + 1, ec[1]);
            lemma_string_body_roundtrip(s, p + 2, acc + encode_scalar(c as u32), rest);
        } else {
            assert(escape_char(c) == seq![c]);
            lemma_scalar_not_special(c);
            assert forall|j: int| p <= j < p + ec.len() implies s[j] != 0x22 && s[j] != 0x5C by {
                assert(s[j] == ec[j - p]);
            }
            crate::tokenizer::lemma_string_body_plain(s, p, p + ec.len(), acc);
            assert(s.subrange(p, p + ec.len()) == ec);
            lemma_string_body_roundtrip(s, p + ec.len(), acc + ec, rest);
        }
        assert(acc + encode_scalar(c as u32) + encode_utf8(rest) =~= acc + encode_utf8(x));
    }
}

/// Matching bytes read a keyword to its end.
pub proof fn lemma_keyword_match(s: Seq<u8>, start: int, kw: Seq<char>, j: int)
    requires
        0 <= j <= encode_utf8(kw).len(),
        seq_at(s, start, encode_utf8(kw)),
    ensures
        keyword_from(s, start, kw, j) == (Ok::<(), JsonErrorView>(()), start + encode_utf8(kw).len()),
    decreases encode_utf8(kw).len() - j,
{
    let k = encode_utf8(kw);
    if j < k.len() {
        assert(s[start + j] == s.subrange(start, start + k.len())[j]);
        lemma_keyword_match(s, start, kw, j + 1);
    }
}

/// Tokens before what tokenizing further gives, taken twice, are the two
/// token sequences joined.
pub proof fn lemma_after_tokens_compose(
    a: Seq<TokenView>,
    b: Seq<TokenView>,
    r: (Result<Seq<TokenView>, JsonErrorView>, int),
)
    ensures
        after_tokens(a, after_tokens(b, r)) == after_tokens(a + b, r),
{
    if let Ok(more) = r.0 {
        assert(a + (b + more) =~= (a + b) + more);
    }
}

/// A single-byte token at `p`.
pub proof fn lemma_lex_punct(s: Seq<u8>, p: int, b: u8, t: TokenView)
    requires
        0 <= p < s.len(),
        s[p] == b,
        b == 0x7B && t == TokenView::LeftBrace || b == 0x7D && t == TokenView::RightBrace || b == 0x5B && t
            == TokenView::LeftBracket || b == 0x5D && t == TokenView::RightBracket || b == 0x2C && t
            == TokenView::Comma || b == 0x3A && t == TokenView::Colon,
    ensures
        lex(s, p) == after_tokens(seq![t], lex(s, p + 1)),
{
}

/// Tokenizing the compact text of a value that is not a container.
#[verifier::spinoff_prover]
pub proof fn lemma_lex_scalar(s: Seq<u8>, p: int, v: JsonValueView)
    requires
        well_formed(v),
        !(v is Array),
        !(v is Object),
        seq_at(s, p, value_bytes(v)),
        ends_number(s, p + value_bytes(v).len()),
    ensures
        lex(s, p) == after_tokens(value_tokens(v), lex(s, p + value_bytes(v).len())),
{
    let n = value_bytes(v).len();
    lemma_first_byte(v);
    assert(s[p] == value_bytes(v)[0]) by {
        assert(s.subrange(p, p + n)[0] == s[p]);
    }
    match v {
        JsonValueView::Null => {
            lemma_literal_bytes();
            lemma_keyword_match(s, p, "null"@, 0);
        },
        JsonValueView::Boolean(b) => {
            lemma_literal_bytes();
            if b {
                lemma_keyword_match(s, p, "true"@, 0);
            } else {
                lemma_keyword_match(s, p, "false"@, 0);
            }
        },
        JsonValueView::Number(t) => {
            lemma_number_ascii(t);
            lemma_number_roundtrip(s, p, t);
        },
        JsonValueView::Text(x) => {
            lemma_encode_wrapped('"', escape_text(x), '"');
            let ex = encode_utf8(escape_text(x));
            assert(value_bytes(v) =~= seq![0x22u8] + (ex + seq![0x22u8]));
            lemma_seq_at_split(s, p, seq![0x22u8], ex + seq![0x22u8]);
            lemma_string_body_roundtrip(s, p + 1, Seq::empty(), x);
            assert(Seq::<u8>::empty() + encode_utf8(x) =~= encode_utf8(x));
            encode_utf8_valid_utf8(x);
            encode_utf8_decode_utf8(x);
        },
        _ => {},
    }
}

/// Tokenizing a value's compact text, followed by a byte that cannot continue
/// a number, gives the value's tokens before whatever follows.
#[verifier::spinoff_prover]
pub proof fn lemma_lex_value(s: Seq<u8>, p: int, v: JsonValueView)
    requires
        well_formed(v),
        seq_at(s, p, value_bytes(v)),
        ends_number(s, p + value_bytes(v).len()),
    ensures
        lex(s, p) == after_tokens(value_tokens(v), lex(s, p + value_bytes(v).len())),
    decreases v,
{
    match v {
        JsonValueView::Array(items) => {
            lemma_encode_wrapped('[', items_text(items), ']');
            let ei = encode_utf8(items_text(items));
            lemma_seq_at_split(s, p, seq![0x5Bu8] + ei, seq![0x5Du8]);
            lemma_seq_at_split(s, p, seq![0x5Bu8], ei);
            let close = p + 1 + ei.len();
            lemma_elem_at(s, close, 0x5Du8);
            lemma_elem_at(s, p, 0x5Bu8);
            lemma_lex_punct(s, p, 0x5B, TokenView::LeftBracket);
            lemma_lex_punct(s, close, 0x5D, TokenView::RightBracket);
            if items.len() == 0 {
                assert(items_text(items) =~= Seq::<char>::empty());
                assert(items_tokens(items) =~= Seq::<TokenView>::empty());
                lemma_after_tokens_compose(seq![TokenView::LeftBracket], seq![TokenView::RightBracket], lex(s, close + 1));
                assert(seq![TokenView::LeftBracket] + seq![TokenView::RightBracket] =~= value_tokens(v));
            } else {
                lemma_lex_items(s, p + 1, items);
                lemma_after_tokens_compose(items_tokens(items), seq![TokenView::RightBracket], lex(s, close + 1));
                lemma_after_tokens_compose(
                    seq![TokenView::LeftBracket],
                    items_tokens(items) + seq![TokenView::RightBracket],
                    lex(s, close + 1),
                );
                assert(seq![TokenView::LeftBracket] + (items_tokens(items) + seq![TokenView::RightBracket]) =~= value_tokens(v));
            }
        },
        JsonValueView::Object(e) => {
            lemma_encode_wrapped('{', members_text(e), '}');
            let em = encode_utf8(members_text(e));
            lemma_seq_at_split(s, p, seq![0x7Bu8] + em, seq![0x7Du8]);
            lemma_seq_at_split(s, p, seq![0x7Bu8], em);
            let close = p + 1 + em.len();
            lemma_elem_at(s, close, 0x7Du8);
            lemma_elem_at(s, p, 0x7Bu8);
            lemma_lex_punct(s, p, 0x7B, TokenView::LeftBrace);
            lemma_lex_punct(s, close, 0x7D, TokenView::RightBrace);
            if e.len() == 0 {
                assert(members_text(e) =~= Seq::<char>::empty());
                assert(members_tokens(e) =~= Seq::<TokenView>::empty());
                lemma_after_tokens_compose(seq![TokenView::LeftBrace], seq![TokenView::RightBrace], lex(s, close + 1));
                assert(seq![TokenView::LeftBrace] + seq![TokenView::RightBrace] =~= value_tokens(v));
            } else {
                lemma_lex_members(s, p + 1, e);
                lemma_after_tokens_compose(members_tokens(e), seq![TokenView::RightBrace], lex(s, close + 1));
                lemma_after_tokens_compose(
                    seq![TokenView::LeftBrace],
                    members_tokens(e) + seq![TokenView::RightBrace],
                    lex(s, close + 1),
                );
                assert(seq![TokenView::LeftBrace] + (members_tokens(e) + seq![TokenView::RightBrace]) =~= value_tokens(v));
            }
        },
        _ => {
            lemma_lex_scalar(s, p, v);
        },
    }
}

/// Tokenizing the compact text of array elements, followed by a byte that
/// cannot continue a number, gives their tokens.
#[verifier::spinoff_prover]
pub proof fn lemma_lex_items(s: Seq<u8>, p: int, items: Seq<JsonValueView>)
    requires
        items.len() >= 1,
        items_well_formed(items),
        seq_at(s, p, encode_utf8(items_text(items))),
        ends_number(s, p + encode_utf8(items_text(items)).len()),
    ensures
        lex(s, p) == after_tokens(items_tokens(items), lex(s, p + encode_utf8(items_text(items)).len())),
    decreases items,
{
    let v0 = items[0];
    let rest = items.drop_first();
    assert(well_formed(v0));
    assert(items_well_formed(rest)) by {
        assert forall|i: int| 0 <= i < rest.len() implies well_formed(#[trigger] rest[i]) by {
            assert(rest[i] == items[i + 1]);
        }
    }
    let b0 = value_bytes(v0);
    if items.len() == 1 {
        lemma_lex_value(s, p, v0);
    } else {
        lemma_items_text_first(items);
        let er = encode_utf8(items_text(rest));
        lemma_encode_concat(json_text(v0) + seq![','], items_text(rest));
        lemma_encode_concat(json_text(v0), seq![',']);
        lemma_encode_ascii_char(',');
        assert(encode_utf8(items_text(items)) =~= b0 + (seq![0x2Cu8] + er));
        lemma_seq_at_split(s, p, b0, seq![0x2Cu8] + er);
        let k = p + b0.len();
        lemma_seq_at_split(s, k, seq![0x2Cu8], er);
        lemma_elem_at(s, k, 0x2Cu8);
        lemma_lex_value(s, p, v0);
        lemma_lex_punct(s, k, 0x2C, TokenView::Comma);
        lemma_lex_items(s, k + 1, rest);
        let r = lex(s, k + 1 + er.len());
        lemma_after_tokens_compose(seq![TokenView::Comma], items_tokens(rest), r);
        lemma_after_tokens_compose(value_tokens(v0), seq![TokenView::Comma] + items_tokens(rest), r);
        assert(value_tokens(v0) + (seq![TokenView::Comma] + items_tokens(rest)) =~= items_tokens(items));
    }
}

/// Tokenizing a quoted key and a colon.
#[verifier::spinoff_prover]
pub proof fn lemma_lex_key(s: Seq<u8>, p: int, k: Seq<char>)
    requires
        seq_at(s, p, seq![0x22u8] + ((encode_utf8(escape_text(k)) + seq![0x22u8]) + seq![0x3Au8])),
    ensures
        lex(s, p) == after_tokens(
            seq![TokenView::String(k), TokenView::Colon],
            lex(s, p + encode_utf8(escape_text(k)).len() + 3),
        ),
{
    let ek = encode_utf8(escape_text(k));
    let c = p + 1 + ek.len() + 1;
    lemma_seq_at_split(s, p, seq![0x22u8], (ek + seq![0x22u8]) + seq![0x3Au8]);
    lemma_seq_at_split(s, p + 1, ek + seq![0x22u8], seq![0x3Au8]);
    lemma_elem_at(s, p, 0x22u8);
    lemma_elem_at(s, c, 0x3Au8);
    lemma_string_body_roundtrip(s, p + 1, Seq::empty(), k);
    assert(Seq::<u8>::empty() + encode_utf8(k) =~= encode_utf8(k));
    encode_utf8_valid_utf8(k);
    encode_utf8_decode_utf8(k);
    assert(token_at(s, p) == (Ok::<TokenView, JsonErrorView>(TokenView::String(k)), c));
    assert(lex(s, p) == after_tokens(seq![TokenView::String(k)], lex(s, c)));
    lemma_lex_punct(s, c, 0x3A, TokenView::Colon);
    lemma_after_tokens_compose(seq![TokenView::String(k)], seq![TokenView::Colon], lex(s, c + 1));
    assert(seq![TokenView::String(k)] + seq![TokenView::Colon] =~= seq![TokenView::String(k), TokenView::Colon]);
}

/// Tokenizing the compact text of object members, followed by a byte that
/// cannot continue a number, gives their tokens.
#[verifier::spinoff_prover]
pub proof fn lemma_lex_members(s: Seq<u8>, p: int, e: Seq<(Seq<char>, JsonValueView)>)
    requires
        e.len() >= 1,
        members_well_formed(e),
        seq_at(s, p, encode_utf8(members_text(e))),
        ends_number(s, p + encode_utf8(members_text(e)).len()),
    ensures
        lex(s, p) == after_tokens(members_tokens(e), lex(s, p + encode_utf8(members_text(e)).len())),
    decreases e,
{
    let m = e[0];
    let rest = e.drop_first();
    assert(well_formed(m.1));
    assert(members_well_formed(rest)) by {
        assert forall|i: int| 0 <= i < rest.len() implies well_formed(#[trigger] rest[i].1) by {
            assert(rest[i] == e[i + 1]);
        }
    }
    let ek = encode_utf8(escape_text(m.0));
    let bv = value_bytes(m.1);
    let bm = encode_utf8(member_text(m));
    lemma_member_bytes(m);
    lemma_members_text_first(e);
    let tail = if e.len() == 1 {
        Seq::<u8>::empty()
    } else {
        seq![0x2Cu8] + encode_utf8(members_text(rest))
    };
    if e.len() == 1 {
        assert(encode_utf8(members_text(e)) =~= bm + tail);
    } else {
        lemma_encode_concat(member_text(m) + seq![','], members_text(rest));
        lemma_encode_concat(member_text(m), seq![',']);
        lemma_encode_ascii_char(',');
        assert(encode_utf8(members_text(e)) =~= bm + tail);
    }
    assert(bm + tail =~= seq![0x22u8] + ((ek + seq![0x22u8]) + (seq![0x3Au8] + (bv + tail))));
    lemma_seq_at_split(s, p, seq![0x22u8], (ek + seq![0x22u8]) + (seq![0x3Au8] + (bv + tail)));
    lemma_seq_at_split(s, p + 1, ek + seq![0x22u8], seq![0x3Au8] + (bv + tail));
    let c = p + 1 + ek.len() + 1;
    lemma_seq_at_split(s, c, seq![0x3Au8], bv + tail);
    lemma_seq_at_split(s, c + 1, bv, tail);
    let mend = c + 1 + bv.len();
    lemma_seq_at_join(s, p + 1, ek + seq![0x22u8], seq![0x3Au8]);
    lemma_seq_at_join(s, p, seq![0x22u8], (ek + seq![0x22u8]) + seq![0x3Au8]);
    lemma_lex_key(s, p, m.0);
    let kc = seq![TokenView::String(m.0), TokenView::Colon];
    let vt = value_tokens(m.1);
    if e.len() == 1 {
        assert(tail =~= Seq::<u8>::empty());
        assert(mend == p + encode_utf8(members_text(e)).len());
        lemma_lex_value(s, c + 1, m.1);
        lemma_after_tokens_compose(kc, vt, lex(s, mend));
        assert(kc + vt =~= members_tokens(e));
    } else {
        let er = encode_utf8(members_text(rest));
        lemma_seq_at_split(s, mend, seq![0x2Cu8], er);
        lemma_elem_at(s, mend, 0x2Cu8);
        lemma_lex_value(s, c + 1, m.1);
        lemma_lex_punct(s, mend, 0x2C, TokenView::Comma);
        lemma_lex_members(s, mend + 1, rest);
        let r = lex(s, mend + 1 + er.len());
        let more = seq![TokenView::Comma] + members_tokens(rest);
        lemma_after_tokens_compose(seq![TokenView::Comma], members_tokens(rest), r);
        lemma_after_tokens_compose(vt, more, r);
        lemma_after_tokens_compose(kc, vt + more, r);
        assert(kc + (vt + more) =~= members_tokens(e));
    }
}

/// The tokens of a value are never empty, and the first is never a closing
/// bracket or brace.
pub proof fn lemma_value_tokens_first(v: JsonValueView)
    ensures
        value_tokens(v).len() >= 1,
        !(value_tokens(v)[0] is RightBracket),
        !(value_tokens(v)[0] is RightBrace),
{
}

pub proof fn lemma_items_tokens_first(items: Seq<JsonValueView>)
    requires
        items.len() >= 1,
    ensures
        items_tokens(items).len() >= 1,
        items_tokens(items)[0] == value_tokens(items[0])[0],
{
    lemma_value_tokens_first(items[0]);
}

/// A value's tokens at index `i` parse back as the value and end where they
/// end.
#[verifier::spinoff_prover]
pub proof fn lemma_token_value_roundtrip(ts: Seq<TokenView>, at: Seq<int>, i: int, v: JsonValueView)
    requires
        well_formed(v),
        seq_at(ts, i, value_tokens(v)),
    ensures
        token_value(ts, at, i) == (Ok::<JsonValueView, JsonErrorView>(v), i + value_tokens(v).len()),
    decreases v,
{
    let n = value_tokens(v).len();
    assert(ts[i] == value_tokens(v)[0]) by {
        assert(ts.subrange(i, i + n)[0] == ts[i]);
    }
    match v {
        JsonValueView::Array(items) => {
            let it = items_tokens(items);
            assert(value_tokens(v) =~= seq![TokenView::LeftBracket] + (it + seq![TokenView::RightBracket]));
            lemma_seq_at_split(ts, i, seq![TokenView::LeftBracket], it + seq![TokenView::RightBracket]);
            if items.len() == 0 {
                assert(it =~= Seq::<TokenView>::empty());
                assert(it + seq![TokenView::RightBracket] =~= seq![TokenView::RightBracket]);
                lemma_elem_at(ts, i + 1, TokenView::RightBracket);
                assert(items =~= Seq::<JsonValueView>::empty());
            } else {
                lemma_items_tokens_first(items);
                lemma_value_tokens_first(items[0]);
                assert(ts[i + 1] == it[0]) by {
                    assert(ts.subrange(i + 1, i + 1 + it.len() + 1)[0] == ts[i + 1]);
                }
                lemma_token_elements_roundtrip(ts, at, i + 1, Seq::empty(), items);
                assert(Seq::<JsonValueView>::empty() + items =~= items);
            }
        },
        JsonValueView::Object(e) => {
            let mt = members_tokens(e);
            assert(value_tokens(v) =~= seq![TokenView::LeftBrace] + (mt + seq![TokenView::RightBrace]));
            lemma_seq_at_split(ts, i, seq![TokenView::LeftBrace], mt + seq![TokenView::RightBrace]);
            if e.len() == 0 {
                assert(mt =~= Seq::<TokenView>::empty());
                assert(mt + seq![TokenView::RightBrace] =~= seq![TokenView::RightBrace]);
                lemma_elem_at(ts, i + 1, TokenView::RightBrace);
                assert(e =~= Seq::<(Seq<char>, JsonValueView)>::empty());
            } else {
                assert(ts[i + 1] == mt[0]) by {
                    assert(ts.subrange(i + 1, i + 1 + mt.len() + 1)[0] == ts[i + 1]);
                }
                assert(Seq::<(Seq<char>, JsonValueView)>::empty() + e =~= e);
                lemma_token_members_roundtrip(ts, at, i + 1, Seq::empty(), e);
            }
        },
        _ => {},
    }
}

/// The tokens of array elements followed by `]` parse back as the elements
/// after `acc`.
#[verifier::spinoff_prover]
pub proof fn lemma_token_elements_roundtrip(
    ts: Seq<TokenView>,
    at: Seq<int>,
    i: int,
    acc: Seq<JsonValueView>,
    items: Seq<JsonValueView>,
)
    requires
        items.len() >= 1,
        items_well_formed(items),
        seq_at(ts, i, items_tokens(items) + seq![TokenView::RightBracket]),
    ensures
        token_elements(ts, at, i, acc) == (
            Ok::<JsonValueView, JsonErrorView>(JsonValueView::Array(acc + items)),
            i + items_tokens(items).len() + 1,
        ),
    decreases items,
{
    let v0 = items[0];
    let rest = items.drop_first();
    assert(well_formed(v0));
    assert(items_well_formed(rest)) by {
        assert forall|k: int| 0 <= k < rest.len() implies well_formed(#[trigger] rest[k]) by {
            assert(rest[k] == items[k + 1]);
        }
    }
    let t0 = value_tokens(v0);
    lemma_value_tokens_first(v0);
    if items.len() == 1 {
        lemma_seq_at_split(ts, i, t0, seq![TokenView::RightBracket]);
        lemma_elem_at(ts, i + t0.len(), TokenView::RightBracket);
        lemma_token_value_roundtrip(ts, at, i, v0);
        assert(acc.push(v0) =~= acc + items);
    } else {
        let rt = items_tokens(rest);
        assert(items_tokens(items) + seq![TokenView::RightBracket] =~= t0 + (seq![TokenView::Comma] + (rt
            + seq![TokenView::RightBracket])));
        lemma_seq_at_split(ts, i, t0, seq![TokenView::Comma] + (rt + seq![TokenView::RightBracket]));
        let j = i + t0.len();
        lemma_seq_at_split(ts, j, seq![TokenView::Comma], rt + seq![TokenView::RightBracket]);
        lemma_elem_at(ts, j, TokenView::Comma);
        lemma_token_value_roundtrip(ts, at, i, v0);
        lemma_items_tokens_first(rest);
        lemma_value_tokens_first(rest[0]);
        assert(ts[j + 1] == rt[0]) by {
            assert(ts.subrange(j + 1, j + 1 + rt.len() + 1)[0] == ts[j + 1]);
        }
        lemma_token_elements_roundtrip(ts, at, j + 1, acc.push(v0), rest);
        assert(acc.push(v0) + rest =~= acc + items);
    }
}

/// The tokens of object members followed by `}` parse back as the members
/// after `acc` when no key repeats.
#[verifier::spinoff_prover]
pub proof fn lemma_token_members_roundtrip(
    ts: Seq<TokenView>,
    at: Seq<int>,
    i: int,
    acc: Seq<(Seq<char>, JsonValueView)>,
    e: Seq<(Seq<char>, JsonValueView)>,
)
    requires
        e.len() >= 1,
        members_well_formed(e),
        keys_unique(acc + e),
        seq_at(ts, i, members_tokens(e) + seq![TokenView::RightBrace]),
    ensures
        token_members(ts, at, i, acc) == (
            Ok::<JsonValueView, JsonErrorView>(JsonValueView::Object(acc + e)),
            i + members_tokens(e).len() + 1,
        ),
    decreases e,
{
    let m = e[0];
    let rest = e.drop_first();
    assert(well_formed(m.1));
    assert(members_well_formed(rest)) by {
        assert forall|k: int| 0 <= k < rest.len() implies well_formed(#[trigger] rest[k].1) by {
            assert(rest[k] == e[k + 1]);
        }
    }
    let vt = value_tokens(m.1);
    lemma_value_tokens_first(m.1);
    let tail = if e.len() == 1 {
        seq![TokenView::RightBrace]
    } else {
        seq![TokenView::Comma] + (members_tokens(rest) + seq![TokenView::RightBrace])
    };
    assert(members_tokens(e) + seq![TokenView::RightBrace] =~= seq![TokenView::String(m.0)] + (seq![TokenView::Colon]
        + (vt + tail)));
    lemma_seq_at_split(ts, i, seq![TokenView::String(m.0)], seq![TokenView::Colon] + (vt + tail));
    lemma_seq_at_split(ts, i + 1, seq![TokenView::Colon], vt + tail);
    lemma_seq_at_split(ts, i + 2, vt, tail);
    lemma_elem_at(ts, i, TokenView::String(m.0));
    lemma_elem_at(ts, i + 1, TokenView::Colon);
    lemma_token_value_roundtrip(ts, at, i + 2, m.1);
    let mend = i + 2 + vt.len();
    crate::value::lemma_key_index(acc, m.0);
    if key_index(acc, m.0) >= 0 {
        let ki = key_index(acc, m.0);
        assert((acc + e)[ki] == acc[ki]);
        assert((acc + e)[acc.len() as int] == m);
        assert(false);
    }
    assert(obj_insert(acc, m.0, m.1) == acc.push(m));
    if e.len() == 1 {
        lemma_elem_at(ts, mend, TokenView::RightBrace);
        assert(acc.push(m) =~= acc + e);
    } else {
        let rt = members_tokens(rest);
        lemma_seq_at_split(ts, mend, seq![TokenView::Comma], rt + seq![TokenView::RightBrace]);
        lemma_elem_at(ts, mend, TokenView::Comma);
        assert(ts[mend + 1] == rt[0]) by {
            assert(ts.subrange(mend + 1, mend + 1 + rt.len() + 1)[0] == ts[mend + 1]);
        }
        assert(acc.push(m) + rest =~= acc + e);
        lemma_token_members_roundtrip(ts, at, mend + 1, acc.push(m), rest);
    }
}

/// Tokenizing a value's compact text (what `JsonParser::new` does) gives its
/// tokens, and parsing those tokens (what `JsonParser::parse` does) gives the
/// value back and reads every token, provided every number in it is a valid
/// literal and no object in it has a key twice.
pub proof fn lemma_token_parse_serialized(v: JsonValueView)
    requires
        well_formed(v),
    ensures
        lex(encode_utf8(json_text(v)), 0).0 == Ok::<Seq<TokenView>, JsonErrorView>(value_tokens(v)),
        token_value(
            value_tokens(v),
            token_starts(encode_utf8(json_text(v)), 0).push(encode_utf8(json_text(v)).len() as int),
            0,
        ) == (Ok::<JsonValueView, JsonErrorView>(v), value_tokens(v).len() as int),
{
    let at = token_starts(encode_utf8(json_text(v)), 0).push(encode_utf8(json_text(v)).len() as int);
    let s = value_bytes(v);
    lemma_first_byte(v);
    assert(s.subrange(0, s.len() as int) =~= s);
    lemma_lex_value(s, 0, v);
    assert(value_tokens(v) + Seq::<TokenView>::empty() =~= value_tokens(v));
    let t = value_tokens(v);
    assert(t.subrange(0, t.len() as int) =~= t);
    lemma_token_value_roundtrip(t, at, 0, v);
}


/// `at` gives a byte offset for each token and then the input's end, and no
/// offset lies past that end.
pub open spec fn offsets_ok(ts: Seq<TokenView>, at: Seq<int>) -> bool {
    &&& at.len() == ts.len() + 1
    &&& forall|k: int| 0 <= k < at.len() ==> 0 <= #[trigger] at[k] <= at[ts.len() as int]
}

pub proof fn lemma_token_value_within(ts: Seq<TokenView>, at: Seq<int>, i: int)
    requires
        0 <= i <= ts.len(),
        offsets_ok(ts, at),
    ensures
        within(token_value(ts, at, i).0, at[ts.len() as int]),
    decreases ts.len() - i, 0nat,
{
    if i < ts.len() {
        match ts[i] {
            TokenView::LeftBracket => lemma_token_array_within(ts, at, i + 1),
            TokenView::LeftBrace => lemma_token_object_within(ts, at, i + 1),
            _ => {},
        }
    }
}

pub proof fn lemma_token_array_within(ts: Seq<TokenView>, at: Seq<int>, i: int)
    requires
        0 <= i <= ts.len(),
        offsets_ok(ts, at),
    ensures
        within(token_array(ts, at, i).0, at[ts.len() as int]),
    decreases ts.len() - i, 2nat,
{
    if !(0 <= i < ts.len() && ts[i] is RightBracket) {
        lemma_token_elements_within(ts, at, i, Seq::empty());
    }
}

pub proof fn lemma_token_elements_within(ts: Seq<TokenView>, at: Seq<int>, i: int, acc: Seq<JsonValueView>)
    requires
        0 <= i <= ts.len(),
        offsets_ok(ts, at),
    ensures
        within(token_elements(ts, at, i, acc).0, at[ts.len() as int]),
    decreases ts.len() - i, 1nat,
{
    crate::parser::lemma_token_value_progress(ts, at, i);
    lemma_token_value_within(ts, at, i);
    let (r, j) = token_value(ts, at, i);
    if let Ok(v) = r {
        if 0 <= j < ts.len() && ts[j] is Comma && !(j + 1 < ts.len() && ts[j + 1] is RightBracket) && j > i {
            lemma_token_elements_within(ts, at, j + 1, acc.push(v));
        }
    }
}

pub proof fn lemma_token_object_within(ts: Seq<TokenView>, at: Seq<int>, i: int)
    requires
        0 <= i <= ts.len(),
        offsets_ok(ts, at),
    ensures
        within(token_object(ts, at, i).0, at[ts.len() as int]),
    decreases ts.len() - i, 2nat,
{
    if !(0 <= i < ts.len() && ts[i] is RightBrace) {
        lemma_token_members_within(ts, at, i, Seq::empty());
    }
}

pub proof fn lemma_token_members_within(ts: Seq<TokenView>, at: Seq<int>, i: int, acc: Seq<(Seq<char>, JsonValueView)>)
    requires
        0 <= i <= ts.len(),
        offsets_ok(ts, at),
    ensures
        within(token_members(ts, at, i, acc).0, at[ts.len() as int]),
    decreases ts.len() - i, 1nat,
{
    if 0 <= i < ts.len() && i + 1 < ts.len() {
        if let TokenView::String(k) = ts[i] {
            if ts[i + 1] is Colon {
                crate::parser::lemma_token_value_progress(ts, at, i + 2);
                lemma_token_value_within(ts, at, i + 2);
                let (r, m) = token_value(ts, at, i + 2);
                if let Ok(v) = r {
                    if 0 <= m < ts.len() && ts[m] is Comma && !(m + 1 < ts.len() && ts[m + 1] is RightBrace) && m > i {
                        lemma_token_members_within(ts, at, m + 1, obj_insert(acc, k, v));
                    }
                }
            }
        }
    }
}

/// The tokens that `lex(s, p)` reads begin at increasing offsets within the
/// input, one offset per token.
pub proof fn lemma_token_starts(s: Seq<u8>, p: int)
    requires
        0 <= p <= s.len(),
    ensures
        forall|k: int| 0 <= k < token_starts(s, p).len() ==> p <= #[trigger] token_starts(s, p)[k] < s.len(),
        lex(s, p).0 matches Ok(ts) ==> ts.len() == token_starts(s, p).len(),
    decreases s.len() - p,
{
    if p < s.len() {
        if is_token_ws(s[p]) {
            lemma_token_starts(s, p + 1);
            assert(token_starts(s, p) == token_starts(s, p + 1));
        } else {
            crate::tokenizer::lemma_token_progress(s, p);
            let (r, q) = token_at(s, p);
            if r is Ok {
                lemma_token_starts(s, q);
                let rest = token_starts(s, q);
                assert(token_starts(s, p) == seq![p] + rest);
                assert forall|k: int| 0 <= k < token_starts(s, p).len() implies p <= #[trigger] token_starts(s, p)[k]
                    < s.len() by {
                    if k > 0 {
                        assert(token_starts(s, p)[k] == rest[k - 1]);
                    }
                }
            } else {
                assert(token_starts(s, p) == Seq::<int>::empty());
            }
        }
    }
}

/// Every error that `JsonParser::parse` reports on the tokens of an input is
/// at a byte position within the input: no later than its length.
pub proof fn lemma_token_parse_error_position(s: Seq<u8>, i: int)
    ensures
        lex(s, 0).0 matches Ok(ts) ==> (0 <= i <= ts.len() ==> (token_value(
            ts,
            token_starts(s, 0).push(s.len() as int),
            i,
        ).0 matches Err(e) ==> e.position() <= s.len())),
{
    lemma_token_starts(s, 0);
    if let Ok(ts) = lex(s, 0).0 {
        if 0 <= i <= ts.len() {
            let at = token_starts(s, 0).push(s.len() as int);
            assert(offsets_ok(ts, at)) by {
                assert forall|k: int| 0 <= k < at.len() implies 0 <= #[trigger] at[k] <= at[ts.len() as int] by {
                    if k < ts.len() {
                        assert(at[k] == token_starts(s, 0)[k]);
                    }
                }
            }
            lemma_token_value_within(ts, at, i);
        }
    }
}

} // verus!
