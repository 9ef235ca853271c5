//! Properties of the grammars stated in their own terms: whitespace inside
//! brackets and braces is insignificant, `\u` escapes decode their hex digits
//! in either case, every JSON number literal is accepted, and the token parser
//! reads a value from the tokens it consumes and from nothing else.

use vstd::prelude::*;
use crate::error::JsonErrorView;
use crate::lexical::{all_hex, hex_code, hex_val, is_digit, json_number, unicode_escape, digits_end};
use crate::parser::{
    lemma_token_elements_progress, lemma_token_members_progress, lemma_token_value_progress, token_array,
    token_elements, token_members, token_object, token_value,
};
use crate::stream::{array_at, document, object_at, skip_ws, value_at};
use crate::tokenizer::TokenView;
use crate::value::JsonValueView;

verus! {

broadcast use vstd::seq::group_seq_axioms;

// ---------------------------------------------------------------------------
// Whitespace
// ---------------------------------------------------------------------------

/// Space, tab, line feed or carriage return.
pub open spec fn is_blank(b: u8) -> bool {
    b == 0x20 || b == 0x09 || b == 0x0A || b == 0x0D
}

/// Every byte of `w` is a space, tab, line feed or carriage return.
pub open spec fn all_blank(w: Seq<u8>) -> bool {
    forall|i: int| 0 <= i < w.len() ==> is_blank(#[trigger] w[i])
}

pub proof fn lemma_skip_ws_run(s: Seq<u8>, p: int, q: int)
    requires
        0 <= p <= q <= s.len(),
        forall|i: int| p <= i < q ==> is_blank(#[trigger] s[i]),
    ensures
        skip_ws(s, p) == skip_ws(s, q),
    decreases q - p,
{
    if p < q {
        lemma_skip_ws_run(s, p + 1, q);
    }
}

/// Whitespace at the start of an array's or an object's contents is
/// insignificant: reading the contents (after `[` or `{`) from any point
/// within a run of spaces, tabs, line feeds and carriage returns gives the
/// same outcome as reading them from the end of that run.
pub proof fn lemma_container_blank_start(s: Seq<u8>, p: int, q: int)
    requires
        0 <= p <= q <= s.len(),
        forall|i: int| p <= i < q ==> is_blank(#[trigger] s[i]),
    ensures
        array_at(s, p) == array_at(s, q),
        object_at(s, p) == object_at(s, q),
{
    lemma_skip_ws_run(s, p, q);
}

/// An array or an object with only whitespace between its brackets is empty:
/// `[` then any run of spaces, tabs, line feeds and carriage returns then `]`
/// is the empty array, and likewise with braces the empty object.
pub proof fn lemma_blank_containers_are_empty(w: Seq<u8>)
    requires
        all_blank(w),
    ensures
        document(seq![0x5Bu8] + w + seq![0x5Du8]) == Ok::<JsonValueView, JsonErrorView>(
            JsonValueView::Array(Seq::empty()),
        ),
        document(seq![0x7Bu8] + w + seq![0x7Du8]) == Ok::<JsonValueView, JsonErrorView>(
            JsonValueView::Object(Seq::empty()),
        ),
{
    let a = seq![0x5Bu8] + w + seq![0x5Du8];
    let o = seq![0x7Bu8] + w + seq![0x7Du8];
    let n: int = w.len() as int + 2;
    assert forall|i: int| 1 <= i < n - 1 implies is_blank(#[trigger] a[i]) by {
        assert(a[i] == w[i - 1]);
    }
    assert forall|i: int| 1 <= i < n - 1 implies is_blank(#[trigger] o[i]) by {
        assert(o[i] == w[i - 1]);
    }
    lemma_skip_ws_run(a, 1, n - 1);
    lemma_skip_ws_run(o, 1, n - 1);
    assert(a[n - 1] == 0x5D);
    assert(o[n - 1] == 0x7D);
    assert(skip_ws(a, 0) == 0);
    assert(skip_ws(o, 0) == 0);
    assert(skip_ws(a, n - 1) == n - 1);
    assert(skip_ws(o, n - 1) == n - 1);
    assert(value_at(a, 0) == (Ok::<JsonValueView, JsonErrorView>(JsonValueView::Array(Seq::empty())), n));
    assert(value_at(o, 0) == (Ok::<JsonValueView, JsonErrorView>(JsonValueView::Object(Seq::empty())), n));
}

// ---------------------------------------------------------------------------
// `\u` escapes
// ---------------------------------------------------------------------------

/// An ASCII hexadecimal digit: `0`-`9`, `a`-`f` or `A`-`F`.
pub open spec fn is_ascii_hex_digit(b: u8) -> bool {
    ('0' as u8 <= b <= '9' as u8) || ('a' as u8 <= b <= 'f' as u8) || ('A' as u8 <= b <= 'F' as u8)
}

/// The value of an ASCII hexadecimal digit, whatever its case.
pub open spec fn ascii_hex_digit_value(b: u8) -> int {
    if '0' as u8 <= b <= '9' as u8 {
        b - '0' as u8
    } else if 'a' as u8 <= b <= 'f' as u8 {
        b - 'a' as u8 + 10
    } else {
        b - 'A' as u8 + 10
    }
}

/// A `\u` escape whose four characters after `\u` are ASCII hexadecimal
/// digits, in upper or lower case, decodes to the character whose code point
/// those digits write in base 16, when that code point is a Unicode scalar
/// value.
pub proof fn lemma_unicode_escape_decodes_hex(s: Seq<u8>, p: int)
    requires
        0 <= p,
        p + 4 <= s.len(),
        forall|k: int| 0 <= k < 4 ==> is_ascii_hex_digit(#[trigger] s[p + k]),
        vstd::utf8::is_scalar(
            (ascii_hex_digit_value(s[p]) * 4096 + ascii_hex_digit_value(s[p + 1]) * 256
                + ascii_hex_digit_value(s[p + 2]) * 16 + ascii_hex_digit_value(s[p + 3])) as u32,
        ),
    ensures
        unicode_escape(s, p) == (
            Ok::<char, JsonErrorView>(
                ((ascii_hex_digit_value(s[p]) * 4096 + ascii_hex_digit_value(s[p + 1]) * 256
                    + ascii_hex_digit_value(s[p + 2]) * 16 + ascii_hex_digit_value(s[p + 3])) as u32) as char,
            ),
            p + 4,
        ),
{
    let h = s.subrange(p, p + 4);
    assert(is_ascii_hex_digit(s[p + 0]));
    assert(is_ascii_hex_digit(s[p + 1]));
    assert(is_ascii_hex_digit(s[p + 2]));
    assert(is_ascii_hex_digit(s[p + 3]));
    assert(h[0] == s[p] && h[1] == s[p + 1] && h[2] == s[p + 2] && h[3] == s[p + 3]);
    assert(all_hex(h)) by {
        assert forall|i: int| 0 <= i < h.len() implies crate::lexical::is_hex(#[trigger] h[i]) by {
            assert(h[i] == s[p + i]);
            assert(is_ascii_hex_digit(s[p + i]));
        }
    }
    assert(hex_val(h[0]) == ascii_hex_digit_value(s[p]));
    assert(hex_val(h[1]) == ascii_hex_digit_value(s[p + 1]));
    assert(hex_val(h[2]) == ascii_hex_digit_value(s[p + 2]));
    assert(hex_val(h[3]) == ascii_hex_digit_value(s[p + 3]));
    assert(hex_code(h) == (ascii_hex_digit_value(s[p]) * 4096 + ascii_hex_digit_value(s[p + 1]) * 256
        + ascii_hex_digit_value(s[p + 2]) * 16 + ascii_hex_digit_value(s[p + 3])) as u32);
}

// ---------------------------------------------------------------------------
// Numbers
// ---------------------------------------------------------------------------

/// Every byte of `d` is an ASCII decimal digit.
pub open spec fn all_ascii_digits(d: Seq<u8>) -> bool {
    forall|i: int| 0 <= i < d.len() ==> '0' as u8 <= #[trigger] d[i] <= '9' as u8
}

/// The integer part of a JSON number: `0`, or a digit other than `0` followed
/// by any digits.
pub open spec fn is_integer_part(d: Seq<u8>) -> bool {
    d == seq!['0' as u8] || (d.len() >= 1 && '1' as u8 <= d[0] <= '9' as u8 && all_ascii_digits(d))
}

/// The fraction part of a JSON number: nothing, or `.` and at least one digit.
pub open spec fn is_fraction_part(f: Seq<u8>) -> bool {
    f.len() == 0 || (f.len() >= 2 && f[0] == '.' as u8 && all_ascii_digits(f.drop_first()))
}

/// The exponent part of a JSON number: nothing, or `e` or `E`, an optional
/// `+` or `-`, and at least one digit.
pub open spec fn is_exponent_part(x: Seq<u8>) -> bool {
    ||| x.len() == 0
    ||| x.len() >= 2 && (x[0] == 'e' as u8 || x[0] == 'E' as u8) && all_ascii_digits(x.drop_first())
    ||| x.len() >= 3 && (x[0] == 'e' as u8 || x[0] == 'E' as u8) && (x[1] == '+' as u8 || x[1] == '-' as u8)
        && all_ascii_digits(x.subrange(2, x.len() as int))
}

pub proof fn lemma_digits_run(t: Seq<u8>, a: int, b: int)
    requires
        0 <= a <= b <= t.len(),
        forall|k: int| a <= k < b ==> is_digit(#[trigger] t[k]),
        b == t.len() || !is_digit(t[b]),
    ensures
        digits_end(t, a) == b,
    decreases b - a,
{
    if a < b {
        lemma_digits_run(t, a + 1, b);
    }
}

/// Every JSON number literal is accepted: an optional `-`, an integer part, a
/// fraction part and an exponent part, each as the JSON grammar writes them,
/// make a number.
pub proof fn lemma_json_numbers_accepted(minus: bool, d: Seq<u8>, f: Seq<u8>, x: Seq<u8>)
    requires
        is_integer_part(d),
        is_fraction_part(f),
        is_exponent_part(x),
    ensures
        json_number((if minus { seq!['-' as u8] } else { Seq::<u8>::empty() }) + d + f + x),
{
    let sign = if minus { seq!['-' as u8] } else { Seq::<u8>::empty() };
    let t = sign + d + f + x;
    let i0 = sign.len() as int;
    let i1 = i0 + d.len();
    let i2 = i1 + f.len();
    let n = t.len() as int;
    assert(n == i2 + x.len());
    assert forall|k: int| 0 <= k < d.len() implies t[i0 + k] == #[trigger] d[k] by {}
    assert forall|k: int| 0 <= k < f.len() implies t[i1 + k] == #[trigger] f[k] by {}
    assert forall|k: int| 0 <= k < x.len() implies t[i2 + k] == #[trigger] x[k] by {}
    assert(t[i0] == d[0]);
    // what follows the integer and fraction parts is not a digit
    if f.len() > 0 {
        assert(t[i1] == f[0]);
    } else if x.len() > 0 {
        assert(t[i1] == x[0]);
    }
    if x.len() > 0 {
        assert(t[i2] == x[0]);
    }
    // the integer part
    if d != seq!['0' as u8] {
        assert forall|k: int| i0 <= k < i1 implies is_digit(#[trigger] t[k]) by {
            assert(t[k] == d[k - i0]);
        }
        lemma_digits_run(t, i0, i1);
    } else {
        assert(t[i0] == 0x30);
    }
    // the fraction part
    if f.len() > 0 {
        assert forall|k: int| i1 + 1 <= k < i2 implies is_digit(#[trigger] t[k]) by {
            assert(t[k] == f[k - i1]);
            assert(f[k - i1] == f.drop_first()[k - i1 - 1]);
        }
        lemma_digits_run(t, i1 + 1, i2);
    }
    // the exponent part
    if x.len() > 0 {
        if x.len() >= 3 && (x[1] == '+' as u8 || x[1] == '-' as u8) && all_ascii_digits(x.subrange(2, x.len() as int)) {
            assert(t[i2 + 1] == x[1]);
            assert forall|k: int| i2 + 2 <= k < n implies is_digit(#[trigger] t[k]) by {
                assert(t[k] == x[k - i2]);
                assert(x[k - i2] == x.subrange(2, x.len() as int)[k - i2 - 2]);
            }
            lemma_digits_run(t, i2 + 2, n);
        } else {
            assert(all_ascii_digits(x.drop_first()));
            assert(t[i2 + 1] == x[1]);
            assert(x[1] == x.drop_first()[0]);
            assert forall|k: int| i2 + 1 <= k < n implies is_digit(#[trigger] t[k]) by {
                assert(t[k] == x[k - i2]);
                assert(x[k - i2] == x.drop_first()[k - i2 - 1]);
            }
            lemma_digits_run(t, i2 + 1, n);
        }
    }
}

// ---------------------------------------------------------------------------
// The token parser reads only what it consumes
// ---------------------------------------------------------------------------

/// `a` and `b` hold the same tokens at the indices in `[i, j)`.
pub open spec fn same_tokens(a: Seq<TokenView>, b: Seq<TokenView>, i: int, j: int) -> bool {
    &&& 0 <= i <= j <= a.len()
    &&& j <= b.len()
    &&& forall|k: int| i <= k < j ==> #[trigger] a[k] == #[trigger] b[k]
}

/// A value that the token parser reads from index `i` depends only on the
/// tokens it consumes: in any token sequence that holds the same tokens
/// there, with any byte offsets, it reads the same value and stops at the same
/// index. Nothing past the last token of a value decides it; in particular a
/// value that ran out of tokens before its end would be read differently once
/// more tokens follow, so no such value is ever read.
pub proof fn lemma_token_value_reads_only(a: Seq<TokenView>, at: Seq<int>, b: Seq<TokenView>, bt: Seq<int>, i: int)
    requires
        0 <= i <= a.len(),
        token_value(a, at, i).0 is Ok,
        same_tokens(a, b, i, token_value(a, at, i).1),
    ensures
        token_value(b, bt, i) == token_value(a, at, i),
    decreases a.len() - i, 0nat,
{
    lemma_token_value_progress(a, at, i);
    assert(a[i] == b[i]);
    match a[i] {
        TokenView::LeftBracket => lemma_token_array_reads_only(a, at, b, bt, i + 1),
        TokenView::LeftBrace => lemma_token_object_reads_only(a, at, b, bt, i + 1),
        _ => {},
    }
}

pub proof fn lemma_token_array_reads_only(a: Seq<TokenView>, at: Seq<int>, b: Seq<TokenView>, bt: Seq<int>, i: int)
    requires
        0 <= i <= a.len(),
        token_array(a, at, i).0 is Ok,
        same_tokens(a, b, i, token_array(a, at, i).1),
    ensures
        token_array(b, bt, i) == token_array(a, at, i),
    decreases a.len() - i, 2nat,
{
    if 0 <= i < a.len() && a[i] is RightBracket {
        assert(a[i] == b[i]);
    } else {
        lemma_token_elements_progress(a, at, i, Seq::empty());
        if i < token_array(a, at, i).1 {
            assert(a[i] == b[i]);
        }
        lemma_token_elements_reads_only(a, at, b, bt, i, Seq::empty());
    }
}

pub proof fn lemma_token_elements_reads_only(
    a: Seq<TokenView>,
    at: Seq<int>,
    b: Seq<TokenView>,
    bt: Seq<int>,
    i: int,
    acc: Seq<JsonValueView>,
)
    requires
        0 <= i <= a.len(),
        token_elements(a, at, i, acc).0 is Ok,
        same_tokens(a, b, i, token_elements(a, at, i, acc).1),
    ensures
        token_elements(b, bt, i, acc) == token_elements(a, at, i, acc),
    decreases a.len() - i, 1nat,
{
    let end = token_elements(a, at, i, acc).1;
    lemma_token_value_progress(a, at, i);
    let (r, j) = token_value(a, at, i);
    let v = r->Ok_0;
    assert(j < end) by {
        if a[j] is Comma {
            lemma_token_elements_progress(a, at, j + 1, acc.push(v));
        }
    }
    lemma_token_value_reads_only(a, at, b, bt, i);
    assert(a[j] == b[j]);
    if a[j] is Comma {
        lemma_token_elements_progress(a, at, j + 1, acc.push(v));
        assert(a[j + 1] == b[j + 1]);
        lemma_token_elements_reads_only(a, at, b, bt, j + 1, acc.push(v));
    }
}

pub proof fn lemma_token_object_reads_only(a: Seq<TokenView>, at: Seq<int>, b: Seq<TokenView>, bt: Seq<int>, i: int)
    requires
        0 <= i <= a.len(),
        token_object(a, at, i).0 is Ok,
        same_tokens(a, b, i, token_object(a, at, i).1),
    ensures
        token_object(b, bt, i) == token_object(a, at, i),
    decreases a.len() - i, 2nat,
{
    if 0 <= i < a.len() && a[i] is RightBrace {
        assert(a[i] == b[i]);
    } else {
        lemma_token_members_progress(a, at, i, Seq::empty());
        if i < token_object(a, at, i).1 {
            assert(a[i] == b[i]);
        }
        lemma_token_members_reads_only(a, at, b, bt, i, Seq::empty());
    }
}

pub proof fn lemma_token_members_reads_only(
    a: Seq<TokenView>,
    at: Seq<int>,
    b: Seq<TokenView>,
    bt: Seq<int>,
    i: int,
    acc: Seq<(Seq<char>, JsonValueView)>,
)
    requires
        0 <= i <= a.len(),
        token_members(a, at, i, acc).0 is Ok,
        same_tokens(a, b, i, token_members(a, at, i, acc).1),
    ensures
        token_members(b, bt, i, acc) == token_members(a, at, i, acc),
    decreases a.len() - i, 1nat,
{
    let end = token_members(a, at, i, acc).1;
    let k = a[i]->String_0;
    lemma_token_value_progress(a, at, i + 2);
    let (r, m) = token_value(a, at, i + 2);
    let v = r->Ok_0;
    let acc2 = crate::value::obj_insert(acc, k, v);
    assert(m < end) by {
        if a[m] is Comma {
            lemma_token_members_progress(a, at, m + 1, acc2);
        }
    }
    assert(a[i] == b[i]);
    assert(a[i + 1] == b[i + 1]);
    lemma_token_value_reads_only(a, at, b, bt, i + 2);
    assert(a[m] == b[m]);
    if a[m] is Comma {
        lemma_token_members_progress(a, at, m + 1, acc2);
        assert(a[m + 1] == b[m + 1]);
        lemma_token_members_reads_only(a, at, b, bt, m + 1, acc2);
    }
}

} // verus!
