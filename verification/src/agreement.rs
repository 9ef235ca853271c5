//! The two parsers agree: every document that the single-pass parser
//! accepts is tokenized without error, and the token parser reads the same
//! value from those tokens.

use vstd::prelude::*;
use vstd::utf8::*;
use crate::error::JsonErrorView;
use crate::laws::{lemma_after_tokens_compose, lemma_elem_at, lemma_keyword_match, lemma_lex_punct, lemma_seq_at_split, seq_at};
use crate::lexical::{escape_sequence, lemma_literal_bytes, number_literal};
use crate::parser::{token_array, token_elements, token_members, token_object, token_value};
use crate::stream::{
    array_at, document, elements_at, escaped_at, is_json_ws, lemma_quote_or_backslash, lemma_skip_ws,
    lemma_string_at_progress, lemma_string_at_valid, lemma_value_at_progress, members_at, object_at,
    quote_or_backslash, skip_ws, string_at, value_at,
};
use crate::text::lemma_after_ascii;
use crate::tokenizer::{after_tokens, is_token_ws, lemma_string_body_plain, lex, string_body, token_at, token_starts, TokenView};
use crate::value::{obj_insert, JsonValueView};

verus! {

broadcast use vstd::seq::group_seq_axioms;

/// JSON whitespace is skipped by the tokenizer too.
pub proof fn lemma_lex_skip_ws(s: Seq<u8>, p: int)
    requires
        0 <= p <= s.len(),
    ensures
        lex(s, p) == lex(s, skip_ws(s, p)),
    decreases s.len() - p,
{
    if p < s.len() && is_json_ws(s[p]) {
        assert(is_token_ws(s[p]));
        lemma_lex_skip_ws(s, p + 1);
    }
}

/// Where the single-pass parser reads the rest of a string body with escapes
/// successfully, the tokenizer reads the same bytes to the same position.
pub proof fn lemma_escaped_agree(s: Seq<u8>, p: int, acc: Seq<u8>)
    requires
        0 <= p <= s.len(),
        escaped_at(s, p, acc).0 is Ok,
    ensures
        string_body(s, p, acc) == escaped_at(s, p, acc),
    decreases s.len() - p,
{
    if p < s.len() && s[p] != 0x22 {
        if s[p] == 0x5C {
            let (r, q) = escape_sequence(s, p + 1);
            if let Ok(c) = r {
                lemma_escaped_agree(s, q, acc + encode_scalar(c as u32));
            }
        } else {
            lemma_quote_or_backslash(s, p);
            if let Some(e) = quote_or_backslash(s, p) {
                lemma_string_body_plain(s, p, e, acc);
                lemma_escaped_agree(s, e, acc + s.subrange(p, e));
            }
        }
    }
}

/// Where the single-pass parser reads a string body successfully, the
/// tokenizer reads the same bytes to the same position.
pub proof fn lemma_string_agree(s: Seq<u8>, p: int)
    requires
        1 <= p <= s.len(),
        string_at(s, p).0 is Ok,
    ensures
        string_body(s, p, Seq::empty()) == string_at(s, p),
{
    lemma_quote_or_backslash(s, p);
    if let Some(e) = quote_or_backslash(s, p) {
        lemma_string_body_plain(s, p, e, Seq::empty());
        assert(Seq::<u8>::empty() + s.subrange(p, e) =~= s.subrange(p, e));
        if s[e] != 0x22 {
            lemma_escaped_agree(s, e, s.subrange(p, e));
        }
    }
}

/// The token of a string literal whose opening quote is at `p`.
pub proof fn lemma_string_token_agree(s: Seq<u8>, p: int)
    requires
        valid_utf8(s),
        0 <= p < s.len(),
        s[p] == 0x22,
        string_at(s, p + 1).0 is Ok,
    ensures
        string_at(s, p + 1).0 matches Ok(b) && token_at(s, p) == (
            Ok::<TokenView, JsonErrorView>(TokenView::String(decode_utf8(b))),
            string_at(s, p + 1).1,
        ),
{
    lemma_string_agree(s, p + 1);
    lemma_after_ascii(s, p);
    lemma_string_at_valid(s, p + 1);
}

/// The tokens of a value that the single-pass parser reads at `p`: the
/// tokenizer reads them from `p` on, and the token parser reads from them the
/// value the single-pass parser gives.
pub proof fn lemma_value_agree(s: Seq<u8>, p: int) -> (ts: Seq<TokenView>)
    requires
        valid_utf8(s),
        0 <= p <= s.len(),
        value_at(s, p).0 is Ok,
    ensures
        ts.len() >= 1,
        !(ts[0] is RightBracket),
        !(ts[0] is RightBrace),
        lex(s, p) == after_tokens(ts, lex(s, value_at(s, p).1)),
        forall|t: Seq<TokenView>, at: Seq<int>, i: int|
            seq_at(t, i, ts) ==> #[trigger] token_value(t, at, i) == (value_at(s, p).0, i + ts.len()),
    decreases s.len() - p, 0nat,
{
    let b = s[p];
    if b == 0x7B {
        let inner = lemma_object_agree(s, p + 1);
        lemma_lex_punct(s, p, 0x7B, TokenView::LeftBrace);
        let ts = seq![TokenView::LeftBrace] + inner;
        lemma_after_tokens_compose(seq![TokenView::LeftBrace], inner, lex(s, value_at(s, p).1));
        assert forall|t: Seq<TokenView>, at: Seq<int>, i: int| seq_at(t, i, ts) implies #[trigger] token_value(t, at, i) == (
            value_at(s, p).0,
            i + ts.len(),
        ) by {
            lemma_seq_at_split(t, i, seq![TokenView::LeftBrace], inner);
            lemma_elem_at(t, i, TokenView::LeftBrace);
            assert(token_object(t, at, i + 1) == (object_at(s, p + 1).0, i + 1 + inner.len()));
        }
        ts
    } else if b == 0x5B {
        let inner = lemma_array_agree(s, p + 1);
        lemma_lex_punct(s, p, 0x5B, TokenView::LeftBracket);
        let ts = seq![TokenView::LeftBracket] + inner;
        lemma_after_tokens_compose(seq![TokenView::LeftBracket], inner, lex(s, value_at(s, p).1));
        assert forall|t: Seq<TokenView>, at: Seq<int>, i: int| seq_at(t, i, ts) implies #[trigger] token_value(t, at, i) == (
            value_at(s, p).0,
            i + ts.len(),
        ) by {
            lemma_seq_at_split(t, i, seq![TokenView::LeftBracket], inner);
            lemma_elem_at(t, i, TokenView::LeftBracket);
            assert(token_array(t, at, i + 1) == (array_at(s, p + 1).0, i + 1 + inner.len()));
        }
        ts
    } else {
        let tok = if b == 0x22 {
            lemma_string_token_agree(s, p);
            lemma_after_ascii(s, p);
            lemma_string_at_valid(s, p + 1);
            let kb = string_at(s, p + 1).0->Ok_0;
            TokenView::String(decode_utf8(kb))
        } else if b == 0x74 {
            lemma_literal_bytes();
            lemma_keyword_match(s, p, "true"@, 0);
            TokenView::Boolean(true)
        } else if b == 0x66 {
            lemma_literal_bytes();
            lemma_keyword_match(s, p, "false"@, 0);
            TokenView::Boolean(false)
        } else if b == 0x6E {
            lemma_literal_bytes();
            lemma_keyword_match(s, p, "null"@, 0);
            TokenView::Null
        } else {
            TokenView::Number(number_literal(s, p).0->Ok_0)
        };
        assert(token_at(s, p) == (Ok::<TokenView, JsonErrorView>(tok), value_at(s, p).1));
        let ts = seq![tok];
        assert forall|t: Seq<TokenView>, at: Seq<int>, i: int| seq_at(t, i, ts) implies #[trigger] token_value(t, at, i) == (
            value_at(s, p).0,
            i + ts.len(),
        ) by {
            assert(t[i] == t.subrange(i, i + 1)[0]);
        }
        ts
    }
}

pub proof fn lemma_array_agree(s: Seq<u8>, p: int) -> (ts: Seq<TokenView>)
    requires
        valid_utf8(s),
        0 <= p <= s.len(),
        array_at(s, p).0 is Ok,
    ensures
        ts.len() >= 1,
        lex(s, p) == after_tokens(ts, lex(s, array_at(s, p).1)),
        forall|t: Seq<TokenView>, at: Seq<int>, i: int|
            seq_at(t, i, ts) ==> #[trigger] token_array(t, at, i) == (array_at(s, p).0, i + ts.len()),
    decreases s.len() - p, 2nat,
{
    lemma_skip_ws(s, p);
    lemma_lex_skip_ws(s, p);
    let w = skip_ws(s, p);
    if 0 <= w < s.len() && s[w] == 0x5D {
        lemma_lex_punct(s, w, 0x5D, TokenView::RightBracket);
        let ts = seq![TokenView::RightBracket];
        assert forall|t: Seq<TokenView>, at: Seq<int>, i: int| seq_at(t, i, ts) implies #[trigger] token_array(t, at, i) == (
            array_at(s, p).0,
            i + ts.len(),
        ) by {
            assert(t[i] == t.subrange(i, i + 1)[0]);
        }
        ts
    } else {
        let ts = lemma_elements_agree(s, w, Seq::empty());
        assert forall|t: Seq<TokenView>, at: Seq<int>, i: int| seq_at(t, i, ts) implies #[trigger] token_array(t, at, i) == (
            array_at(s, p).0,
            i + ts.len(),
        ) by {
            assert(t[i] == t.subrange(i, i + ts.len())[0]);
            assert(token_elements(t, at, i, Seq::empty()) == (elements_at(s, w, Seq::empty()).0, i + ts.len()));
        }
        ts
    }
}

pub proof fn lemma_elements_agree(s: Seq<u8>, p: int, acc: Seq<JsonValueView>) -> (ts: Seq<TokenView>)
    requires
        valid_utf8(s),
        0 <= p <= s.len(),
        elements_at(s, p, acc).0 is Ok,
    ensures
        ts.len() >= 1,
        !(ts[0] is RightBracket),
        !(ts[0] is RightBrace),
        lex(s, p) == after_tokens(ts, lex(s, elements_at(s, p, acc).1)),
        forall|t: Seq<TokenView>, at: Seq<int>, i: int|
            seq_at(t, i, ts) ==> #[trigger] token_elements(t, at, i, acc) == (elements_at(s, p, acc).0, i + ts.len()),
    decreases s.len() - p, 1nat,
{
    lemma_value_at_progress(s, p);
    let tv = lemma_value_agree(s, p);
    let (r, j) = value_at(s, p);
    let v = r->Ok_0;
    lemma_skip_ws(s, j);
    lemma_lex_skip_ws(s, j);
    let k = skip_ws(s, j);
    if s[k] == 0x2C {
        lemma_skip_ws(s, k + 1);
        lemma_lex_skip_ws(s, k + 1);
        let w = skip_ws(s, k + 1);
        let more = lemma_elements_agree(s, w, acc.push(v));
        let end = elements_at(s, p, acc).1;
        lemma_lex_punct(s, k, 0x2C, TokenView::Comma);
        let tail = seq![TokenView::Comma] + more;
        let ts = tv + tail;
        lemma_after_tokens_compose(seq![TokenView::Comma], more, lex(s, end));
        lemma_after_tokens_compose(tv, tail, lex(s, end));
        assert forall|t: Seq<TokenView>, at: Seq<int>, i: int| seq_at(t, i, ts) implies #[trigger] token_elements(t, at, i, acc) == (
            elements_at(s, p, acc).0,
            i + ts.len(),
        ) by {
            lemma_seq_at_split(t, i, tv, tail);
            let jj = i + tv.len();
            lemma_seq_at_split(t, jj, seq![TokenView::Comma], more);
            assert(token_value(t, at, i) == (r, jj));
            assert(t[jj] == t.subrange(jj, jj + 1)[0]);
            assert(t[jj + 1] == t.subrange(jj + 1, jj + 1 + more.len())[0]);
            assert(token_elements(t, at, jj + 1, acc.push(v)) == (elements_at(s, w, acc.push(v)).0, jj + 1 + more.len()));
        }
        ts
    } else {
        lemma_lex_punct(s, k, 0x5D, TokenView::RightBracket);
        let tail = seq![TokenView::RightBracket];
        let ts = tv + tail;
        lemma_after_tokens_compose(tv, tail, lex(s, k + 1));
        assert forall|t: Seq<TokenView>, at: Seq<int>, i: int| seq_at(t, i, ts) implies #[trigger] token_elements(t, at, i, acc) == (
            elements_at(s, p, acc).0,
            i + ts.len(),
        ) by {
            lemma_seq_at_split(t, i, tv, tail);
            let jj = i + tv.len();
            assert(token_value(t, at, i) == (r, jj));
            assert(t[jj] == t.subrange(jj, jj + 1)[0]);
        }
        ts
    }
}

pub proof fn lemma_object_agree(s: Seq<u8>, p: int) -> (ts: Seq<TokenView>)
    requires
        valid_utf8(s),
        0 <= p <= s.len(),
        object_at(s, p).0 is Ok,
    ensures
        ts.len() >= 1,
        lex(s, p) == after_tokens(ts, lex(s, object_at(s, p).1)),
        forall|t: Seq<TokenView>, at: Seq<int>, i: int|
            seq_at(t, i, ts) ==> #[trigger] token_object(t, at, i) == (object_at(s, p).0, i + ts.len()),
    decreases s.len() - p, 2nat,
{
    lemma_skip_ws(s, p);
    lemma_lex_skip_ws(s, p);
    let w = skip_ws(s, p);
    if 0 <= w < s.len() && s[w] == 0x7D {
        lemma_lex_punct(s, w, 0x7D, TokenView::RightBrace);
        let ts = seq![TokenView::RightBrace];
        assert forall|t: Seq<TokenView>, at: Seq<int>, i: int| seq_at(t, i, ts) implies #[trigger] token_object(t, at, i) == (
            object_at(s, p).0,
            i + ts.len(),
        ) by {
            assert(t[i] == t.subrange(i, i + 1)[0]);
        }
        ts
    } else {
        let ts = lemma_members_agree(s, w, Seq::empty());
        assert forall|t: Seq<TokenView>, at: Seq<int>, i: int| seq_at(t, i, ts) implies #[trigger] token_object(t, at, i) == (
            object_at(s, p).0,
            i + ts.len(),
        ) by {
            assert(t[i] == t.subrange(i, i + ts.len())[0]);
            assert(token_members(t, at, i, Seq::empty()) == (members_at(s, w, Seq::empty()).0, i + ts.len()));
        }
        ts
    }
}

#[verifier::spinoff_prover]
#[verifier::rlimit(30)]
pub proof fn lemma_members_agree(
    s: Seq<u8>,
    p: int,
    acc: Seq<(Seq<char>, JsonValueView)>,
) -> (ts: Seq<TokenView>)
    requires
        valid_utf8(s),
        0 <= p <= s.len(),
        members_at(s, p, acc).0 is Ok,
    ensures
        ts.len() >= 1,
        ts[0] is String,
        lex(s, p) == after_tokens(ts, lex(s, members_at(s, p, acc).1)),
        forall|t: Seq<TokenView>, at: Seq<int>, i: int|
            seq_at(t, i, ts) ==> #[trigger] token_members(t, at, i, acc) == (members_at(s, p, acc).0, i + ts.len()),
    decreases s.len() - p, 1nat,
{
    lemma_string_at_progress(s, p + 1);
    lemma_string_token_agree(s, p);
    let (kr, q) = string_at(s, p + 1);
    let key = decode_utf8(kr->Ok_0);
    lemma_skip_ws(s, q);
    lemma_lex_skip_ws(s, q);
    let c = skip_ws(s, q);
    lemma_skip_ws(s, c + 1);
    lemma_lex_skip_ws(s, c + 1);
    let v0 = skip_ws(s, c + 1);
    lemma_value_at_progress(s, v0);
    let tv = lemma_value_agree(s, v0);
    let (r, m) = value_at(s, v0);
    let v = r->Ok_0;
    let acc2 = obj_insert(acc, key, v);
    lemma_skip_ws(s, m);
    lemma_lex_skip_ws(s, m);
    let k = skip_ws(s, m);
    let end = members_at(s, p, acc).1;
    lemma_lex_punct(s, c, 0x3A, TokenView::Colon);
    let kc = seq![TokenView::String(key), TokenView::Colon];
    // the key and the colon
    assert(lex(s, p) == after_tokens(seq![TokenView::String(key)], lex(s, q)));
    lemma_after_tokens_compose(seq![TokenView::String(key)], seq![TokenView::Colon], lex(s, c + 1));
    assert(seq![TokenView::String(key)] + seq![TokenView::Colon] =~= kc);
    lemma_skip_ws(s, k + 1);
    lemma_lex_skip_ws(s, k + 1);
    let w = skip_ws(s, k + 1);
    let more = if s[k] == 0x2C {
        lemma_members_agree(s, w, acc2)
    } else {
        Seq::empty()
    };
    let tail = if s[k] == 0x2C {
        lemma_lex_punct(s, k, 0x2C, TokenView::Comma);
        lemma_after_tokens_compose(seq![TokenView::Comma], more, lex(s, end));
        seq![TokenView::Comma] + more
    } else {
        lemma_lex_punct(s, k, 0x7D, TokenView::RightBrace);
        seq![TokenView::RightBrace]
    };
    assert(lex(s, k) == after_tokens(tail, lex(s, end)));
    let ts = kc + (tv + tail);
    lemma_after_tokens_compose(tv, tail, lex(s, end));
    lemma_after_tokens_compose(kc, tv + tail, lex(s, end));
    assert forall|t: Seq<TokenView>, at: Seq<int>, i: int| seq_at(t, i, ts) implies #[trigger] token_members(t, at, i, acc) == (
        members_at(s, p, acc).0,
        i + ts.len(),
    ) by {
        lemma_seq_at_split(t, i, kc, tv + tail);
        lemma_seq_at_split(t, i + 2, tv, tail);
        assert(t[i] == t.subrange(i, i + 2)[0]);
        assert(t[i + 1] == t.subrange(i, i + 2)[1]);
        let mm = i + 2 + tv.len();
        assert(token_value(t, at, i + 2) == (r, mm));
        assert(t[mm] == t.subrange(mm, mm + tail.len())[0]);
        if s[k] == 0x2C {
            lemma_seq_at_split(t, mm, seq![TokenView::Comma], more);
            assert(t[mm + 1] == t.subrange(mm + 1, mm + 1 + more.len())[0]);
            assert(token_members(t, at, mm + 1, acc2) == (members_at(s, w, acc2).0, mm + 1 + more.len()));
        }
    }
    ts
}

/// Every document that `parse_json` accepts, `JsonParser` accepts too:
/// tokenizing it succeeds, and parsing the tokens gives the same value and
/// reads every token.
pub proof fn lemma_parsers_agree(s: Seq<u8>)
    requires
        valid_utf8(s),
    ensures
        document(s) matches Ok(v) ==> (lex(s, 0).0 matches Ok(ts) && token_value(
            ts,
            token_starts(s, 0).push(s.len() as int),
            0,
        ) == (
            Ok::<JsonValueView, JsonErrorView>(v),
            ts.len() as int,
        )),
{
    lemma_skip_ws(s, 0);
    lemma_lex_skip_ws(s, 0);
    let p0 = skip_ws(s, 0);
    if let Ok(v) = document(s) {
        lemma_value_at_progress(s, p0);
        let ts = lemma_value_agree(s, p0);
        let q = value_at(s, p0).1;
        lemma_skip_ws(s, q);
        lemma_lex_skip_ws(s, q);
        assert(lex(s, skip_ws(s, q)) == (Ok::<Seq<TokenView>, JsonErrorView>(Seq::empty()), skip_ws(s, q)));
        assert(ts + Seq::<TokenView>::empty() =~= ts);
        assert(ts.subrange(0, ts.len() as int) =~= ts);
        let at = token_starts(s, 0).push(s.len() as int);
        assert(token_value(ts, at, 0) == (value_at(s, p0).0, ts.len() as int));
    }
}

} // verus!
