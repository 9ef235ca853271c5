//! The two-pass parser: tokenizes the whole input, then parses the token
//! sequence into a `JsonValue` by recursive descent.

use vstd::prelude::*;
use vstd::utf8::*;
use crate::error::{eoi, unexpected, JsonError, JsonErrorView};
use crate::tokenizer::{lex, offsets_view, token_debug, token_starts, tokens_view, Token, TokenView, Tokenizer};
use crate::stream::document;
use crate::value::{lemma_array_view, obj_insert, value_result, values_view, JsonObject, JsonValue, JsonValueView};

verus! {

broadcast use vstd::seq::group_seq_axioms;

/// Parses a JSON document and returns a [`JsonValue`].
///
/// This is the convenience entry point; it runs the single-pass parser. Use
/// [`JsonParser`] to tokenize and parse as separate steps.
pub fn parse_json(input: &str) -> (r: Result<JsonValue, JsonError>)
    ensures
        value_result(r) == document(encode_utf8(input@)),
{
    crate::stream::parse(input)
}

// ---------------------------------------------------------------------------
// The grammar over tokens
// ---------------------------------------------------------------------------

/// The value whose first token is at index `i`: the value, or the error, and
/// the index reached. `at[k]` is the byte offset where token `k` begins, and
/// `at[ts.len()]` the length of the input: an unexpected token is reported at
/// its offset, an input that ends too early where it ended.
pub open spec fn token_value(ts: Seq<TokenView>, at: Seq<int>, i: int) -> (Result<JsonValueView, JsonErrorView>, int)
    decreases ts.len() - i, 0nat,
{
    if i < 0 || i >= ts.len() {
        (Err(eoi("JSON value"@, at[ts.len() as int])), i)
    } else {
        match ts[i] {
            TokenView::Null => (Ok(JsonValueView::Null), i + 1),
            TokenView::Boolean(b) => (Ok(JsonValueView::Boolean(b)), i + 1),
            TokenView::Number(n) => (Ok(JsonValueView::Number(n)), i + 1),
            TokenView::String(s) => (Ok(JsonValueView::Text(s)), i + 1),
            TokenView::LeftBracket => token_array(ts, at, i + 1),
            TokenView::LeftBrace => token_object(ts, at, i + 1),
            other => (Err(unexpected("JSON value"@, token_debug(other), at[i])), i + 1),
        }
    }
}

/// An array whose `[` has been consumed; its elements start at `i`.
pub open spec fn token_array(ts: Seq<TokenView>, at: Seq<int>, i: int) -> (Result<JsonValueView, JsonErrorView>, int)
    decreases ts.len() - i, 2nat,
{
    if 0 <= i < ts.len() && ts[i] is RightBracket {
        (Ok(JsonValueView::Array(Seq::empty())), i + 1)
    } else {
        token_elements(ts, at, i, Seq::empty())
    }
}

/// The elements of an array from index `i` on, after the elements `acc`.
pub open spec fn token_elements(
    ts: Seq<TokenView>,
    at: Seq<int>,
    i: int,
    acc: Seq<JsonValueView>,
) -> (Result<JsonValueView, JsonErrorView>, int)
    decreases ts.len() - i, 1nat,
{
    let (r, j) = token_value(ts, at, i);
    match r {
        Err(e) => (Err(e), j),
        Ok(v) => if j < 0 || j >= ts.len() {
            (Err(eoi("] or ,"@, at[ts.len() as int])), j)
        } else {
            match ts[j] {
                TokenView::RightBracket => (Ok(JsonValueView::Array(acc.push(v))), j + 1),
                TokenView::Comma => if j + 1 < ts.len() && ts[j + 1] is RightBracket {
                    (Err(unexpected("value"@, "]"@, at[j + 1])), j + 1)
                } else if j <= i {
                    // never: a value always takes at least one token
                    (Err(eoi("] or ,"@, at[ts.len() as int])), j)
                } else {
                    token_elements(ts, at, j + 1, acc.push(v))
                },
                other => (Err(unexpected(", or ]"@, token_debug(other), at[j])), j + 1),
            }
        },
    }
}

/// An object whose `{` has been consumed; its members start at `i`.
pub open spec fn token_object(ts: Seq<TokenView>, at: Seq<int>, i: int) -> (Result<JsonValueView, JsonErrorView>, int)
    decreases ts.len() - i, 2nat,
{
    if 0 <= i < ts.len() && ts[i] is RightBrace {
        (Ok(JsonValueView::Object(Seq::empty())), i + 1)
    } else {
        token_members(ts, at, i, Seq::empty())
    }
}

/// The members of an object from index `i` on, after the entries `acc`.
pub open spec fn token_members(
    ts: Seq<TokenView>,
    at: Seq<int>,
    i: int,
    acc: Seq<(Seq<char>, JsonValueView)>,
) -> (Result<JsonValueView, JsonErrorView>, int)
    decreases ts.len() - i, 1nat,
{
    if i < 0 || i >= ts.len() {
        (Err(eoi("string key"@, at[ts.len() as int])), i)
    } else {
        match ts[i] {
            TokenView::String(k) => if i + 1 >= ts.len() {
                (Err(eoi(":"@, at[ts.len() as int])), i + 1)
            } else if !(ts[i + 1] is Colon) {
                (Err(unexpected(":"@, token_debug(ts[i + 1]), at[i + 1])), i + 2)
            } else {
                let (r, m) = token_value(ts, at, i + 2);
                match r {
                    Err(e) => (Err(e), m),
                    Ok(v) => {
                        let acc2 = obj_insert(acc, k, v);
                        if m < 0 || m >= ts.len() {
                            (Err(eoi("} or ,"@, at[ts.len() as int])), m)
                        } else {
                            match ts[m] {
                                TokenView::RightBrace => (Ok(JsonValueView::Object(acc2)), m + 1),
                                TokenView::Comma => if m + 1 < ts.len() && ts[m + 1] is RightBrace {
                                    (Err(unexpected("string key"@, "}"@, at[m + 1])), m + 1)
                                } else if m <= i {
                                    // never: a member always takes at least three tokens
                                    (Err(eoi("} or ,"@, at[ts.len() as int])), m)
                                } else {
                                    token_members(ts, at, m + 1, acc2)
                                },
                                other => (Err(unexpected(", or }"@, token_debug(other), at[m])), m + 1),
                            }
                        }
                    },
                }
            },
            other => (Err(unexpected("string key"@, token_debug(other), at[i])), i + 1),
        }
    }
}

// ---------------------------------------------------------------------------
// Lemmas
// ---------------------------------------------------------------------------

/// Parsing never moves backwards nor past the end, and a value always takes
/// at least one token.
pub proof fn lemma_token_value_progress(ts: Seq<TokenView>, at: Seq<int>, i: int)
    requires
        0 <= i <= ts.len(),
    ensures
        i <= token_value(ts, at, i).1 <= ts.len(),
        token_value(ts, at, i).0 is Ok ==> token_value(ts, at, i).1 > i,
    decreases ts.len() - i, 0nat,
{
    if i < ts.len() {
        match ts[i] {
            TokenView::LeftBracket => lemma_token_array_progress(ts, at, i + 1),
            TokenView::LeftBrace => lemma_token_object_progress(ts, at, i + 1),
            _ => {},
        }
    }
}

pub proof fn lemma_token_array_progress(ts: Seq<TokenView>, at: Seq<int>, i: int)
    requires
        0 <= i <= ts.len(),
    ensures
        i <= token_array(ts, at, i).1 <= ts.len(),
        token_array(ts, at, i).0 is Ok ==> token_array(ts, at, i).1 > i,
    decreases ts.len() - i, 2nat,
{
    if !(0 <= i < ts.len() && ts[i] is RightBracket) {
        lemma_token_elements_progress(ts, at, i, Seq::empty());
    }
}

pub proof fn lemma_token_elements_progress(ts: Seq<TokenView>, at: Seq<int>, i: int, acc: Seq<JsonValueView>)
    requires
        0 <= i <= ts.len(),
    ensures
        i <= token_elements(ts, at, i, acc).1 <= ts.len(),
        token_elements(ts, at, i, acc).0 is Ok ==> token_elements(ts, at, i, acc).1 > i,
    decreases ts.len() - i, 1nat,
{
    lemma_token_value_progress(ts, at, i);
    let (r, j) = token_value(ts, at, i);
    if let Ok(v) = r {
        if 0 <= j < ts.len() && ts[j] is Comma && !(j + 1 < ts.len() && ts[j + 1] is RightBracket) && j > i {
            lemma_token_elements_progress(ts, at, j + 1, acc.push(v));
        }
    }
}

pub proof fn lemma_token_object_progress(ts: Seq<TokenView>, at: Seq<int>, i: int)
    requires
        0 <= i <= ts.len(),
    ensures
        i <= token_object(ts, at, i).1 <= ts.len(),
        token_object(ts, at, i).0 is Ok ==> token_object(ts, at, i).1 > i,
    decreases ts.len() - i, 2nat,
{
    if !(0 <= i < ts.len() && ts[i] is RightBrace) {
        lemma_token_members_progress(ts, at, i, Seq::empty());
    }
}

pub proof fn lemma_token_members_progress(ts: Seq<TokenView>, at: Seq<int>, i: int, acc: Seq<(Seq<char>, JsonValueView)>)
    requires
        0 <= i <= ts.len(),
    ensures
        i <= token_members(ts, at, i, acc).1 <= ts.len(),
        token_members(ts, at, i, acc).0 is Ok ==> token_members(ts, at, i, acc).1 > i,
    decreases ts.len() - i, 1nat,
{
    if 0 <= i < ts.len() && i + 1 < ts.len() {
        if let TokenView::String(k) = ts[i] {
            if ts[i + 1] is Colon {
                lemma_token_value_progress(ts, at, i + 2);
                let (r, m) = token_value(ts, at, i + 2);
                if let Ok(v) = r {
                    if 0 <= m < ts.len() && ts[m] is Comma && !(m + 1 < ts.len() && ts[m + 1] is RightBrace) && m > i {
                        lemma_token_members_progress(ts, at, m + 1, obj_insert(acc, k, v));
                    }
                }
            }
        }
    }
}

/// Two token sequences of the same length that agree from index `i` on.
pub open spec fn same_from(a: Seq<TokenView>, b: Seq<TokenView>, i: int) -> bool {
    &&& a.len() == b.len()
    &&& forall|k: int| 0 <= k && i <= k < a.len() ==> #[trigger] a[k] == #[trigger] b[k]
}

/// Parsing from index `i` reads no token before `i`.
pub proof fn lemma_token_value_frame(a: Seq<TokenView>, b: Seq<TokenView>, at: Seq<int>, i: int)
    requires
        same_from(a, b, i),
    ensures
        token_value(a, at, i) == token_value(b, at, i),
    decreases a.len() - i, 0nat,
{
    if 0 <= i < a.len() {
        assert(a[i] == b[i]);
        match a[i] {
            TokenView::LeftBracket => lemma_token_array_frame(a, b, at, i + 1),
            TokenView::LeftBrace => lemma_token_object_frame(a, b, at, i + 1),
            _ => {},
        }
    }
}

pub proof fn lemma_token_array_frame(a: Seq<TokenView>, b: Seq<TokenView>, at: Seq<int>, i: int)
    requires
        same_from(a, b, i),
    ensures
        token_array(a, at, i) == token_array(b, at, i),
    decreases a.len() - i, 2nat,
{
    if 0 <= i < a.len() {
        assert(a[i] == b[i]);
    }
    lemma_token_elements_frame(a, b, at, i, Seq::empty());
}

pub proof fn lemma_token_elements_frame(a: Seq<TokenView>, b: Seq<TokenView>, at: Seq<int>, i: int, acc: Seq<JsonValueView>)
    requires
        same_from(a, b, i),
    ensures
        token_elements(a, at, i, acc) == token_elements(b, at, i, acc),
    decreases a.len() - i, 1nat,
{
    lemma_token_value_frame(a, b, at, i);
    if 0 <= i <= a.len() {
        lemma_token_value_progress(a, at, i);
    }
    let (r, j) = token_value(a, at, i);
    if let Ok(v) = r {
        if 0 <= j < a.len() {
            assert(a[j] == b[j]);
            if j + 1 < a.len() {
                assert(a[j + 1] == b[j + 1]);
            }
            if a[j] is Comma && j > i && 0 <= i {
                lemma_token_elements_frame(a, b, at, j + 1, acc.push(v));
            }
        }
    }
}

pub proof fn lemma_token_object_frame(a: Seq<TokenView>, b: Seq<TokenView>, at: Seq<int>, i: int)
    requires
        same_from(a, b, i),
    ensures
        token_object(a, at, i) == token_object(b, at, i),
    decreases a.len() - i, 2nat,
{
    if 0 <= i < a.len() {
        assert(a[i] == b[i]);
    }
    lemma_token_members_frame(a, b, at, i, Seq::empty());
}

pub proof fn lemma_token_members_frame(
    a: Seq<TokenView>,
    b: Seq<TokenView>,
    at: Seq<int>,
    i: int,
    acc: Seq<(Seq<char>, JsonValueView)>,
)
    requires
        same_from(a, b, i),
    ensures
        token_members(a, at, i, acc) == token_members(b, at, i, acc),
    decreases a.len() - i, 1nat,
{
    if 0 <= i < a.len() {
        assert(a[i] == b[i]);
        if i + 1 < a.len() {
            assert(a[i + 1] == b[i + 1]);
            if let TokenView::String(k) = a[i] {
                if a[i + 1] is Colon {
                    lemma_token_value_frame(a, b, at, i + 2);
                    lemma_token_value_progress(a, at, i + 2);
                    let (r, m) = token_value(a, at, i + 2);
                    if let Ok(v) = r {
                        if 0 <= m < a.len() {
                            assert(a[m] == b[m]);
                            if m + 1 < a.len() {
                                assert(a[m + 1] == b[m + 1]);
                            }
                            if a[m] is Comma && m > i {
                                lemma_token_members_frame(a, b, at, m + 1, obj_insert(acc, k, v));
                            }
                        }
                    }
                }
            }
        }
    }
}

/// The tokens with those in `[a, b)` replaced by `Null`: what is left of a
/// token sequence after the parser has moved from `a` to `b`.
pub open spec fn consumed(t: Seq<TokenView>, a: int, b: int) -> Seq<TokenView> {
    Seq::new(t.len(), |k: int| if a <= k < b { TokenView::Null } else { t[k] })
}

pub proof fn lemma_consumed_compose(t: Seq<TokenView>, a: int, b: int, c: int)
    requires
        a <= b <= c,
    ensures
        consumed(consumed(t, a, b), b, c) == consumed(t, a, c),
        same_from(consumed(t, a, b), t, b),
{
    assert(consumed(consumed(t, a, b), b, c) =~= consumed(t, a, c));
    assert forall|k: int| 0 <= k && b <= k < t.len() implies #[trigger] consumed(t, a, b)[k] == #[trigger] t[k] by {}
}

pub proof fn lemma_consumed_none(t: Seq<TokenView>, a: int)
    ensures
        consumed(t, a, a) == t,
{
    assert(consumed(t, a, a) =~= t);
}

/// A stateful JSON parser holding the full token stream.
///
/// Usually `parse_json` is what you want. Use `JsonParser` directly to run the
/// tokenizing and the parsing as separate steps.
pub struct JsonParser {
    tokens: Vec<Token>,
    offsets: Vec<usize>,
    position: usize,
}

impl JsonParser {
    #[verifier::type_invariant]
    spec fn position_in_tokens(self) -> bool {
        &&& self.position <= self.tokens@.len()
        &&& self.offsets@.len() == self.tokens@.len() + 1
    }

    /// The token stream, by view. Tokens already consumed read as `Null`.
    pub closed spec fn tokens(self) -> Seq<TokenView> {
        tokens_view(self.tokens@)
    }

    /// The index of the next token to read.
    pub closed spec fn pos(self) -> int {
        self.position as int
    }

    /// The byte offset at which each token begins, then the length of the
    /// input.
    pub closed spec fn at(self) -> Seq<int> {
        offsets_view(self.offsets@)
    }

    /// The length of the input: where an input that ends too early ended.
    fn end_offset(&self) -> (n: usize)
        ensures
            n == self.at()[self.tokens().len() as int],
    {
        proof {
            use_type_invariant(self);
        }
        self.offsets[self.tokens.len()]
    }

    /// The byte offset at which token `k` begins.
    fn offset_of(&self, k: usize) -> (n: usize)
        requires
            k < self.tokens().len(),
        ensures
            n == self.at()[k as int],
    {
        proof {
            use_type_invariant(self);
        }
        self.offsets[k]
    }

    /// Tokenizes `input` and returns a parser positioned at the start of the
    /// token stream; a lexical error is returned as is.
    pub fn new(input: &str) -> (r: Result<Self, JsonError>)
        ensures
            match r {
                Ok(p) => {
                    &&& p.pos() == 0
                    &&& lex(encode_utf8(input@), 0).0 == Ok::<Seq<TokenView>, JsonErrorView>(p.tokens())
                    &&& p.at() == token_starts(encode_utf8(input@), 0).push(encode_utf8(input@).len() as int)
                },
                Err(e) => lex(encode_utf8(input@), 0).0 == Err::<Seq<TokenView>, JsonErrorView>(e@),
            },
    {
        let mut tokenizer = Tokenizer::new(input);
        let (tokens, mut offsets) = tokenizer.tokenize_with_offsets()?;
        let ghost o = offsets@;
        offsets.push(input.as_bytes().len());
        let p = JsonParser { tokens, offsets, position: 0 };
        proof {
            assert(p.at() =~= offsets_view(o).push(encode_utf8(input@).len() as int));
        }
        Ok(p)
    }

    /// Parses one value from the token stream, starting at the current token.
    pub fn parse(&mut self) -> (r: Result<JsonValue, JsonError>)
        ensures
            final(self).at() == old(self).at(),
            (value_result(r), final(self).pos()) == token_value(old(self).tokens(), old(self).at(), old(self).pos()),
            final(self).tokens() == consumed(old(self).tokens(), old(self).pos(), final(self).pos()),
    {
        self.parse_value()
    }

    fn parse_value(&mut self) -> (r: Result<JsonValue, JsonError>)
        ensures
            final(self).at() == old(self).at(),
            (value_result(r), final(self).pos()) == token_value(old(self).tokens(), old(self).at(), old(self).pos()),
            final(self).tokens() == consumed(old(self).tokens(), old(self).pos(), final(self).pos()),
        decreases old(self).tokens@.len() - old(self).position, 0nat,
    {
        let ghost at = self.at();
        proof {
            use_type_invariant(&*self);
            lemma_consumed_none(self.tokens(), self.pos());
        }
        if self.is_at_end() {
            return Err(
                JsonError::UnexpectedEndOfInput { expected: "JSON value".to_owned(), position: self.end_offset() },
            );
        }
        let ghost t0 = self.tokens();
        let ghost p = self.pos();
        let token = match self.advance() {
            Some(t) => t,
            None => {
                return Err(
                    JsonError::UnexpectedEndOfInput { expected: "JSON value".to_owned(), position: self.end_offset() },
                );
            },
        };
        proof {
            lemma_consumed_compose(t0, p, p + 1, p + 1);
        }
        match token {
            Token::Null => Ok(JsonValue::Null),
            Token::Boolean(b) => Ok(JsonValue::Boolean(b)),
            Token::Number(n) => Ok(JsonValue::Number(n)),
            Token::String(s) => Ok(JsonValue::Text(s)),
            Token::LeftBracket => {
                let r = self.parse_array();
                proof {
                    lemma_token_array_frame(consumed(t0, p, p + 1), t0, at, p + 1);
                    lemma_token_array_progress(t0, at, p + 1);
                    lemma_consumed_compose(t0, p, p + 1, self.pos());
                }
                r
            },
            Token::LeftBrace => {
                let r = self.parse_object();
                proof {
                    lemma_token_object_frame(consumed(t0, p, p + 1), t0, at, p + 1);
                    lemma_token_object_progress(t0, at, p + 1);
                    lemma_consumed_compose(t0, p, p + 1, self.pos());
                }
                r
            },
            other => Err(
                JsonError::UnexpectedToken {
                    expected: "JSON value".to_owned(),
                    found: other.debug_text(),
                    position: self.offset_of(self.position - 1),
                },
            ),
        }
    }

    /// Takes the current token, leaving `Null` in its place, and moves on.
    fn advance(&mut self) -> (r: Option<Token>)
        ensures
            final(self).at() == old(self).at(),
            old(self).pos() < old(self).tokens().len() ==> r is Some && r->0@ == old(self).tokens()[old(self).pos()]
                && final(self).pos() == old(self).pos() + 1,
            old(self).pos() >= old(self).tokens().len() ==> r is None && final(self).pos() == old(self).pos(),
            final(self).tokens() == consumed(old(self).tokens(), old(self).pos(), final(self).pos()),
    {
        proof {
            use_type_invariant(&*self);
        }
        if self.position >= self.tokens.len() {
            proof {
                lemma_consumed_none(self.tokens(), self.pos());
            }
            return None;
        }
        let ghost t0 = self.tokens@;
        let mut token = Token::Null;
        std::mem::swap(&mut token, &mut self.tokens[self.position]);
        proof {
            assert(self.tokens@ == t0.update(self.position as int, Token::Null));
            assert(tokens_view(self.tokens@) =~= consumed(tokens_view(t0), self.position as int, self.position + 1));
        }
        self.position = self.position + 1;
        Some(token)
    }

    fn is_at_end(&self) -> (b: bool)
        ensures
            b == (self.pos() >= self.tokens().len()),
    {
        self.position >= self.tokens.len()
    }

    /// Whether the current token is `]`.
    fn check_right_bracket(&self) -> (b: bool)
        ensures
            b == (0 <= self.pos() < self.tokens().len() && self.tokens()[self.pos()] is RightBracket),
    {
        if self.position < self.tokens.len() {
            match self.tokens[self.position] {
                Token::RightBracket => true,
                _ => false,
            }
        } else {
            false
        }
    }

    /// Whether the current token is `}`.
    fn check_right_brace(&self) -> (b: bool)
        ensures
            b == (0 <= self.pos() < self.tokens().len() && self.tokens()[self.pos()] is RightBrace),
    {
        if self.position < self.tokens.len() {
            match self.tokens[self.position] {
                Token::RightBrace => true,
                _ => false,
            }
        } else {
            false
        }
    }

    /// Parses an array whose `[` has been consumed.
    fn parse_array(&mut self) -> (r: Result<JsonValue, JsonError>)
        ensures
            final(self).at() == old(self).at(),
            (value_result(r), final(self).pos()) == token_array(old(self).tokens(), old(self).at(), old(self).pos()),
            final(self).tokens() == consumed(old(self).tokens(), old(self).pos(), final(self).pos()),
        decreases old(self).tokens@.len() - old(self).position, 2nat,
    {
        let ghost at = self.at();
        proof {
            use_type_invariant(&*self);
        }
        let ghost t0 = self.tokens();
        let ghost start = self.pos();
        if self.check_right_bracket() {
            self.advance();
            let empty: Vec<JsonValue> = Vec::new();
            proof {
                lemma_array_view(empty);
                assert(values_view(empty@) =~= Seq::<JsonValueView>::empty());
            }
            return Ok(JsonValue::Array(empty));
        }
        let mut elements: Vec<JsonValue> = Vec::new();
        proof {
            lemma_consumed_none(t0, start);
            assert(values_view(elements@) =~= Seq::<JsonValueView>::empty());
        }
        loop
            invariant
                t0 == old(self).tokens(),
                start == old(self).pos(),
                self.tokens@.len() == old(self).tokens@.len(),
                t0.len() == self.tokens().len(),
                start <= self.pos() <= t0.len(),
                self.tokens() == consumed(t0, start, self.pos()),
                self.at() == at,
                at == old(self).at(),
                token_array(t0, at, start) == token_elements(t0, at, self.pos(), values_view(elements@)),
            decreases t0.len() - self.pos(),
        {
            let ghost p = self.pos();
            let ghost t1 = self.tokens();
            let ghost acc = values_view(elements@);
            proof {
                use_type_invariant(&*self);
            }
            let value = self.parse_value();
            proof {
                lemma_consumed_compose(t0, start, p, p);
                lemma_token_value_frame(t1, t0, at, p);
                lemma_token_value_progress(t0, at, p);
                lemma_consumed_compose(t0, start, p, self.pos());
            }
            let value = match value {
                Ok(v) => v,
                Err(e) => return Err(e),
            };
            let ghost j = self.pos();
            let ghost t2 = self.tokens();
            let token = match self.advance() {
                Some(t) => t,
                None => {
                    return Err(
                        JsonError::UnexpectedEndOfInput { expected: "] or ,".to_owned(), position: self.end_offset() },
                    );
                },
            };
            proof {
                lemma_consumed_compose(t0, start, j, j + 1);
                assert(t2[j] == t0[j]);
            }
            match token {
                Token::RightBracket => {
                    elements.push(value);
                    proof {
                        assert(values_view(elements@) =~= acc.push(value@));
                        lemma_array_view(elements);
                    }
                    return Ok(JsonValue::Array(elements));
                },
                Token::Comma => {
                    if self.check_right_bracket() {
                        return Err(
                            JsonError::UnexpectedToken {
                                expected: "value".to_owned(),
                                found: "]".to_owned(),
                                position: self.offset_of(self.position),
                            },
                        );
                    }
                    elements.push(value);
                    proof {
                        assert(values_view(elements@) =~= acc.push(value@));
                    }
                },
                other => {
                    return Err(
                        JsonError::UnexpectedToken {
                            expected: ", or ]".to_owned(),
                            found: other.debug_text(),
                            position: self.offset_of(self.position - 1),
                        },
                    );
                },
            }
        }
    }

    /// Parses an object whose `{` has been consumed.
    fn parse_object(&mut self) -> (r: Result<JsonValue, JsonError>)
        ensures
            final(self).at() == old(self).at(),
            (value_result(r), final(self).pos()) == token_object(old(self).tokens(), old(self).at(), old(self).pos()),
            final(self).tokens() == consumed(old(self).tokens(), old(self).pos(), final(self).pos()),
        decreases old(self).tokens@.len() - old(self).position, 2nat,
    {
        let ghost at = self.at();
        proof {
            use_type_invariant(&*self);
        }
        let ghost t0 = self.tokens();
        let ghost start = self.pos();
        if self.check_right_brace() {
            self.advance();
            return Ok(JsonValue::Object(JsonObject::new()));
        }
        let mut map = JsonObject::new();
        proof {
            lemma_consumed_none(t0, start);
        }
        loop
            invariant
                t0 == old(self).tokens(),
                start == old(self).pos(),
                self.tokens@.len() == old(self).tokens@.len(),
                t0.len() == self.tokens().len(),
                start <= self.pos() <= t0.len(),
                self.tokens() == consumed(t0, start, self.pos()),
                self.at() == at,
                at == old(self).at(),
                token_object(t0, at, start) == token_members(t0, at, self.pos(), map@),
            decreases t0.len() - self.pos(),
        {
            let ghost p = self.pos();
            proof {
                use_type_invariant(&*self);
                lemma_consumed_compose(t0, start, p, p);
            }
            let key = self.parse_object_key()?;
            proof {
                lemma_consumed_compose(t0, start, p, p + 1);
            }
            self.expect_colon()?;
            proof {
                lemma_consumed_compose(t0, start, p + 1, p + 2);
                lemma_consumed_compose(t0, start, p, p + 2);
            }
            let ghost t1 = self.tokens();
            proof {
                use_type_invariant(&*self);
                assert(self.tokens@.len() == self.tokens().len());
            }
            let value = self.parse_value();
            proof {
                lemma_token_value_frame(t1, t0, at, p + 2);
                lemma_token_value_progress(t0, at, p + 2);
                lemma_consumed_compose(t0, start, p + 2, self.pos());
            }
            let value = match value {
                Ok(v) => v,
                Err(e) => return Err(e),
            };
            let ghost m = self.pos();
            map.insert(key, value);
            let done = self.finish_pair_or_continue()?;
            proof {
                lemma_consumed_compose(t0, start, m, self.pos());
            }
            if done {
                return Ok(JsonValue::Object(map));
            }
            assert(self.tokens@.len() == self.tokens().len());
        }
    }

    /// Consumes one token, which must be a string, and returns it as a key.
    fn parse_object_key(&mut self) -> (r: Result<String, JsonError>)
        ensures
            final(self).at() == old(self).at(),
            final(self).tokens() == consumed(old(self).tokens(), old(self).pos(), final(self).pos()),
            old(self).pos() >= old(self).tokens().len() ==> final(self).pos() == old(self).pos()
                && (r matches Err(e) && e@ == eoi("string key"@, old(self).at()[old(self).tokens().len() as int])),
            old(self).pos() < old(self).tokens().len() ==> final(self).pos() == old(self).pos() + 1
                && match old(self).tokens()[old(self).pos()] {
                    TokenView::String(k) => (r matches Ok(s) && s@ == k),
                    other => (r matches Err(e) && e@ == unexpected("string key"@, token_debug(other), old(self).at()[old(self).pos()])),
                },
    {
        let token = match self.advance() {
            Some(t) => t,
            None => {
                return Err(
                    JsonError::UnexpectedEndOfInput { expected: "string key".to_owned(), position: self.end_offset() },
                );
            },
        };
        match token {
            Token::String(s) => Ok(s),
            other => Err(
                JsonError::UnexpectedToken {
                    expected: "string key".to_owned(),
                    found: other.debug_text(),
                    position: self.offset_of(self.position - 1),
                },
            ),
        }
    }

    /// Consumes the `:` that separates a key from its value.
    fn expect_colon(&mut self) -> (r: Result<(), JsonError>)
        ensures
            final(self).at() == old(self).at(),
            final(self).tokens() == consumed(old(self).tokens(), old(self).pos(), final(self).pos()),
            old(self).pos() >= old(self).tokens().len() ==> final(self).pos() == old(self).pos()
                && (r matches Err(e) && e@ == eoi(":"@, old(self).at()[old(self).tokens().len() as int])),
            old(self).pos() < old(self).tokens().len() ==> final(self).pos() == old(self).pos() + 1
                && if old(self).tokens()[old(self).pos()] is Colon {
                    r is Ok
                } else {
                    (r matches Err(e) && e@ == unexpected(
                        ":"@,
                        token_debug(old(self).tokens()[old(self).pos()]),
                        old(self).at()[old(self).pos()],
                    ))
                },
    {
        let token = match self.advance() {
            Some(t) => t,
            None => {
                return Err(JsonError::UnexpectedEndOfInput { expected: ":".to_owned(), position: self.end_offset() });
            },
        };
        match token {
            Token::Colon => Ok(()),
            other => Err(
                JsonError::UnexpectedToken {
                    expected: ":".to_owned(),
                    found: other.debug_text(),
                    position: self.offset_of(self.position - 1),
                },
            ),
        }
    }

    /// After a member, consumes `}` (returning `true`: the object is done)
    /// or `,` (returning `false`: another member follows); a `,` right before
    /// `}` is refused.
    fn finish_pair_or_continue(&mut self) -> (r: Result<bool, JsonError>)
        ensures
            final(self).at() == old(self).at(),
            final(self).tokens() == consumed(old(self).tokens(), old(self).pos(), final(self).pos()),
            old(self).pos() >= old(self).tokens().len() ==> final(self).pos() == old(self).pos()
                && (r matches Err(e) && e@ == eoi("} or ,"@, old(self).at()[old(self).tokens().len() as int])),
            old(self).pos() < old(self).tokens().len() ==> final(self).pos() == old(self).pos() + 1
                && match old(self).tokens()[old(self).pos()] {
                    TokenView::RightBrace => r == Ok::<bool, JsonError>(true),
                    TokenView::Comma => if old(self).pos() + 1 < old(self).tokens().len()
                        && old(self).tokens()[old(self).pos() + 1] is RightBrace {
                        (r matches Err(e) && e@ == unexpected("string key"@, "}"@, old(self).at()[old(self).pos() + 1]))
                    } else {
                        r == Ok::<bool, JsonError>(false)
                    },
                    other => (r matches Err(e) && e@ == unexpected(", or }"@, token_debug(other), old(self).at()[old(self).pos()])),
                },
    {
        let token = match self.advance() {
            Some(t) => t,
            None => {
                return Err(
                    JsonError::UnexpectedEndOfInput { expected: "} or ,".to_owned(), position: self.end_offset() },
                );
            },
        };
        match token {
            Token::RightBrace => Ok(true),
            Token::Comma => {
                if self.check_right_brace() {
                    return Err(
                        JsonError::UnexpectedToken {
                            expected: "string key".to_owned(),
                            found: "}".to_owned(),
                            position: self.offset_of(self.position),
                        },
                    );
                }
                Ok(false)
            },
            other => Err(
                JsonError::UnexpectedToken {
                    expected: ", or }".to_owned(),
                    found: other.debug_text(),
                    position: self.offset_of(self.position - 1),
                },
            ),
        }
    }
}

} // verus!
