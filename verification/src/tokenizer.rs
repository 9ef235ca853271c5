//! The tokenizer: turns JSON text into a sequence of tokens.

use vstd::prelude::*;
use vstd::utf8::*;
use vstd::slice::slice_subrange;
use crate::error::{JsonError, JsonErrorView};
use crate::lexical::{
    err_view, escape_sequence, is_digit, lemma_literal_bytes, lemma_number_end, number_literal,
    number_literal_at, unicode_escape, unicode_escape_at,
};
use crate::text::{char_string, push_utf8, str_debug, str_debug_text, string_from_utf8, text_of, text_of_bytes};

verus! {

broadcast use vstd::seq::group_seq_axioms;

/// A single JSON lexeme emitted by [`Tokenizer::tokenize`].
#[derive(Debug, PartialEq)]
pub enum Token {
    /// `{`
    LeftBrace,
    /// `}`
    RightBrace,
    /// `[`
    LeftBracket,
    /// `]`
    RightBracket,
    /// `,`
    Comma,
    /// `:`
    Colon,
    /// A string literal with escapes already resolved.
    String(String),
    /// A number literal, as its text.
    Number(String),
    /// `true` or `false`.
    Boolean(bool),
    /// `null`.
    Null,
}

/// The mathematical content of a token.
pub enum TokenView {
    LeftBrace,
    RightBrace,
    LeftBracket,
    RightBracket,
    Comma,
    Colon,
    String(Seq<char>),
    Number(Seq<char>),
    Boolean(bool),
    Null,
}

impl View for Token {
    type V = TokenView;

    open spec fn view(&self) -> TokenView {
        match self {
            Token::LeftBrace => TokenView::LeftBrace,
            Token::RightBrace => TokenView::RightBrace,
            Token::LeftBracket => TokenView::LeftBracket,
            Token::RightBracket => TokenView::RightBracket,
            Token::Comma => TokenView::Comma,
            Token::Colon => TokenView::Colon,
            Token::String(s) => TokenView::String(s@),
            Token::Number(t) => TokenView::Number(t@),
            Token::Boolean(b) => TokenView::Boolean(*b),
            Token::Null => TokenView::Null,
        }
    }
}

/// The views of a sequence of tokens.
pub open spec fn tokens_view(ts: Seq<Token>) -> Seq<TokenView> {
    Seq::new(ts.len(), |i: int| ts[i]@)
}

// ---------------------------------------------------------------------------
// The lexical grammar
// ---------------------------------------------------------------------------

/// ASCII whitespace as `u8::is_ascii_whitespace` has it: space, tab, line
/// feed, form feed, carriage return.
pub open spec fn is_token_ws(b: u8) -> bool {
    b == 0x20 || b == 0x09 || b == 0x0A || b == 0x0C || b == 0x0D
}

/// The body of a string literal scanned from `p` with the decoded bytes `acc`
/// so far: the decoded bytes up to the closing quote, or the error, and the
/// position reached. A body that the input ends in is reported where the
/// input ended.
pub open spec fn string_body(s: Seq<u8>, p: int, acc: Seq<u8>) -> (Result<Seq<u8>, JsonErrorView>, int)
    decreases s.len() - p,
{
    if p < 0 || p >= s.len() {
        (Err(JsonErrorView::UnexpectedEndOfInput { expected: "closing quote"@, position: s.len() }), p)
    } else if s[p] == 0x22 {
        (Ok(acc), p + 1)
    } else if s[p] == 0x5C {
        let (r, q) = escape_sequence(s, p + 1);
        match r {
            Ok(c) => string_body(s, q, acc + encode_scalar(c as u32)),
            Err(e) => (Err(e), q),
        }
    } else {
        string_body(s, p + 1, acc.push(s[p]))
    }
}

/// A string literal whose opening quote is at `start`.
pub open spec fn string_token(s: Seq<u8>, start: int) -> (Result<TokenView, JsonErrorView>, int) {
    let (r, q) = string_body(s, start + 1, Seq::empty());
    match r {
        Ok(b) => if valid_utf8(b) {
            (Ok(TokenView::String(decode_utf8(b))), q)
        } else {
            (
                Err(JsonErrorView::UnexpectedToken {
                    expected: "valid UTF-8 string contents"@,
                    found: "invalid UTF-8"@,
                    position: start as nat,
                }),
                q,
            )
        },
        Err(e) => (Err(e), q),
    }
}

/// Matching the bytes of `kw` against the input at `start`, from the `j`-th
/// byte on: a mismatch or the end of input reports the bytes read so far.
pub open spec fn keyword_from(s: Seq<u8>, start: int, kw: Seq<char>, j: int) -> (Result<(), JsonErrorView>, int)
    decreases encode_utf8(kw).len() - j,
{
    let k = encode_utf8(kw);
    if j < 0 || j >= k.len() {
        (Ok(()), start + k.len())
    } else if start + j >= s.len() {
        (
            Err(JsonErrorView::UnexpectedToken {
                expected: kw,
                found: text_of(s.subrange(start, start + j)),
                position: start as nat,
            }),
            start + j,
        )
    } else if s[start + j] != k[j] {
        (
            Err(JsonErrorView::UnexpectedToken {
                expected: kw,
                found: text_of(s.subrange(start, start + j + 1)),
                position: start as nat,
            }),
            start + j + 1,
        )
    } else {
        keyword_from(s, start, kw, j + 1)
    }
}

/// The token that starts at `p` and the position after it, for a token
/// that stands for a fixed value.
pub open spec fn with_token<T>(r: (Result<T, JsonErrorView>, int), t: TokenView) -> (Result<TokenView, JsonErrorView>, int) {
    (
        match r.0 {
            Ok(_) => Ok(t),
            Err(e) => Err(e),
        },
        r.1,
    )
}

/// The token that starts at the non-whitespace position `p`.
pub open spec fn token_at(s: Seq<u8>, p: int) -> (Result<TokenView, JsonErrorView>, int) {
    let b = s[p];
    if b == 0x7B {
        (Ok(TokenView::LeftBrace), p + 1)
    } else if b == 0x7D {
        (Ok(TokenView::RightBrace), p + 1)
    } else if b == 0x5B {
        (Ok(TokenView::LeftBracket), p + 1)
    } else if b == 0x5D {
        (Ok(TokenView::RightBracket), p + 1)
    } else if b == 0x2C {
        (Ok(TokenView::Comma), p + 1)
    } else if b == 0x3A {
        (Ok(TokenView::Colon), p + 1)
    } else if b == 0x22 {
        string_token(s, p)
    } else if is_digit(b) || b == 0x2D {
        let (r, q) = number_literal(s, p);
        (
            match r {
                Ok(t) => Ok(TokenView::Number(t)),
                Err(e) => Err(e),
            },
            q,
        )
    } else if b == 0x74 {
        with_token(keyword_from(s, p, "true"@, 0), TokenView::Boolean(true))
    } else if b == 0x66 {
        with_token(keyword_from(s, p, "false"@, 0), TokenView::Boolean(false))
    } else if b == 0x6E {
        with_token(keyword_from(s, p, "null"@, 0), TokenView::Null)
    } else {
        (
            Err(JsonErrorView::UnexpectedToken {
                expected: "valid JSON token"@,
                found: seq![b as char],
                position: p as nat,
            }),
            p,
        )
    }
}

/// Tokenizing from `p` to the end of the input: the tokens, or the first
/// error, and the position reached.
pub open spec fn lex(s: Seq<u8>, p: int) -> (Result<Seq<TokenView>, JsonErrorView>, int)
    decreases s.len() - p,
{
    if p < 0 || p >= s.len() {
        (Ok(Seq::empty()), p)
    } else if is_token_ws(s[p]) {
        lex(s, p + 1)
    } else {
        let (r, q) = token_at(s, p);
        match r {
            Ok(t) => {
                proof {
                    lemma_token_progress(s, p);
                }
                let (rest, e) = lex(s, q);
                (
                    match rest {
                        Ok(ts) => Ok(seq![t] + ts),
                        Err(err) => Err(err),
                    },
                    e,
                )
            },
            Err(err) => (Err(err), q),
        }
    }
}

/// The byte offsets at which the tokens that `lex(s, p)` reads begin.
pub open spec fn token_starts(s: Seq<u8>, p: int) -> Seq<int>
    decreases s.len() - p,
{
    if p < 0 || p >= s.len() {
        Seq::empty()
    } else if is_token_ws(s[p]) {
        token_starts(s, p + 1)
    } else {
        let (r, q) = token_at(s, p);
        if r is Ok {
            proof {
                lemma_token_progress(s, p);
            }
            seq![p] + token_starts(s, q)
        } else {
            Seq::empty()
        }
    }
}

/// Offsets as integers.
pub open spec fn offsets_view(o: Seq<usize>) -> Seq<int> {
    Seq::new(o.len(), |k: int| o[k] as int)
}

// ---------------------------------------------------------------------------
// Lemmas
// ---------------------------------------------------------------------------

pub proof fn lemma_string_body_progress(s: Seq<u8>, p: int, acc: Seq<u8>)
    requires
        0 <= p <= s.len(),
    ensures
        string_body(s, p, acc).1 >= p,
        string_body(s, p, acc).1 <= s.len(),
        string_body(s, p, acc).0 is Ok ==> string_body(s, p, acc).1 > p,
    decreases s.len() - p,
{
    if p < s.len() {
        if s[p] == 0x22 {
        } else if s[p] == 0x5C {
            let (r, q) = escape_sequence(s, p + 1);
            if let Ok(c) = r {
                lemma_string_body_progress(s, q, acc + encode_scalar(c as u32));
            }
        } else {
            lemma_string_body_progress(s, p + 1, acc.push(s[p]));
        }
    }
}

pub proof fn lemma_keyword_progress(s: Seq<u8>, start: int, kw: Seq<char>, j: int)
    requires
        0 <= start,
        0 <= j <= encode_utf8(kw).len(),
        start + j <= s.len(),
    ensures
        keyword_from(s, start, kw, j).1 >= start + j,
        keyword_from(s, start, kw, j).1 <= s.len() || keyword_from(s, start, kw, j).0 is Ok,
        keyword_from(s, start, kw, j).0 is Ok ==> keyword_from(s, start, kw, j).1 == start + encode_utf8(kw).len()
            && start + encode_utf8(kw).len() <= s.len(),
    decreases encode_utf8(kw).len() - j,
{
    let k = encode_utf8(kw);
    if j < k.len() && start + j < s.len() && s[start + j] == k[j] {
        lemma_keyword_progress(s, start, kw, j + 1);
    }
}

/// Every token that is read moves past its first byte and stays in the input.
pub proof fn lemma_token_progress(s: Seq<u8>, p: int)
    requires
        0 <= p < s.len(),
    ensures
        token_at(s, p).1 >= p,
        token_at(s, p).1 <= s.len(),
        token_at(s, p).0 is Ok ==> token_at(s, p).1 > p,
{
    let b = s[p];
    if b == 0x22 {
        lemma_string_body_progress(s, p + 1, Seq::empty());
    } else if is_digit(b) || b == 0x2D {
        lemma_number_end(s, p + 1);
    } else if b == 0x74 || b == 0x66 || b == 0x6E {
        lemma_literal_bytes();
        lemma_keyword_progress(s, p, "true"@, 0);
        lemma_keyword_progress(s, p, "false"@, 0);
        lemma_keyword_progress(s, p, "null"@, 0);
        if b == 0x74 {
            lemma_keyword_progress(s, p, "true"@, 1);
        } else if b == 0x66 {
            lemma_keyword_progress(s, p, "false"@, 1);
        } else {
            lemma_keyword_progress(s, p, "null"@, 1);
        }
    }
}


/// The token stream so far followed by what tokenizing the rest gives.
pub open spec fn after_tokens(
    ts: Seq<TokenView>,
    rest: (Result<Seq<TokenView>, JsonErrorView>, int),
) -> (Result<Seq<TokenView>, JsonErrorView>, int) {
    (
        match rest.0 {
            Ok(more) => Ok(ts + more),
            Err(e) => Err(e),
        },
        rest.1,
    )
}

/// A string body with no quote or backslash in `[p, i)` reads those bytes
/// through unchanged.
pub proof fn lemma_string_body_plain(s: Seq<u8>, p: int, i: int, acc: Seq<u8>)
    requires
        0 <= p <= i <= s.len(),
        forall|j: int| p <= j < i ==> s[j] != 0x22 && s[j] != 0x5C,
    ensures
        string_body(s, p, acc) == string_body(s, i, acc + s.subrange(p, i)),
    decreases i - p,
{
    if p < i {
        lemma_string_body_plain(s, p + 1, i, acc.push(s[p]));
        assert(acc.push(s[p]) + s.subrange(p + 1, i) =~= acc + s.subrange(p, i));
    } else {
        assert(acc + s.subrange(p, i) =~= acc);
    }
}

// ---------------------------------------------------------------------------
// Debug text of tokens
// ---------------------------------------------------------------------------

/// The text a token is shown as in error messages: its variant name, with
/// the payload in parentheses (a string in its `Debug` form, a number as its
/// literal).
pub open spec fn token_debug(t: TokenView) -> Seq<char> {
    match t {
        TokenView::LeftBrace => "LeftBrace"@,
        TokenView::RightBrace => "RightBrace"@,
        TokenView::LeftBracket => "LeftBracket"@,
        TokenView::RightBracket => "RightBracket"@,
        TokenView::Comma => "Comma"@,
        TokenView::Colon => "Colon"@,
        TokenView::String(s) => "String("@ + str_debug_text(s) + ")"@,
        TokenView::Number(n) => "Number("@ + n + ")"@,
        TokenView::Boolean(b) => if b {
            "Boolean(true)"@
        } else {
            "Boolean(false)"@
        },
        TokenView::Null => "Null"@,
    }
}

impl Token {
    /// The text this token is shown as in error messages.
    pub fn debug_text(&self) -> (r: String)
        ensures
            r@ == token_debug(self@),
    {
        match self {
            Token::LeftBrace => "LeftBrace".to_owned(),
            Token::RightBrace => "RightBrace".to_owned(),
            Token::LeftBracket => "LeftBracket".to_owned(),
            Token::RightBracket => "RightBracket".to_owned(),
            Token::Comma => "Comma".to_owned(),
            Token::Colon => "Colon".to_owned(),
            Token::String(s) => {
                let mut r = "String(".to_owned();
                let d = str_debug(s.as_str());
                r.append(d.as_str());
                r.append(")");
                r
            },
            Token::Number(n) => {
                let mut r = "Number(".to_owned();
                r.append(n.as_str());
                r.append(")");
                r
            },
            Token::Boolean(b) => if *b {
                "Boolean(true)".to_owned()
            } else {
                "Boolean(false)".to_owned()
            },
            Token::Null => "Null".to_owned(),
        }
    }
}

// ---------------------------------------------------------------------------
// The tokenizer
// ---------------------------------------------------------------------------

/// Lexer that converts a JSON string into a stream of [`Token`]s.
pub struct Tokenizer<'a> {
    input: &'a [u8],
    position: usize,
}

impl<'a> Tokenizer<'a> {
    #[verifier::type_invariant]
    spec fn position_in_input(self) -> bool {
        self.position <= self.input@.len()
    }

    /// The input, as UTF-8 bytes.
    pub closed spec fn bytes(self) -> Seq<u8> {
        self.input@
    }

    /// The position of the next byte to read.
    pub closed spec fn pos(self) -> int {
        self.position as int
    }

    /// A tokenizer over `input`, at its start.
    pub fn new(input: &'a str) -> (t: Self)
        ensures
            t.bytes() == encode_utf8(input@),
            t.pos() == 0,
    {
        Tokenizer { input: input.as_bytes(), position: 0 }
    }

    /// Tokenizes the rest of the input: the tokens up to its end, or the
    /// first lexical error.
    pub fn tokenize(&mut self) -> (r: Result<Vec<Token>, JsonError>)
        ensures
            final(self).bytes() == old(self).bytes(),
            (
                match r {
                    Ok(ts) => Ok(tokens_view(ts@)),
                    Err(e) => Err(e@),
                },
                final(self).pos(),
            ) == lex(old(self).bytes(), old(self).pos()),
    {
        match self.tokenize_with_offsets() {
            Ok((tokens, _)) => Ok(tokens),
            Err(e) => Err(e),
        }
    }

    /// Tokenizes the rest of the input as `tokenize` does, and also gives the
    /// byte offset at which each token begins.
    pub fn tokenize_with_offsets(&mut self) -> (r: Result<(Vec<Token>, Vec<usize>), JsonError>)
        ensures
            final(self).bytes() == old(self).bytes(),
            (
                match r {
                    Ok(x) => Ok(tokens_view(x.0@)),
                    Err(e) => Err(e@),
                },
                final(self).pos(),
            ) == lex(old(self).bytes(), old(self).pos()),
            r matches Ok(x) ==> x.1@.len() == x.0@.len() && offsets_view(x.1@) == token_starts(
                old(self).bytes(),
                old(self).pos(),
            ),
    {
        proof {
            use_type_invariant(&*self);
        }
        let ghost s = self.input@;
        let ghost start = self.position as int;
        let mut tokens: Vec<Token> = Vec::with_capacity(self.input.len() / 4);
        let mut offsets: Vec<usize> = Vec::with_capacity(self.input.len() / 4);
        loop
            invariant
                self.input@ == s,
                s == old(self).input@,
                start == old(self).pos(),
                self.position <= s.len(),
                offsets@.len() == tokens@.len(),
                lex(s, start) == after_tokens(tokens_view(tokens@), lex(s, self.position as int)),
                token_starts(s, start) == offsets_view(offsets@) + token_starts(s, self.position as int),
            ensures
                lex(s, start) == (Ok::<Seq<TokenView>, JsonErrorView>(tokens_view(tokens@)), self.position as int),
                token_starts(s, start) == offsets_view(offsets@),
            decreases s.len() - self.position,
        {
            proof {
                use_type_invariant(&*self);
            }
            let ghost p = self.position as int;
            let p_start = self.position;
            let ghost ts = tokens_view(tokens@);
            match self.peek() {
                None => {
                    assert(lex(s, p) == (Ok::<Seq<TokenView>, JsonErrorView>(Seq::empty()), p));
                    assert(tokens_view(tokens@) + Seq::<TokenView>::empty() =~= tokens_view(tokens@));
                    assert(offsets_view(offsets@) + Seq::<int>::empty() =~= offsets_view(offsets@));
                    break;
                },
                Some(b) => {
                    if b == 0x20 || b == 0x09 || b == 0x0A || b == 0x0C || b == 0x0D {
                        self.advance();
                    } else {
                        let t = if b == 0x7B {
                            self.advance();
                            Token::LeftBrace
                        } else if b == 0x7D {
                            self.advance();
                            Token::RightBrace
                        } else if b == 0x5B {
                            self.advance();
                            Token::LeftBracket
                        } else if b == 0x5D {
                            self.advance();
                            Token::RightBracket
                        } else if b == 0x2C {
                            self.advance();
                            Token::Comma
                        } else if b == 0x3A {
                            self.advance();
                            Token::Colon
                        } else if b == 0x22 {
                            self.tokenize_string()?
                        } else if (b >= 0x30 && b <= 0x39) || b == 0x2D {
                            self.tokenize_number()?
                        } else if b == 0x74 {
                            self.expect_keyword("true")?;
                            Token::Boolean(true)
                        } else if b == 0x66 {
                            self.expect_keyword("false")?;
                            Token::Boolean(false)
                        } else if b == 0x6E {
                            self.expect_keyword("null")?;
                            Token::Null
                        } else {
                            return Err(
                                JsonError::UnexpectedToken {
                                    expected: "valid JSON token".to_owned(),
                                    found: char_string(b as char),
                                    position: self.position,
                                },
                            );
                        };
                        proof {
                            lemma_token_progress(s, p);
                            assert(token_at(s, p) == (Ok::<TokenView, JsonErrorView>(t@), self.position as int));
                            assert(tokens_view(tokens@.push(t)) =~= ts.push(t@));
                            let rest = lex(s, self.position as int);
                            match rest.0 {
                                Ok(more) => assert(ts + (seq![t@] + more) =~= ts.push(t@) + more),
                                Err(_) => {},
                            }
                        }
                        proof {
                            assert(offsets_view(offsets@.push(p_start)) =~= offsets_view(offsets@).push(p));
                            assert(offsets_view(offsets@) + (seq![p] + token_starts(s, self.position as int))
                                =~= offsets_view(offsets@).push(p) + token_starts(s, self.position as int));
                        }
                        tokens.push(t);
                        offsets.push(p_start);
                    }
                },
            }
        }
        Ok((tokens, offsets))
    }

    /// Moves past the current byte and returns it, if there is one.
    fn advance(&mut self) -> (r: Option<u8>)
        ensures
            final(self).bytes() == old(self).bytes(),
            old(self).pos() < old(self).bytes().len() ==> r == Some(old(self).bytes()[old(self).pos()])
                && final(self).pos() == old(self).pos() + 1,
            old(self).pos() >= old(self).bytes().len() ==> r is None && final(self).pos() == old(self).pos(),
    {
        proof {
            use_type_invariant(&*self);
        }
        if self.position < self.input.len() {
            let byte = self.input[self.position];
            self.position = self.position + 1;
            Some(byte)
        } else {
            None
        }
    }

    /// The current byte, if there is one.
    fn peek(&self) -> (r: Option<u8>)
        ensures
            self.pos() < self.bytes().len() ==> r == Some(self.bytes()[self.pos()]),
            self.pos() >= self.bytes().len() ==> r is None,
    {
        if self.position < self.input.len() {
            Some(self.input[self.position])
        } else {
            None
        }
    }

    /// Reads the string literal whose opening quote is the current byte.
    fn tokenize_string(&mut self) -> (r: Result<Token, JsonError>)
        requires
            old(self).pos() < old(self).bytes().len(),
            old(self).bytes()[old(self).pos()] == 0x22,
        ensures
            final(self).bytes() == old(self).bytes(),
            (
                match r {
                    Ok(t) => Ok(t@),
                    Err(e) => Err(e@),
                },
                final(self).pos(),
            ) == string_token(old(self).bytes(), old(self).pos()),
    {
        proof {
            use_type_invariant(&*self);
        }
        let ghost s = self.input@;
        let start = self.position;
        self.advance();
        let content_start = self.position;
        let mut i = content_start;
        while i < self.input.len()
            invariant
                self.input@ == s,
                s == old(self).input@,
                start == old(self).position,
                self.position == content_start,
                content_start == start + 1,
                content_start <= i <= s.len(),
                forall|j: int| content_start <= j < i ==> s[j] != 0x22 && s[j] != 0x5C,
            decreases s.len() - i,
        {
            let b = self.input[i];
            if b == 0x22 {
                let bytes = slice_subrange(self.input, content_start, i);
                proof {
                    lemma_string_body_plain(s, content_start as int, i as int, Seq::empty());
                    assert(Seq::<u8>::empty() + s.subrange(content_start as int, i as int) =~= bytes@);
                }
                self.position = i + 1;
                return match string_from_utf8(vstd::slice::slice_to_vec(bytes)) {
                    Some(text) => Ok(Token::String(text)),
                    None => Err(
                        JsonError::UnexpectedToken {
                            expected: "valid UTF-8 string contents".to_owned(),
                            found: "invalid UTF-8".to_owned(),
                            position: start,
                        },
                    ),
                };
            }
            if b == 0x5C {
                break;
            }
            i = i + 1;
        }
        let prefix = slice_subrange(self.input, content_start, i);
        let mut buf: Vec<u8> = vstd::slice::slice_to_vec(prefix);
        proof {
            lemma_string_body_plain(s, content_start as int, i as int, Seq::empty());
            assert(Seq::<u8>::empty() + s.subrange(content_start as int, i as int) =~= buf@);
        }
        self.position = i;
        loop
            invariant_except_break
                string_body(s, start + 1, Seq::empty())
                    == string_body(s, self.position as int, buf@),
            invariant
                self.input@ == s,
                s == old(self).input@,
                start == old(self).position,
                self.position <= s.len(),
            ensures
                string_body(s, start + 1, Seq::empty())
                    == (Ok::<Seq<u8>, JsonErrorView>(buf@), self.position as int),
            decreases s.len() - self.position,
        {
            let ghost p = self.position as int;
            match self.peek() {
                None => {
                    return Err(
                        JsonError::UnexpectedEndOfInput {
                            expected: "closing quote".to_owned(),
                            position: self.input.len(),
                        },
                    );
                },
                Some(b) => {
                    if b == 0x22 {
                        self.advance();
                        break;
                    } else if b == 0x5C {
                        self.advance();
                        let c = self.parse_escape_sequence()?;
                        push_utf8(&mut buf, c);
                    } else {
                        buf.push(b);
                        self.advance();
                    }
                },
            }
        }
        match string_from_utf8(buf) {
            Some(text) => Ok(Token::String(text)),
            None => Err(
                JsonError::UnexpectedToken {
                    expected: "valid UTF-8 string contents".to_owned(),
                    found: "invalid UTF-8".to_owned(),
                    position: start,
                },
            ),
        }
    }

    /// Reads the escape sequence whose backslash has just been consumed.
    fn parse_escape_sequence(&mut self) -> (r: Result<char, JsonError>)
        requires
            old(self).pos() >= 1,
        ensures
            final(self).bytes() == old(self).bytes(),
            (err_view(r), final(self).pos()) == escape_sequence(old(self).bytes(), old(self).pos()),
    {
        let pos = self.position;
        match self.advance() {
            Some(b) => {
                if b == 0x22 {
                    Ok('"')
                } else if b == 0x5C {
                    Ok('\\')
                } else if b == 0x2F {
                    Ok('/')
                } else if b == 0x62 {
                    Ok('\u{0008}')
                } else if b == 0x66 {
                    Ok('\u{000C}')
                } else if b == 0x6E {
                    Ok('\n')
                } else if b == 0x72 {
                    Ok('\r')
                } else if b == 0x74 {
                    Ok('\t')
                } else if b == 0x75 {
                    self.parse_unicode_escape()
                } else {
                    Err(JsonError::InvalidEscape { ch: b as char, position: pos - 1 })
                }
            },
            None => Err(
                JsonError::UnexpectedEndOfInput { expected: "escape character".to_owned(), position: pos },
            ),
        }
    }

    /// Reads the four hex digits of a `\uXXXX` escape.
    fn parse_unicode_escape(&mut self) -> (r: Result<char, JsonError>)
        requires
            old(self).pos() >= 2,
        ensures
            final(self).bytes() == old(self).bytes(),
            (err_view(r), final(self).pos()) == unicode_escape(old(self).bytes(), old(self).pos()),
    {
        proof {
            use_type_invariant(&*self);
        }
        let (r, end) = unicode_escape_at(self.input, self.position);
        self.position = end;
        r
    }

    /// Reads the number literal that starts at the current byte.
    fn tokenize_number(&mut self) -> (r: Result<Token, JsonError>)
        ensures
            final(self).bytes() == old(self).bytes(),
            (
                match r {
                    Ok(t) => Ok(t@),
                    Err(e) => Err(e@),
                },
                final(self).pos(),
            ) == (
                match number_literal(old(self).bytes(), old(self).pos()).0 {
                    Ok(t) => Ok(TokenView::Number(t)),
                    Err(e) => Err(e),
                },
                number_literal(old(self).bytes(), old(self).pos()).1,
            ),
    {
        proof {
            use_type_invariant(&*self);
        }
        let (r, end) = number_literal_at(self.input, self.position);
        self.position = end;
        match r {
            Ok(text) => Ok(Token::Number(text)),
            Err(e) => Err(e),
        }
    }

    /// Checks that the next bytes spell `keyword` and moves past them.
    fn expect_keyword(&mut self, keyword: &str) -> (r: Result<(), JsonError>)
        ensures
            final(self).bytes() == old(self).bytes(),
            (err_view(r), final(self).pos()) == keyword_from(old(self).bytes(), old(self).pos(), keyword@, 0),
    {
        proof {
            use_type_invariant(&*self);
        }
        let ghost s = self.input@;
        let start = self.position;
        let kb = keyword.as_bytes();
        let mut j: usize = 0;
        while j < kb.len()
            invariant
                self.input@ == s,
                s == old(self).input@,
                start == old(self).position,
                kb@ == encode_utf8(keyword@),
                self.position == start + j,
                start + j <= s.len(),
                j <= kb@.len(),
                keyword_from(s, start as int, keyword@, 0) == keyword_from(s, start as int, keyword@, j as int),
            decreases kb@.len() - j,
        {
            let next = self.advance();
            let matched = match next {
                Some(b) => b == kb[j],
                None => false,
            };
            if !matched {
                proof {
                    use_type_invariant(&*self);
                }
                let found = text_of_bytes(slice_subrange(self.input, start, self.position));
                return Err(
                    JsonError::UnexpectedToken { expected: keyword.to_owned(), found, position: start },
                );
            }
            j = j + 1;
        }
        Ok(())
    }
}

} // verus!
