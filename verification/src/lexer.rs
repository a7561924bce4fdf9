//! The tokenizer: one line of text in, a sequence of positioned tokens out.
//!
//! The line is scanned once, left to right, by character index (character
//! position, not byte offset). Whitespace separates tokens and is dropped;
//! brackets and the single-character operators stand for themselves; `<` and
//! `>` must be doubled to form the shift operators; a maximal alphanumeric
//! run is classified as a decimal literal, a hexadecimal literal, or a
//! keyword, in that order, and rejected if it is none of the three.
//!
//! The function [`spec_tokenize`] is the mathematical account of this scan;
//! [`lexer`] is proved to return exactly its value.

use vstd::prelude::*;
use crate::error::LexerError;
use crate::numeral::{is_dec_digit, spec_parse_dec, spec_parse_hex, parse_dec_u32, parse_hex_u32};

verus! {

// ---------------------------------------------------------------------------
// Tokens
// ---------------------------------------------------------------------------

/// The identity of an operator.
#[derive(Debug, PartialEq, Eq, Structural, Clone, Copy, Hash)]
pub enum Symbol {
    OR,
    AND,
    XOR,
    NOT,
    RSHIFT,
    LSHIFT,
}

/// One token of a line. Literal and keyword tokens carry their source text.
#[derive(Debug, PartialEq, Clone)]
pub enum Token {
    OpenBracket,
    CloseBracket,
    Keyword(String),
    Decimal(String),
    Hexadecimal(String),
    Operator(Symbol),
}

/// The mathematical shape of a token: text becomes a sequence of characters.
pub enum TokenView {
    OpenBracket,
    CloseBracket,
    Keyword(Seq<char>),
    Decimal(Seq<char>),
    Hexadecimal(Seq<char>),
    Operator(Symbol),
}

impl View for Token {
    type V = TokenView;

    open spec fn view(&self) -> TokenView {
        match self {
            Token::OpenBracket => TokenView::OpenBracket,
            Token::CloseBracket => TokenView::CloseBracket,
            Token::Keyword(s) => TokenView::Keyword(s@),
            Token::Decimal(s) => TokenView::Decimal(s@),
            Token::Hexadecimal(s) => TokenView::Hexadecimal(s@),
            Token::Operator(sym) => TokenView::Operator(*sym),
        }
    }
}

impl Token {
    /// A structural copy of the token with the same view.
    pub fn dup(&self) -> (r: Token)
        ensures
            r@ == self@,
    {
        match self {
            Token::OpenBracket => Token::OpenBracket,
            Token::CloseBracket => Token::CloseBracket,
            Token::Keyword(s) => Token::Keyword(s.clone()),
            Token::Decimal(s) => Token::Decimal(s.clone()),
            Token::Hexadecimal(s) => Token::Hexadecimal(s.clone()),
            Token::Operator(sym) => Token::Operator(*sym),
        }
    }
}

/// A token sequence: each token with the character offset of its first
/// character in the original line.
pub type Tokens = Vec<(usize, Token)>;

/// The view of a token sequence.
pub open spec fn tokens_view(ts: Seq<(usize, Token)>) -> Seq<(usize, TokenView)> {
    ts.map_values(|pt: (usize, Token)| (pt.0, pt.1@))
}

// ---------------------------------------------------------------------------
// Character classes (the grammar is ASCII)
// ---------------------------------------------------------------------------

/// ASCII whitespace: space, tab, line feed, form feed, carriage return.
pub open spec fn is_space_char(c: char) -> bool {
    c as u32 == 32 || c as u32 == 9 || c as u32 == 10 || c as u32 == 12 || c as u32 == 13
}

/// An ASCII letter.
pub open spec fn is_alpha_char(c: char) -> bool {
    ('a' as u32 <= c as u32 && c as u32 <= 'z' as u32) || ('A' as u32 <= c as u32 && c as u32
        <= 'Z' as u32)
}

/// An ASCII letter or decimal digit.
pub open spec fn is_alnum_char(c: char) -> bool {
    is_dec_digit(c) || is_alpha_char(c)
}

/// A non-empty, purely alphabetic run: a keyword candidate.
pub open spec fn is_alpha_string(s: Seq<char>) -> bool {
    s.len() > 0 && (forall|k: int| 0 <= k < s.len() ==> is_alpha_char(s[k]))
}

/// A `0x`-prefixed hexadecimal literal whose digits fit in 32 bits.
pub open spec fn is_hex_literal(s: Seq<char>) -> bool {
    s.len() >= 2 && s[0] == '0' && s[1] == 'x' && spec_parse_hex(s.skip(2)) is Some
}

fn is_space_character(c: char) -> (r: bool)
    ensures
        r == is_space_char(c),
{
    let u: u32 = c as u32;
    u == 32 || u == 9 || u == 10 || u == 12 || u == 13
}

fn is_alpha_character(c: char) -> (r: bool)
    ensures
        r == is_alpha_char(c),
{
    let u: u32 = c as u32;
    (97 <= u && u <= 122) || (65 <= u && u <= 90)
}

fn is_alnum_character(c: char) -> (r: bool)
    ensures
        r == is_alnum_char(c),
{
    let u: u32 = c as u32;
    (48 <= u && u <= 57) || (97 <= u && u <= 122) || (65 <= u && u <= 90)
}

fn is_alpha_str(s: &str) -> (r: bool)
    ensures
        r == is_alpha_string(s@),
{
    let n = s.unicode_len();
    if n == 0 {
        return false;
    }
    let mut k: usize = 0;
    while k < n
        invariant
            n == s@.len(),
            0 <= k <= n,
            forall|m: int| 0 <= m < k ==> is_alpha_char(s@[m]),
        decreases n - k,
    {
        if !is_alpha_character(s.get_char(k)) {
            return false;
        }
        k = k + 1;
    }
    true
}

// ---------------------------------------------------------------------------
// The scan, mathematically
// ---------------------------------------------------------------------------

/// The first index at or after `i` that does not continue an alphanumeric run.
pub open spec fn run_end(line: Seq<char>, i: int) -> int
    decreases line.len() - i,
{
    if i < line.len() && is_alnum_char(line[i]) {
        run_end(line, i + 1)
    } else {
        i
    }
}

pub proof fn lemma_run_end(line: Seq<char>, i: int)
    requires
        0 <= i <= line.len(),
    ensures
        i <= run_end(line, i) <= line.len(),
        forall|k: int| i <= k < run_end(line, i) ==> is_alnum_char(line[k]),
        run_end(line, i) < line.len() ==> !is_alnum_char(line[run_end(line, i)]),
        i < line.len() && is_alnum_char(line[i]) ==> run_end(line, i) > i,
    decreases line.len() - i,
{
    if i < line.len() && is_alnum_char(line[i]) {
        lemma_run_end(line, i + 1);
    }
}

/// Prepends a token to a successful remainder; an error swallows it.
pub open spec fn lex_cons(
    t: (usize, TokenView),
    r: Result<Seq<(usize, TokenView)>, LexerError>,
) -> Result<Seq<(usize, TokenView)>, LexerError> {
    match r {
        Ok(ts) => Ok(seq![t] + ts),
        Err(e) => Err(e),
    }
}

/// The tokens of `line` from index `i` on, or the first lexical error.
pub open spec fn spec_tokenize_from(line: Seq<char>, i: int) -> Result<
    Seq<(usize, TokenView)>,
    LexerError,
>
    decreases line.len() - i,
{
    if i < 0 || i >= line.len() {
        Ok(seq![])
    } else {
        let c = line[i];
        if is_space_char(c) {
            spec_tokenize_from(line, i + 1)
        } else if c == ')' {
            lex_cons((i as usize, TokenView::CloseBracket), spec_tokenize_from(line, i + 1))
        } else if c == '(' {
            lex_cons((i as usize, TokenView::OpenBracket), spec_tokenize_from(line, i + 1))
        } else if c == '^' {
            lex_cons((i as usize, TokenView::Operator(Symbol::XOR)), spec_tokenize_from(line, i + 1))
        } else if c == '&' {
            lex_cons((i as usize, TokenView::Operator(Symbol::AND)), spec_tokenize_from(line, i + 1))
        } else if c == '|' {
            lex_cons((i as usize, TokenView::Operator(Symbol::OR)), spec_tokenize_from(line, i + 1))
        } else if c == '~' {
            lex_cons((i as usize, TokenView::Operator(Symbol::NOT)), spec_tokenize_from(line, i + 1))
        } else if c == '>' {
            if i + 1 < line.len() && line[i + 1] == '>' {
                lex_cons(
                    (i as usize, TokenView::Operator(Symbol::RSHIFT)),
                    spec_tokenize_from(line, i + 2),
                )
            } else {
                Err(LexerError::UnknownOperator(i as usize))
            }
        } else if c == '<' {
            if i + 1 < line.len() && line[i + 1] == '<' {
                lex_cons(
                    (i as usize, TokenView::Operator(Symbol::LSHIFT)),
                    spec_tokenize_from(line, i + 2),
                )
            } else {
                Err(LexerError::UnknownOperator(i as usize))
            }
        } else if is_alnum_char(c) {
            let j = run_end(line, i);
            let text = line.subrange(i, j);
            proof {
                lemma_run_end(line, i);
            }
            if spec_parse_dec(text) is Some {
                lex_cons((i as usize, TokenView::Decimal(text)), spec_tokenize_from(line, j))
            } else if is_hex_literal(text) {
                lex_cons((i as usize, TokenView::Hexadecimal(text)), spec_tokenize_from(line, j))
            } else if is_alpha_string(text) {
                lex_cons((i as usize, TokenView::Keyword(text)), spec_tokenize_from(line, j))
            } else {
                Err(LexerError::RadixError(i as usize))
            }
        } else {
            Err(LexerError::UnknownOperator(i as usize))
        }
    }
}

/// The tokens of a whole line, or the first lexical error.
pub open spec fn spec_tokenize(line: Seq<char>) -> Result<Seq<(usize, TokenView)>, LexerError> {
    spec_tokenize_from(line, 0)
}

/// Prepends already-produced tokens to a remainder result.
pub open spec fn lex_prefixed(
    pre: Seq<(usize, TokenView)>,
    r: Result<Seq<(usize, TokenView)>, LexerError>,
) -> Result<Seq<(usize, TokenView)>, LexerError> {
    match r {
        Ok(ts) => Ok(pre + ts),
        Err(e) => Err(e),
    }
}

proof fn lemma_lex_prefixed_empty(r: Result<Seq<(usize, TokenView)>, LexerError>)
    ensures
        lex_prefixed(Seq::empty(), r) == r,
{
    match r {
        Ok(ts) => {
            assert(Seq::empty() + ts =~= ts);
        },
        Err(_) => {},
    }
}

proof fn lemma_lex_step(
    pre: Seq<(usize, TokenView)>,
    t: (usize, TokenView),
    r: Result<Seq<(usize, TokenView)>, LexerError>,
)
    ensures
        lex_prefixed(pre, lex_cons(t, r)) == lex_prefixed(pre.push(t), r),
{
    match r {
        Ok(ts) => {
            assert(pre + (seq![t] + ts) =~= pre.push(t) + ts);
        },
        Err(_) => {},
    }
}

pub proof fn lemma_tokens_view_push(ts: Seq<(usize, Token)>, p: (usize, Token))
    ensures
        tokens_view(ts.push(p)) == tokens_view(ts).push((p.0, p.1@)),
{
    assert(tokens_view(ts.push(p)) =~= tokens_view(ts).push((p.0, p.1@)));
}

pub proof fn lemma_tokens_view_drop_last(ts: Seq<(usize, Token)>)
    requires
        ts.len() > 0,
    ensures
        tokens_view(ts.drop_last()) == tokens_view(ts).drop_last(),
        tokens_view(ts).last() == (ts.last().0, ts.last().1@),
{
    assert(tokens_view(ts.drop_last()) =~= tokens_view(ts).drop_last());
}

// ---------------------------------------------------------------------------
// The scan, executably
// ---------------------------------------------------------------------------

/// Splits a line into positioned tokens, or reports the first lexical error.
pub fn lexer(line: &str) -> (r: Result<Tokens, LexerError>)
    ensures
        match r {
            Ok(ts) => spec_tokenize(line@) == Ok::<Seq<(usize, TokenView)>, LexerError>(
                tokens_view(ts@),
            ),
            Err(e) => spec_tokenize(line@) == Err::<Seq<(usize, TokenView)>, LexerError>(e),
        },
{
    let n = line.unicode_len();
    let mut tokens: Tokens = Vec::new();
    let mut i: usize = 0;
    proof {
        assert(tokens_view(tokens@) =~= Seq::<(usize, TokenView)>::empty());
        lemma_lex_prefixed_empty(spec_tokenize_from(line@, 0));
    }
    while i < n
        invariant
            n == line@.len(),
            0 <= i <= n,
            spec_tokenize(line@) == lex_prefixed(
                tokens_view(tokens@),
                spec_tokenize_from(line@, i as int),
            ),
        decreases n - i,
    {
        let ghost pre = tokens_view(tokens@);
        let c = line.get_char(i);
        if is_space_character(c) {
            i = i + 1;
        } else if c == ')' {
            proof {
                lemma_lex_step(
                    pre,
                    (i, TokenView::CloseBracket),
                    spec_tokenize_from(line@, i as int + 1),
                );
                lemma_tokens_view_push(tokens@, (i, Token::CloseBracket));
            }
            tokens.push((i, Token::CloseBracket));
            i = i + 1;
        } else if c == '(' {
            proof {
                lemma_lex_step(
                    pre,
                    (i, TokenView::OpenBracket),
                    spec_tokenize_from(line@, i as int + 1),
                );
                lemma_tokens_view_push(tokens@, (i, Token::OpenBracket));
            }
            tokens.push((i, Token::OpenBracket));
            i = i + 1;
        } else if c == '^' {
            proof {
                lemma_lex_step(
                    pre,
                    (i, TokenView::Operator(Symbol::XOR)),
                    spec_tokenize_from(line@, i as int + 1),
                );
                lemma_tokens_view_push(tokens@, (i, Token::Operator(Symbol::XOR)));
            }
            tokens.push((i, Token::Operator(Symbol::XOR)));
            i = i + 1;
        } else if c == '&' {
            proof {
                lemma_lex_step(
                    pre,
                    (i, TokenView::Operator(Symbol::AND)),
                    spec_tokenize_from(line@, i as int + 1),
                );
                lemma_tokens_view_push(tokens@, (i, Token::Operator(Symbol::AND)));
            }
            tokens.push((i, Token::Operator(Symbol::AND)));
            i = i + 1;
        } else if c == '|' {
            proof {
                lemma_lex_step(
                    pre,
                    (i, TokenView::Operator(Symbol::OR)),
                    spec_tokenize_from(line@, i as int + 1),
                );
                lemma_tokens_view_push(tokens@, (i, Token::Operator(Symbol::OR)));
            }
            tokens.push((i, Token::Operator(Symbol::OR)));
            i = i + 1;
        } else if c == '~' {
            proof {
                lemma_lex_step(
                    pre,
                    (i, TokenView::Operator(Symbol::NOT)),
                    spec_tokenize_from(line@, i as int + 1),
                );
                lemma_tokens_view_push(tokens@, (i, Token::Operator(Symbol::NOT)));
            }
            tokens.push((i, Token::Operator(Symbol::NOT)));
            i = i + 1;
        } else if c == '>' {
            if i + 1 < n && line.get_char(i + 1) == '>' {
                proof {
                    lemma_lex_step(
                        pre,
                        (i, TokenView::Operator(Symbol::RSHIFT)),
                        spec_tokenize_from(line@, i as int + 2),
                    );
                    lemma_tokens_view_push(tokens@, (i, Token::Operator(Symbol::RSHIFT)));
                }
                tokens.push((i, Token::Operator(Symbol::RSHIFT)));
                i = i + 2;
            } else {
                return Err(LexerError::UnknownOperator(i));
            }
        } else if c == '<' {
            if i + 1 < n && line.get_char(i + 1) == '<' {
                proof {
                    lemma_lex_step(
                        pre,
                        (i, TokenView::Operator(Symbol::LSHIFT)),
                        spec_tokenize_from(line@, i as int + 2),
                    );
                    lemma_tokens_view_push(tokens@, (i, Token::Operator(Symbol::LSHIFT)));
                }
                tokens.push((i, Token::Operator(Symbol::LSHIFT)));
                i = i + 2;
            } else {
                return Err(LexerError::UnknownOperator(i));
            }
        } else if is_alnum_character(c) {
            let mut j: usize = i;
            while j < n && is_alnum_character(line.get_char(j))
                invariant
                    n == line@.len(),
                    i <= j <= n,
                    run_end(line@, i as int) == run_end(line@, j as int),
                decreases n - j,
            {
                j = j + 1;
            }
            proof {
                lemma_run_end(line@, i as int);
                assert(run_end(line@, j as int) == j as int);
            }
            let text_str = line.substring_char(i, j);
            let ghost tchars = line@.subrange(i as int, j as int);
            let hex_literal: bool = if j - i >= 2 && text_str.get_char(0) == '0'
                && text_str.get_char(1) == 'x' {
                let digits = text_str.substring_char(2, j - i);
                proof {
                    assert(digits@ =~= tchars.skip(2));
                }
                parse_hex_u32(digits).is_some()
            } else {
                false
            };
            assert(hex_literal == is_hex_literal(tchars));
            if parse_dec_u32(text_str).is_some() {
                let text = text_str.to_owned();
                proof {
                    lemma_lex_step(
                        pre,
                        (i, TokenView::Decimal(tchars)),
                        spec_tokenize_from(line@, j as int),
                    );
                    lemma_tokens_view_push(tokens@, (i, Token::Decimal(text)));
                }
                tokens.push((i, Token::Decimal(text)));
                i = j;
            } else if hex_literal {
                let text = text_str.to_owned();
                proof {
                    lemma_lex_step(
                        pre,
                        (i, TokenView::Hexadecimal(tchars)),
                        spec_tokenize_from(line@, j as int),
                    );
                    lemma_tokens_view_push(tokens@, (i, Token::Hexadecimal(text)));
                }
                tokens.push((i, Token::Hexadecimal(text)));
                i = j;
            } else if is_alpha_str(text_str) {
                let text = text_str.to_owned();
                proof {
                    lemma_lex_step(
                        pre,
                        (i, TokenView::Keyword(tchars)),
                        spec_tokenize_from(line@, j as int),
                    );
                    lemma_tokens_view_push(tokens@, (i, Token::Keyword(text)));
                }
                tokens.push((i, Token::Keyword(text)));
                i = j;
            } else {
                return Err(LexerError::RadixError(i));
            }
        } else {
            return Err(LexerError::UnknownOperator(i));
        }
    }
    proof {
        assert(tokens_view(tokens@) + Seq::<(usize, TokenView)>::empty() =~= tokens_view(tokens@));
    }
    Ok(tokens)
}

} // verus!
