//! The evaluator: postfix tokens in, an evaluation trace out.
//!
//! Tokens are reduced left to right on a stack of unsigned 32-bit values.
//! A literal pushes its value; an operator pops its operands (the last value
//! popped is the right operand), pushes the result, and appends two trace
//! lines: the rendered step, then the stringified result. A keyword answers
//! with a fixed text and ends the evaluation. When the input is exhausted,
//! exactly one value may remain: the final result.
//!
//! The function [`spec_evaluate`] is the mathematical account of this
//! reduction; [`Evaluator::evaluate`] is proved to return exactly its value.

use vstd::prelude::*;
use crate::constants::{
    help_chars,
    help_lines,
    lemma_trace_view_push,
    license_chars,
    license_lines,
    trace_view,
    version_chars,
    version_text,
};
use crate::error::EvaluatorError;
use crate::function::{function_for, spec_apply, spec_arity};
use crate::lexer::{Token, TokenView, Tokens, is_hex_literal, tokens_view};
use crate::numeral::{
    dec_chars,
    dec_val,
    hex_val,
    parse_dec_u32,
    parse_hex_u32,
    spec_parse_dec,
    u32_to_dec,
};

verus! {

// ---------------------------------------------------------------------------
// Keywords
// ---------------------------------------------------------------------------

/// The character's code with an ASCII capital letter folded to lowercase.
pub open spec fn lower_code(c: char) -> u32 {
    if 'A' as u32 <= c as u32 && c as u32 <= 'Z' as u32 {
        (c as u32 + 32) as u32
    } else {
        c as u32
    }
}

/// Equality of two character sequences up to ASCII case.
pub open spec fn eq_icase(a: Seq<char>, b: Seq<char>) -> bool {
    a.len() == b.len() && (forall|i: int| 0 <= i < a.len() ==> lower_code(a[i]) == lower_code(b[i]))
}

/// The canonical spelling of the keyword a word names, if any.
pub open spec fn spec_keyword(s: Seq<char>) -> Option<Seq<char>> {
    if eq_icase(s, "version"@) {
        Some("version"@)
    } else if eq_icase(s, "help"@) {
        Some("help"@)
    } else if eq_icase(s, "license"@) {
        Some("license"@)
    } else if eq_icase(s, "exit"@) {
        Some("exit"@)
    } else {
        None
    }
}

fn lower_u32(c: char) -> (r: u32)
    ensures
        r == lower_code(c),
{
    let u: u32 = c as u32;
    if 65 <= u && u <= 90 {
        u + 32
    } else {
        u
    }
}

fn eq_ignore_ascii_case(a: &str, b: &str) -> (r: bool)
    ensures
        r == eq_icase(a@, b@),
{
    let na = a.unicode_len();
    let nb = b.unicode_len();
    if na != nb {
        return false;
    }
    let mut i: usize = 0;
    while i < na
        invariant
            na == a@.len(),
            nb == b@.len(),
            na == nb,
            0 <= i <= na,
            forall|k: int| 0 <= k < i ==> lower_code(a@[k]) == lower_code(b@[k]),
        decreases na - i,
    {
        let ca = lower_u32(a.get_char(i));
        let cb = lower_u32(b.get_char(i));
        if ca != cb {
            return false;
        }
        i = i + 1;
    }
    true
}

/// The canonical spelling of a recognized keyword, compared without regard
/// to ASCII case; `None` for any other word.
pub fn is_keyword(variable: &String) -> (r: Option<&str>)
    ensures
        match r {
            Some(k) => spec_keyword(variable@) == Some(k@),
            None => spec_keyword(variable@) is None,
        },
{
    if eq_ignore_ascii_case(variable.as_str(), "version") {
        Some("version")
    } else if eq_ignore_ascii_case(variable.as_str(), "help") {
        Some("help")
    } else if eq_ignore_ascii_case(variable.as_str(), "license") {
        Some("license")
    } else if eq_ignore_ascii_case(variable.as_str(), "exit") {
        Some("exit")
    } else {
        None
    }
}

// ---------------------------------------------------------------------------
// The reduction, mathematically
// ---------------------------------------------------------------------------

/// A token the evaluator can reduce: a literal whose text parses, a keyword,
/// or an operator. Brackets never reach the evaluator.
pub open spec fn evaluable_token(t: TokenView) -> bool {
    match t {
        TokenView::OpenBracket => false,
        TokenView::CloseBracket => false,
        TokenView::Decimal(s) => spec_parse_dec(s) is Some,
        TokenView::Hexadecimal(s) => is_hex_literal(s),
        TokenView::Keyword(_) => true,
        TokenView::Operator(_) => true,
    }
}

pub open spec fn evaluable_tokens(ts: Seq<(usize, TokenView)>) -> bool {
    forall|k: int| 0 <= k < ts.len() ==> evaluable_token((#[trigger] ts[k]).1)
}

/// Whether every token can be reduced: exactly what [`Evaluator::evaluate`]
/// requires of its input. The parser's output on the tokenizer's output
/// always satisfies it; a caller assembling tokens by hand can test first.
pub fn tokens_evaluatable(tokens: &Tokens) -> (r: bool)
    ensures
        r == evaluable_tokens(tokens_view(tokens@)),
{
    let ghost input = tokens_view(tokens@);
    let mut k: usize = 0;
    while k < tokens.len()
        invariant
            input == tokens_view(tokens@),
            0 <= k <= tokens@.len(),
            forall|m: int| 0 <= m < k ==> evaluable_token((#[trigger] input[m]).1),
        decreases tokens@.len() - k,
    {
        let pt = &tokens[k];
        proof {
            assert(input[k as int] == (tokens@[k as int].0, tokens@[k as int].1@));
        }
        let ok: bool = match &pt.1 {
            Token::OpenBracket => false,
            Token::CloseBracket => false,
            Token::Decimal(s) => parse_dec_u32(s.as_str()).is_some(),
            Token::Hexadecimal(s) => {
                let n = s.as_str().unicode_len();
                if n >= 2 && s.as_str().get_char(0) == '0' && s.as_str().get_char(1) == 'x' {
                    let digits = s.as_str().substring_char(2, n);
                    proof {
                        assert(digits@ =~= s@.skip(2));
                    }
                    parse_hex_u32(digits).is_some()
                } else {
                    false
                }
            },
            Token::Keyword(_) => true,
            Token::Operator(_) => true,
        };
        if !ok {
            return false;
        }
        k = k + 1;
    }
    true
}

/// One step per postfix token, with the value stack and the trace so far.
pub open spec fn spec_eval_from(
    rest: Seq<(usize, TokenView)>,
    stack: Seq<u32>,
    trace: Seq<Seq<char>>,
) -> Result<Seq<Seq<char>>, EvaluatorError>
    decreases rest.len(),
{
    if rest.len() == 0 {
        if stack.len() == 1 {
            if trace.len() == 0 {
                Ok(seq![dec_chars(stack[0] as nat)])
            } else {
                Ok(trace)
            }
        } else {
            Err(EvaluatorError::TooManyArguments)
        }
    } else {
        let pt = rest[0];
        match pt.1 {
            TokenView::Decimal(s) => spec_eval_from(
                rest.drop_first(),
                stack.push(dec_val(s) as u32),
                trace,
            ),
            TokenView::Hexadecimal(s) => spec_eval_from(
                rest.drop_first(),
                stack.push(hex_val(s.skip(2)) as u32),
                trace,
            ),
            TokenView::Keyword(s) => {
                if eq_icase(s, "version"@) {
                    Ok(trace.push(version_chars()))
                } else if eq_icase(s, "help"@) {
                    Ok(help_chars())
                } else if eq_icase(s, "license"@) {
                    Ok(license_chars())
                } else if eq_icase(s, "exit"@) {
                    Err(EvaluatorError::Exit)
                } else {
                    Err(EvaluatorError::UnknownKeyword(pt.0))
                }
            },
            TokenView::Operator(sym) => {
                if stack.len() < spec_arity(sym) {
                    Err(EvaluatorError::MissingArgument(pt.0))
                } else {
                    match spec_apply(sym, stack, pt.0) {
                        Ok(vt) => spec_eval_from(
                            rest.drop_first(),
                            stack.take(stack.len() - spec_arity(sym)).push(vt.0),
                            trace.push(vt.1).push(dec_chars(vt.0 as nat)),
                        ),
                        Err(e) => Err(e),
                    }
                }
            },
            TokenView::OpenBracket => arbitrary(),
            TokenView::CloseBracket => arbitrary(),
        }
    }
}

/// The trace of reducing a postfix token sequence, or the first error; an
/// empty input yields an empty trace.
pub open spec fn spec_evaluate(ts: Seq<(usize, TokenView)>) -> Result<
    Seq<Seq<char>>,
    EvaluatorError,
> {
    if ts.len() == 0 {
        Ok(seq![])
    } else {
        spec_eval_from(ts, seq![], seq![])
    }
}

// ---------------------------------------------------------------------------
// The reduction, executably
// ---------------------------------------------------------------------------

/// The postfix evaluator. Its function registry is fixed, so the value
/// carries no state.
#[derive(Debug, PartialEq, Eq, Structural, Clone, Copy)]
pub struct Evaluator {}

impl Evaluator {
    pub fn new() -> (r: Evaluator)
        ensures
            r == (Evaluator {  }),
    {
        Evaluator {  }
    }

    /// Reduces a postfix token sequence to its evaluation trace, or reports
    /// the first semantic error.
    pub fn evaluate(&self, tokens: Tokens) -> (r: Result<Vec<String>, EvaluatorError>)
        requires
            evaluable_tokens(tokens_view(tokens@)),
        ensures
            match r {
                Ok(out) => spec_evaluate(tokens_view(tokens@)) == Ok::<
                    Seq<Seq<char>>,
                    EvaluatorError,
                >(trace_view(out@)),
                Err(e) => spec_evaluate(tokens_view(tokens@)) == Err::<
                    Seq<Seq<char>>,
                    EvaluatorError,
                >(e),
            },
    {
        let ghost input = tokens_view(tokens@);
        let mut result: Vec<String> = Vec::new();
        let mut stack: Vec<u32> = Vec::new();
        if tokens.len() == 0 {
            proof {
                assert(trace_view(result@) =~= Seq::<Seq<char>>::empty());
            }
            return Ok(result);
        }
        let mut idx: usize = 0;
        proof {
            assert(input.skip(0) =~= input);
            assert(trace_view(result@) =~= Seq::<Seq<char>>::empty());
        }
        while idx < tokens.len()
            invariant
                0 <= idx <= tokens@.len(),
                tokens@.len() > 0,
                input == tokens_view(tokens@),
                evaluable_tokens(input),
                spec_evaluate(input) == spec_eval_from(
                    input.skip(idx as int),
                    stack@,
                    trace_view(result@),
                ),
            decreases tokens@.len() - idx,
        {
            let pt = &tokens[idx];
            let position: usize = pt.0;
            proof {
                assert(input[idx as int] == (tokens@[idx as int].0, tokens@[idx as int].1@));
                assert(input.skip(idx as int)[0] == input[idx as int]);
                assert(input.skip(idx as int).drop_first() =~= input.skip(idx as int + 1));
                assert(evaluable_token(input[idx as int].1));
            }
            match &pt.1 {
                Token::Decimal(s) => {
                    let v: u32 = match parse_dec_u32(s.as_str()) {
                        Some(v) => v,
                        None => {
                            proof {
                                assert(false);
                            }
                            0
                        },
                    };
                    stack.push(v);
                    idx = idx + 1;
                },
                Token::Hexadecimal(s) => {
                    let slen = s.as_str().unicode_len();
                    let digits = s.as_str().substring_char(2, slen);
                    proof {
                        assert(digits@ =~= s@.skip(2));
                    }
                    let v: u32 = match parse_hex_u32(digits) {
                        Some(v) => v,
                        None => {
                            proof {
                                assert(false);
                            }
                            0
                        },
                    };
                    stack.push(v);
                    idx = idx + 1;
                },
                Token::Keyword(kw) => {
                    if eq_ignore_ascii_case(kw.as_str(), "version") {
                        let vt = version_text();
                        proof {
                            lemma_trace_view_push(result@, vt);
                        }
                        result.push(vt);
                        return Ok(result);
                    } else if eq_ignore_ascii_case(kw.as_str(), "help") {
                        return Ok(help_lines());
                    } else if eq_ignore_ascii_case(kw.as_str(), "license") {
                        return Ok(license_lines());
                    } else if eq_ignore_ascii_case(kw.as_str(), "exit") {
                        return Err(EvaluatorError::Exit);
                    } else {
                        return Err(EvaluatorError::UnknownKeyword(position));
                    }
                },
                Token::Operator(sym_ref) => {
                    let sym = *sym_ref;
                    let f = function_for(sym);
                    if stack.len() < f.arity {
                        return Err(EvaluatorError::MissingArgument(position));
                    }
                    let ghost stack_before = stack@;
                    let at = stack.len() - f.arity;
                    let args = stack.split_off(at);
                    proof {
                        assert(args@ =~= stack_before.subrange(at as int, stack_before.len() as int));
                        assert(stack@ =~= stack_before.take(
                            stack_before.len() - spec_arity(sym),
                        ));
                        assert(args@.last() == stack_before.last());
                        if spec_arity(sym) == 2 {
                            assert(args@[args@.len() - 2] == stack_before[stack_before.len() - 2]);
                        }
                        assert(spec_apply(sym, args@, position) == spec_apply(
                            sym,
                            stack_before,
                            position,
                        ));
                    }
                    match f.apply(args, position) {
                        Ok(p) => {
                            let (v, text) = p;
                            stack.push(v);
                            let vstr = u32_to_dec(v);
                            proof {
                                lemma_trace_view_push(result@, text);
                                lemma_trace_view_push(result@.push(text), vstr);
                            }
                            result.push(text);
                            result.push(vstr);
                            idx = idx + 1;
                        },
                        Err(e) => {
                            return Err(e);
                        },
                    }
                },
                Token::OpenBracket => {
                    proof {
                        assert(false);
                    }
                },
                Token::CloseBracket => {
                    proof {
                        assert(false);
                    }
                },
            }
        }
        proof {
            assert(input.skip(tokens@.len() as int) =~= Seq::<(usize, TokenView)>::empty());
        }
        if stack.len() != 1 {
            return Err(EvaluatorError::TooManyArguments);
        }
        if result.len() == 0 {
            let v: u32 = stack[0];
            let vs = u32_to_dec(v);
            proof {
                lemma_trace_view_push(result@, vs);
                assert(trace_view(result@).push(vs@) =~= seq![dec_chars(v as nat)]);
            }
            result.push(vs);
        }
        Ok(result)
    }
}

impl Default for Evaluator {
    fn default() -> (r: Evaluator)
        ensures
            r == (Evaluator {  }),
    {
        Evaluator {  }
    }
}

} // verus!
