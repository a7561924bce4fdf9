//! The parser: infix tokens in, postfix tokens out (shunting-yard).
//!
//! The input is consumed once, left to right, with an explicit stack for
//! operators and open brackets. Literals go straight to the output; an
//! incoming operator first pops every stacked operator that must reduce
//! before it; brackets delimit sub-expressions and are consumed entirely, so
//! a successful parse contains no brackets. A keyword is legal only as the
//! sole token of the whole input.
//!
//! The function [`spec_parse`] is the mathematical account of this
//! rearrangement; [`Parser::parse`] is proved to return exactly its value.

use vstd::prelude::*;
use crate::error::ParserError;
use crate::lexer::{
    Symbol,
    Token,
    TokenView,
    Tokens,
    tokens_view,
    lemma_tokens_view_push,
    lemma_tokens_view_drop_last,
};

verus! {

// ---------------------------------------------------------------------------
// The operator table
// ---------------------------------------------------------------------------

/// Grouping of equal-precedence operators.
#[derive(Debug, PartialEq, Eq, Structural, Clone, Copy)]
pub enum Associativity {
    LeftToRight,
    RightToLeft,
}

/// An operator's precedence (lower binds tighter) and associativity.
#[derive(Debug, PartialEq, Eq, Structural, Clone, Copy)]
pub struct Operator(pub usize, pub Associativity);

impl Operator {
    pub fn new(precedence: usize, associativity: Associativity) -> (r: Operator)
        ensures
            r == Operator(precedence, associativity),
    {
        Operator(precedence, associativity)
    }
}

/// The fixed precedence of each operator; lower binds tighter.
pub open spec fn op_precedence(sym: Symbol) -> int {
    match sym {
        Symbol::NOT => 2,
        Symbol::LSHIFT => 3,
        Symbol::RSHIFT => 3,
        Symbol::AND => 4,
        Symbol::XOR => 5,
        Symbol::OR => 6,
    }
}

/// Only complement groups right-to-left.
pub open spec fn op_right_assoc(sym: Symbol) -> bool {
    sym == Symbol::NOT
}

/// The fixed operator table as a total function over the closed symbol set.
pub fn operator_for(sym: Symbol) -> (r: Operator)
    ensures
        r.0 as int == op_precedence(sym),
        (r.1 == Associativity::RightToLeft) == op_right_assoc(sym),
{
    match sym {
        Symbol::NOT => Operator::new(2, Associativity::RightToLeft),
        Symbol::RSHIFT => Operator::new(3, Associativity::LeftToRight),
        Symbol::LSHIFT => Operator::new(3, Associativity::LeftToRight),
        Symbol::AND => Operator::new(4, Associativity::LeftToRight),
        Symbol::XOR => Operator::new(5, Associativity::LeftToRight),
        Symbol::OR => Operator::new(6, Associativity::LeftToRight),
    }
}

/// Whether a stacked operator must reduce before an incoming one: at equal
/// precedence a left-to-right incoming operator pops the top, a
/// right-to-left one does not, preserving prefix nesting.
pub open spec fn should_pop(incoming: Symbol, top: Symbol) -> bool {
    if op_right_assoc(incoming) {
        op_precedence(incoming) > op_precedence(top)
    } else {
        op_precedence(incoming) >= op_precedence(top)
    }
}

/// The symbol of an operator token.
pub open spec fn operator_symbol(t: TokenView) -> Symbol
    recommends
        t is Operator,
{
    match t {
        TokenView::Operator(s) => s,
        _ => arbitrary(),
    }
}

// ---------------------------------------------------------------------------
// The rearrangement, mathematically
// ---------------------------------------------------------------------------

/// Pops stacked operators that must reduce before `incoming` to the output;
/// stops at a bracket, at a weaker operator, or at an empty stack.
pub open spec fn pop_ops(
    incoming: Symbol,
    stack: Seq<(usize, TokenView)>,
    output: Seq<(usize, TokenView)>,
) -> (Seq<(usize, TokenView)>, Seq<(usize, TokenView)>)
    decreases stack.len(),
{
    if stack.len() == 0 {
        (stack, output)
    } else {
        match stack.last().1 {
            TokenView::Operator(top) => if should_pop(incoming, top) {
                pop_ops(incoming, stack.drop_last(), output.push(stack.last()))
            } else {
                (stack, output)
            },
            _ => (stack, output),
        }
    }
}

/// Resolves a closing bracket: pops to the output until the matching open
/// bracket, which is discarded; an empty stack means the bracket never
/// opened.
pub open spec fn spec_close(
    stack: Seq<(usize, TokenView)>,
    output: Seq<(usize, TokenView)>,
    position: usize,
) -> Result<(Seq<(usize, TokenView)>, Seq<(usize, TokenView)>), ParserError>
    decreases stack.len(),
{
    if stack.len() == 0 {
        Err(ParserError::MissingOpeningBracket(position))
    } else {
        match stack.last().1 {
            TokenView::OpenBracket => Ok((stack.drop_last(), output)),
            _ => spec_close(stack.drop_last(), output.push(stack.last()), position),
        }
    }
}

/// Drains the stack to the output once the input is exhausted; an open
/// bracket still on the stack never closed.
pub open spec fn spec_drain(
    stack: Seq<(usize, TokenView)>,
    output: Seq<(usize, TokenView)>,
) -> Result<Seq<(usize, TokenView)>, ParserError>
    decreases stack.len(),
{
    if stack.len() == 0 {
        Ok(output)
    } else {
        match stack.last().1 {
            TokenView::OpenBracket => Err(ParserError::MissingClosingBracket(stack.last().0)),
            _ => spec_drain(stack.drop_last(), output.push(stack.last())),
        }
    }
}

/// One step per input token; `multi` records whether the whole input had
/// more than one token, which outlaws keywords.
pub open spec fn spec_parse_from(
    rest: Seq<(usize, TokenView)>,
    multi: bool,
    stack: Seq<(usize, TokenView)>,
    output: Seq<(usize, TokenView)>,
) -> Result<Seq<(usize, TokenView)>, ParserError>
    decreases rest.len(),
{
    if rest.len() == 0 {
        spec_drain(stack, output)
    } else {
        let pt = rest[0];
        match pt.1 {
            TokenView::Decimal(_) => spec_parse_from(
                rest.drop_first(),
                multi,
                stack,
                output.push(pt),
            ),
            TokenView::Hexadecimal(_) => spec_parse_from(
                rest.drop_first(),
                multi,
                stack,
                output.push(pt),
            ),
            TokenView::Keyword(_) => if multi {
                Err(ParserError::KeywordError(pt.0))
            } else {
                spec_drain(stack, output.push(pt))
            },
            TokenView::Operator(sym) => {
                let popped = pop_ops(sym, stack, output);
                spec_parse_from(rest.drop_first(), multi, popped.0.push(pt), popped.1)
            },
            TokenView::OpenBracket => spec_parse_from(
                rest.drop_first(),
                multi,
                stack.push(pt),
                output,
            ),
            TokenView::CloseBracket => match spec_close(stack, output, pt.0) {
                Ok(so) => spec_parse_from(rest.drop_first(), multi, so.0, so.1),
                Err(e) => Err(e),
            },
        }
    }
}

/// The postfix form of an infix token sequence, or the first structural
/// error.
pub open spec fn spec_parse(input: Seq<(usize, TokenView)>) -> Result<
    Seq<(usize, TokenView)>,
    ParserError,
> {
    spec_parse_from(input, input.len() > 1, seq![], seq![])
}

/// Continues the parse after a closing bracket was resolved.
spec fn close_then(
    r: Result<(Seq<(usize, TokenView)>, Seq<(usize, TokenView)>), ParserError>,
    rest: Seq<(usize, TokenView)>,
    multi: bool,
) -> Result<Seq<(usize, TokenView)>, ParserError> {
    match r {
        Ok(so) => spec_parse_from(rest, multi, so.0, so.1),
        Err(e) => Err(e),
    }
}

// ---------------------------------------------------------------------------
// The rearrangement, executably
// ---------------------------------------------------------------------------

/// The shunting-yard parser. Its operator table is fixed, so the value
/// carries no state.
#[derive(Debug, PartialEq, Eq, Structural, Clone, Copy)]
pub struct Parser {}

impl Parser {
    pub fn new() -> (r: Parser)
        ensures
            r == (Parser {  }),
    {
        Parser {  }
    }

    fn lower_precedence(&self, new_token: &Token, top_token: &Token) -> (r: bool)
        requires
            new_token@ is Operator,
            top_token@ is Operator,
        ensures
            r == should_pop(operator_symbol(new_token@), operator_symbol(top_token@)),
    {
        let new_sym: Symbol = match new_token {
            Token::Operator(s) => *s,
            _ => {
                proof {
                    assert(false);
                }
                Symbol::OR
            },
        };
        let top_sym: Symbol = match top_token {
            Token::Operator(s) => *s,
            _ => {
                proof {
                    assert(false);
                }
                Symbol::OR
            },
        };
        let new_op = operator_for(new_sym);
        let top_op = operator_for(top_sym);
        match new_op.1 {
            Associativity::RightToLeft => new_op.0 > top_op.0,
            Associativity::LeftToRight => new_op.0 >= top_op.0,
        }
    }

    /// Rearranges an infix token sequence into postfix order, eliminating
    /// brackets, or reports the first structural error.
    pub fn parse(&self, tokens: Tokens) -> (r: Result<Tokens, ParserError>)
        ensures
            match r {
                Ok(out) => spec_parse(tokens_view(tokens@)) == Ok::<
                    Seq<(usize, TokenView)>,
                    ParserError,
                >(tokens_view(out@)),
                Err(e) => spec_parse(tokens_view(tokens@)) == Err::<
                    Seq<(usize, TokenView)>,
                    ParserError,
                >(e),
            },
    {
        let ghost input = tokens_view(tokens@);
        let multi: bool = tokens.len() > 1;
        let mut stack: Tokens = Vec::new();
        let mut output: Tokens = Vec::new();
        let mut idx: usize = 0;
        proof {
            assert(tokens_view(stack@) =~= Seq::<(usize, TokenView)>::empty());
            assert(tokens_view(output@) =~= Seq::<(usize, TokenView)>::empty());
            assert(input.skip(0) =~= input);
        }
        while idx < tokens.len()
            invariant_except_break
                0 <= idx <= tokens@.len(),
                multi == (tokens@.len() > 1),
                input == tokens_view(tokens@),
                spec_parse(input) == spec_parse_from(
                    input.skip(idx as int),
                    multi,
                    tokens_view(stack@),
                    tokens_view(output@),
                ),
            ensures
                spec_parse(input) == spec_drain(tokens_view(stack@), tokens_view(output@)),
            decreases tokens@.len() - idx,
        {
            let pt = &tokens[idx];
            let position: usize = pt.0;
            proof {
                assert(input[idx as int] == (tokens@[idx as int].0, tokens@[idx as int].1@));
                assert(input.skip(idx as int)[0] == input[idx as int]);
                assert(input.skip(idx as int).drop_first() =~= input.skip(idx as int + 1));
            }
            match &pt.1 {
                Token::Decimal(_) | Token::Hexadecimal(_) => {
                    let t = pt.1.dup();
                    proof {
                        lemma_tokens_view_push(output@, (position, t));
                    }
                    output.push((position, t));
                    idx = idx + 1;
                },
                Token::Keyword(_) => {
                    if multi {
                        return Err(ParserError::KeywordError(position));
                    }
                    let t = pt.1.dup();
                    proof {
                        lemma_tokens_view_push(output@, (position, t));
                    }
                    output.push((position, t));
                    break ;
                },
                Token::Operator(_) => {
                    let ghost stack0 = tokens_view(stack@);
                    let ghost output0 = tokens_view(output@);
                    let ghost sym = operator_symbol(pt.1@);
                    loop
                        invariant
                            input == tokens_view(tokens@),
                            0 <= idx < tokens@.len(),
                            pt == tokens@[idx as int],
                            pt.1@ is Operator,
                            sym == operator_symbol(pt.1@),
                            pop_ops(sym, stack0, output0) == pop_ops(
                                sym,
                                tokens_view(stack@),
                                tokens_view(output@),
                            ),
                        ensures
                            pop_ops(sym, stack0, output0) == (
                                tokens_view(stack@),
                                tokens_view(output@),
                            ),
                        decreases stack@.len(),
                    {
                        let slen = stack.len();
                        if slen == 0 {
                            break ;
                        }
                        proof {
                            lemma_tokens_view_drop_last(stack@);
                        }
                        let do_pop: bool = match &stack[slen - 1].1 {
                            Token::Operator(_) => self.lower_precedence(&pt.1, &stack[slen - 1].1),
                            _ => false,
                        };
                        if !do_pop {
                            break ;
                        }
                        let top = match stack.pop() {
                            Some(t) => t,
                            None => {
                                proof {
                                    assert(false);
                                }
                                (0, Token::OpenBracket)
                            },
                        };
                        proof {
                            lemma_tokens_view_push(output@, top);
                        }
                        output.push(top);
                    }
                    let t = pt.1.dup();
                    proof {
                        lemma_tokens_view_push(stack@, (position, t));
                    }
                    stack.push((position, t));
                    idx = idx + 1;
                },
                Token::OpenBracket => {
                    let t = pt.1.dup();
                    proof {
                        lemma_tokens_view_push(stack@, (position, t));
                    }
                    stack.push((position, t));
                    idx = idx + 1;
                },
                Token::CloseBracket => {
                    let ghost stack0 = tokens_view(stack@);
                    let ghost output0 = tokens_view(output@);
                    proof {
                        assert(spec_parse(input) == close_then(
                            spec_close(stack0, output0, position),
                            input.skip(idx as int + 1),
                            multi,
                        ));
                    }
                    loop
                        invariant_except_break
                            spec_close(stack0, output0, position) == spec_close(
                                tokens_view(stack@),
                                tokens_view(output@),
                                position,
                            ),
                        invariant
                            input == tokens_view(tokens@),
                            spec_parse(input) == close_then(
                                spec_close(stack0, output0, position),
                                input.skip(idx as int + 1),
                                multi,
                            ),
                        ensures
                            spec_parse(input) == spec_parse_from(
                                input.skip(idx as int + 1),
                                multi,
                                tokens_view(stack@),
                                tokens_view(output@),
                            ),
                        decreases stack@.len(),
                    {
                        let ghost sv = tokens_view(stack@);
                        let ghost ov = tokens_view(output@);
                        if stack.len() == 0 {
                            proof {
                                assert(spec_close(sv, ov, position) == Err::<
                                    (Seq<(usize, TokenView)>, Seq<(usize, TokenView)>),
                                    ParserError,
                                >(ParserError::MissingOpeningBracket(position)));
                            }
                            return Err(ParserError::MissingOpeningBracket(position));
                        }
                        proof {
                            lemma_tokens_view_drop_last(stack@);
                        }
                        let top = match stack.pop() {
                            Some(t) => t,
                            None => {
                                proof {
                                    assert(false);
                                }
                                (0, Token::OpenBracket)
                            },
                        };
                        proof {
                            assert(sv.last() == (top.0, top.1@));
                        }
                        match &top.1 {
                            Token::OpenBracket => {
                                proof {
                                    assert(spec_close(sv, ov, position) == Ok::<
                                        (Seq<(usize, TokenView)>, Seq<(usize, TokenView)>),
                                        ParserError,
                                    >((tokens_view(stack@), tokens_view(output@))));
                                }
                                break ;
                            },
                            _ => {
                                proof {
                                    lemma_tokens_view_push(output@, top);
                                }
                                output.push(top);
                            },
                        }
                    }
                    idx = idx + 1;
                },
            }
        }
        // the input is exhausted (or a lone keyword ended it): drain the stack
        while stack.len() > 0
            invariant
                input == tokens_view(tokens@),
                spec_parse(input) == spec_drain(tokens_view(stack@), tokens_view(output@)),
            decreases stack@.len(),
        {
            let ghost sv = tokens_view(stack@);
            let ghost ov = tokens_view(output@);
            proof {
                lemma_tokens_view_drop_last(stack@);
            }
            let top = match stack.pop() {
                Some(t) => t,
                None => {
                    proof {
                        assert(false);
                    }
                    (0, Token::OpenBracket)
                },
            };
            proof {
                assert(sv.last() == (top.0, top.1@));
            }
            match &top.1 {
                Token::OpenBracket => {
                    proof {
                        assert(spec_drain(sv, ov) == Err::<Seq<(usize, TokenView)>, ParserError>(
                            ParserError::MissingClosingBracket(top.0),
                        ));
                    }
                    return Err(ParserError::MissingClosingBracket(top.0));
                },
                _ => {
                    proof {
                        lemma_tokens_view_push(output@, top);
                    }
                    output.push(top);
                },
            }
        }
        Ok(output)
    }
}

impl Default for Parser {
    fn default() -> (r: Parser)
        ensures
            r == (Parser {  }),
    {
        Parser {  }
    }
}

} // verus!
