//! Laws of the pipeline, proved once and for all inputs.
//!
//! - Tokenizing and then parsing either succeeds with every bracket
//!   eliminated and the operator count preserved, in a form the evaluator
//!   accepts, or stops at one of the stages' errors.
//! - The tokenizer preserves source order: token offsets never decrease.
//! - A successful parse is a permutation of its input with the brackets
//!   removed entirely.
//! - The parser sends every balanced, fully-parenthesized binary expression
//!   to exactly its postorder.
//! - Evaluation is a function of the postfix token sequence alone.

use vstd::prelude::*;
use vstd::multiset::Multiset;
use crate::error::ParserError;
use crate::evaluator::{evaluable_token, evaluable_tokens, spec_evaluate};
use crate::function::spec_arity;
use crate::lexer::{
    Symbol,
    TokenView,
    is_alpha_string,
    is_hex_literal,
    lemma_run_end,
    lex_cons,
    run_end,
    spec_tokenize,
    spec_tokenize_from,
};
use crate::numeral::spec_parse_dec;
use crate::parser::{pop_ops, spec_close, spec_drain, spec_parse, spec_parse_from};

verus! {

// ---------------------------------------------------------------------------
// Shapes of token sequences
// ---------------------------------------------------------------------------

/// No bracket token anywhere in the sequence.
pub open spec fn no_brackets(ts: Seq<(usize, TokenView)>) -> bool {
    forall|k: int|
        0 <= k < ts.len() ==> !((#[trigger] ts[k]).1 is OpenBracket) && !(ts[k].1 is CloseBracket)
}

/// How many operator tokens the sequence holds.
pub open spec fn operator_count(ts: Seq<(usize, TokenView)>) -> int
    decreases ts.len(),
{
    if ts.len() == 0 {
        0
    } else {
        (if ts[0].1 is Operator {
            1int
        } else {
            0int
        }) + operator_count(ts.drop_first())
    }
}

/// A token as the tokenizer may produce it: a bracket, or a token the
/// evaluator can reduce.
pub open spec fn lexed_token(t: TokenView) -> bool {
    match t {
        TokenView::OpenBracket => true,
        TokenView::CloseBracket => true,
        _ => evaluable_token(t),
    }
}

pub open spec fn lexed_tokens(ts: Seq<(usize, TokenView)>) -> bool {
    forall|k: int| 0 <= k < ts.len() ==> lexed_token((#[trigger] ts[k]).1)
}

/// What the parser's stack may hold: operators and open brackets.
pub open spec fn stack_shape(ts: Seq<(usize, TokenView)>) -> bool {
    forall|k: int|
        0 <= k < ts.len() ==> ((#[trigger] ts[k]).1 is Operator || ts[k].1 is OpenBracket)
}

// ---------------------------------------------------------------------------
// Small sequence facts
// ---------------------------------------------------------------------------

proof fn lemma_count_push(ts: Seq<(usize, TokenView)>, t: (usize, TokenView))
    ensures
        operator_count(ts.push(t)) == operator_count(ts) + (if t.1 is Operator {
            1int
        } else {
            0int
        }),
    decreases ts.len(),
{
    if ts.len() == 0 {
        assert(ts.push(t)[0] == t);
        assert(ts.push(t).drop_first() =~= ts);
        assert(operator_count(ts) == 0);
    } else {
        assert(ts.push(t)[0] == ts[0]);
        assert(ts.push(t).drop_first() =~= ts.drop_first().push(t));
        lemma_count_push(ts.drop_first(), t);
    }
}

proof fn lemma_count_drop_last(ts: Seq<(usize, TokenView)>)
    requires
        ts.len() > 0,
    ensures
        operator_count(ts) == operator_count(ts.drop_last()) + (if ts.last().1 is Operator {
            1int
        } else {
            0int
        }),
{
    assert(ts =~= ts.drop_last().push(ts.last()));
    lemma_count_push(ts.drop_last(), ts.last());
}

proof fn lemma_evaluable_push(ts: Seq<(usize, TokenView)>, t: (usize, TokenView))
    requires
        evaluable_tokens(ts),
        evaluable_token(t.1),
    ensures
        evaluable_tokens(ts.push(t)),
{
    assert forall|k: int| 0 <= k < ts.push(t).len() implies evaluable_token(
        (#[trigger] ts.push(t)[k]).1,
    ) by {
        if k < ts.len() {
            assert(ts.push(t)[k] == ts[k]);
        } else {
            assert(ts.push(t)[k] == t);
        }
    }
}

proof fn lemma_shape_push(ts: Seq<(usize, TokenView)>, t: (usize, TokenView))
    requires
        stack_shape(ts),
        t.1 is Operator || t.1 is OpenBracket,
    ensures
        stack_shape(ts.push(t)),
{
    assert forall|k: int| 0 <= k < ts.push(t).len() implies ((#[trigger] ts.push(t)[k]).1
        is Operator || ts.push(t)[k].1 is OpenBracket) by {
        if k < ts.len() {
            assert(ts.push(t)[k] == ts[k]);
        } else {
            assert(ts.push(t)[k] == t);
        }
    }
}

proof fn lemma_shape_drop_last(ts: Seq<(usize, TokenView)>)
    requires
        stack_shape(ts),
        ts.len() > 0,
    ensures
        stack_shape(ts.drop_last()),
{
    assert forall|k: int| 0 <= k < ts.drop_last().len() implies ((#[trigger] ts.drop_last()[k]).1
        is Operator || ts.drop_last()[k].1 is OpenBracket) by {
        assert(ts.drop_last()[k] == ts[k]);
    }
}

proof fn lemma_lexed_drop_first(ts: Seq<(usize, TokenView)>)
    requires
        lexed_tokens(ts),
        ts.len() > 0,
    ensures
        lexed_tokens(ts.drop_first()),
{
    assert forall|k: int| 0 <= k < ts.drop_first().len() implies lexed_token(
        (#[trigger] ts.drop_first()[k]).1,
    ) by {
        assert(ts.drop_first()[k] == ts[k + 1]);
    }
}

// ---------------------------------------------------------------------------
// What the tokenizer produces
// ---------------------------------------------------------------------------

proof fn lemma_lexed_cons(
    t: (usize, TokenView),
    r: Result<Seq<(usize, TokenView)>, crate::error::LexerError>,
)
    requires
        lexed_token(t.1),
        r matches Ok(ts) ==> lexed_tokens(ts),
    ensures
        lex_cons(t, r) matches Ok(ts2) ==> lexed_tokens(ts2),
{
    match r {
        Ok(ts) => {
            let ts2 = seq![t] + ts;
            assert forall|k: int| 0 <= k < ts2.len() implies lexed_token(
                (#[trigger] ts2[k]).1,
            ) by {
                if k == 0 {
                    assert(ts2[0] == t);
                } else {
                    assert(ts2[k] == ts[k - 1]);
                }
            }
        },
        Err(_) => {},
    }
}

/// Every token the tokenizer produces is a bracket or evaluable: literal
/// texts always parse, because the tokenizer classified them by parsing.
pub proof fn lemma_tokenize_lexed(line: Seq<char>, i: int)
    ensures
        spec_tokenize_from(line, i) matches Ok(ts) ==> lexed_tokens(ts),
    decreases line.len() - i,
{
    if i < 0 || i >= line.len() {
        assert(spec_tokenize_from(line, i) == Ok::<
            Seq<(usize, TokenView)>,
            crate::error::LexerError,
        >(seq![]));
    } else {
        let c = line[i];
        if is_shiftable(c) {
            if i + 1 < line.len() && line[i + 1] == c {
                lemma_tokenize_lexed(line, i + 2);
                let sym = if c == '>' {
                    Symbol::RSHIFT
                } else {
                    Symbol::LSHIFT
                };
                lemma_lexed_cons(
                    (i as usize, TokenView::Operator(sym)),
                    spec_tokenize_from(line, i + 2),
                );
            }
        } else if crate::lexer::is_alnum_char(c) {
            lemma_run_end(line, i);
            let j = run_end(line, i);
            lemma_tokenize_lexed(line, j);
            let text = line.subrange(i, j);
            if spec_parse_dec(text) is Some {
                lemma_lexed_cons(
                    (i as usize, TokenView::Decimal(text)),
                    spec_tokenize_from(line, j),
                );
            } else if is_hex_literal(text) {
                lemma_lexed_cons(
                    (i as usize, TokenView::Hexadecimal(text)),
                    spec_tokenize_from(line, j),
                );
            } else if is_alpha_string(text) {
                lemma_lexed_cons(
                    (i as usize, TokenView::Keyword(text)),
                    spec_tokenize_from(line, j),
                );
            }
        } else {
            lemma_tokenize_lexed(line, i + 1);
            lemma_lexed_cons((i as usize, TokenView::CloseBracket), spec_tokenize_from(line, i + 1));
            lemma_lexed_cons((i as usize, TokenView::OpenBracket), spec_tokenize_from(line, i + 1));
            lemma_lexed_cons(
                (i as usize, TokenView::Operator(Symbol::XOR)),
                spec_tokenize_from(line, i + 1),
            );
            lemma_lexed_cons(
                (i as usize, TokenView::Operator(Symbol::AND)),
                spec_tokenize_from(line, i + 1),
            );
            lemma_lexed_cons(
                (i as usize, TokenView::Operator(Symbol::OR)),
                spec_tokenize_from(line, i + 1),
            );
            lemma_lexed_cons(
                (i as usize, TokenView::Operator(Symbol::NOT)),
                spec_tokenize_from(line, i + 1),
            );
        }
    }
}

/// Whether a character could begin a shift operator.
spec fn is_shiftable(c: char) -> bool {
    c == '>' || c == '<'
}

/// Every position is at least `i`.
pub open spec fn positions_from(ts: Seq<(usize, TokenView)>, i: int) -> bool {
    forall|k: int| 0 <= k < ts.len() ==> i <= (#[trigger] ts[k]).0
}

/// Positions never decrease from one token to the next.
pub open spec fn positions_sorted(ts: Seq<(usize, TokenView)>) -> bool {
    forall|k1: int, k2: int| 0 <= k1 < k2 < ts.len() ==> (ts[k1].0 <= ts[k2].0)
}

proof fn lemma_positions_cons(
    t: (usize, TokenView),
    r: Result<Seq<(usize, TokenView)>, crate::error::LexerError>,
    next: int,
)
    requires
        t.0 <= next,
        r matches Ok(ts) ==> positions_from(ts, next) && positions_sorted(ts),
    ensures
        lex_cons(t, r) matches Ok(ts2) ==> positions_from(ts2, t.0 as int) && positions_sorted(
            ts2,
        ),
{
    match r {
        Ok(ts) => {
            let ts2 = seq![t] + ts;
            assert forall|k: int| 0 <= k < ts2.len() implies t.0 as int <= (#[trigger] ts2[k]).0 by {
                if k == 0 {
                    assert(ts2[0] == t);
                } else {
                    assert(ts2[k] == ts[k - 1]);
                }
            }
            assert forall|k1: int, k2: int| 0 <= k1 < k2 < ts2.len() implies (ts2[k1].0
                <= ts2[k2].0) by {
                assert(ts2[k2] == ts[k2 - 1]);
                if k1 == 0 {
                    assert(ts2[0] == t);
                } else {
                    assert(ts2[k1] == ts[k1 - 1]);
                }
            }
        },
        Err(_) => {},
    }
}

proof fn lemma_tokenize_positions_from(line: Seq<char>, i: int)
    requires
        0 <= i,
        line.len() <= usize::MAX,
    ensures
        spec_tokenize_from(line, i) matches Ok(ts) ==> positions_from(ts, i) && positions_sorted(
            ts,
        ),
    decreases line.len() - i,
{
    if 0 <= i < line.len() {
        let c = line[i];
        if is_shiftable(c) {
            if i + 1 < line.len() && line[i + 1] == c {
                lemma_tokenize_positions_from(line, i + 2);
                let sym = if c == '>' {
                    Symbol::RSHIFT
                } else {
                    Symbol::LSHIFT
                };
                lemma_positions_cons(
                    (i as usize, TokenView::Operator(sym)),
                    spec_tokenize_from(line, i + 2),
                    i + 2,
                );
            }
        } else if crate::lexer::is_alnum_char(c) {
            lemma_run_end(line, i);
            let j = run_end(line, i);
            lemma_tokenize_positions_from(line, j);
            let text = line.subrange(i, j);
            if spec_parse_dec(text) is Some {
                lemma_positions_cons(
                    (i as usize, TokenView::Decimal(text)),
                    spec_tokenize_from(line, j),
                    j,
                );
            } else if is_hex_literal(text) {
                lemma_positions_cons(
                    (i as usize, TokenView::Hexadecimal(text)),
                    spec_tokenize_from(line, j),
                    j,
                );
            } else if is_alpha_string(text) {
                lemma_positions_cons(
                    (i as usize, TokenView::Keyword(text)),
                    spec_tokenize_from(line, j),
                    j,
                );
            }
        } else {
            lemma_tokenize_positions_from(line, i + 1);
            if !crate::lexer::is_space_char(c) {
                lemma_positions_cons(
                    (i as usize, TokenView::CloseBracket),
                    spec_tokenize_from(line, i + 1),
                    i + 1,
                );
                lemma_positions_cons(
                    (i as usize, TokenView::OpenBracket),
                    spec_tokenize_from(line, i + 1),
                    i + 1,
                );
                lemma_positions_cons(
                    (i as usize, TokenView::Operator(Symbol::XOR)),
                    spec_tokenize_from(line, i + 1),
                    i + 1,
                );
                lemma_positions_cons(
                    (i as usize, TokenView::Operator(Symbol::AND)),
                    spec_tokenize_from(line, i + 1),
                    i + 1,
                );
                lemma_positions_cons(
                    (i as usize, TokenView::Operator(Symbol::OR)),
                    spec_tokenize_from(line, i + 1),
                    i + 1,
                );
                lemma_positions_cons(
                    (i as usize, TokenView::Operator(Symbol::NOT)),
                    spec_tokenize_from(line, i + 1),
                    i + 1,
                );
            }
        }
    }
}

/// Law: the tokenizer preserves source order — in its output, every token's
/// offset is at most the offsets of the tokens that follow it. (Any line a
/// machine can hold is short enough for the bound.)
pub proof fn lemma_tokenize_source_order(line: Seq<char>)
    requires
        line.len() <= usize::MAX,
    ensures
        spec_tokenize(line) matches Ok(ts) ==> positions_sorted(ts),
{
    lemma_tokenize_positions_from(line, 0);
}

// ---------------------------------------------------------------------------
// What the parser preserves
// ---------------------------------------------------------------------------

proof fn lemma_pop_ops_shape(
    sym: Symbol,
    stack: Seq<(usize, TokenView)>,
    output: Seq<(usize, TokenView)>,
)
    requires
        stack_shape(stack),
        evaluable_tokens(output),
    ensures
        ({
            let so = pop_ops(sym, stack, output);
            &&& stack_shape(so.0)
            &&& evaluable_tokens(so.1)
            &&& operator_count(so.0) + operator_count(so.1) == operator_count(stack)
                + operator_count(output)
        }),
    decreases stack.len(),
{
    if stack.len() > 0 {
        match stack.last().1 {
            TokenView::Operator(top) => {
                if crate::parser::should_pop(sym, top) {
                    lemma_shape_drop_last(stack);
                    lemma_evaluable_push(output, stack.last());
                    lemma_count_drop_last(stack);
                    lemma_count_push(output, stack.last());
                    lemma_pop_ops_shape(sym, stack.drop_last(), output.push(stack.last()));
                }
            },
            _ => {},
        }
    }
}

proof fn lemma_close_shape(
    stack: Seq<(usize, TokenView)>,
    output: Seq<(usize, TokenView)>,
    position: usize,
)
    requires
        stack_shape(stack),
        evaluable_tokens(output),
    ensures
        spec_close(stack, output, position) matches Ok(so) ==> {
            &&& stack_shape(so.0)
            &&& evaluable_tokens(so.1)
            &&& operator_count(so.0) + operator_count(so.1) == operator_count(stack)
                + operator_count(output)
        },
    decreases stack.len(),
{
    if stack.len() > 0 {
        match stack.last().1 {
            TokenView::OpenBracket => {
                lemma_shape_drop_last(stack);
                lemma_count_drop_last(stack);
            },
            _ => {
                lemma_shape_drop_last(stack);
                lemma_evaluable_push(output, stack.last());
                lemma_count_drop_last(stack);
                lemma_count_push(output, stack.last());
                lemma_close_shape(stack.drop_last(), output.push(stack.last()), position);
            },
        }
    }
}

proof fn lemma_drain_shape(stack: Seq<(usize, TokenView)>, output: Seq<(usize, TokenView)>)
    requires
        stack_shape(stack),
        evaluable_tokens(output),
    ensures
        spec_drain(stack, output) matches Ok(out) ==> {
            &&& evaluable_tokens(out)
            &&& operator_count(out) == operator_count(stack) + operator_count(output)
        },
    decreases stack.len(),
{
    if stack.len() > 0 {
        match stack.last().1 {
            TokenView::OpenBracket => {},
            _ => {
                lemma_shape_drop_last(stack);
                lemma_evaluable_push(output, stack.last());
                lemma_count_drop_last(stack);
                lemma_count_push(output, stack.last());
                lemma_drain_shape(stack.drop_last(), output.push(stack.last()));
            },
        }
    }
}

proof fn lemma_parse_from_shape(
    rest: Seq<(usize, TokenView)>,
    multi: bool,
    stack: Seq<(usize, TokenView)>,
    output: Seq<(usize, TokenView)>,
)
    requires
        lexed_tokens(rest),
        stack_shape(stack),
        evaluable_tokens(output),
        !multi ==> rest.len() <= 1,
    ensures
        spec_parse_from(rest, multi, stack, output) matches Ok(out) ==> {
            &&& evaluable_tokens(out)
            &&& operator_count(out) == operator_count(rest) + operator_count(stack)
                + operator_count(output)
        },
    decreases rest.len(),
{
    if rest.len() == 0 {
        lemma_drain_shape(stack, output);
    } else {
        let pt = rest[0];
        assert(lexed_token(pt.1));
        lemma_lexed_drop_first(rest);
        match pt.1 {
            TokenView::Decimal(_) => {
                lemma_evaluable_push(output, pt);
                lemma_count_push(output, pt);
                lemma_parse_from_shape(rest.drop_first(), multi, stack, output.push(pt));
            },
            TokenView::Hexadecimal(_) => {
                lemma_evaluable_push(output, pt);
                lemma_count_push(output, pt);
                lemma_parse_from_shape(rest.drop_first(), multi, stack, output.push(pt));
            },
            TokenView::Keyword(_) => {
                if !multi {
                    lemma_evaluable_push(output, pt);
                    lemma_count_push(output, pt);
                    lemma_drain_shape(stack, output.push(pt));
                }
            },
            TokenView::Operator(sym) => {
                lemma_pop_ops_shape(sym, stack, output);
                let so = pop_ops(sym, stack, output);
                lemma_shape_push(so.0, pt);
                lemma_count_push(so.0, pt);
                lemma_parse_from_shape(rest.drop_first(), multi, so.0.push(pt), so.1);
            },
            TokenView::OpenBracket => {
                lemma_shape_push(stack, pt);
                lemma_count_push(stack, pt);
                lemma_parse_from_shape(rest.drop_first(), multi, stack.push(pt), output);
            },
            TokenView::CloseBracket => {
                lemma_close_shape(stack, output, pt.0);
                match spec_close(stack, output, pt.0) {
                    Ok(so) => {
                        lemma_parse_from_shape(rest.drop_first(), multi, so.0, so.1);
                    },
                    Err(_) => {},
                }
            },
        }
    }
}

/// Law: for every input line, tokenizing and then parsing either succeeds
/// with the brackets fully eliminated and the operator count preserved — in
/// a sequence the evaluator accepts — or returns one of the stages' errors
/// (each of which carries the offset of the offending character by
/// construction).
pub proof fn lemma_lex_parse_shape(line: Seq<char>)
    ensures
        match spec_tokenize(line) {
            Ok(ts) => match spec_parse(ts) {
                Ok(out) => no_brackets(out) && evaluable_tokens(out) && operator_count(out)
                    == operator_count(ts),
                Err(_) => true,
            },
            Err(_) => true,
        },
{
    lemma_tokenize_lexed(line, 0);
    match spec_tokenize(line) {
        Ok(ts) => {
            lemma_parse_from_shape(
                ts,
                ts.len() > 1,
                Seq::<(usize, TokenView)>::empty(),
                Seq::<(usize, TokenView)>::empty(),
            );
            match spec_parse(ts) {
                Ok(out) => {
                    assert forall|k: int|
                        0 <= k < out.len() implies !((#[trigger] out[k]).1 is OpenBracket) && !(
                    out[k].1 is CloseBracket) by {
                        assert(evaluable_token(out[k].1));
                    }
                },
                Err(_) => {},
            }
        },
        Err(_) => {},
    }
}

// ---------------------------------------------------------------------------
// The parser permutes: nothing but brackets is added or lost
// ---------------------------------------------------------------------------

/// The multiset of a sequence's non-bracket tokens, offsets included.
pub open spec fn payload_multiset(ts: Seq<(usize, TokenView)>) -> Multiset<(usize, TokenView)>
    decreases ts.len(),
{
    if ts.len() == 0 {
        Multiset::empty()
    } else if ts[0].1 is OpenBracket || ts[0].1 is CloseBracket {
        payload_multiset(ts.drop_first())
    } else {
        payload_multiset(ts.drop_first()).insert(ts[0])
    }
}

proof fn lemma_payload_push(ts: Seq<(usize, TokenView)>, t: (usize, TokenView))
    ensures
        payload_multiset(ts.push(t)) == (if t.1 is OpenBracket || t.1 is CloseBracket {
            payload_multiset(ts)
        } else {
            payload_multiset(ts).insert(t)
        }),
    decreases ts.len(),
{
    if ts.len() == 0 {
        assert(ts.push(t)[0] == t);
        assert(ts.push(t).drop_first() =~= ts);
    } else {
        assert(ts.push(t)[0] == ts[0]);
        assert(ts.push(t).drop_first() =~= ts.drop_first().push(t));
        lemma_payload_push(ts.drop_first(), t);
        if !(t.1 is OpenBracket || t.1 is CloseBracket) && !(ts[0].1 is OpenBracket || ts[0].1
            is CloseBracket) {
            assert(payload_multiset(ts.drop_first()).insert(t).insert(ts[0])
                =~= payload_multiset(ts.drop_first()).insert(ts[0]).insert(t));
        }
    }
}

proof fn lemma_payload_drop_last(ts: Seq<(usize, TokenView)>)
    requires
        ts.len() > 0,
    ensures
        payload_multiset(ts) == (if ts.last().1 is OpenBracket || ts.last().1 is CloseBracket {
            payload_multiset(ts.drop_last())
        } else {
            payload_multiset(ts.drop_last()).insert(ts.last())
        }),
{
    assert(ts =~= ts.drop_last().push(ts.last()));
    lemma_payload_push(ts.drop_last(), ts.last());
}

proof fn lemma_pop_ops_multiset(
    sym: Symbol,
    stack: Seq<(usize, TokenView)>,
    output: Seq<(usize, TokenView)>,
)
    ensures
        ({
            let so = pop_ops(sym, stack, output);
            so.1.to_multiset().add(payload_multiset(so.0)) == output.to_multiset().add(
                payload_multiset(stack),
            )
        }),
    decreases stack.len(),
{
    if stack.len() > 0 {
        match stack.last().1 {
            TokenView::Operator(top) => {
                if crate::parser::should_pop(sym, top) {
                    let t = stack.last();
                    output.to_multiset_ensures();
                    lemma_payload_drop_last(stack);
                    lemma_pop_ops_multiset(sym, stack.drop_last(), output.push(t));
                    assert(output.to_multiset().insert(t).add(
                        payload_multiset(stack.drop_last()),
                    ) =~= output.to_multiset().add(payload_multiset(stack.drop_last()).insert(t)));
                }
            },
            _ => {},
        }
    }
}

proof fn lemma_pop_ops_stack_shape(
    sym: Symbol,
    stack: Seq<(usize, TokenView)>,
    output: Seq<(usize, TokenView)>,
)
    requires
        stack_shape(stack),
    ensures
        stack_shape(pop_ops(sym, stack, output).0),
    decreases stack.len(),
{
    if stack.len() > 0 {
        match stack.last().1 {
            TokenView::Operator(top) => {
                if crate::parser::should_pop(sym, top) {
                    lemma_shape_drop_last(stack);
                    lemma_pop_ops_stack_shape(sym, stack.drop_last(), output.push(stack.last()));
                }
            },
            _ => {},
        }
    }
}

proof fn lemma_close_stack_shape(
    stack: Seq<(usize, TokenView)>,
    output: Seq<(usize, TokenView)>,
    position: usize,
)
    requires
        stack_shape(stack),
    ensures
        spec_close(stack, output, position) matches Ok(so) ==> stack_shape(so.0),
    decreases stack.len(),
{
    if stack.len() > 0 {
        lemma_shape_drop_last(stack);
        match stack.last().1 {
            TokenView::OpenBracket => {},
            _ => {
                lemma_close_stack_shape(stack.drop_last(), output.push(stack.last()), position);
            },
        }
    }
}

proof fn lemma_close_multiset(
    stack: Seq<(usize, TokenView)>,
    output: Seq<(usize, TokenView)>,
    position: usize,
)
    requires
        stack_shape(stack),
    ensures
        spec_close(stack, output, position) matches Ok(so) ==> so.1.to_multiset().add(
            payload_multiset(so.0),
        ) == output.to_multiset().add(payload_multiset(stack)),
    decreases stack.len(),
{
    if stack.len() > 0 {
        lemma_payload_drop_last(stack);
        lemma_shape_drop_last(stack);
        match stack.last().1 {
            TokenView::OpenBracket => {},
            _ => {
                let t = stack.last();
                output.to_multiset_ensures();
                lemma_close_multiset(stack.drop_last(), output.push(t), position);
                match spec_close(stack, output, position) {
                    Ok(_) => {
                        assert(output.to_multiset().insert(t).add(
                            payload_multiset(stack.drop_last()),
                        ) =~= output.to_multiset().add(
                            payload_multiset(stack.drop_last()).insert(t),
                        ));
                    },
                    Err(_) => {},
                }
            },
        }
    }
}

proof fn lemma_drain_multiset(stack: Seq<(usize, TokenView)>, output: Seq<(usize, TokenView)>)
    requires
        stack_shape(stack),
    ensures
        spec_drain(stack, output) matches Ok(out) ==> out.to_multiset() == output.to_multiset().add(
            payload_multiset(stack),
        ),
    decreases stack.len(),
{
    if stack.len() == 0 {
        assert(output.to_multiset().add(Multiset::empty()) =~= output.to_multiset());
    } else {
        lemma_payload_drop_last(stack);
        lemma_shape_drop_last(stack);
        match stack.last().1 {
            TokenView::OpenBracket => {},
            _ => {
                let t = stack.last();
                output.to_multiset_ensures();
                lemma_drain_multiset(stack.drop_last(), output.push(t));
                match spec_drain(stack, output) {
                    Ok(_) => {
                        assert(output.to_multiset().insert(t).add(
                            payload_multiset(stack.drop_last()),
                        ) =~= output.to_multiset().add(
                            payload_multiset(stack.drop_last()).insert(t),
                        ));
                    },
                    Err(_) => {},
                }
            },
        }
    }
}

proof fn lemma_parse_from_multiset(
    rest: Seq<(usize, TokenView)>,
    multi: bool,
    stack: Seq<(usize, TokenView)>,
    output: Seq<(usize, TokenView)>,
)
    requires
        stack_shape(stack),
        !multi ==> rest.len() <= 1,
    ensures
        spec_parse_from(rest, multi, stack, output) matches Ok(out) ==> out.to_multiset()
            == output.to_multiset().add(payload_multiset(stack)).add(payload_multiset(rest)),
    decreases rest.len(),
{
    if rest.len() == 0 {
        lemma_drain_multiset(stack, output);
        assert(output.to_multiset().add(payload_multiset(stack)).add(Multiset::empty())
            =~= output.to_multiset().add(payload_multiset(stack)));
    } else {
        let pt = rest[0];
        match pt.1 {
            TokenView::Decimal(_) | TokenView::Hexadecimal(_) => {
                output.to_multiset_ensures();
                lemma_parse_from_multiset(rest.drop_first(), multi, stack, output.push(pt));
                match spec_parse_from(rest, multi, stack, output) {
                    Ok(_) => {
                        assert(output.to_multiset().insert(pt).add(payload_multiset(stack)).add(
                            payload_multiset(rest.drop_first()),
                        ) =~= output.to_multiset().add(payload_multiset(stack)).add(
                            payload_multiset(rest.drop_first()).insert(pt),
                        ));
                    },
                    Err(_) => {},
                }
            },
            TokenView::Keyword(_) => {
                if !multi {
                    output.to_multiset_ensures();
                    lemma_drain_multiset(stack, output.push(pt));
                    assert(rest.drop_first() =~= Seq::<(usize, TokenView)>::empty());
                    match spec_parse_from(rest, multi, stack, output) {
                        Ok(_) => {
                            assert(output.to_multiset().insert(pt).add(payload_multiset(stack))
                                =~= output.to_multiset().add(payload_multiset(stack)).add(
                                Multiset::empty().insert(pt),
                            ));
                        },
                        Err(_) => {},
                    }
                }
            },
            TokenView::Operator(sym) => {
                lemma_pop_ops_multiset(sym, stack, output);
                lemma_pop_ops_stack_shape(sym, stack, output);
                let so = pop_ops(sym, stack, output);
                lemma_payload_push(so.0, pt);
                lemma_shape_push(so.0, pt);
                lemma_parse_from_multiset(rest.drop_first(), multi, so.0.push(pt), so.1);
                match spec_parse_from(rest, multi, stack, output) {
                    Ok(_) => {
                        assert(so.1.to_multiset().add(payload_multiset(so.0).insert(pt)).add(
                            payload_multiset(rest.drop_first()),
                        ) =~= so.1.to_multiset().add(payload_multiset(so.0)).add(
                            payload_multiset(rest.drop_first()).insert(pt),
                        ));
                        assert(so.1.to_multiset().add(payload_multiset(so.0)).add(
                            payload_multiset(rest.drop_first()).insert(pt),
                        ) =~= output.to_multiset().add(payload_multiset(stack)).add(
                            payload_multiset(rest.drop_first()).insert(pt),
                        ));
                    },
                    Err(_) => {},
                }
            },
            TokenView::OpenBracket => {
                lemma_payload_push(stack, pt);
                lemma_shape_push(stack, pt);
                lemma_parse_from_multiset(rest.drop_first(), multi, stack.push(pt), output);
            },
            TokenView::CloseBracket => {
                lemma_close_multiset(stack, output, pt.0);
                lemma_close_stack_shape(stack, output, pt.0);
                match spec_close(stack, output, pt.0) {
                    Ok(so) => {
                        lemma_parse_from_multiset(rest.drop_first(), multi, so.0, so.1);
                        match spec_parse_from(rest, multi, stack, output) {
                            Ok(_) => {
                                assert(so.1.to_multiset().add(payload_multiset(so.0)).add(
                                    payload_multiset(rest.drop_first()),
                                ) =~= output.to_multiset().add(payload_multiset(stack)).add(
                                    payload_multiset(rest.drop_first()),
                                ));
                            },
                            Err(_) => {},
                        }
                    },
                    Err(_) => {},
                }
            },
        }
    }
}

/// Law: a successful parse is a permutation of its input with the brackets
/// removed entirely — the very multiset of non-bracket tokens, offsets and
/// all, reordered into postfix and nothing else.
pub proof fn lemma_parse_permutation(ts: Seq<(usize, TokenView)>)
    ensures
        spec_parse(ts) matches Ok(out) ==> out.to_multiset() == payload_multiset(ts),
{
    let empty = Seq::<(usize, TokenView)>::empty();
    lemma_parse_from_multiset(ts, ts.len() > 1, empty, empty);
    match spec_parse(ts) {
        Ok(out) => {
            empty.to_multiset_ensures();
            vstd::multiset::lemma_multiset_empty_len::<(usize, TokenView)>(empty.to_multiset());
            assert(empty.to_multiset().add(payload_multiset(empty)).add(payload_multiset(ts))
                =~= payload_multiset(ts));
        },
        Err(_) => {},
    }
}

// ---------------------------------------------------------------------------
// Fully-parenthesized expressions parse to their postorder
// ---------------------------------------------------------------------------

/// A balanced, fully-parenthesized binary expression: a literal leaf, or
/// `( left op right )` with the offsets of the bracket and operator tokens.
pub enum BinExpr {
    Leaf(usize, TokenView),
    Node {
        open: usize,
        close: usize,
        op: usize,
        sym: Symbol,
        left: Box<BinExpr>,
        right: Box<BinExpr>,
    },
}

/// A leaf is a literal; every node joins two well-formed sub-expressions
/// with a binary operator.
pub open spec fn wf_expr(e: BinExpr) -> bool
    decreases e,
{
    match e {
        BinExpr::Leaf(_, t) => t is Decimal || t is Hexadecimal,
        BinExpr::Node { sym, left, right, .. } => spec_arity(sym) == 2 && wf_expr(*left) && wf_expr(
            *right,
        ),
    }
}

/// The expression written in full infix form, every node parenthesized.
pub open spec fn infix_tokens(e: BinExpr) -> Seq<(usize, TokenView)>
    decreases e,
{
    match e {
        BinExpr::Leaf(p, t) => seq![(p, t)],
        BinExpr::Node { open, close, op, sym, left, right } => seq![
            (open, TokenView::OpenBracket),
        ] + infix_tokens(*left) + seq![(op, TokenView::Operator(sym))] + infix_tokens(*right)
            + seq![(close, TokenView::CloseBracket)],
    }
}

/// The expression's postorder: operands first, operator last.
pub open spec fn postfix_tokens(e: BinExpr) -> Seq<(usize, TokenView)>
    decreases e,
{
    match e {
        BinExpr::Leaf(p, t) => seq![(p, t)],
        BinExpr::Node { op, sym, left, right, .. } => postfix_tokens(*left) + postfix_tokens(*right)
            + seq![(op, TokenView::Operator(sym))],
    }
}

proof fn lemma_parse_expr_step(
    e: BinExpr,
    rest: Seq<(usize, TokenView)>,
    stack: Seq<(usize, TokenView)>,
    output: Seq<(usize, TokenView)>,
)
    requires
        wf_expr(e),
    ensures
        spec_parse_from(infix_tokens(e) + rest, true, stack, output) == spec_parse_from(
            rest,
            true,
            stack,
            output + postfix_tokens(e),
        ),
    decreases e,
{
    match e {
        BinExpr::Leaf(p, t) => {
            let s = infix_tokens(e) + rest;
            assert(s[0] == (p, t));
            assert(s.drop_first() =~= rest);
            assert(output.push((p, t)) =~= output + postfix_tokens(e));
        },
        BinExpr::Node { open, close, op, sym, left, right } => {
            let li = infix_tokens(*left);
            let ri = infix_tokens(*right);
            let lp = postfix_tokens(*left);
            let rp = postfix_tokens(*right);
            let obt = (open, TokenView::OpenBracket);
            let opt = (op, TokenView::Operator(sym));
            let cbt = (close, TokenView::CloseBracket);
            let s = infix_tokens(e) + rest;
            let rest2 = seq![opt] + (ri + (seq![cbt] + rest));
            let rest1 = li + rest2;

            // the open bracket is pushed
            assert(s[0] == obt);
            assert(s.drop_first() =~= rest1);
            assert(spec_parse_from(s, true, stack, output) == spec_parse_from(
                rest1,
                true,
                stack.push(obt),
                output,
            ));
            // the left operand lands in the output
            lemma_parse_expr_step(*left, rest2, stack.push(obt), output);
            // the operator is pushed: the bracket below it blocks any popping
            assert(rest2[0] == opt);
            assert(rest2.drop_first() =~= ri + (seq![cbt] + rest));
            assert(stack.push(obt).last() == obt);
            assert(pop_ops(sym, stack.push(obt), output + lp) == (stack.push(obt), output + lp));
            assert(spec_parse_from(rest2, true, stack.push(obt), output + lp) == spec_parse_from(
                ri + (seq![cbt] + rest),
                true,
                stack.push(obt).push(opt),
                output + lp,
            ));
            // the right operand lands in the output
            lemma_parse_expr_step(*right, seq![cbt] + rest, stack.push(obt).push(opt), output + lp);
            // the closing bracket pops the operator and discards the bracket
            let stack2 = stack.push(obt).push(opt);
            let out2 = (output + lp) + rp;
            let s5 = seq![cbt] + rest;
            assert(s5[0] == cbt);
            assert(s5.drop_first() =~= rest);
            assert(stack2.last() == opt);
            assert(stack2.drop_last() =~= stack.push(obt));
            assert(stack.push(obt).last() == obt);
            assert(stack.push(obt).drop_last() =~= stack);
            assert(spec_close(stack2, out2, close) == spec_close(
                stack.push(obt),
                out2.push(opt),
                close,
            ));
            assert(spec_close(stack2, out2, close) == Ok::<
                (Seq<(usize, TokenView)>, Seq<(usize, TokenView)>),
                ParserError,
            >((stack, out2.push(opt))));
            assert(spec_parse_from(s5, true, stack2, out2) == spec_parse_from(
                rest,
                true,
                stack,
                out2.push(opt),
            ));
            // the output pieces line up with the postorder
            assert(out2.push(opt) =~= output + postfix_tokens(e));
        },
    }
}

/// Law: the parser sends every balanced, fully-parenthesized binary
/// expression to exactly its postorder.
pub proof fn lemma_parse_fully_parenthesized(e: BinExpr)
    requires
        wf_expr(e),
    ensures
        spec_parse(infix_tokens(e)) == Ok::<Seq<(usize, TokenView)>, ParserError>(
            postfix_tokens(e),
        ),
{
    match e {
        BinExpr::Leaf(p, t) => {
            let s = infix_tokens(e);
            let empty = Seq::<(usize, TokenView)>::empty();
            assert(s[0] == (p, t));
            assert(s.drop_first() =~= empty);
            assert(spec_parse(s) == spec_parse_from(empty, false, empty, empty.push((p, t))));
            assert(spec_parse_from(empty, false, empty, empty.push((p, t))) == spec_drain(
                empty,
                empty.push((p, t)),
            ));
            assert(empty.push((p, t)) =~= postfix_tokens(e));
        },
        BinExpr::Node { .. } => {
            let empty = Seq::<(usize, TokenView)>::empty();
            assert(infix_tokens(e).len() > 1);
            lemma_parse_expr_step(e, empty, empty, empty);
            assert(infix_tokens(e) + empty =~= infix_tokens(e));
            assert(empty + postfix_tokens(e) =~= postfix_tokens(e));
        },
    }
}

// ---------------------------------------------------------------------------
// Evaluation is deterministic
// ---------------------------------------------------------------------------

/// Law: identical postfix token sequences always yield identical traces and
/// final values. The reduction is a mathematical function of the tokens
/// alone — and [`crate::evaluator::Evaluator::evaluate`] ensures its result
/// equals that function's value, so two runs over equal inputs cannot
/// differ, whatever evaluator instances perform them.
pub proof fn lemma_evaluate_deterministic(
    a: Seq<(usize, TokenView)>,
    b: Seq<(usize, TokenView)>,
)
    requires
        a == b,
    ensures
        spec_evaluate(a) == spec_evaluate(b),
{
}

} // verus!
