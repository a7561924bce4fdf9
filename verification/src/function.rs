//! The function registry: each operator's arity and its pure operation.
//!
//! An operation takes the argument values popped from the evaluator's stack
//! and yields the numeric result together with the rendered reduction step,
//! such as `12 | 4096` or `~12`. Shifts are checked: a shift amount of 32 or
//! more is an error, never a silent truncation.

use vstd::prelude::*;
use crate::error::EvaluatorError;
use crate::lexer::Symbol;
use crate::numeral::{dec_chars, u32_to_dec};

verus! {

/// How many operands an operator consumes.
pub open spec fn spec_arity(sym: Symbol) -> int {
    match sym {
        Symbol::NOT => 1,
        _ => 2,
    }
}

/// The source spelling of an operator.
pub open spec fn sym_chars(sym: Symbol) -> Seq<char> {
    match sym {
        Symbol::OR => "|"@,
        Symbol::AND => "&"@,
        Symbol::XOR => "^"@,
        Symbol::NOT => "~"@,
        Symbol::RSHIFT => ">>"@,
        Symbol::LSHIFT => "<<"@,
    }
}

/// The rendered text of a unary reduction step.
pub open spec fn not_text(a: u32) -> Seq<char> {
    "~"@ + dec_chars(a as nat)
}

/// The rendered text of a binary reduction step: left operand first.
pub open spec fn binop_text(a: u32, sym: Symbol, b: u32) -> Seq<char> {
    dec_chars(a as nat) + " "@ + sym_chars(sym) + " "@ + dec_chars(b as nat)
}

/// What applying an operator to the top of the value stack yields: the last
/// value popped is the right operand, the one below it the left operand.
pub open spec fn spec_apply(sym: Symbol, stack: Seq<u32>, position: usize) -> Result<
    (u32, Seq<char>),
    EvaluatorError,
>
    recommends
        stack.len() >= spec_arity(sym),
{
    match sym {
        Symbol::NOT => {
            let a = stack.last();
            Ok((!a, not_text(a)))
        },
        Symbol::AND => {
            let b = stack.last();
            let a = stack[stack.len() - 2];
            Ok((a & b, binop_text(a, Symbol::AND, b)))
        },
        Symbol::OR => {
            let b = stack.last();
            let a = stack[stack.len() - 2];
            Ok((a | b, binop_text(a, Symbol::OR, b)))
        },
        Symbol::XOR => {
            let b = stack.last();
            let a = stack[stack.len() - 2];
            Ok((a ^ b, binop_text(a, Symbol::XOR, b)))
        },
        Symbol::RSHIFT => {
            let b = stack.last();
            let a = stack[stack.len() - 2];
            if b < 32 {
                Ok((a >> b, binop_text(a, Symbol::RSHIFT, b)))
            } else {
                Err(EvaluatorError::OverflowShift(position))
            }
        },
        Symbol::LSHIFT => {
            let b = stack.last();
            let a = stack[stack.len() - 2];
            if b < 32 {
                Ok((a << b, binop_text(a, Symbol::LSHIFT, b)))
            } else {
                Err(EvaluatorError::OverflowShift(position))
            }
        },
    }
}

fn sym_str(sym: Symbol) -> (s: &'static str)
    ensures
        s@ == sym_chars(sym),
{
    match sym {
        Symbol::OR => "|",
        Symbol::AND => "&",
        Symbol::XOR => "^",
        Symbol::NOT => "~",
        Symbol::RSHIFT => ">>",
        Symbol::LSHIFT => "<<",
    }
}

fn render_binop(a: u32, sym: Symbol, b: u32) -> (s: String)
    ensures
        s@ == binop_text(a, sym, b),
{
    let mut s = u32_to_dec(a);
    s.append(" ");
    s.append(sym_str(sym));
    s.append(" ");
    let bs = u32_to_dec(b);
    s.append(bs.as_str());
    s
}

/// Bitwise complement of the last argument.
pub fn not(args: Vec<u32>, _position: usize) -> (r: Result<(u32, String), EvaluatorError>)
    requires
        args@.len() >= 1,
    ensures
        ({
            let a = args@.last();
            match r {
                Ok(p) => p.0 == !a && p.1@ == not_text(a),
                Err(_) => false,
            }
        }),
{
    let mut args = args;
    let a: u32 = match args.pop() {
        Some(x) => x,
        None => {
            proof {
                assert(false);
            }
            0
        },
    };
    let mut text = String::from_str("~");
    let astr = u32_to_dec(a);
    text.append(astr.as_str());
    Ok((!a, text))
}

/// Bitwise conjunction of the last two arguments.
pub fn and(args: Vec<u32>, _position: usize) -> (r: Result<(u32, String), EvaluatorError>)
    requires
        args@.len() >= 2,
    ensures
        ({
            let b = args@[args@.len() - 1];
            let a = args@[args@.len() - 2];
            match r {
                Ok(p) => p.0 == (a & b) && p.1@ == binop_text(a, Symbol::AND, b),
                Err(_) => false,
            }
        }),
{
    let mut args = args;
    let b: u32 = match args.pop() {
        Some(x) => x,
        None => {
            proof {
                assert(false);
            }
            0
        },
    };
    let a: u32 = match args.pop() {
        Some(x) => x,
        None => {
            proof {
                assert(false);
            }
            0
        },
    };
    let text = render_binop(a, Symbol::AND, b);
    Ok((a & b, text))
}

/// Bitwise disjunction of the last two arguments.
pub fn or(args: Vec<u32>, _position: usize) -> (r: Result<(u32, String), EvaluatorError>)
    requires
        args@.len() >= 2,
    ensures
        ({
            let b = args@[args@.len() - 1];
            let a = args@[args@.len() - 2];
            match r {
                Ok(p) => p.0 == (a | b) && p.1@ == binop_text(a, Symbol::OR, b),
                Err(_) => false,
            }
        }),
{
    let mut args = args;
    let b: u32 = match args.pop() {
        Some(x) => x,
        None => {
            proof {
                assert(false);
            }
            0
        },
    };
    let a: u32 = match args.pop() {
        Some(x) => x,
        None => {
            proof {
                assert(false);
            }
            0
        },
    };
    let text = render_binop(a, Symbol::OR, b);
    Ok((a | b, text))
}

/// Bitwise exclusive disjunction of the last two arguments.
pub fn xor(args: Vec<u32>, _position: usize) -> (r: Result<(u32, String), EvaluatorError>)
    requires
        args@.len() >= 2,
    ensures
        ({
            let b = args@[args@.len() - 1];
            let a = args@[args@.len() - 2];
            match r {
                Ok(p) => p.0 == (a ^ b) && p.1@ == binop_text(a, Symbol::XOR, b),
                Err(_) => false,
            }
        }),
{
    let mut args = args;
    let b: u32 = match args.pop() {
        Some(x) => x,
        None => {
            proof {
                assert(false);
            }
            0
        },
    };
    let a: u32 = match args.pop() {
        Some(x) => x,
        None => {
            proof {
                assert(false);
            }
            0
        },
    };
    let text = render_binop(a, Symbol::XOR, b);
    Ok((a ^ b, text))
}

/// Right shift of the second-to-last argument by the last; the shift amount
/// must be below 32.
pub fn rshift(args: Vec<u32>, position: usize) -> (r: Result<(u32, String), EvaluatorError>)
    requires
        args@.len() >= 2,
    ensures
        ({
            let b = args@[args@.len() - 1];
            let a = args@[args@.len() - 2];
            if b < 32 {
                match r {
                    Ok(p) => p.0 == (a >> b) && p.1@ == binop_text(a, Symbol::RSHIFT, b),
                    Err(_) => false,
                }
            } else {
                r == Err::<(u32, String), EvaluatorError>(EvaluatorError::OverflowShift(position))
            }
        }),
{
    let mut args = args;
    let b: u32 = match args.pop() {
        Some(x) => x,
        None => {
            proof {
                assert(false);
            }
            0
        },
    };
    let a: u32 = match args.pop() {
        Some(x) => x,
        None => {
            proof {
                assert(false);
            }
            0
        },
    };
    if b < 32 {
        let text = render_binop(a, Symbol::RSHIFT, b);
        Ok((a >> b, text))
    } else {
        Err(EvaluatorError::OverflowShift(position))
    }
}

/// Left shift of the second-to-last argument by the last; the shift amount
/// must be below 32.
pub fn lshift(args: Vec<u32>, position: usize) -> (r: Result<(u32, String), EvaluatorError>)
    requires
        args@.len() >= 2,
    ensures
        ({
            let b = args@[args@.len() - 1];
            let a = args@[args@.len() - 2];
            if b < 32 {
                match r {
                    Ok(p) => p.0 == (a << b) && p.1@ == binop_text(a, Symbol::LSHIFT, b),
                    Err(_) => false,
                }
            } else {
                r == Err::<(u32, String), EvaluatorError>(EvaluatorError::OverflowShift(position))
            }
        }),
{
    let mut args = args;
    let b: u32 = match args.pop() {
        Some(x) => x,
        None => {
            proof {
                assert(false);
            }
            0
        },
    };
    let a: u32 = match args.pop() {
        Some(x) => x,
        None => {
            proof {
                assert(false);
            }
            0
        },
    };
    if b < 32 {
        let text = render_binop(a, Symbol::LSHIFT, b);
        Ok((a << b, text))
    } else {
        Err(EvaluatorError::OverflowShift(position))
    }
}

/// An entry of the function registry: an operator's arity and identity.
#[derive(Debug, PartialEq, Eq, Structural, Clone, Copy)]
pub struct Function {
    pub arity: usize,
    pub symbol: Symbol,
}

impl Function {
    pub fn new(arity: usize, symbol: Symbol) -> (f: Function)
        ensures
            f.arity == arity,
            f.symbol == symbol,
    {
        Function { arity, symbol }
    }

    /// Applies the operator to the last `arity` of the given values.
    pub fn apply(&self, args: Vec<u32>, position: usize) -> (r: Result<
        (u32, String),
        EvaluatorError,
    >)
        requires
            self.arity as int == spec_arity(self.symbol),
            args@.len() >= self.arity,
        ensures
            match r {
                Ok(p) => spec_apply(self.symbol, args@, position) == Ok::<
                    (u32, Seq<char>),
                    EvaluatorError,
                >((p.0, p.1@)),
                Err(e) => spec_apply(self.symbol, args@, position) == Err::<
                    (u32, Seq<char>),
                    EvaluatorError,
                >(e),
            },
    {
        match self.symbol {
            Symbol::NOT => not(args, position),
            Symbol::AND => and(args, position),
            Symbol::OR => or(args, position),
            Symbol::XOR => xor(args, position),
            Symbol::RSHIFT => rshift(args, position),
            Symbol::LSHIFT => lshift(args, position),
        }
    }
}

/// The fixed function registry as a total function over the closed symbol
/// set.
pub fn function_for(symbol: Symbol) -> (f: Function)
    ensures
        f.symbol == symbol,
        f.arity as int == spec_arity(symbol),
{
    match symbol {
        Symbol::NOT => Function::new(1, Symbol::NOT),
        Symbol::XOR => Function::new(2, Symbol::XOR),
        Symbol::OR => Function::new(2, Symbol::OR),
        Symbol::AND => Function::new(2, Symbol::AND),
        Symbol::LSHIFT => Function::new(2, Symbol::LSHIFT),
        Symbol::RSHIFT => Function::new(2, Symbol::RSHIFT),
    }
}

} // verus!
