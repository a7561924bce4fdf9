//! The error taxonomy: one error type per stage of the pipeline.
//!
//! Every variant that points at the offending input carries the character
//! offset (not byte offset) of that input in the original line, so a caller
//! can place a marker under the exact character.

use vstd::prelude::*;

verus! {

/// A lexical error: the line could not be split into tokens.
#[derive(Debug, PartialEq, Eq, Structural, Clone, Copy)]
pub enum LexerError {
    /// A character that starts no token, or a `<` / `>` that is not doubled.
    UnknownOperator(usize),
    /// An alphanumeric run that is neither a 32-bit decimal literal, nor a
    /// 32-bit `0x` hexadecimal literal, nor a purely alphabetic keyword.
    RadixError(usize),
}

/// A structural error found while rearranging tokens into postfix order.
#[derive(Debug, PartialEq, Eq, Structural, Clone, Copy)]
pub enum ParserError {
    /// A `)` with no `(` left on the stack.
    MissingOpeningBracket(usize),
    /// A `(` still on the stack when the input ended.
    MissingClosingBracket(usize),
    /// A keyword inside a longer expression; keywords must stand alone.
    KeywordError(usize),
}

/// A semantic error raised while reducing a postfix token sequence.
#[derive(Debug, PartialEq, Eq, Structural, Clone, Copy)]
pub enum EvaluatorError {
    /// An operator had fewer values on the stack than its arity.
    MissingArgument(usize),
    /// More than one value was left on the stack when the input ended.
    TooManyArguments,
    /// A shift amount of 32 or more.
    OverflowShift(usize),
    /// A standalone word that is none of the recognized keywords.
    UnknownKeyword(usize),
    /// The `exit` keyword: a request to stop, not a failure to report.
    Exit,
}

} // verus!
