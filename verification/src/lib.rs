//! bspl: a bit-shift-print loop.
//!
//! An interactive calculator for bitwise expressions over unsigned 32-bit
//! integers. A line of input is tokenized into positioned tokens, rearranged
//! into postfix order by an operator-precedence parser, and reduced by a
//! stack evaluator that records every step of the reduction as readable text.

pub mod constants;
pub mod error;
pub mod evaluator;
pub mod function;
pub mod laws;
pub mod lexer;
pub mod numeral;
pub mod parser;
