//! A verified core for a small line calculator: a tokenizer, a
//! precedence-climbing parser for single-character atoms and infix
//! operators, a canonical printer, and a compiler from expression
//! trees to a postfix instruction program that a numeric host
//! executes.

pub mod eval;
pub mod expr;
pub mod laws;
pub mod parser;
pub mod token;
