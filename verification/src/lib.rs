//! The front end of a small expression language: a scanner that turns source
//! text into tokens, and a recursive-descent parser that turns tokens into an
//! expression tree.
//!
//! [`scanner::scan`] and [`parser::parse`] are the two entry points. The
//! scanner reports what it cannot read and goes on; the parser stops at the
//! first error, with its cursor at the token at which it stopped, and takes
//! a token sequence as an expression only where nothing but the end of the
//! input follows it. A line feed moves the line on and gives no token. An
//! expression between parentheses may be a ternary too. A literal is
//! rendered as its lexeme, so that printed text reads back.
use vstd::prelude::*;

pub mod chars;
pub mod expression;
pub mod parser;
pub mod roundtrip;
pub mod scanner;
pub mod text;
pub mod token;

verus! {

} // verus!
