//! The front end of a small expression language: a scanner that turns source text
//! into tokens, with indentation turned into `Begin` and `End`, and a parser that
//! turns those tokens into expression trees, reporting errors as it goes instead of
//! stopping at them.

pub mod ast;
pub mod grammar;
pub mod lex;
pub mod runtime;
