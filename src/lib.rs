//! Lexical and syntactic front end of a small scripting language: source text
//! becomes a token sequence, and a token sequence becomes an expression tree.
pub mod token;
pub mod scanner;
pub mod expr;
pub mod parser;
