//! Lexical analysis for template tags: a tag lexer that splits a tag body
//! into a name and its arguments, and a lexer for conditional expressions.
//! Every span is a `(start, len)` pair of byte offsets into the full source.

pub mod lex;
pub mod text;
pub mod types;
