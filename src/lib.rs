//! A tokenizer and a precedence-climbing parser for a small expression language.
//!
//! `lexer::parse` turns source text into positioned tokens; `parser::parse_expression`
//! turns a token sequence into an expression tree. Both are specified by the spec
//! functions `lexer::lex` and `parser::spec_expression`.
pub mod lexer;
pub mod parser;
