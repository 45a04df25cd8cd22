//! The build language: errors, expressions and their evaluation, patterns,
//! the parser and the file context.
pub mod error;
pub mod expr;
pub mod eval;
pub mod parser;
pub mod tree;
pub mod export;
