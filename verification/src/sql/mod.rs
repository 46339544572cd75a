//! SQL text to syntax trees.

pub mod ast;
pub mod error_laws;
pub mod grammar;
pub mod lexer;
pub mod lexer_laws;
pub mod parser;
pub mod span;
pub mod token;
