//! The line-to-execution pipeline: lexing a line into commands, tokenizing a
//! command, and parsing tokens into argument vectors.

pub mod errors;
pub mod lexer;
pub mod parser;
pub mod tokens;
