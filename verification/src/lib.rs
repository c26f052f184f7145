//! A small interactive shell: a two-stage lexer that splits a line into
//! commands and a command into typed tokens, a parser that expands variables,
//! home directories and glob patterns into argument vectors, and the decision
//! logic that drives pipelines, builtins and `&&` / `||` short-circuiting.
//!
//! Process spawning, terminal handling and file input live outside this
//! library; everything here works on plain values and is verified.

pub mod builtins;
pub mod chars;
pub mod environment;
pub mod numbers;
pub mod opts;
pub mod parser;
pub mod parsers;
pub mod shell;
