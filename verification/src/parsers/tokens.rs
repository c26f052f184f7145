//! Token kinds crossing the lexer / parser boundaries.

use vstd::prelude::*;

verus! {

/// What the line splitter emits: command text or a separator (`;`, `&&`, `||`).
#[derive(Clone, Copy, Eq, PartialEq, Structural, Debug)]
pub enum LineToCmdTokens {
    Command,
    Separator,
}

/// What the command tokenizer emits. `Normal` is an argument fragment,
/// `Pipe` one of `|`, `<`, `>`, `Definition` a `NAME=...` word, and
/// `Variable` the name following an unquoted `$`.
#[derive(Clone, Copy, Eq, PartialEq, Structural, Debug)]
pub enum CmdTokens {
    Normal,
    Pipe,
    Definition,
    Variable,
}

/// What the command parser emits: an argument vector or a pipe separator.
#[derive(Clone, Copy, Eq, PartialEq, Structural, Debug)]
pub enum ParseCmdTokens {
    Command,
    Separator,
}

} // verus!
