//! The `exit` builtin: what the argument list asks for.

use vstd::prelude::*;

use crate::numbers::{parse_i32, parse_i32_spec};

verus! {

/// What `exit` decides: terminate the process with the given code, or —
/// for an argument that is no integer — report `numeric argument
/// required`, which the shell turns into status 2.
#[derive(Debug)]
pub enum ExitAction {
    Terminate(i32),
    NumericError,
}

pub fn exit(args: Vec<String>) -> (r: ExitAction)
    ensures
        args@.len() == 0 ==> r == ExitAction::Terminate(0),
        args@.len() > 0 ==> match parse_i32_spec(args@[0]@) {
            Some(v) => r == ExitAction::Terminate(v as i32),
            None => r is NumericError,
        },
{
    if args.len() == 0 {
        ExitAction::Terminate(0)
    } else {
        match parse_i32(args[0].as_str()) {
            Some(v) => ExitAction::Terminate(v),
            None => ExitAction::NumericError,
        }
    }
}

} // verus!
