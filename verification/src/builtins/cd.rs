//! The `cd` builtin: what the argument list asks for.

use vstd::prelude::*;

verus! {

/// What `cd` decides: more than one argument is an error the shell
/// reports with status 1, none leaves the directory alone, one names the
/// target (already `~`-expanded by the parser).
#[derive(Debug)]
pub enum CdAction {
    TooManyArgs,
    NoChange,
    ChangeTo(String),
}

pub fn cd(args: &Vec<String>) -> (r: CdAction)
    ensures
        args@.len() > 1 ==> r is TooManyArgs,
        args@.len() == 0 ==> r is NoChange,
        args@.len() == 1 ==> r == CdAction::ChangeTo(args@[0]),
{
    if args.len() > 1 {
        CdAction::TooManyArgs
    } else if args.len() == 0 {
        CdAction::NoChange
    } else {
        CdAction::ChangeTo(args[0].clone())
    }
}

} // verus!
