//! The command-line options the shell accepts.

use vstd::prelude::*;

verus! {

/// `interactive` and `login` are accepted for compatibility and ignored;
/// `command` runs one line and exits; `script_file` runs a file line by
/// line and exits; with neither, the shell is interactive.
#[derive(Debug)]
pub struct Opts {
    pub interactive: bool,
    pub login: bool,
    pub command: Option<String>,
    pub script_file: Option<String>,
}

} // verus!
