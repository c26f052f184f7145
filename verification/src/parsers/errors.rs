//! The lexer and parser report one kind of error: input that ends inside a
//! quote, or a pipe with nothing on one side of it.

use vstd::prelude::*;

verus! {

#[derive(Debug, Clone)]
pub struct SyntaxError;

impl SyntaxError {
    /// The text the shell prints for a syntax error.
    pub fn message(&self) -> (r: String)
        ensures
            r@ == "SyntaxError: Unexpected end of input"@,
    {
        let r = "SyntaxError: Unexpected end of input".to_owned();
        r
    }
}

} // verus!
