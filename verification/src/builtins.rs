//! The builtin commands' decision logic. Touching the working directory,
//! the process exit and the error output happen outside the library.

pub mod cd;
pub mod echo;
pub mod exit;
