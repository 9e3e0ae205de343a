//! A verified core for the Burn programming language: its lexer, literal
//! parsing, source positions, values and their operations, and the
//! variable storage analyses that its compiler runs.

use vstd::prelude::*;

pub mod builtin;
pub mod lang;
pub mod parse;
pub mod util;
pub mod vm;

verus! {

} // verus!
