//! Analysing programs before they run, and the state that runs them.

pub mod analysis;
pub mod bytecode;
pub mod error;
pub mod repl;
pub mod run;
pub mod virtual_machine;
