//! The operations that the language's operators stand for.

pub mod operations;
