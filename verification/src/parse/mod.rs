//! Turning source text into tokens and literal values.

pub mod bytes;
pub mod token;
pub mod lexer;
pub mod literal;
pub mod node;
