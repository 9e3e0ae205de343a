//! Helpers around source text.

pub mod source;
