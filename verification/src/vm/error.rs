//! Errors found before a program runs.

use vstd::prelude::*;

verus! {

/// What every error of a program's source tells: a message and the byte
/// offset in the source that it is about.
pub trait Error {
    fn get_message(&self) -> &str;

    fn get_source_offset(&self) -> usize;
}

/// The source text is not a well-formed program.
pub struct ParseError {
    pub message: String,
    pub source_offset: usize,
}

impl Error for ParseError {
    fn get_message(&self) -> &str {
        self.message.as_str()
    }

    fn get_source_offset(&self) -> usize {
        self.source_offset
    }
}

/// The program is well formed, but refers to something that does not exist.
pub struct AnalysisError {
    pub message: String,
    pub source_offset: usize,
}

impl Error for AnalysisError {
    fn get_message(&self) -> &str {
        self.message.as_str()
    }

    fn get_source_offset(&self) -> usize {
        self.source_offset
    }
}

} // verus!
