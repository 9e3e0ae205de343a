//! The parts of the machine that decide, apart from those that run code.

pub mod importing;
