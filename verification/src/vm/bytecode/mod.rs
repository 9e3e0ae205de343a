//! The code that the machine runs, and the compiler that writes it.

pub mod code;
pub mod opcode;
pub mod use_inliner;
pub mod emission;
pub mod compiler;
pub mod compilable;
pub mod bounds;
