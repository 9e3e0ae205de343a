//! What the language provides without being asked: its built-in types,
//! errors and operations.

pub mod burn;
pub mod intrinsic;
