//! The values of the Burn language and what can be done with them.

pub mod function;
pub mod identifier;
pub mod module;
pub mod origin;
pub mod special;
pub mod string;
pub mod type_;
pub mod value;
