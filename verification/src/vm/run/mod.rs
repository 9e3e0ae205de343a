//! Running code: how control flows through a frame.

pub mod flow;
pub mod frame;
pub mod machine;
pub mod cpu;
