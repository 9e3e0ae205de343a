//! How control flows through a frame: normally, or unwinding to a catch, a
//! return or a jump out of a `try`.

use vstd::prelude::*;
use crate::lang::value::Value;

verus! {

pub enum Flow {
    Running,
    Catching(Value),
    Throwing(Value),
    Returning(Value),
    Jumping { n_flow_points: usize, instruction: usize },
}

impl Flow {
    /// The value being thrown or caught.
    pub fn unwrap_throwable(self) -> (v: Value)
        requires
            self is Catching || self is Throwing,
        ensures
            self matches Flow::Catching(c) ==> v == c,
            self matches Flow::Throwing(t) ==> v == t,
    {
        match self {
            Flow::Catching(v) | Flow::Throwing(v) => v,
            Flow::Running => Value::Nothing,
            Flow::Returning(v) => v,
            Flow::Jumping { .. } => Value::Nothing,
        }
    }
}

/// A point that unwinding stops at.
pub enum FlowPoint {
    StartCatch { instruction: usize },
    StartFinally { instruction: usize },
    PopFrame { data_stack_len: usize },
    PopFrameAndRestoreFlow { data_stack_len: usize },
    PopSuppressedFlow,
}

} // verus!
