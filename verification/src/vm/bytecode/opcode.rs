//! The instructions of the machine.

use vstd::prelude::*;
use crate::lang::identifier::Identifier;

verus! {

#[derive(Clone, Copy, Debug)]
pub enum OpCode {
    Print,
    /// Replaces the value on the stack by its text.
    ToString,
    Nop,
    Fail,
    PopFlowPoint,
    Jump { instruction: usize },
    JumpIfPopFalsy { instruction: usize },
    FlowJump { n_flow_points: usize, instruction: usize },
    Call { n_arguments: usize },
    TypeCheckLocal { index: usize },
    TypeCheckSharedLocal { index: usize },
    Return,
    ReturnNothing,
    PushStartCatchFlowPoint { instruction: usize },
    PushStartFinallyFlowPoint { instruction: usize },
    Throw,
    CatchOrJump { instruction: usize },
    Catch,
    /// Tests the thrown value against the type on the stack.
    ThrownIs,
    /// Catches into a local slot if the test passed; else jumps to the next
    /// clause.
    CatchLocalOrJump { storage_index: usize, instruction: usize },
    CatchSharedLocalOrJump { storage_index: usize, instruction: usize },
    /// Catches into a local slot.
    CatchLocal { storage_index: usize },
    CatchSharedLocal { storage_index: usize },
    Rethrow,
    StartFinally,
    EndFinally,
    Pop,
    PushFunction { index: usize },
    PushString { index: usize },
    /// Pushes a float, given by the bits of its IEEE 754 double.
    PushFloat { bits: u64 },
    PushInteger { value: i64 },
    PushBoolean { value: bool },
    PushNothing,
    /// Pushes the module with this index among the machine's modules.
    InlinedModule { module: usize },
    /// Gives a shared local slot a fresh cell.
    InitializeSharedLocal(usize),
    StoreLocal(usize),
    LoadLocal(usize),
    StoreSharedLocal(usize),
    LoadSharedLocal(usize),
    StoreStaticBound(usize),
    LoadStaticBound(usize),
    StoreSharedBound(usize),
    LoadSharedBound(usize),
    /// Runs the `use` operation with this index.
    Use { operation: usize },
    LoadImplicit { name: Identifier },
    GetProperty { name: Identifier },
    SetProperty { name: Identifier },
    GetItem,
    Is,
    Eq,
    Neq,
    Lt,
    Gt,
    LtEq,
    GtEq,
    Union,
    Add,
    Subtract,
    Multiply,
    Divide,
    Not,
    ShortCircuitAnd,
    ShortCircuitOr,
}

} // verus!
