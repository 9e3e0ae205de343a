//! A compiled frame: its instructions and what they refer to.

use vstd::prelude::*;
use std::rc::Rc;
use crate::lang::function::FunctionDefinition;
use crate::vm::bytecode::opcode::OpCode;

verus! {

pub struct Code {
    pub n_local_variables: usize,
    pub n_shared_local_variables: usize,
    pub opcodes: Vec<OpCode>,
    pub strings: Vec<Rc<String>>,
    pub functions: Vec<Rc<FunctionDefinition>>,
    /// The instructions that stand for a name brought in by a `use`
    /// statement, to be replaced by the imported value: (offset of the
    /// instruction, index of the `use`).
    pub inlined_uses: Vec<(usize, usize)>,
}

impl Code {
    /// Code with no instruction, no slot, no string and no function.
    pub fn new() -> (code: Code)
        ensures
            code.n_local_variables == 0,
            code.n_shared_local_variables == 0,
            code.opcodes@.len() == 0,
            code.strings@.len() == 0,
            code.functions@.len() == 0,
            code.inlined_uses@.len() == 0,
    {
        Code {
            n_local_variables: 0,
            n_shared_local_variables: 0,
            opcodes: Vec::new(),
            strings: Vec::new(),
            functions: Vec::new(),
            inlined_uses: Vec::new(),
        }
    }
}

} // verus!
