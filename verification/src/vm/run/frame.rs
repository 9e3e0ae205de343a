//! The frame that runs the root code of a script or of a line of input.

use vstd::prelude::*;
use std::rc::Rc;
use crate::lang::value::Value;
use crate::vm::bytecode::code::Code;

verus! {

/// The root frame of a program: its code, its local slots, and its shared
/// slots, each empty or holding the cell of a variable carried over from
/// earlier input.
pub struct RootFrame {
    pub code: Box<Code>,
    pub locals: Vec<Value>,
    pub shared: Vec<Option<Rc<Value>>>,
}

/// `n` slots holding nothing.
pub fn nothing_slots(n: usize) -> (slots: Vec<Value>)
    ensures
        slots@.len() == n,
        forall|k: int| 0 <= k < n ==> slots@[k] == Value::Nothing,
{
    let mut slots: Vec<Value> = Vec::new();
    let mut k: usize = 0;
    while k < n
        invariant
            k <= n,
            slots@.len() == k,
            forall|j: int| 0 <= j < k ==> slots@[j] == Value::Nothing,
        decreases n - k,
    {
        slots.push(Value::Nothing);
        k += 1;
    }
    slots
}

/// `n` empty shared slots.
pub fn empty_cells(n: usize) -> (cells: Vec<Option<Rc<Value>>>)
    ensures
        cells@.len() == n,
        forall|k: int| 0 <= k < n ==> cells@[k] is None,
{
    let mut cells: Vec<Option<Rc<Value>>> = Vec::new();
    let mut k: usize = 0;
    while k < n
        invariant
            k <= n,
            cells@.len() == k,
            forall|j: int| 0 <= j < k ==> cells@[j] is None,
        decreases n - k,
    {
        cells.push(None);
        k += 1;
    }
    cells
}

} // verus!
