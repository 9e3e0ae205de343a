//! Taking one step of the machine.

use vstd::prelude::*;
use vstd::string::*;
use std::rc::Rc;
use crate::lang::value::Value;
use crate::lang::function::{FunctionDefinition, FunctionParameterStorage, FunctionBindingDefinition};
use crate::vm::bytecode::code::Code;
use crate::lang::module::Module;
use crate::vm::bytecode::opcode::OpCode;
use crate::vm::run::flow::{Flow, FlowPoint};
use crate::vm::run::machine::{
    MachineView, MachineState, MachineFrame, HeapFunction, StepAction, FrameView, FunctionView, cell_range, pushed, is_binary,
    binary_taken, binary_outcome, replaced_two, throwing_two, is_variable_op, variable_taken, advanced, popped,
    with_locals, with_cells, is_handler_op, handler_taken, with_flow, at, caught_local, caught_shared,
    plain_taken, call_taken, push_function_taken, parameters_stored, parameters_fit,
    bindings_captured, bindings_fit, own_closure, return_taken, throw_taken, jump_taken, into_finally, frame_popped,
    truncated, op_taken, step_taken, ran, Outcome, lemma_ran_step,
};
use crate::vm::run::frame::nothing_slots;
use crate::builtin::intrinsic::operations::{
    float_arithmetic, is_truthy, to_string, subtract, multiply, divide, union, is, eq, neq, lt, gt, lt_eq, gt_eq,
};
use crate::builtin::burn::types::is_throwable;
use crate::builtin::burn::errors::create_type_error;
use crate::builtin::intrinsic::operations::repr;

verus! {

/// Both operands are numbers and one of them is a float.
fn is_float_arithmetic(left: &Value, right: &Value) -> (r: bool)
    ensures
        r == float_arithmetic(*left, *right),
{
    let l = match left {
        Value::Integer(_) => 1u8,
        Value::Float(_) => 2u8,
        _ => 0u8,
    };
    let r = match right {
        Value::Integer(_) => 1u8,
        Value::Float(_) => 2u8,
        _ => 0u8,
    };
    l > 0 && r > 0 && (l == 2 || r == 2)
}

impl MachineState {
    /// A machine about to run root code, with these local slots and `n_shared`
    /// shared slots in fresh cells holding nothing.
    pub fn new(locals: Vec<Value>, n_shared: usize) -> (s: MachineState)
        ensures
            s@.frames.len() == 0,
            s@.frame == (FrameView { function: None, instruction: 0, locals: locals@, shared: cell_range(0, n_shared as int) }),
            s@.functions.len() == 0,
            s@.cells == Seq::new(n_shared as nat, |k: int| Value::Nothing),
            s@.flow == Flow::Running,
            s@.flow_points.len() == 0,
            s@.suppressed_flows.len() == 0,
            s@.data_stack.len() == 0,
    {
        let mut cells: Vec<Value> = Vec::new();
        let mut shared: Vec<usize> = Vec::new();
        let mut k: usize = 0;
        while k < n_shared
            invariant
                k <= n_shared,
                cells@ == Seq::new(k as nat, |j: int| Value::Nothing),
                shared@ == cell_range(0, k as int),
            decreases n_shared - k,
        {
            cells.push(Value::Nothing);
            shared.push(k);
            k += 1;
            proof {
                assert(cells@ =~= Seq::new(k as nat, |j: int| Value::Nothing));
                assert(shared@ =~= cell_range(0, k as int));
            }
        }
        let s = MachineState {
            frames: Vec::new(),
            frame: MachineFrame { function: None, instruction: 0, locals, shared },
            functions: Vec::new(),
            cells,
            flow: Flow::Running,
            flow_points: Vec::new(),
            suppressed_flows: Vec::new(),
            data_stack: Vec::new(),
        };
        proof {
            assert(s@.frames =~= Seq::<FrameView>::empty());
            assert(s@.functions =~= Seq::<FunctionView>::empty());
        }
        s
    }

    /// Pushes the value that a `use` operation gave.
    pub fn push_value(&mut self, v: Value)
        ensures
            final(self)@ == pushed(old(self)@, v),
    {
        self.data_stack.push(v);
    }
}

/// Pops two values and pushes what operator `op` gives for them, or throws
/// its error.
fn binary_step(state: &mut MachineState, op: OpCode) -> (a: StepAction)
    requires
        is_binary(op),
        old(state).frame.instruction < usize::MAX,
    ensures
        binary_taken(old(state)@, op, final(state)@, a.outcome()),
{
    let len = state.data_stack.len();
    if len < 2 {
        return StepAction::Fault;
    }
    match op {
        OpCode::Add | OpCode::Subtract => {
            if is_float_arithmetic(&state.data_stack[len - 2], &state.data_stack[len - 1]) {
                return StepAction::Unsupported;
            }
        },
        _ => {},
    }
    let ghost s0 = state@;
    let right = state.data_stack.pop().unwrap();
    let left = state.data_stack.pop().unwrap();
    let ghost (l, r) = (left, right);
    assert(l == s0.data_stack[s0.data_stack.len() - 2]);
    assert(r == s0.data_stack.last());
    let result = match op {
        OpCode::Is => is(&left, &right),
        OpCode::Eq => eq(&left, &right),
        OpCode::Neq => neq(&left, &right),
        OpCode::Lt => lt(&left, &right),
        OpCode::Gt => gt(&left, &right),
        OpCode::LtEq => lt_eq(&left, &right),
        OpCode::GtEq => gt_eq(&left, &right),
        OpCode::Union => union(left, right),
        OpCode::Add => crate::builtin::intrinsic::operations::add(left, right),
        OpCode::Subtract => subtract(&left, &right),
        OpCode::Multiply => multiply(&left, &right),
        _ => divide(&left, &right),
    };
    assert(binary_outcome(op, l, r, result));
    match result {
        Ok(v) => {
            state.data_stack.push(v);
            state.frame.instruction = state.frame.instruction + 1;
            assert(replaced_two(s0, v, state@));
        },
        Err(e) => {
            state.flow = Flow::Throwing(e);
            assert(throwing_two(s0, e, state@));
        },
    }
    StepAction::Continue
}


/// The instructions that move values between the data stack and the slots.
fn variable_step(state: &mut MachineState, op: OpCode) -> (a: StepAction)
    requires
        is_variable_op(op),
        old(state).frame.instruction < usize::MAX,
    ensures
        variable_taken(old(state)@, op, final(state)@, a.outcome()),
{
    let ghost s0 = state@;
    let next = state.frame.instruction + 1;
    match op {
        OpCode::InitializeSharedLocal(i) => {
            if i < state.frame.shared.len() && state.cells.len() < usize::MAX {
                let cell = state.cells.len();
                state.cells.push(Value::Nothing);
                state.frame.shared.set(i, cell);
                state.frame.instruction = next;
                StepAction::Continue
            } else {
                StepAction::Fault
            }
        },
        OpCode::StoreLocal(i) => {
            if i < state.frame.locals.len() && state.data_stack.len() > 0 {
                let v = state.data_stack.pop().unwrap();
                state.frame.locals.set(i, v);
                state.frame.instruction = next;
                proof {
                    assert(state@ == advanced(popped(with_locals(s0, s0.frame.locals.update(i as int, s0.data_stack.last())))));
                }
                StepAction::Continue
            } else {
                StepAction::Fault
            }
        },
        OpCode::LoadLocal(i) => {
            if i < state.frame.locals.len() {
                let v = state.frame.locals[i].copy();
                state.data_stack.push(v);
                state.frame.instruction = next;
                StepAction::Continue
            } else {
                StepAction::Fault
            }
        },
        OpCode::StoreSharedLocal(i) => {
            if i < state.frame.shared.len() && state.frame.shared[i] < state.cells.len() && state.data_stack.len() > 0 {
                let v = state.data_stack.pop().unwrap();
                let cell = state.frame.shared[i];
                state.cells.set(cell, v);
                state.frame.instruction = next;
                proof {
                    assert(state@ == advanced(popped(with_cells(s0, s0.cells.update(cell as int, s0.data_stack.last())))));
                }
                StepAction::Continue
            } else {
                StepAction::Fault
            }
        },
        OpCode::LoadSharedLocal(i) => {
            if i < state.frame.shared.len() && state.frame.shared[i] < state.cells.len() {
                let v = state.cells[state.frame.shared[i]].copy();
                state.data_stack.push(v);
                state.frame.instruction = next;
                StepAction::Continue
            } else {
                StepAction::Fault
            }
        },
        OpCode::StoreStaticBound(i) => match state.frame.function {
            Some(g) => {
                if g < state.functions.len() && i < state.functions[g].static_bound.len() && state.data_stack.len() > 0 {
                    let v = state.data_stack.pop().unwrap();
                    state.functions[g].static_bound.set(i, v);
                    state.frame.instruction = next;
                    proof {
                        let c = s0.functions[g as int];
                        assert(state@.functions =~= s0.functions.update(g as int,
                            FunctionView { static_bound: c.static_bound.update(i as int, s0.data_stack.last()), ..c }));
                    }
                    StepAction::Continue
                } else {
                    StepAction::Fault
                }
            },
            None => StepAction::Fault,
        },
        OpCode::LoadStaticBound(i) => match state.frame.function {
            Some(g) => {
                if g < state.functions.len() && i < state.functions[g].static_bound.len() {
                    let v = state.functions[g].static_bound[i].copy();
                    state.data_stack.push(v);
                    state.frame.instruction = next;
                    StepAction::Continue
                } else {
                    StepAction::Fault
                }
            },
            None => StepAction::Fault,
        },
        OpCode::StoreSharedBound(i) => match state.frame.function {
            Some(g) => {
                if g < state.functions.len() && i < state.functions[g].shared_bound.len()
                    && state.functions[g].shared_bound[i] < state.cells.len() && state.data_stack.len() > 0 {
                    let v = state.data_stack.pop().unwrap();
                    let cell = state.functions[g].shared_bound[i];
                    state.cells.set(cell, v);
                    state.frame.instruction = next;
                    proof {
                        assert(state@ == advanced(popped(with_cells(s0, s0.cells.update(cell as int, s0.data_stack.last())))));
                    }
                    StepAction::Continue
                } else {
                    StepAction::Fault
                }
            },
            None => StepAction::Fault,
        },
        OpCode::LoadSharedBound(i) => match state.frame.function {
            Some(g) => {
                if g < state.functions.len() && i < state.functions[g].shared_bound.len()
                    && state.functions[g].shared_bound[i] < state.cells.len() {
                    let v = state.cells[state.functions[g].shared_bound[i]].copy();
                    state.data_stack.push(v);
                    state.frame.instruction = next;
                    StepAction::Continue
                } else {
                    StepAction::Fault
                }
            },
            None => StepAction::Fault,
        },
        _ => StepAction::Fault,
    }
}


/// Takes the value being caught out of the flow, which becomes `Running`.
fn take_caught(state: &mut MachineState) -> (c: Value)
    requires
        old(state).flow is Catching,
    ensures
        old(state).flow == Flow::Catching(c),
        final(state)@ == with_flow(old(state)@, Flow::Running),
{
    let mut taken = Flow::Running;
    std::mem::swap(&mut taken, &mut state.flow);
    match taken {
        Flow::Catching(c) => c,
        _ => Value::Nothing,
    }
}

/// The instructions of `try`, `catch`, `finally` and `throw`.
fn handler_step(state: &mut MachineState, op: OpCode) -> (a: StepAction)
    requires
        is_handler_op(op),
        old(state).frame.instruction < usize::MAX,
    ensures
        handler_taken(old(state)@, op, final(state)@, a.outcome()),
{
    let ghost s0 = state@;
    let next = state.frame.instruction + 1;
    match op {
        OpCode::PushStartCatchFlowPoint { instruction } => {
            state.flow_points.push(FlowPoint::StartCatch { instruction });
            state.frame.instruction = next;
            StepAction::Continue
        },
        OpCode::PushStartFinallyFlowPoint { instruction } => {
            state.flow_points.push(FlowPoint::StartFinally { instruction });
            state.frame.instruction = next;
            StepAction::Continue
        },
        OpCode::Throw => {
            if state.data_stack.len() == 0 {
                return StepAction::Fault;
            }
            let v = state.data_stack.pop().unwrap();
            if is_throwable(&v) {
                state.flow = Flow::Throwing(v);
            } else {
                let mut message = repr(&v);
                message.append(" is not Throwable.");
                proof {
                    reveal_strlit(" is not Throwable.");
                }
                state.flow = Flow::Throwing(create_type_error(message));
            }
            StepAction::Continue
        },
        OpCode::ThrownIs => {
            if !matches!(state.flow, Flow::Catching(_)) || state.data_stack.len() == 0 {
                return StepAction::Fault;
            }
            let type_ = state.data_stack.pop().unwrap();
            let result = match &state.flow {
                Flow::Catching(c) => is(c, &type_),
                _ => Ok(Value::Nothing),
            };
            match result {
                Ok(b) => {
                    state.data_stack.push(b);
                    state.frame.instruction = next;
                },
                Err(e) => {
                    state.flow = Flow::Throwing(e);
                },
            }
            StepAction::Continue
        },
        OpCode::CatchLocalOrJump { storage_index, instruction } => {
            if !matches!(state.flow, Flow::Catching(_)) || state.data_stack.len() == 0 || storage_index >= state.frame.locals.len() {
                return StepAction::Fault;
            }
            let test = state.data_stack.pop().unwrap();
            if is_truthy(&test) {
                let c = take_caught(state);
                state.frame.locals.set(storage_index, c);
                state.frame.instruction = next;
                proof {
                    assert(state@ == advanced(popped(caught_local(s0, storage_index, c))));
                }
            } else {
                state.frame.instruction = instruction;
            }
            StepAction::Continue
        },
        OpCode::CatchSharedLocalOrJump { storage_index, instruction } => {
            if !matches!(state.flow, Flow::Catching(_)) || state.data_stack.len() == 0 || storage_index >= state.frame.shared.len()
                || state.frame.shared[storage_index] >= state.cells.len() {
                return StepAction::Fault;
            }
            let test = state.data_stack.pop().unwrap();
            if is_truthy(&test) {
                let c = take_caught(state);
                let cell = state.frame.shared[storage_index];
                state.cells.set(cell, c);
                state.frame.instruction = next;
                proof {
                    assert(state@ == advanced(popped(caught_shared(s0, storage_index, c))));
                }
            } else {
                state.frame.instruction = instruction;
            }
            StepAction::Continue
        },
        OpCode::CatchLocal { storage_index } => {
            if !matches!(state.flow, Flow::Catching(_)) || storage_index >= state.frame.locals.len() {
                return StepAction::Fault;
            }
            let c = take_caught(state);
            state.frame.locals.set(storage_index, c);
            state.frame.instruction = next;
            proof {
                assert(state@ == advanced(caught_local(s0, storage_index, c)));
            }
            StepAction::Continue
        },
        OpCode::CatchSharedLocal { storage_index } => {
            if !matches!(state.flow, Flow::Catching(_)) || storage_index >= state.frame.shared.len()
                || state.frame.shared[storage_index] >= state.cells.len() {
                return StepAction::Fault;
            }
            let c = take_caught(state);
            let cell = state.frame.shared[storage_index];
            state.cells.set(cell, c);
            state.frame.instruction = next;
            proof {
                assert(state@ == advanced(caught_shared(s0, storage_index, c)));
            }
            StepAction::Continue
        },
        OpCode::CatchOrJump { instruction } => {
            if !matches!(state.flow, Flow::Catching(_)) || state.data_stack.len() == 0 || state.frame.locals.len() == 0 {
                return StepAction::Fault;
            }
            let type_ = state.data_stack.pop().unwrap();
            let result = match &state.flow {
                Flow::Catching(c) => is(c, &type_),
                _ => Ok(Value::Nothing),
            };
            match result {
                Ok(Value::Boolean(true)) => {
                    let c = take_caught(state);
                    state.frame.locals.set(0, c);
                    state.frame.instruction = next;
                    proof {
                        assert(state@ == advanced(popped(caught_local(s0, 0, c))));
                    }
                },
                Ok(_) => {
                    state.frame.instruction = instruction;
                },
                Err(e) => {
                    state.flow = Flow::Throwing(e);
                },
            }
            StepAction::Continue
        },
        OpCode::Catch => {
            if !matches!(state.flow, Flow::Catching(_)) || state.frame.locals.len() == 0 {
                return StepAction::Fault;
            }
            let c = take_caught(state);
            state.frame.locals.set(0, c);
            state.frame.instruction = next;
            proof {
                assert(state@ == advanced(caught_local(s0, 0, c)));
            }
            StepAction::Continue
        },
        OpCode::Rethrow => {
            if !matches!(state.flow, Flow::Catching(_)) {
                return StepAction::Fault;
            }
            let c = take_caught(state);
            state.flow = Flow::Throwing(c);
            StepAction::Continue
        },
        OpCode::StartFinally => {
            state.flow_points.pop();
            state.suppressed_flows.push(Flow::Running);
            state.flow_points.push(FlowPoint::PopSuppressedFlow);
            state.frame.instruction = next;
            StepAction::Continue
        },
        OpCode::EndFinally => {
            if state.suppressed_flows.len() == 0 {
                return StepAction::Fault;
            }
            state.flow_points.pop();
            let resumed = state.suppressed_flows.pop().unwrap();
            let running = matches!(resumed, Flow::Running);
            state.flow = resumed;
            if running {
                state.frame.instruction = next;
            }
            StepAction::Continue
        },
        _ => StepAction::Fault,
    }
}


/// The other instructions.
fn plain_step(state: &mut MachineState, code: &Code, implicit: &Module, op: OpCode) -> (a: StepAction)
    requires
        !is_binary(op),
        !is_variable_op(op),
        !is_handler_op(op),
        old(state).frame.instruction < usize::MAX,
    ensures
        plain_taken(old(state)@, *code, *implicit, op, final(state)@, a.outcome()),
{
    let ghost s0 = state@;
    let next = state.frame.instruction + 1;
    match op {
        OpCode::Print => {
            if state.data_stack.len() == 0 {
                return StepAction::Fault;
            }
            if matches!(state.data_stack[state.data_stack.len() - 1], Value::Float(_)) {
                return StepAction::Unsupported;
            }
            let v = state.data_stack.pop().unwrap();
            state.frame.instruction = next;
            StepAction::Print(to_string(&v))
        },
        OpCode::ToString => {
            if state.data_stack.len() == 0 {
                return StepAction::Fault;
            }
            if matches!(state.data_stack[state.data_stack.len() - 1], Value::Float(_)) {
                return StepAction::Unsupported;
            }
            let v = state.data_stack.pop().unwrap();
            let text = to_string(&v);
            state.data_stack.push(Value::String(crate::lang::string::String::new(text)));
            state.frame.instruction = next;
            StepAction::Continue
        },
        OpCode::Nop => {
            state.frame.instruction = next;
            StepAction::Continue
        },
        OpCode::PopFlowPoint => {
            state.flow_points.pop();
            state.frame.instruction = next;
            StepAction::Continue
        },
        OpCode::Jump { instruction } => {
            state.frame.instruction = instruction;
            StepAction::Continue
        },
        OpCode::JumpIfPopFalsy { instruction } => {
            if state.data_stack.len() == 0 {
                return StepAction::Fault;
            }
            let v = state.data_stack.pop().unwrap();
            if is_truthy(&v) {
                state.frame.instruction = next;
            } else {
                state.frame.instruction = instruction;
            }
            StepAction::Continue
        },
        OpCode::FlowJump { n_flow_points, instruction } => {
            state.flow = Flow::Jumping { n_flow_points, instruction };
            StepAction::Continue
        },
        OpCode::Call { n_arguments } => call_step(state, n_arguments),
        OpCode::Return => {
            if state.data_stack.len() == 0 {
                return StepAction::Fault;
            }
            if state.frames.len() == 0 {
                return StepAction::Done;
            }
            let v = state.data_stack.pop().unwrap();
            state.flow = Flow::Returning(v);
            StepAction::Continue
        },
        OpCode::ReturnNothing => {
            if state.frames.len() == 0 {
                return StepAction::Done;
            }
            state.flow = Flow::Returning(Value::Nothing);
            StepAction::Continue
        },
        OpCode::Pop => {
            state.data_stack.pop();
            state.frame.instruction = next;
            StepAction::Continue
        },
        OpCode::PushFunction { index } => push_function_step(state, code, index),
        OpCode::PushString { index } => {
            if index >= code.strings.len() {
                return StepAction::Fault;
            }
            let text = (*code.strings[index]).clone();
            state.data_stack.push(Value::String(crate::lang::string::String::new(text)));
            state.frame.instruction = next;
            StepAction::Continue
        },
        OpCode::PushFloat { bits } => {
            state.data_stack.push(Value::Float(bits));
            state.frame.instruction = next;
            StepAction::Continue
        },
        OpCode::PushInteger { value } => {
            state.data_stack.push(Value::Integer(value));
            state.frame.instruction = next;
            StepAction::Continue
        },
        OpCode::PushBoolean { value } => {
            state.data_stack.push(Value::Boolean(value));
            state.frame.instruction = next;
            StepAction::Continue
        },
        OpCode::PushNothing => {
            state.data_stack.push(Value::Nothing);
            state.frame.instruction = next;
            StepAction::Continue
        },
        OpCode::InlinedModule { module } => {
            state.data_stack.push(Value::Module(module));
            state.frame.instruction = next;
            StepAction::Continue
        },
        OpCode::Use { operation } => {
            state.frame.instruction = next;
            StepAction::Use { operation }
        },
        OpCode::LoadImplicit { name } => {
            match implicit.find_id(name) {
                Ok(v) => {
                    state.data_stack.push(v);
                    state.frame.instruction = next;
                },
                Err(e) => {
                    state.flow = Flow::Throwing(e);
                },
            }
            StepAction::Continue
        },
        OpCode::GetProperty { .. } | OpCode::SetProperty { .. } => StepAction::Unsupported,
        _ => StepAction::Fault,
    }
}

/// Whether each parameter names a slot of a frame with these counts.
fn check_parameters(def: &FunctionDefinition, n_local: usize, n_shared: usize) -> (r: bool)
    ensures
        r == parameters_fit(def.parameters@, n_local, n_shared),
{
    let mut k: usize = 0;
    while k < def.parameters.len()
        invariant
            k <= def.parameters@.len(),
            forall|j: int| 0 <= j < k ==> match (#[trigger] def.parameters@[j]).storage {
                FunctionParameterStorage::LocalFunctionParameterStorage(i) => i < n_local,
                FunctionParameterStorage::SharedLocalFunctionParameterStorage(i) => i < n_shared,
            },
        decreases def.parameters@.len() - k,
    {
        let fits = match def.parameters[k].storage {
            FunctionParameterStorage::LocalFunctionParameterStorage(i) => i < n_local,
            FunctionParameterStorage::SharedLocalFunctionParameterStorage(i) => i < n_shared,
        };
        if !fits {
            return false;
        }
        k += 1;
    }
    true
}

/// `n` fresh cells holding nothing, added to `cells`, and their numbers.
fn fresh_cells(cells: &mut Vec<Value>, n: usize) -> (numbers: Vec<usize>)
    requires
        old(cells)@.len() + n <= usize::MAX,
    ensures
        final(cells)@ == old(cells)@ + Seq::new(n as nat, |k: int| Value::Nothing),
        numbers@ == cell_range(old(cells)@.len() as int, n as int),
{
    let base = cells.len();
    let mut numbers: Vec<usize> = Vec::new();
    let mut k: usize = 0;
    while k < n
        invariant
            k <= n,
            base == old(cells)@.len(),
            base + n <= usize::MAX,
            cells@ == old(cells)@ + Seq::new(k as nat, |j: int| Value::Nothing),
            numbers@ == cell_range(base as int, k as int),
        decreases n - k,
    {
        cells.push(Value::Nothing);
        numbers.push(base + k);
        k += 1;
        proof {
            assert(cells@ =~= old(cells)@ + Seq::new(k as nat, |j: int| Value::Nothing));
            assert(numbers@ =~= cell_range(base as int, k as int));
        }
    }
    numbers
}

/// `Call`: a new frame for the function under the `n` arguments.
fn call_step(state: &mut MachineState, n: usize) -> (a: StepAction)
    requires
        old(state).frame.instruction < usize::MAX,
    ensures
        call_taken(old(state)@, n, final(state)@, a.outcome()),
{
    let ghost s0 = state@;
    let len = state.data_stack.len();
    if n >= len {
        return StepAction::Fault;
    }
    let below = len - n - 1;
    let f = match state.data_stack[below] {
        Value::Function(f) => f,
        _ => {
            return StepAction::Fault;
        },
    };
    if f >= state.functions.len() {
        return StepAction::Fault;
    }
    let def = Rc::clone(&state.functions[f].definition);
    assert(*def == s0.functions[f as int].definition);
    let n_local = def.code.n_local_variables;
    let n_shared = def.code.n_shared_local_variables;
    if def.parameters.len() != n || !check_parameters(&def, n_local, n_shared) || state.cells.len() > usize::MAX - n_shared {
        return StepAction::Fault;
    }
    let base = state.cells.len();
    let ghost params = def.parameters@;
    let ghost args = s0.data_stack.skip(below + 1);
    let ghost l0 = Seq::new(n_local as nat, |k: int| Value::Nothing);
    let mut locals = nothing_slots(n_local);
    proof {
        assert(locals@ =~= l0);
    }
    let shared = fresh_cells(&mut state.cells, n_shared);
    let ghost c0 = state.cells@;
    let mut k: usize = n;
    proof {
        assert(params.take(n as int) =~= params);
        assert(args.take(n as int) =~= args);
        assert(state.data_stack@ =~= s0.data_stack.take(below + 1 + n));
    }
    while k > 0
        invariant
            k <= n,
            n == params.len(),
            params == def.parameters@,
            args.len() == n,
            args == s0.data_stack.skip(below + 1),
            below + n + 1 == s0.data_stack.len(),
            parameters_fit(params, n_local, n_shared),
            locals@.len() == n_local,
            state.cells@.len() == base + n_shared,
            base + n_shared <= usize::MAX,
            base == s0.cells.len(),
            state.data_stack@ == s0.data_stack.take(below + 1 + k),
            parameters_stored(params, args, l0, c0, base as int)
                == parameters_stored(params.take(k as int), args.take(k as int), locals@, state.cells@, base as int),
            state.frame == old(state).frame,
            state.frames == old(state).frames,
            state.functions == old(state).functions,
            state.flow == old(state).flow,
            state.flow_points == old(state).flow_points,
            state.suppressed_flows == old(state).suppressed_flows,
        decreases k,
    {
        let arg = state.data_stack.pop().unwrap();
        proof {
            assert(arg == args[k - 1]);
            assert(params.take(k as int).last() == params[k - 1]);
            assert(args.take(k as int).last() == args[k - 1]);
            assert(params.take(k as int).drop_last() =~= params.take(k - 1));
            assert(args.take(k as int).drop_last() =~= args.take(k - 1));
            assert(state.data_stack@ =~= s0.data_stack.take(below + 1 + k - 1));
            assert(parameters_fit(params, n_local, n_shared) ==> match params[k - 1].storage {
                FunctionParameterStorage::LocalFunctionParameterStorage(i) => i < n_local,
                FunctionParameterStorage::SharedLocalFunctionParameterStorage(i) => i < n_shared,
            });
        }
        match def.parameters[k - 1].storage {
            FunctionParameterStorage::LocalFunctionParameterStorage(i) => {
                locals.set(i, arg);
            },
            FunctionParameterStorage::SharedLocalFunctionParameterStorage(i) => {
                state.cells.set(base + i, arg);
            },
        }
        k -= 1;
    }
    state.data_stack.pop();
    proof {
        assert(params.take(0) =~= Seq::<crate::lang::function::FunctionParameterDefinition>::empty());
        assert(state.data_stack@ =~= s0.data_stack.take(below as int));
    }
    state.frame.instruction = state.frame.instruction + 1;
    let mut callee = MachineFrame { function: Some(f), instruction: 0, locals, shared };
    std::mem::swap(&mut callee, &mut state.frame);
    state.frames.push(callee);
    state.flow_points.push(FlowPoint::PopFrame { data_stack_len: below });
    proof {
        assert(state@.frames =~= s0.frames.push(advanced(s0).frame));
    }
    StepAction::Continue
}

/// Whether each binding reads a slot that the current frame (or its closure)
/// has and writes one that the new closure has.
fn check_bindings(state: &MachineState, def: &FunctionDefinition, n_static: usize, n_shared: usize) -> (r: bool)
    ensures
        r == bindings_fit(state@, def.bindings@, n_static as int, n_shared as int),
{
    let mut k: usize = 0;
    while k < def.bindings.len()
        invariant
            k <= def.bindings@.len(),
            forall|j: int| 0 <= j < k ==> match #[trigger] def.bindings@[j] {
                FunctionBindingDefinition::LocalToStaticBoundBinding(from, to) => from < state@.frame.locals.len() && to < n_static,
                FunctionBindingDefinition::SharedLocalToSharedBoundBinding(from, to) => from < state@.frame.shared.len() && to < n_shared,
                FunctionBindingDefinition::StaticBoundToStaticBoundBinding(from, to) => state@.frame.function matches Some(g)
                    && g < state@.functions.len() && from < state@.functions[g as int].static_bound.len() && to < n_static,
                FunctionBindingDefinition::SharedBoundToSharedBoundBinding(from, to) => state@.frame.function matches Some(g)
                    && g < state@.functions.len() && from < state@.functions[g as int].shared_bound.len() && to < n_shared,
            },
        decreases def.bindings@.len() - k,
    {
        let fits = match def.bindings[k] {
            FunctionBindingDefinition::LocalToStaticBoundBinding(from, to) => from < state.frame.locals.len() && to < n_static,
            FunctionBindingDefinition::SharedLocalToSharedBoundBinding(from, to) => from < state.frame.shared.len() && to < n_shared,
            FunctionBindingDefinition::StaticBoundToStaticBoundBinding(from, to) => match state.frame.function {
                Some(g) => g < state.functions.len() && from < state.functions[g].static_bound.len() && to < n_static,
                None => false,
            },
            FunctionBindingDefinition::SharedBoundToSharedBoundBinding(from, to) => match state.frame.function {
                Some(g) => g < state.functions.len() && from < state.functions[g].shared_bound.len() && to < n_shared,
                None => false,
            },
        };
        if !fits {
            return false;
        }
        k += 1;
    }
    true
}

/// `PushFunction`: a closure of function definition `index` of `code`.
fn push_function_step(state: &mut MachineState, code: &Code, index: usize) -> (a: StepAction)
    requires
        old(state).frame.instruction < usize::MAX,
    ensures
        push_function_taken(old(state)@, *code, index, final(state)@, a.outcome()),
{
    let ghost s0 = state@;
    if index >= code.functions.len() {
        return StepAction::Fault;
    }
    let def = Rc::clone(&code.functions[index]);
    let n_static = def.n_static_bound_variables;
    let n_bindings = def.bindings.len();
    if n_static > n_bindings {
        return StepAction::Fault;
    }
    let n_shared = n_bindings - n_static;
    if !check_bindings(state, &def, n_static, n_shared) || state.cells.len() > usize::MAX - n_shared
        || state.functions.len() == usize::MAX {
        return StepAction::Fault;
    }
    let ghost bindings = def.bindings@;
    let ghost own = own_closure(s0);
    let ghost st0 = Seq::new(n_static as nat, |k: int| Value::Nothing);
    let mut statics = nothing_slots(n_static);
    let mut shared = fresh_cells(&mut state.cells, n_shared);
    let ghost sh0 = shared@;
    proof {
        assert(statics@ =~= st0);
        assert(bindings.take(0) =~= Seq::<FunctionBindingDefinition>::empty());
    }
    let mut k: usize = 0;
    while k < n_bindings
        invariant
            k <= n_bindings,
            n_bindings == bindings.len(),
            bindings == def.bindings@,
            bindings_fit(s0, bindings, n_static as int, n_shared as int),
            statics@.len() == n_static,
            shared@.len() == n_shared,
            (statics@, shared@) == bindings_captured(s0.frame, own, bindings.take(k as int), st0, sh0),
            own == own_closure(s0),
            state.frame == old(state).frame,
            state.functions == old(state).functions,
            s0 == old(state)@,
        decreases n_bindings - k,
    {
        proof {
            assert(bindings.take(k + 1).drop_last() =~= bindings.take(k as int));
            assert(bindings.take(k + 1).last() == bindings[k as int]);
            assert(match bindings[k as int] {
                FunctionBindingDefinition::LocalToStaticBoundBinding(from, to) => from < s0.frame.locals.len() && to < n_static,
                FunctionBindingDefinition::SharedLocalToSharedBoundBinding(from, to) => from < s0.frame.shared.len() && to < n_shared,
                FunctionBindingDefinition::StaticBoundToStaticBoundBinding(from, to) => s0.frame.function matches Some(g)
                    && g < s0.functions.len() && from < s0.functions[g as int].static_bound.len() && to < n_static,
                FunctionBindingDefinition::SharedBoundToSharedBoundBinding(from, to) => s0.frame.function matches Some(g)
                    && g < s0.functions.len() && from < s0.functions[g as int].shared_bound.len() && to < n_shared,
            });
        }
        match def.bindings[k] {
            FunctionBindingDefinition::LocalToStaticBoundBinding(from, to) => {
                let v = state.frame.locals[from].copy();
                statics.set(to, v);
            },
            FunctionBindingDefinition::SharedLocalToSharedBoundBinding(from, to) => {
                let cell = state.frame.shared[from];
                shared.set(to, cell);
            },
            FunctionBindingDefinition::StaticBoundToStaticBoundBinding(from, to) => {
                let g = state.frame.function.unwrap();
                let v = state.functions[g].static_bound[from].copy();
                statics.set(to, v);
            },
            FunctionBindingDefinition::SharedBoundToSharedBoundBinding(from, to) => {
                let g = state.frame.function.unwrap();
                let cell = state.functions[g].shared_bound[from];
                shared.set(to, cell);
            },
        }
        k += 1;
    }
    proof {
        assert(bindings.take(n_bindings as int) =~= bindings);
    }
    let id = state.functions.len();
    state.functions.push(HeapFunction { definition: def, static_bound: statics, shared_bound: shared });
    state.data_stack.push(Value::Function(id));
    state.frame.instruction = state.frame.instruction + 1;
    proof {
        assert(state@.functions =~= s0.functions.push(FunctionView {
            definition: *code.functions@[index as int],
            static_bound: statics@,
            shared_bound: shared@,
        }));
    }
    StepAction::Continue
}


/// Which flow point is last, with its field.
enum LastPoint {
    Empty,
    StartCatch(usize),
    StartFinally(usize),
    PopFrame(usize),
    PopFrameAndRestoreFlow(usize),
    PopSuppressedFlow,
}

fn last_point(state: &MachineState) -> (p: LastPoint)
    ensures
        state.flow_points@.len() == 0 <==> p is Empty,
        state.flow_points@.len() > 0 ==> match state.flow_points@.last() {
            FlowPoint::StartCatch { instruction } => p == LastPoint::StartCatch(instruction),
            FlowPoint::StartFinally { instruction } => p == LastPoint::StartFinally(instruction),
            FlowPoint::PopFrame { data_stack_len } => p == LastPoint::PopFrame(data_stack_len),
            FlowPoint::PopFrameAndRestoreFlow { data_stack_len } => p == LastPoint::PopFrameAndRestoreFlow(data_stack_len),
            FlowPoint::PopSuppressedFlow => p == LastPoint::PopSuppressedFlow,
        },
{
    let n = state.flow_points.len();
    if n == 0 {
        return LastPoint::Empty;
    }
    match &state.flow_points[n - 1] {
        FlowPoint::StartCatch { instruction } => LastPoint::StartCatch(*instruction),
        FlowPoint::StartFinally { instruction } => LastPoint::StartFinally(*instruction),
        FlowPoint::PopFrame { data_stack_len } => LastPoint::PopFrame(*data_stack_len),
        FlowPoint::PopFrameAndRestoreFlow { data_stack_len } => LastPoint::PopFrameAndRestoreFlow(*data_stack_len),
        FlowPoint::PopSuppressedFlow => LastPoint::PopSuppressedFlow,
    }
}

/// Takes the flow, which becomes `Running`.
fn take_flow(state: &mut MachineState) -> (f: Flow)
    ensures
        f == old(state).flow,
        final(state)@ == with_flow(old(state)@, Flow::Running),
{
    let mut taken = Flow::Running;
    std::mem::swap(&mut taken, &mut state.flow);
    taken
}

/// Enters a `finally` block at `instruction`, with `suppressed` to resume
/// after it.
fn enter_finally(state: &mut MachineState, suppressed: Flow, instruction: usize)
    requires
        old(state).flow_points@.len() > 0,
    ensures
        final(state)@ == into_finally(old(state)@, suppressed, instruction),
{
    state.flow_points.pop();
    state.flow_points.push(FlowPoint::PopSuppressedFlow);
    state.suppressed_flows.push(suppressed);
    state.flow = Flow::Running;
    state.frame.instruction = instruction;
}

/// Goes back to the calling frame, cutting the data stack to `n` values and
/// dropping the last flow point.
fn leave_frame(state: &mut MachineState, n: usize)
    requires
        old(state).frames@.len() > 0,
        old(state).flow_points@.len() > 0,
    ensures
        final(state)@ == frame_popped(old(state)@, n),
{
    let ghost s0 = state@;
    let caller = state.frames.pop().unwrap();
    state.frame = caller;
    state.data_stack.truncate(n);
    state.flow_points.pop();
    proof {
        assert(state@.frames =~= s0.frames.drop_last());
        assert(state@.data_stack =~= truncated(s0.data_stack, n));
    }
}

/// Unwinds a return by one flow point.
fn unwind_return(state: &mut MachineState) -> (a: StepAction)
    requires
        old(state).flow is Returning,
    ensures
        return_taken(old(state)@, old(state).flow->Returning_0, final(state)@, a.outcome()),
{
    let ghost s0 = state@;
    match last_point(state) {
        LastPoint::Empty => StepAction::Fault,
        LastPoint::StartCatch(_) => {
            state.flow_points.pop();
            StepAction::Continue
        },
        LastPoint::StartFinally(i) => {
            let f = take_flow(state);
            enter_finally(state, f, i);
            StepAction::Continue
        },
        LastPoint::PopFrame(n) => {
            if state.frames.len() == 0 {
                return StepAction::Fault;
            }
            let f = take_flow(state);
            let v = match f {
                Flow::Returning(v) => v,
                _ => Value::Nothing,
            };
            leave_frame(state, n);
            state.data_stack.push(v);
            StepAction::Continue
        },
        LastPoint::PopFrameAndRestoreFlow(n) => {
            if state.frames.len() == 0 || state.suppressed_flows.len() == 0 {
                return StepAction::Fault;
            }
            let f = take_flow(state);
            let v = match f {
                Flow::Returning(v) => v,
                _ => Value::Nothing,
            };
            leave_frame(state, n);
            state.data_stack.push(v);
            let restored = state.suppressed_flows.pop().unwrap();
            state.flow = restored;
            StepAction::Continue
        },
        LastPoint::PopSuppressedFlow => {
            state.suppressed_flows.pop();
            state.flow_points.pop();
            StepAction::Continue
        },
    }
}

/// Unwinds a throw by one flow point.
fn unwind_throw(state: &mut MachineState) -> (a: StepAction)
    requires
        old(state).flow is Throwing,
    ensures
        throw_taken(old(state)@, old(state).flow->Throwing_0, final(state)@, a.outcome()),
{
    match last_point(state) {
        LastPoint::Empty => {
            let e = match &state.flow {
                Flow::Throwing(e) => e.copy(),
                _ => Value::Nothing,
            };
            StepAction::Uncaught(e)
        },
        LastPoint::StartCatch(i) => {
            let f = take_flow(state);
            let e = match f {
                Flow::Throwing(e) => e,
                _ => Value::Nothing,
            };
            state.flow_points.pop();
            state.flow = Flow::Catching(e);
            state.frame.instruction = i;
            StepAction::Continue
        },
        LastPoint::StartFinally(i) => {
            let f = take_flow(state);
            enter_finally(state, f, i);
            StepAction::Continue
        },
        LastPoint::PopFrame(n) | LastPoint::PopFrameAndRestoreFlow(n) => {
            if state.frames.len() == 0 {
                return StepAction::Fault;
            }
            leave_frame(state, n);
            StepAction::Continue
        },
        LastPoint::PopSuppressedFlow => {
            state.suppressed_flows.pop();
            state.flow_points.pop();
            StepAction::Continue
        },
    }
}

/// Unwinds a jump past `n` flow points to `instruction` by one flow point,
/// or ends it.
fn unwind_jump(state: &mut MachineState, n: usize, instruction: usize) -> (a: StepAction)
    requires
        old(state).flow == (Flow::Jumping { n_flow_points: n, instruction }),
    ensures
        jump_taken(old(state)@, n, instruction, final(state)@, a.outcome()),
{
    if n == 0 {
        state.flow = Flow::Running;
        state.frame.instruction = instruction;
        return StepAction::Continue;
    }
    match last_point(state) {
        LastPoint::StartCatch(_) => {
            state.flow_points.pop();
            state.flow = Flow::Jumping { n_flow_points: n - 1, instruction };
            StepAction::Continue
        },
        LastPoint::StartFinally(i) => {
            enter_finally(state, Flow::Jumping { n_flow_points: n - 1, instruction }, i);
            StepAction::Continue
        },
        LastPoint::PopSuppressedFlow => {
            state.suppressed_flows.pop();
            state.flow_points.pop();
            state.flow = Flow::Jumping { n_flow_points: n - 1, instruction };
            StepAction::Continue
        },
        _ => StepAction::Fault,
    }
}

/// Runs instruction number `frame.instruction` of `code`, the current frame's
/// code.
fn instruction_in(state: &mut MachineState, code: &Code, implicit: &Module) -> (a: StepAction)
    ensures
        old(state).frame.instruction < code.opcodes@.len() ==> op_taken(old(state)@, *code, *implicit,
            code.opcodes@[old(state).frame.instruction as int], final(state)@, a.outcome()),
        old(state).frame.instruction >= code.opcodes@.len() ==> final(state)@ == old(state)@ && a == StepAction::Fault,
{
    if state.frame.instruction >= code.opcodes.len() {
        return StepAction::Fault;
    }
    let op = code.opcodes[state.frame.instruction];
    match op {
        OpCode::Is | OpCode::Eq | OpCode::Neq | OpCode::Lt | OpCode::Gt | OpCode::LtEq | OpCode::GtEq | OpCode::Union
        | OpCode::Add | OpCode::Subtract | OpCode::Multiply | OpCode::Divide => binary_step(state, op),
        OpCode::InitializeSharedLocal(_) | OpCode::StoreLocal(_) | OpCode::LoadLocal(_) | OpCode::StoreSharedLocal(_)
        | OpCode::LoadSharedLocal(_) | OpCode::StoreStaticBound(_) | OpCode::LoadStaticBound(_)
        | OpCode::StoreSharedBound(_) | OpCode::LoadSharedBound(_) => variable_step(state, op),
        OpCode::PushStartCatchFlowPoint { .. } | OpCode::PushStartFinallyFlowPoint { .. } | OpCode::Throw
        | OpCode::ThrownIs | OpCode::CatchLocalOrJump { .. } | OpCode::CatchSharedLocalOrJump { .. }
        | OpCode::CatchLocal { .. } | OpCode::CatchSharedLocal { .. } | OpCode::CatchOrJump { .. } | OpCode::Catch
        | OpCode::Rethrow | OpCode::StartFinally
        | OpCode::EndFinally => handler_step(state, op),
        _ => plain_step(state, code, implicit, op),
    }
}

/// Takes one step: runs the current instruction, when control flows normally
/// or catches, or else unwinds by one flow point.
pub fn step(state: &mut MachineState, root: &Code, implicit: &Module) -> (action: StepAction)
    ensures
        step_taken(old(state)@, *root, *implicit, final(state)@, action.outcome()),
{
    match &state.flow {
        Flow::Returning(_) => {
            return unwind_return(state);
        },
        Flow::Throwing(_) => {
            return unwind_throw(state);
        },
        Flow::Jumping { n_flow_points, instruction } => {
            let (n, i) = (*n_flow_points, *instruction);
            return unwind_jump(state, n, i);
        },
        _ => {},
    }
    match state.frame.function {
        None => instruction_in(state, root, implicit),
        Some(g) => {
            if g >= state.functions.len() {
                return StepAction::Fault;
            }
            let def = Rc::clone(&state.functions[g].definition);
            instruction_in(state, &def.code, implicit)
        },
    }
}


/// Takes steps until one asks something of the code around the machine (or
/// ends the run), or `budget` steps were taken: what that step asked, and how
/// many steps went before it.
pub fn run(state: &mut MachineState, root: &Code, implicit: &Module, budget: usize) -> (r: (StepAction, usize))
    ensures
        r.1 <= budget,
        !(r.0 is Continue) ==> r.1 < budget,
        r.0 is Continue ==> r.1 == budget && ran(old(state)@, *root, *implicit, final(state)@, budget as nat),
        !(r.0 is Continue) ==> exists|m: MachineView| ran(old(state)@, *root, *implicit, m, r.1 as nat)
            && #[trigger] step_taken(m, *root, *implicit, final(state)@, r.0.outcome()),
{
    let ghost s0 = state@;
    let mut k: usize = 0;
    while k < budget
        invariant
            k <= budget,
            s0 == old(state)@,
            ran(s0, *root, *implicit, state@, k as nat),
        decreases budget - k,
    {
        let ghost m = state@;
        let action = step(state, root, implicit);
        if !matches!(action, StepAction::Continue) {
            proof {
                assert(ran(s0, *root, *implicit, m, k as nat) && step_taken(m, *root, *implicit, state@, action.outcome()));
            }
            return (action, k);
        }
        proof {
            assert(ran(s0, *root, *implicit, m, k as nat) && step_taken(m, *root, *implicit, state@, Outcome::Continue));
            lemma_ran_step(s0, *root, *implicit, m, state@, k as nat);
        }
        k += 1;
    }
    (StepAction::Continue, budget)
}

} // verus!
