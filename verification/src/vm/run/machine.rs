//! The machine that runs compiled code, and what one step of it does.
//!
//! The machine keeps the frames of the calls in progress (the current one
//! apart), the closures it made and the cells that shared variables live in,
//! the data stack, and how control flows: normally, or unwinding to a catch, a
//! `finally`, a return or the target of a jump.

use vstd::prelude::*;
use std::rc::Rc;
use crate::lang::value::Value;
use crate::lang::function::{FunctionDefinition, FunctionParameterDefinition, FunctionParameterStorage, FunctionBindingDefinition};
use crate::vm::bytecode::code::Code;
use crate::lang::module::Module;
use crate::vm::bytecode::opcode::OpCode;
use crate::vm::run::flow::{Flow, FlowPoint};
use crate::builtin::intrinsic::operations::{truthy, text_of, repr_of, is_outcome, is_type_error_saying, float_arithmetic};
use crate::builtin::burn::types::is_throwable_value;
use crate::builtin::burn::implicit::is_type_value;

verus! {

// THE STATE ///////////////////////////////////////////////////////////////////////////////////////

/// A closure made at run time: its definition, its static copies of bound
/// variables, and the cells of its shared ones.
pub struct HeapFunction {
    pub definition: Rc<FunctionDefinition>,
    pub static_bound: Vec<Value>,
    pub shared_bound: Vec<usize>,
}

/// A call in progress: the closure it runs (none for the root code), the
/// instruction it is at, its local slots and the cells of its shared slots.
pub struct MachineFrame {
    pub function: Option<usize>,
    pub instruction: usize,
    pub locals: Vec<Value>,
    pub shared: Vec<usize>,
}

/// The state of the machine.
pub struct MachineState {
    /// The frames of the calls below the current one.
    pub frames: Vec<MachineFrame>,
    pub frame: MachineFrame,
    pub functions: Vec<HeapFunction>,
    pub cells: Vec<Value>,
    pub flow: Flow,
    pub flow_points: Vec<FlowPoint>,
    pub suppressed_flows: Vec<Flow>,
    pub data_stack: Vec<Value>,
}

pub struct FrameView {
    pub function: Option<usize>,
    pub instruction: usize,
    pub locals: Seq<Value>,
    pub shared: Seq<usize>,
}

pub struct FunctionView {
    pub definition: FunctionDefinition,
    pub static_bound: Seq<Value>,
    pub shared_bound: Seq<usize>,
}

pub struct MachineView {
    pub frames: Seq<FrameView>,
    pub frame: FrameView,
    pub functions: Seq<FunctionView>,
    pub cells: Seq<Value>,
    pub flow: Flow,
    pub flow_points: Seq<FlowPoint>,
    pub suppressed_flows: Seq<Flow>,
    pub data_stack: Seq<Value>,
}

impl View for MachineFrame {
    type V = FrameView;

    open spec fn view(&self) -> FrameView {
        FrameView { function: self.function, instruction: self.instruction, locals: self.locals@, shared: self.shared@ }
    }
}

impl View for HeapFunction {
    type V = FunctionView;

    open spec fn view(&self) -> FunctionView {
        FunctionView { definition: *self.definition, static_bound: self.static_bound@, shared_bound: self.shared_bound@ }
    }
}

impl View for MachineState {
    type V = MachineView;

    open spec fn view(&self) -> MachineView {
        MachineView {
            frames: self.frames@.map_values(|f: MachineFrame| f@),
            frame: self.frame@,
            functions: self.functions@.map_values(|f: HeapFunction| f@),
            cells: self.cells@,
            flow: self.flow,
            flow_points: self.flow_points@,
            suppressed_flows: self.suppressed_flows@,
            data_stack: self.data_stack@,
        }
    }
}

/// What a step asks of the code around the machine, or tells it.
pub enum StepAction {
    /// The step was taken.
    Continue,
    /// The step was taken and this text is to be printed.
    Print(std::string::String),
    /// The step was taken and the `use` operation with this index is to be
    /// run; its value is then pushed with `push_value`.
    Use { operation: usize },
    /// The root code returned; the state is unchanged.
    Done,
    /// This value was thrown and nothing caught it; the state is unchanged.
    Uncaught(Value),
    /// The instruction needs what this library does not have (floating
    /// point, properties); the state is unchanged.
    Unsupported,
    /// The state cannot take a step: a frame, instruction, value, slot or
    /// flow point that the step needs is missing, or the instruction stops
    /// the machine; the state is unchanged.
    Fault,
}

/// A step action, with the text to print by its characters.
pub enum Outcome {
    Continue,
    Print(Seq<char>),
    Use(usize),
    Done,
    Uncaught(Value),
    Unsupported,
    Fault,
}

impl StepAction {
    pub open spec fn outcome(&self) -> Outcome {
        match self {
            StepAction::Continue => Outcome::Continue,
            StepAction::Print(s) => Outcome::Print(s@),
            StepAction::Use { operation } => Outcome::Use(*operation),
            StepAction::Done => Outcome::Done,
            StepAction::Uncaught(v) => Outcome::Uncaught(*v),
            StepAction::Unsupported => Outcome::Unsupported,
            StepAction::Fault => Outcome::Fault,
        }
    }
}

// WHAT A STEP DOES ////////////////////////////////////////////////////////////////////////////////

/// The code that frame `f` runs: the root code, or that of its closure.
pub open spec fn frame_code(s: MachineView, root: Code, f: FrameView) -> Option<Code> {
    match f.function {
        None => Some(root),
        Some(i) => if i < s.functions.len() {
            Some(*s.functions[i as int].definition.code)
        } else {
            None
        },
    }
}

/// The instruction the current frame is at.
pub open spec fn current_op(s: MachineView, root: Code) -> Option<OpCode> {
    match frame_code(s, root, s.frame) {
        Some(c) => if s.frame.instruction < c.opcodes@.len() {
            Some(c.opcodes@[s.frame.instruction as int])
        } else {
            None
        },
        None => None,
    }
}

pub open spec fn at(s: MachineView, instruction: int) -> MachineView {
    MachineView { frame: FrameView { instruction: instruction as usize, ..s.frame }, ..s }
}

/// The current frame moved on to the next instruction.
pub open spec fn advanced(s: MachineView) -> MachineView {
    at(s, s.frame.instruction + 1)
}

pub open spec fn pushed(s: MachineView, v: Value) -> MachineView {
    MachineView { data_stack: s.data_stack.push(v), ..s }
}

pub open spec fn popped(s: MachineView) -> MachineView {
    MachineView { data_stack: s.data_stack.drop_last(), ..s }
}

pub open spec fn with_flow(s: MachineView, flow: Flow) -> MachineView {
    MachineView { flow, ..s }
}

pub open spec fn with_locals(s: MachineView, locals: Seq<Value>) -> MachineView {
    MachineView { frame: FrameView { locals, ..s.frame }, ..s }
}

pub open spec fn with_cells(s: MachineView, cells: Seq<Value>) -> MachineView {
    MachineView { cells, ..s }
}

pub open spec fn without_flow_point(s: MachineView) -> MachineView {
    MachineView { flow_points: s.flow_points.drop_last(), ..s }
}

/// The last flow point replaced by one that pops the flow `suppressed`, which
/// a `finally` block runs under and resumes at its end.
pub open spec fn into_finally(s: MachineView, suppressed: Flow, instruction: usize) -> MachineView {
    MachineView {
        flow_points: s.flow_points.drop_last().push(FlowPoint::PopSuppressedFlow),
        suppressed_flows: s.suppressed_flows.push(suppressed),
        flow: Flow::Running,
        frame: FrameView { instruction, ..s.frame },
        ..s
    }
}

/// The first `n` values of `data`, or all of them.
pub open spec fn truncated(data: Seq<Value>, n: usize) -> Seq<Value> {
    if n < data.len() {
        data.take(n as int)
    } else {
        data
    }
}

/// Back in the calling frame, with the data stack cut to `n` values and the
/// last flow point gone.
pub open spec fn frame_popped(s: MachineView, n: usize) -> MachineView {
    MachineView {
        frames: s.frames.drop_last(),
        frame: s.frames.last(),
        data_stack: truncated(s.data_stack, n),
        flow_points: s.flow_points.drop_last(),
        ..s
    }
}

/// `t` is `s` with `v` on the data stack in place of the two values on top,
/// at the next instruction.
pub open spec fn replaced_two(s: MachineView, v: Value, t: MachineView) -> bool {
    t == advanced(pushed(popped(popped(s)), v))
}

/// `t` is `s` without the two values on top and unwinding with `e`.
pub open spec fn throwing_two(s: MachineView, e: Value, t: MachineView) -> bool {
    t == with_flow(popped(popped(s)), Flow::Throwing(e))
}

/// What operator `op` gives for `left` and `right`: a value, or the error it
/// throws.
pub open spec fn binary_outcome(op: OpCode, left: Value, right: Value, r: Result<Value, Value>) -> bool {
    match op {
        OpCode::Is => match is_outcome(left, right) {
            Ok(b) => r == Ok::<Value, Value>(Value::Boolean(b)),
            Err(t) => r matches Err(e) && is_type_error_saying(e, t + " is not a type"@),
        },
        OpCode::Eq | OpCode::Neq | OpCode::Lt | OpCode::Gt | OpCode::LtEq | OpCode::GtEq =>
            r matches Err(e) && is_type_error_saying(e, "Can't compare "@ + repr_of(left) + " and "@ + repr_of(right)),
        OpCode::Union => if !is_type_value(left) {
            r matches Err(e) && is_type_error_saying(e, "Can't create type union: "@ + repr_of(left) + " is not a type"@)
        } else if !is_type_value(right) {
            r matches Err(e) && is_type_error_saying(e, "Can't create type union: "@ + repr_of(right) + " is not a type"@)
        } else {
            r matches Ok(Value::TypeUnion(u)) && u.left == left && u.right == right
        },
        OpCode::Add => match (left, right) {
            (Value::Integer(l), Value::Integer(i)) => r == Ok::<Value, Value>(Value::Integer(l.wrapping_add(i))),
            (Value::String(a), Value::String(b)) => r matches Ok(Value::String(t)) && t@ == a@ + b@,
            _ => if is_type_value(left) && is_type_value(right) {
                r matches Ok(Value::TypeIntersection(t)) && t.left == left && t.right == right
            } else {
                r matches Err(e) && is_type_error_saying(e, "Can't add "@ + repr_of(left) + " and "@ + repr_of(right))
            },
        },
        OpCode::Subtract => match (left, right) {
            (Value::Integer(l), Value::Integer(i)) => r == Ok::<Value, Value>(Value::Integer(l.wrapping_sub(i))),
            _ => r matches Err(e) && is_type_error_saying(e, "Can't subtract "@ + repr_of(left) + " and "@ + repr_of(right)),
        },
        OpCode::Multiply => r matches Err(e) && is_type_error_saying(e, "Can't multiply "@ + repr_of(left) + " and "@ + repr_of(right)),
        OpCode::Divide => r matches Err(e) && is_type_error_saying(e, "Can't divide "@ + repr_of(left) + " and "@ + repr_of(right)),
        _ => false,
    }
}

pub open spec fn is_binary(op: OpCode) -> bool {
    op is Is || op is Eq || op is Neq || op is Lt || op is Gt || op is LtEq || op is GtEq || op is Union || op is Add
        || op is Subtract || op is Multiply || op is Divide
}

/// A binary operator: with two values on the stack, it replaces them by its
/// result or throws its error; on floats, addition and subtraction are not
/// done here.
pub open spec fn binary_taken(s: MachineView, op: OpCode, t: MachineView, o: Outcome) -> bool {
    if s.data_stack.len() < 2 {
        t == s && o == Outcome::Fault
    } else {
        let left = s.data_stack[s.data_stack.len() - 2];
        let right = s.data_stack.last();
        if (op is Add || op is Subtract) && float_arithmetic(left, right) {
            t == s && o == Outcome::Unsupported
        } else {
            &&& o == Outcome::Continue
            &&& {
                ||| (t.data_stack.len() > 0 && replaced_two(s, t.data_stack.last(), t)
                    && binary_outcome(op, left, right, Ok(t.data_stack.last())))
                ||| (t.flow matches Flow::Throwing(e) && throwing_two(s, e, t) && binary_outcome(op, left, right, Err(e)))
            }
        }
    }
}

/// The locals and cells after the arguments `args` were stored in the slots
/// of `params`, the last first, where the new frame's shared slot `k` is cell
/// `base + k`.
pub open spec fn parameters_stored(
    params: Seq<FunctionParameterDefinition>,
    args: Seq<Value>,
    locals: Seq<Value>,
    cells: Seq<Value>,
    base: int,
) -> (Seq<Value>, Seq<Value>)
    decreases params.len(),
{
    if params.len() == 0 || args.len() == 0 {
        (locals, cells)
    } else {
        let (l, c) = match params.last().storage {
            FunctionParameterStorage::LocalFunctionParameterStorage(i) => (locals.update(i as int, args.last()), cells),
            FunctionParameterStorage::SharedLocalFunctionParameterStorage(i) => (locals, cells.update(base + i, args.last())),
        };
        parameters_stored(params.drop_last(), args.drop_last(), l, c, base)
    }
}

/// Each parameter names a slot the function's frame has.
pub open spec fn parameters_fit(params: Seq<FunctionParameterDefinition>, n_local: usize, n_shared: usize) -> bool {
    forall|k: int| 0 <= k < params.len() ==> match (#[trigger] params[k]).storage {
        FunctionParameterStorage::LocalFunctionParameterStorage(i) => i < n_local,
        FunctionParameterStorage::SharedLocalFunctionParameterStorage(i) => i < n_shared,
    }
}

/// `n` cells, from `base` on.
pub open spec fn cell_range(base: int, n: int) -> Seq<usize> {
    Seq::new(n as nat, |k: int| (base + k) as usize)
}

/// `Call`: the function under the `n` arguments on the data stack gets a new
/// frame with fresh slots holding nothing, the arguments in the slots of its
/// parameters, and a flow point that returns to the caller with the data stack
/// as it was below the function.
pub open spec fn call_taken(s: MachineView, n: usize, t: MachineView, o: Outcome) -> bool {
    let len = s.data_stack.len();
    if len < n + 1 {
        t == s && o == Outcome::Fault
    } else {
        let below = len - n - 1;
        match s.data_stack[below] {
            Value::Function(f) => if f < s.functions.len() {
                let def = s.functions[f as int].definition;
                let params = def.parameters@;
                let n_local = def.code.n_local_variables;
                let n_shared = def.code.n_shared_local_variables;
                if params.len() != n || !parameters_fit(params, n_local, n_shared)
                    || s.cells.len() + n_shared > usize::MAX {
                    t == s && o == Outcome::Fault
                } else {
                    let base = s.cells.len() as int;
                    let stored = parameters_stored(
                        params,
                        s.data_stack.skip(below + 1),
                        Seq::new(n_local as nat, |k: int| Value::Nothing),
                        s.cells + Seq::new(n_shared as nat, |k: int| Value::Nothing),
                        base,
                    );
                    &&& o == Outcome::Continue
                    &&& t == MachineView {
                        frames: s.frames.push(advanced(s).frame),
                        frame: FrameView { function: Some(f), instruction: 0, locals: stored.0, shared: cell_range(base, n_shared as int) },
                        cells: stored.1,
                        data_stack: s.data_stack.take(below),
                        flow_points: s.flow_points.push(FlowPoint::PopFrame { data_stack_len: below as usize }),
                        ..s
                    }
                }
            } else {
                t == s && o == Outcome::Fault
            },
            _ => t == s && o == Outcome::Fault,
        }
    }
}

/// The static and shared bound variables of a closure made in frame `frame`
/// (whose own closure, if any, is `own`) after its bindings `bindings` copied
/// them in, in order.
pub open spec fn bindings_captured(
    frame: FrameView,
    own: FunctionView,
    bindings: Seq<FunctionBindingDefinition>,
    statics: Seq<Value>,
    shared: Seq<usize>,
) -> (Seq<Value>, Seq<usize>)
    decreases bindings.len(),
{
    if bindings.len() == 0 {
        (statics, shared)
    } else {
        let (st, sh) = bindings_captured(frame, own, bindings.drop_last(), statics, shared);
        match bindings.last() {
            FunctionBindingDefinition::LocalToStaticBoundBinding(from, to) => (st.update(to as int, frame.locals[from as int]), sh),
            FunctionBindingDefinition::SharedLocalToSharedBoundBinding(from, to) => (st, sh.update(to as int, frame.shared[from as int])),
            FunctionBindingDefinition::StaticBoundToStaticBoundBinding(from, to) => (st.update(to as int, own.static_bound[from as int]), sh),
            FunctionBindingDefinition::SharedBoundToSharedBoundBinding(from, to) => (st, sh.update(to as int, own.shared_bound[from as int])),
        }
    }
}

/// Each binding reads a slot that the frame (or its closure) has and writes
/// one that the new closure has.
pub open spec fn bindings_fit(s: MachineView, bindings: Seq<FunctionBindingDefinition>, n_static: int, n_shared: int) -> bool {
    forall|k: int| 0 <= k < bindings.len() ==> match #[trigger] bindings[k] {
        FunctionBindingDefinition::LocalToStaticBoundBinding(from, to) => from < s.frame.locals.len() && to < n_static,
        FunctionBindingDefinition::SharedLocalToSharedBoundBinding(from, to) => from < s.frame.shared.len() && to < n_shared,
        FunctionBindingDefinition::StaticBoundToStaticBoundBinding(from, to) => s.frame.function matches Some(g)
            && g < s.functions.len() && from < s.functions[g as int].static_bound.len() && to < n_static,
        FunctionBindingDefinition::SharedBoundToSharedBoundBinding(from, to) => s.frame.function matches Some(g)
            && g < s.functions.len() && from < s.functions[g as int].shared_bound.len() && to < n_shared,
    }
}

/// The closure of the current frame, or an empty one.
pub open spec fn own_closure(s: MachineView) -> FunctionView {
    match s.frame.function {
        Some(g) => s.functions[g as int],
        None => FunctionView { definition: arbitrary(), static_bound: Seq::empty(), shared_bound: Seq::empty() },
    }
}

/// `PushFunction`: a closure of function definition `index` of the code,
/// with static slots holding nothing and fresh shared cells holding nothing,
/// then filled by its bindings, is added and pushed.
pub open spec fn push_function_taken(s: MachineView, code: Code, index: usize, t: MachineView, o: Outcome) -> bool {
    if index >= code.functions@.len() {
        t == s && o == Outcome::Fault
    } else {
        let def = *code.functions@[index as int];
        let n_static = def.n_static_bound_variables as int;
        let n_shared = def.bindings@.len() - n_static;
        if n_shared < 0 || !bindings_fit(s, def.bindings@, n_static, n_shared) || s.cells.len() + n_shared > usize::MAX
            || s.functions.len() >= usize::MAX {
            t == s && o == Outcome::Fault
        } else {
            let base = s.cells.len() as int;
            let captured = bindings_captured(s.frame, own_closure(s), def.bindings@,
                Seq::new(n_static as nat, |k: int| Value::Nothing), cell_range(base, n_shared));
            &&& o == Outcome::Continue
            &&& t == advanced(MachineView {
                functions: s.functions.push(FunctionView { definition: def, static_bound: captured.0, shared_bound: captured.1 }),
                cells: s.cells + Seq::new(n_shared as nat, |k: int| Value::Nothing),
                data_stack: s.data_stack.push(Value::Function(s.functions.len() as usize)),
                ..s
            })
        }
    }
}

/// The instructions that move values between the data stack and the slots.
pub open spec fn variable_taken(s: MachineView, op: OpCode, t: MachineView, o: Outcome) -> bool {
    let data = s.data_stack;
    let f = s.frame;
    match op {
        OpCode::InitializeSharedLocal(i) => if i < f.shared.len() && s.cells.len() < usize::MAX {
            o == Outcome::Continue && t == advanced(MachineView {
                cells: s.cells.push(Value::Nothing),
                frame: FrameView { shared: f.shared.update(i as int, s.cells.len() as usize), ..f },
                ..s
            })
        } else {
            t == s && o == Outcome::Fault
        },
        OpCode::StoreLocal(i) => if i < f.locals.len() && data.len() > 0 {
            o == Outcome::Continue && t == advanced(popped(with_locals(s, f.locals.update(i as int, data.last()))))
        } else {
            t == s && o == Outcome::Fault
        },
        OpCode::LoadLocal(i) => if i < f.locals.len() {
            o == Outcome::Continue && t == advanced(pushed(s, f.locals[i as int]))
        } else {
            t == s && o == Outcome::Fault
        },
        OpCode::StoreSharedLocal(i) => if i < f.shared.len() && f.shared[i as int] < s.cells.len() && data.len() > 0 {
            o == Outcome::Continue && t == advanced(popped(with_cells(s, s.cells.update(f.shared[i as int] as int, data.last()))))
        } else {
            t == s && o == Outcome::Fault
        },
        OpCode::LoadSharedLocal(i) => if i < f.shared.len() && f.shared[i as int] < s.cells.len() {
            o == Outcome::Continue && t == advanced(pushed(s, s.cells[f.shared[i as int] as int]))
        } else {
            t == s && o == Outcome::Fault
        },
        OpCode::StoreStaticBound(i) => match f.function {
            Some(g) => if g < s.functions.len() && i < s.functions[g as int].static_bound.len() && data.len() > 0 {
                let c = s.functions[g as int];
                o == Outcome::Continue && t == advanced(popped(MachineView {
                    functions: s.functions.update(g as int, FunctionView { static_bound: c.static_bound.update(i as int, data.last()), ..c }),
                    ..s
                }))
            } else {
                t == s && o == Outcome::Fault
            },
            None => t == s && o == Outcome::Fault,
        },
        OpCode::LoadStaticBound(i) => match f.function {
            Some(g) => if g < s.functions.len() && i < s.functions[g as int].static_bound.len() {
                o == Outcome::Continue && t == advanced(pushed(s, s.functions[g as int].static_bound[i as int]))
            } else {
                t == s && o == Outcome::Fault
            },
            None => t == s && o == Outcome::Fault,
        },
        OpCode::StoreSharedBound(i) => match f.function {
            Some(g) => if g < s.functions.len() && i < s.functions[g as int].shared_bound.len()
                && s.functions[g as int].shared_bound[i as int] < s.cells.len() && data.len() > 0 {
                o == Outcome::Continue && t == advanced(popped(with_cells(s,
                    s.cells.update(s.functions[g as int].shared_bound[i as int] as int, data.last()))))
            } else {
                t == s && o == Outcome::Fault
            },
            None => t == s && o == Outcome::Fault,
        },
        OpCode::LoadSharedBound(i) => match f.function {
            Some(g) => if g < s.functions.len() && i < s.functions[g as int].shared_bound.len()
                && s.functions[g as int].shared_bound[i as int] < s.cells.len() {
                o == Outcome::Continue && t == advanced(pushed(s, s.cells[s.functions[g as int].shared_bound[i as int] as int]))
            } else {
                t == s && o == Outcome::Fault
            },
            None => t == s && o == Outcome::Fault,
        },
        _ => false,
    }
}

pub open spec fn is_variable_op(op: OpCode) -> bool {
    op is InitializeSharedLocal || op is StoreLocal || op is LoadLocal || op is StoreSharedLocal || op is LoadSharedLocal
        || op is StoreStaticBound || op is LoadStaticBound || op is StoreSharedBound || op is LoadSharedBound
}

/// Storing the caught value `c` in local slot `i` ends the catching.
pub open spec fn caught_local(s: MachineView, i: usize, c: Value) -> MachineView {
    with_flow(with_locals(s, s.frame.locals.update(i as int, c)), Flow::Running)
}

/// Storing the caught value `c` in shared slot `i` ends the catching.
pub open spec fn caught_shared(s: MachineView, i: usize, c: Value) -> MachineView {
    with_flow(with_cells(s, s.cells.update(s.frame.shared[i as int] as int, c)), Flow::Running)
}

/// The instructions of `try`, `catch`, `finally` and `throw`.
pub open spec fn handler_taken(s: MachineView, op: OpCode, t: MachineView, o: Outcome) -> bool {
    let data = s.data_stack;
    let f = s.frame;
    match op {
        OpCode::PushStartCatchFlowPoint { instruction } =>
            o == Outcome::Continue && t == advanced(MachineView { flow_points: s.flow_points.push(FlowPoint::StartCatch { instruction }), ..s }),
        OpCode::PushStartFinallyFlowPoint { instruction } =>
            o == Outcome::Continue && t == advanced(MachineView { flow_points: s.flow_points.push(FlowPoint::StartFinally { instruction }), ..s }),
        OpCode::Throw => if data.len() == 0 {
            t == s && o == Outcome::Fault
        } else if is_throwable_value(data.last()) {
            o == Outcome::Continue && t == with_flow(popped(s), Flow::Throwing(data.last()))
        } else {
            &&& o == Outcome::Continue
            &&& t.flow matches Flow::Throwing(e) && t == with_flow(popped(s), t.flow)
                && is_type_error_saying(e, repr_of(data.last()) + " is not Throwable."@)
        },
        OpCode::ThrownIs => match s.flow {
            Flow::Catching(c) => if data.len() == 0 {
                t == s && o == Outcome::Fault
            } else {
                &&& o == Outcome::Continue
                &&& match is_outcome(c, data.last()) {
                    Ok(b) => t == advanced(pushed(popped(s), Value::Boolean(b))),
                    Err(m) => t.flow matches Flow::Throwing(e) && t == with_flow(popped(s), t.flow)
                        && is_type_error_saying(e, m + " is not a type"@),
                }
            },
            _ => t == s && o == Outcome::Fault,
        },
        OpCode::CatchLocalOrJump { storage_index, instruction } => match s.flow {
            Flow::Catching(c) => if data.len() > 0 && storage_index < f.locals.len() {
                o == Outcome::Continue && t == if truthy(data.last()) {
                    advanced(popped(caught_local(s, storage_index, c)))
                } else {
                    at(popped(s), instruction as int)
                }
            } else {
                t == s && o == Outcome::Fault
            },
            _ => t == s && o == Outcome::Fault,
        },
        OpCode::CatchSharedLocalOrJump { storage_index, instruction } => match s.flow {
            Flow::Catching(c) => if data.len() > 0 && storage_index < f.shared.len() && f.shared[storage_index as int] < s.cells.len() {
                o == Outcome::Continue && t == if truthy(data.last()) {
                    advanced(popped(caught_shared(s, storage_index, c)))
                } else {
                    at(popped(s), instruction as int)
                }
            } else {
                t == s && o == Outcome::Fault
            },
            _ => t == s && o == Outcome::Fault,
        },
        OpCode::CatchLocal { storage_index } => match s.flow {
            Flow::Catching(c) => if storage_index < f.locals.len() {
                o == Outcome::Continue && t == advanced(caught_local(s, storage_index, c))
            } else {
                t == s && o == Outcome::Fault
            },
            _ => t == s && o == Outcome::Fault,
        },
        OpCode::CatchSharedLocal { storage_index } => match s.flow {
            Flow::Catching(c) => if storage_index < f.shared.len() && f.shared[storage_index as int] < s.cells.len() {
                o == Outcome::Continue && t == advanced(caught_shared(s, storage_index, c))
            } else {
                t == s && o == Outcome::Fault
            },
            _ => t == s && o == Outcome::Fault,
        },
        OpCode::CatchOrJump { instruction } => match s.flow {
            Flow::Catching(c) => if data.len() > 0 && f.locals.len() > 0 {
                &&& o == Outcome::Continue
                &&& match is_outcome(c, data.last()) {
                    Ok(b) => t == if b { advanced(popped(caught_local(s, 0, c))) } else { at(popped(s), instruction as int) },
                    Err(m) => t.flow matches Flow::Throwing(e) && t == with_flow(popped(s), t.flow)
                        && is_type_error_saying(e, m + " is not a type"@),
                }
            } else {
                t == s && o == Outcome::Fault
            },
            _ => t == s && o == Outcome::Fault,
        },
        OpCode::Catch => match s.flow {
            Flow::Catching(c) => if f.locals.len() > 0 {
                o == Outcome::Continue && t == advanced(caught_local(s, 0, c))
            } else {
                t == s && o == Outcome::Fault
            },
            _ => t == s && o == Outcome::Fault,
        },
        OpCode::Rethrow => match s.flow {
            Flow::Catching(c) => o == Outcome::Continue && t == with_flow(s, Flow::Throwing(c)),
            _ => t == s && o == Outcome::Fault,
        },
        OpCode::StartFinally => o == Outcome::Continue && t == advanced(MachineView {
            flow_points: (if s.flow_points.len() > 0 { s.flow_points.drop_last() } else { s.flow_points }).push(FlowPoint::PopSuppressedFlow),
            suppressed_flows: s.suppressed_flows.push(Flow::Running),
            ..s
        }),
        OpCode::EndFinally => if s.suppressed_flows.len() == 0 {
            t == s && o == Outcome::Fault
        } else {
            let resumed = MachineView {
                flow_points: if s.flow_points.len() > 0 { s.flow_points.drop_last() } else { s.flow_points },
                suppressed_flows: s.suppressed_flows.drop_last(),
                flow: s.suppressed_flows.last(),
                ..s
            };
            o == Outcome::Continue && t == if s.suppressed_flows.last() is Running { advanced(resumed) } else { resumed }
        },
        _ => false,
    }
}

pub open spec fn is_handler_op(op: OpCode) -> bool {
    op is PushStartCatchFlowPoint || op is PushStartFinallyFlowPoint || op is Throw || op is ThrownIs
        || op is CatchLocalOrJump || op is CatchSharedLocalOrJump || op is CatchLocal || op is CatchSharedLocal
        || op is CatchOrJump || op is Catch || op is Rethrow || op is StartFinally || op is EndFinally
}

/// The other instructions.
pub open spec fn plain_taken(s: MachineView, code: Code, implicit: Module, op: OpCode, t: MachineView, o: Outcome) -> bool {
    let data = s.data_stack;
    match op {
        OpCode::Print => if data.len() == 0 {
            t == s && o == Outcome::Fault
        } else if data.last() is Float {
            t == s && o == Outcome::Unsupported
        } else {
            t == advanced(popped(s)) && o == Outcome::Print(text_of(data.last()))
        },
        OpCode::ToString => if data.len() == 0 {
            t == s && o == Outcome::Fault
        } else if data.last() is Float {
            t == s && o == Outcome::Unsupported
        } else {
            &&& o == Outcome::Continue
            &&& t.data_stack.len() > 0
            &&& t.data_stack.last() matches Value::String(x) && x@ == text_of(data.last())
            &&& t == advanced(pushed(popped(s), t.data_stack.last()))
        },
        OpCode::Nop => t == advanced(s) && o == Outcome::Continue,
        OpCode::PopFlowPoint => o == Outcome::Continue && t == advanced(
            if s.flow_points.len() > 0 { without_flow_point(s) } else { s }),
        OpCode::Jump { instruction } => o == Outcome::Continue && t == at(s, instruction as int),
        OpCode::JumpIfPopFalsy { instruction } => if data.len() == 0 {
            t == s && o == Outcome::Fault
        } else {
            o == Outcome::Continue && t == if truthy(data.last()) { advanced(popped(s)) } else { at(popped(s), instruction as int) }
        },
        OpCode::FlowJump { n_flow_points, instruction } =>
            o == Outcome::Continue && t == with_flow(s, Flow::Jumping { n_flow_points, instruction }),
        OpCode::Call { n_arguments } => call_taken(s, n_arguments, t, o),
        OpCode::Return => if data.len() == 0 {
            t == s && o == Outcome::Fault
        } else if s.frames.len() == 0 {
            t == s && o == Outcome::Done
        } else {
            o == Outcome::Continue && t == with_flow(popped(s), Flow::Returning(data.last()))
        },
        OpCode::ReturnNothing => if s.frames.len() == 0 {
            t == s && o == Outcome::Done
        } else {
            o == Outcome::Continue && t == with_flow(s, Flow::Returning(Value::Nothing))
        },
        OpCode::Pop => o == Outcome::Continue && t == advanced(if data.len() > 0 { popped(s) } else { s }),
        OpCode::PushFunction { index } => push_function_taken(s, code, index, t, o),
        OpCode::PushString { index } => if index >= code.strings@.len() {
            t == s && o == Outcome::Fault
        } else {
            &&& o == Outcome::Continue
            &&& t.data_stack.len() > 0
            &&& t.data_stack.last() matches Value::String(x) && x@ == (*code.strings@[index as int])@
            &&& t == advanced(pushed(s, t.data_stack.last()))
        },
        OpCode::PushFloat { bits } => o == Outcome::Continue && t == advanced(pushed(s, Value::Float(bits))),
        OpCode::PushInteger { value } => o == Outcome::Continue && t == advanced(pushed(s, Value::Integer(value))),
        OpCode::PushBoolean { value } => o == Outcome::Continue && t == advanced(pushed(s, Value::Boolean(value))),
        OpCode::PushNothing => o == Outcome::Continue && t == advanced(pushed(s, Value::Nothing)),
        OpCode::InlinedModule { module } => o == Outcome::Continue && t == advanced(pushed(s, Value::Module(module))),
        OpCode::Use { operation } => o == Outcome::Use(operation) && t == advanced(s),
        OpCode::LoadImplicit { name } => o == Outcome::Continue && t == match implicit.content(name) {
            Some(v) => advanced(pushed(s, v)),
            None => with_flow(s, Flow::Throwing(Value::Nothing)),
        },
        OpCode::GetProperty { .. } | OpCode::SetProperty { .. } => t == s && o == Outcome::Unsupported,
        _ => t == s && o == Outcome::Fault,
    }
}

/// The current instruction, `op`, when control flows normally or catches.
pub open spec fn op_taken(s: MachineView, code: Code, implicit: Module, op: OpCode, t: MachineView, o: Outcome) -> bool {
    if is_binary(op) {
        binary_taken(s, op, t, o)
    } else if is_variable_op(op) {
        variable_taken(s, op, t, o)
    } else if is_handler_op(op) {
        handler_taken(s, op, t, o)
    } else {
        plain_taken(s, code, implicit, op, t, o)
    }
}

/// Unwinding a return of `v`: past a catch; into a `finally`; back to the
/// calling frame, with `v` on its data stack; or past a suppressed flow.
pub open spec fn return_taken(s: MachineView, v: Value, t: MachineView, o: Outcome) -> bool {
    if s.flow_points.len() == 0 {
        t == s && o == Outcome::Fault
    } else {
        match s.flow_points.last() {
            FlowPoint::StartCatch { .. } => o == Outcome::Continue && t == without_flow_point(s),
            FlowPoint::StartFinally { instruction } => o == Outcome::Continue && t == into_finally(s, Flow::Returning(v), instruction),
            FlowPoint::PopFrame { data_stack_len } => if s.frames.len() == 0 {
                t == s && o == Outcome::Fault
            } else {
                o == Outcome::Continue && t == with_flow(pushed(frame_popped(s, data_stack_len), v), Flow::Running)
            },
            FlowPoint::PopFrameAndRestoreFlow { data_stack_len } => if s.frames.len() == 0 || s.suppressed_flows.len() == 0 {
                t == s && o == Outcome::Fault
            } else {
                o == Outcome::Continue && t == MachineView {
                    flow: s.suppressed_flows.last(),
                    suppressed_flows: s.suppressed_flows.drop_last(),
                    ..pushed(frame_popped(s, data_stack_len), v)
                }
            },
            FlowPoint::PopSuppressedFlow => o == Outcome::Continue && t == MachineView {
                suppressed_flows: if s.suppressed_flows.len() > 0 { s.suppressed_flows.drop_last() } else { s.suppressed_flows },
                ..without_flow_point(s)
            },
        }
    }
}

/// Unwinding a throw of `e`: into a catch; into a `finally`; out of a frame;
/// or past a suppressed flow. With no flow point left, nothing catches `e`.
pub open spec fn throw_taken(s: MachineView, e: Value, t: MachineView, o: Outcome) -> bool {
    if s.flow_points.len() == 0 {
        t == s && o == Outcome::Uncaught(e)
    } else {
        match s.flow_points.last() {
            FlowPoint::StartCatch { instruction } => o == Outcome::Continue
                && t == at(with_flow(without_flow_point(s), Flow::Catching(e)), instruction as int),
            FlowPoint::StartFinally { instruction } => o == Outcome::Continue && t == into_finally(s, Flow::Throwing(e), instruction),
            FlowPoint::PopFrame { data_stack_len } | FlowPoint::PopFrameAndRestoreFlow { data_stack_len } => if s.frames.len() == 0 {
                t == s && o == Outcome::Fault
            } else {
                o == Outcome::Continue && t == frame_popped(s, data_stack_len)
            },
            FlowPoint::PopSuppressedFlow => o == Outcome::Continue && t == MachineView {
                suppressed_flows: if s.suppressed_flows.len() > 0 { s.suppressed_flows.drop_last() } else { s.suppressed_flows },
                ..without_flow_point(s)
            },
        }
    }
}

/// Unwinding a jump past `n` flow points to `instruction`: when none is left,
/// control flows normally from there; past a catch; into a `finally`, to
/// resume the jump past the flow points still to leave after it; or past a
/// suppressed flow.
pub open spec fn jump_taken(s: MachineView, n: usize, instruction: usize, t: MachineView, o: Outcome) -> bool {
    if n == 0 {
        o == Outcome::Continue && t == at(with_flow(s, Flow::Running), instruction as int)
    } else if s.flow_points.len() == 0 {
        t == s && o == Outcome::Fault
    } else {
        match s.flow_points.last() {
            FlowPoint::StartCatch { .. } => o == Outcome::Continue
                && t == with_flow(without_flow_point(s), Flow::Jumping { n_flow_points: (n - 1) as usize, instruction }),
            FlowPoint::StartFinally { instruction: i } => o == Outcome::Continue
                && t == into_finally(s, Flow::Jumping { n_flow_points: (n - 1) as usize, instruction }, i),
            FlowPoint::PopSuppressedFlow => o == Outcome::Continue && t == MachineView {
                suppressed_flows: if s.suppressed_flows.len() > 0 { s.suppressed_flows.drop_last() } else { s.suppressed_flows },
                flow: Flow::Jumping { n_flow_points: (n - 1) as usize, instruction },
                ..without_flow_point(s)
            },
            _ => t == s && o == Outcome::Fault,
        }
    }
}

/// One step of the machine, from `s` to `t` with outcome `o`, where `root`
/// is the code of the root frame and `implicit` the module of the names that
/// every program can use.
pub open spec fn step_taken(s: MachineView, root: Code, implicit: Module, t: MachineView, o: Outcome) -> bool {
    match s.flow {
        Flow::Running | Flow::Catching(_) => match current_op(s, root) {
            Some(op) => op_taken(s, match frame_code(s, root, s.frame) { Some(c) => c, None => root }, implicit, op, t, o),
            None => t == s && o == Outcome::Fault,
        },
        Flow::Returning(v) => return_taken(s, v, t, o),
        Flow::Throwing(e) => throw_taken(s, e, t, o),
        Flow::Jumping { n_flow_points, instruction } => jump_taken(s, n_flow_points, instruction, t, o),
    }
}

/// From `s`, `n` steps that each continued reach `t`.
pub open spec fn ran(s: MachineView, root: Code, implicit: Module, t: MachineView, n: nat) -> bool
    decreases n,
{
    if n == 0 {
        t == s
    } else {
        exists|m: MachineView| ran(s, root, implicit, m, (n - 1) as nat) && #[trigger] step_taken(m, root, implicit, t, Outcome::Continue)
    }
}

/// One more step that continued.
pub proof fn lemma_ran_step(s: MachineView, root: Code, implicit: Module, m: MachineView, t: MachineView, n: nat)
    requires
        ran(s, root, implicit, m, n),
        step_taken(m, root, implicit, t, Outcome::Continue),
    ensures
        ran(s, root, implicit, t, n + 1),
{
    let n1: nat = n + 1;
    assert((n1 - 1) as nat == n);
    assert(ran(s, root, implicit, m, (n1 - 1) as nat) && step_taken(m, root, implicit, t, Outcome::Continue));
}


/// A conditional jump (what `if` and `while` compile their test to) takes the
/// value on top of the data stack off it, and goes to its target exactly
/// when that value is falsy; when it is truthy, control goes on to the next
/// instruction. Nothing else changes.
pub proof fn lemma_jump_if_pop_falsy(s: MachineView, root: Code, implicit: Module, t: MachineView, o: Outcome, target: usize)
    requires
        s.flow is Running,
        current_op(s, root) == Some(OpCode::JumpIfPopFalsy { instruction: target }),
        s.data_stack.len() > 0,
        step_taken(s, root, implicit, t, o),
    ensures
        o == Outcome::Continue,
        t.data_stack == s.data_stack.drop_last(),
        t.flow == s.flow,
        t.frames == s.frames,
        t.frame.locals == s.frame.locals,
        t.cells == s.cells,
        truthy(s.data_stack.last()) ==> t.frame.instruction == (s.frame.instruction + 1) as usize,
        !truthy(s.data_stack.last()) ==> t.frame.instruction == target,
{
}

} // verus!
