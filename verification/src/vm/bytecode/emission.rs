//! What the compiler emits for each part of a program: the instructions, the
//! string constants, the functions and the places where a name brought in by
//! `use` is to be inlined.

use vstd::prelude::*;
use std::rc::Rc;
use crate::parse::node::{Statement, Expression, Lvalue, ElseIf, Catch, FunctionParameter, BinaryOperator};
use crate::vm::analysis::annotation::{Annotations, Binding, LocalStorageType, BoundStorageType, NameResolution};
use crate::vm::bytecode::opcode::OpCode;
use crate::vm::bytecode::code::Code;
use crate::vm::run::machine::{MachineView, Outcome, op_taken};
use crate::vm::run::flow::Flow;
use crate::lang::module::Module;
use crate::lang::value::Value;
use crate::builtin::intrinsic::operations::{is_outcome, is_type_error_saying, repr_of};
use crate::builtin::burn::implicit::is_type_value;
use crate::lang::function::{
    FunctionDefinition,
    FunctionParameterDefinition,
    FunctionParameterStorage,
    FunctionBindingDefinition,
};

verus! {

/// Where emission starts in the code being built: the offset of the next
/// instruction, and the number of strings and functions already there.
pub struct Site {
    pub at: int,
    pub strings: int,
    pub functions: int,
}

/// What a part of a program adds to the code being built.
#[verifier::ext_equal]
pub struct Emitted {
    pub opcodes: Seq<OpCode>,
    pub strings: Seq<Seq<char>>,
    /// The function expressions whose definitions are added, in order.
    pub functions: Seq<Expression>,
    /// (offset of an instruction, index of a `use`) for each name to inline.
    pub inlines: Seq<(usize, usize)>,
}

impl Emitted {
    pub open spec fn none() -> Emitted {
        Emitted { opcodes: Seq::empty(), strings: Seq::empty(), functions: Seq::empty(), inlines: Seq::empty() }
    }

    pub open spec fn op(opcode: OpCode) -> Emitted {
        Emitted { opcodes: seq![opcode], ..Emitted::none() }
    }

    /// This, then `next`.
    pub open spec fn followed_by(self, next: Emitted) -> Emitted {
        Emitted {
            opcodes: self.opcodes + next.opcodes,
            strings: self.strings + next.strings,
            functions: self.functions + next.functions,
            inlines: self.inlines + next.inlines,
        }
    }
}

impl Site {
    /// The site just after `emitted` was emitted here.
    pub open spec fn after(self, emitted: Emitted) -> Site {
        Site {
            at: self.at + emitted.opcodes.len(),
            strings: self.strings + emitted.strings.len(),
            functions: self.functions + emitted.functions.len(),
        }
    }

    /// The site one instruction further on.
    pub open spec fn skip(self) -> Site {
        Site { at: self.at + 1, ..self }
    }
}

// VARIABLES ///////////////////////////////////////////////////////////////////////////////////////

/// The bindings of the closure of frame `frame` (none for a frame without
/// one).
pub open spec fn frame_bindings(ann: Annotations, frame: usize) -> Seq<Binding> {
    match ann.frames@[frame as int].closure {
        Some(c) => c.bindings@,
        None => Seq::empty(),
    }
}

/// The first of `bindings` that binds variable `v`.
pub open spec fn find_binding(bindings: Seq<Binding>, v: usize) -> Option<Binding>
    decreases bindings.len(),
{
    if bindings.len() == 0 {
        None
    } else if bindings[0].variable == v {
        Some(bindings[0])
    } else {
        find_binding(bindings.drop_first(), v)
    }
}

/// Variable `v` can be reached from frame `frame`: it is declared there, or
/// the frame's closure binds it.
pub open spec fn reachable(ann: Annotations, frame: usize, v: usize) -> bool {
    &&& v < ann.variables@.len()
    &&& ann.variables@[v as int].declared_in == frame || find_binding(frame_bindings(ann, frame), v) is Some
}

/// The slot of variable `v` in the closure of frame `frame`.
pub open spec fn bound_slot(ann: Annotations, frame: usize, v: usize) -> usize {
    find_binding(frame_bindings(ann, frame), v)->Some_0.storage_index
}

/// The instruction that loads variable `v` in frame `frame`.
pub open spec fn load_opcode(ann: Annotations, frame: usize, v: usize) -> OpCode {
    let variable = ann.variables@[v as int];
    if variable.declared_in == frame {
        match variable.local_storage_type {
            LocalStorageType::Local => OpCode::LoadLocal(variable.local_storage_index),
            LocalStorageType::SharedLocal => OpCode::LoadSharedLocal(variable.local_storage_index),
        }
    } else {
        match variable.bound_storage_type {
            BoundStorageType::StaticBound => OpCode::LoadStaticBound(bound_slot(ann, frame, v)),
            BoundStorageType::SharedBound => OpCode::LoadSharedBound(bound_slot(ann, frame, v)),
        }
    }
}

/// The instruction that stores into variable `v` in frame `frame`.
pub open spec fn store_opcode(ann: Annotations, frame: usize, v: usize) -> OpCode {
    let variable = ann.variables@[v as int];
    if variable.declared_in == frame {
        match variable.local_storage_type {
            LocalStorageType::Local => OpCode::StoreLocal(variable.local_storage_index),
            LocalStorageType::SharedLocal => OpCode::StoreSharedLocal(variable.local_storage_index),
        }
    } else {
        match variable.bound_storage_type {
            BoundStorageType::StaticBound => OpCode::StoreStaticBound(bound_slot(ann, frame, v)),
            BoundStorageType::SharedBound => OpCode::StoreSharedBound(bound_slot(ann, frame, v)),
        }
    }
}

/// The instruction of a binary operator that evaluates both operands.
pub open spec fn operator_opcode(operator: BinaryOperator) -> OpCode {
    match operator {
        BinaryOperator::And => OpCode::ShortCircuitAnd,
        BinaryOperator::Or => OpCode::ShortCircuitOr,
        BinaryOperator::Is => OpCode::Is,
        BinaryOperator::Eq => OpCode::Eq,
        BinaryOperator::Neq => OpCode::Neq,
        BinaryOperator::Lt => OpCode::Lt,
        BinaryOperator::Gt => OpCode::Gt,
        BinaryOperator::LtEq => OpCode::LtEq,
        BinaryOperator::GtEq => OpCode::GtEq,
        BinaryOperator::Union => OpCode::Union,
        BinaryOperator::Addition => OpCode::Add,
        BinaryOperator::Subtraction => OpCode::Subtract,
        BinaryOperator::Multiplication => OpCode::Multiply,
        BinaryOperator::Division => OpCode::Divide,
    }
}

// EXPRESSIONS /////////////////////////////////////////////////////////////////////////////////////

/// What expression `e` emits at `site` in frame `frame`. Operands come
/// first, then the operation; `and` and `or` put their instruction between
/// their operands; a function only adds its definition and pushes it.
pub open spec fn expression_emits(e: Expression, ann: Annotations, frame: usize, site: Site) -> Emitted
    decreases e,
{
    match e {
        Expression::Nothing => Emitted::op(OpCode::PushNothing),
        Expression::Boolean { value } => Emitted::op(OpCode::PushBoolean { value }),
        Expression::Integer { value } => Emitted::op(OpCode::PushInteger { value }),
        Expression::Float { bits } => Emitted::op(OpCode::PushFloat { bits }),
        Expression::String { value } => Emitted {
            opcodes: seq![OpCode::PushString { index: site.strings as usize }],
            strings: seq![value@],
            ..Emitted::none()
        },
        Expression::Variable { annotation, .. } => Emitted::op(load_opcode(ann, frame, annotation)),
        Expression::Name { identifier, annotation } => match annotation.resolution {
            NameResolution::Implicit => Emitted::op(OpCode::LoadImplicit { name: identifier }),
            NameResolution::Use(u) => Emitted {
                opcodes: seq![OpCode::Fail],
                inlines: seq![(site.at as usize, u)],
                ..Emitted::none()
            },
        },
        Expression::DotAccess { expression, name } => {
            let inner = expression_emits(*expression, ann, frame, site);
            inner.followed_by(Emitted::op(OpCode::GetProperty { name }))
        },
        Expression::ItemAccess { expression, key_expression } => {
            let accessed = expression_emits(*expression, ann, frame, site);
            let key = expression_emits(*key_expression, ann, frame, site.after(accessed));
            accessed.followed_by(key).followed_by(Emitted::op(OpCode::GetItem))
        },
        Expression::Call { expression, arguments } => {
            let called = expression_emits(*expression, ann, frame, site);
            let args = arguments_emits(arguments@, ann, frame, site.after(called));
            called.followed_by(args).followed_by(Emitted::op(OpCode::Call { n_arguments: arguments@.len() as usize }))
        },
        Expression::Binary { operator, left, right } => {
            let l = expression_emits(*left, ann, frame, site);
            if operator == BinaryOperator::And || operator == BinaryOperator::Or {
                let r = expression_emits(*right, ann, frame, site.after(l).skip());
                l.followed_by(Emitted::op(operator_opcode(operator))).followed_by(r)
            } else {
                let r = expression_emits(*right, ann, frame, site.after(l));
                l.followed_by(r).followed_by(Emitted::op(operator_opcode(operator)))
            }
        },
        Expression::Not { expression } => expression_emits(*expression, ann, frame, site).followed_by(Emitted::op(OpCode::Not)),
        Expression::Function { .. } => Emitted {
            opcodes: seq![OpCode::PushFunction { index: site.functions as usize }],
            functions: seq![e],
            ..Emitted::none()
        },
    }
}

/// How operators and calls are laid out: a binary operator other than `and`
/// and `or` emits its left operand, then its right operand, then its own
/// instruction; `and` and `or` emit the left operand, their short-circuit
/// instruction, then the right operand; a call emits the called expression,
/// then its arguments in order, then a call instruction with their count.
pub proof fn lemma_operator_layout(
    operator: BinaryOperator,
    left: Expression,
    right: Expression,
    called: Expression,
    arguments: Vec<Expression>,
    ann: Annotations,
    frame: usize,
    site: Site,
)
    ensures
        ({
            let e = expression_emits(
                Expression::Binary { operator, left: Box::new(left), right: Box::new(right) }, ann, frame, site).opcodes;
            let l = expression_emits(left, ann, frame, site);
            if operator == BinaryOperator::And || operator == BinaryOperator::Or {
                e == l.opcodes + seq![operator_opcode(operator)]
                    + expression_emits(right, ann, frame, site.after(l).skip()).opcodes
            } else {
                e == l.opcodes + expression_emits(right, ann, frame, site.after(l)).opcodes
                    + seq![operator_opcode(operator)]
            }
        }),
        ({
            let e = expression_emits(Expression::Call { expression: Box::new(called), arguments }, ann, frame, site).opcodes;
            let f = expression_emits(called, ann, frame, site);
            e == f.opcodes + arguments_emits(arguments@, ann, frame, site.after(f)).opcodes
                + seq![OpCode::Call { n_arguments: arguments@.len() as usize }]
        }),
        arguments@.len() > 0 ==> {
            let first = expression_emits(arguments@[0], ann, frame, site);
            arguments_emits(arguments@, ann, frame, site).opcodes == first.opcodes
                + arguments_emits(arguments@.drop_first(), ann, frame, site.after(first)).opcodes
        },
{
}

/// What the arguments `args` of a call emit, in order, at `site`.
pub open spec fn arguments_emits(args: Seq<Expression>, ann: Annotations, frame: usize, site: Site) -> Emitted
    decreases args,
{
    if args.len() == 0 {
        Emitted::none()
    } else {
        let first = expression_emits(args[0], ann, frame, site);
        first.followed_by(arguments_emits(args.drop_first(), ann, frame, site.after(first)))
    }
}

// STATEMENTS //////////////////////////////////////////////////////////////////////////////////////

/// What the statements `block` emit, in order, at `site`.
pub open spec fn block_emits(block: Seq<Statement>, ann: Annotations, frame: usize, site: Site) -> Emitted
    decreases block,
{
    if block.len() == 0 {
        Emitted::none()
    } else {
        let first = statement_emits(block[0], ann, frame, site);
        first.followed_by(block_emits(block.drop_first(), ann, frame, site.after(first)))
    }
}

/// What the `else if` clauses `clauses` emit at `site`, where `end_jump` is
/// the jump past the whole `if` statement and `has_else` tells whether an
/// `else` clause follows. Each clause tests, jumps past its block when the
/// test fails, runs its block and then makes `end_jump`, but for the last
/// clause of an `if` without `else`.
pub open spec fn else_ifs_emits(
    clauses: Seq<ElseIf>,
    ann: Annotations,
    frame: usize,
    site: Site,
    has_else: bool,
    end_jump: OpCode,
) -> Emitted
    decreases clauses,
{
    if clauses.len() == 0 {
        Emitted::none()
    } else {
        let clause = clauses[0];
        let test = expression_emits(*clause.test, ann, frame, site);
        let block = block_emits(clause.block@, ann, frame, site.after(test).skip());
        let jumps_to_end = clauses.len() > 1 || has_else;
        let block_end = site.after(test).skip().after(block);
        let next = if jumps_to_end { block_end.skip() } else { block_end };
        let first = test.followed_by(Emitted::op(OpCode::JumpIfPopFalsy { instruction: next.at as usize })).followed_by(block).followed_by(
            if jumps_to_end { Emitted::op(end_jump) } else { Emitted::none() },
        );
        first.followed_by(else_ifs_emits(clauses.drop_first(), ann, frame, next, has_else, end_jump))
    }
}

/// The instruction that catches the thrown value into the variable of a
/// `catch` clause: with a type to test, it jumps to `next` when the test
/// fails.
pub open spec fn catch_opcode(ann: Annotations, clause: Catch, next: int) -> OpCode {
    let variable = ann.variables@[clause.variable as int];
    let slot = variable.local_storage_index;
    match (clause.type_ is Some, variable.local_storage_type) {
        (true, LocalStorageType::Local) => OpCode::CatchLocalOrJump { storage_index: slot, instruction: next as usize },
        (true, LocalStorageType::SharedLocal) => OpCode::CatchSharedLocalOrJump { storage_index: slot, instruction: next as usize },
        (false, LocalStorageType::Local) => OpCode::CatchLocal { storage_index: slot },
        (false, LocalStorageType::SharedLocal) => OpCode::CatchSharedLocal { storage_index: slot },
    }
}

/// What the `catch` clauses `clauses` emit at `site`, where `end_jump` is
/// the jump past the `else` clause of the `try` statement. Each clause tests
/// the type of the thrown value, if it names one, catches it, runs its block
/// and makes `end_jump`.
pub open spec fn catches_emits(clauses: Seq<Catch>, ann: Annotations, frame: usize, site: Site, end_jump: OpCode) -> Emitted
    decreases clauses,
{
    if clauses.len() == 0 {
        Emitted::none()
    } else {
        let clause = clauses[0];
        let test = match clause.type_ {
            Some(t) => expression_emits(*t, ann, frame, site).followed_by(Emitted::op(OpCode::ThrownIs)),
            None => Emitted::none(),
        };
        let block = block_emits(clause.block@, ann, frame, site.after(test).skip());
        let next = site.after(test).skip().after(block).skip();
        let first = test.followed_by(Emitted::op(catch_opcode(ann, clause, next.at))).followed_by(block).followed_by(
            Emitted::op(end_jump),
        );
        first.followed_by(catches_emits(clauses.drop_first(), ann, frame, next, end_jump))
    }
}

/// What the `let` of variable `v` emits after its default value, if it has
/// one: a shared slot gets a fresh cell first.
pub open spec fn let_emits(ann: Annotations, v: usize, has_default: bool) -> Emitted {
    let variable = ann.variables@[v as int];
    let slot = variable.local_storage_index;
    match variable.local_storage_type {
        LocalStorageType::Local => if has_default {
            Emitted::op(OpCode::StoreLocal(slot))
        } else {
            Emitted::none()
        },
        LocalStorageType::SharedLocal => if has_default {
            Emitted::op(OpCode::InitializeSharedLocal(slot)).followed_by(Emitted::op(OpCode::StoreSharedLocal(slot)))
        } else {
            Emitted::op(OpCode::InitializeSharedLocal(slot))
        },
    }
}

/// What statement `s` emits at `site` in frame `frame`.
pub open spec fn statement_emits(s: Statement, ann: Annotations, frame: usize, site: Site) -> Emitted
    decreases s,
{
    match s {
        Statement::Use { annotation, .. } => Emitted::op(OpCode::Use { operation: annotation }),
        Statement::ExpressionStatement { expression } => expression_emits(*expression, ann, frame, site).followed_by(
            Emitted::op(OpCode::Pop),
        ),
        Statement::Assignment { lvalue, rvalue } => match *lvalue {
            Lvalue::VariableLvalue { annotation, .. } => expression_emits(*rvalue, ann, frame, site).followed_by(
                Emitted::op(store_opcode(ann, frame, annotation)),
            ),
            Lvalue::DotAccessLvalue { expression, name } => {
                let accessed = expression_emits(*expression, ann, frame, site);
                let value = expression_emits(*rvalue, ann, frame, site.after(accessed));
                accessed.followed_by(value).followed_by(Emitted::op(OpCode::SetProperty { name }))
            },
        },
        Statement::Let { annotation, default, .. } => match default {
            Some(e) => expression_emits(*e, ann, frame, site).followed_by(let_emits(ann, annotation, true)),
            None => let_emits(ann, annotation, false),
        },
        Statement::Print { expression } => expression_emits(*expression, ann, frame, site).followed_by(
            Emitted::op(OpCode::ToString),
        ).followed_by(Emitted::op(OpCode::Print)),
        Statement::Return { expression } => match expression {
            Some(e) => expression_emits(*e, ann, frame, site),
            None => Emitted::op(OpCode::PushNothing),
        }.followed_by(Emitted::op(OpCode::Return)),
        Statement::Throw { expression } => expression_emits(*expression, ann, frame, site).followed_by(
            Emitted::op(OpCode::Throw),
        ),
        Statement::If { test, block, else_if_clauses, else_clause } => {
            let t = expression_emits(*test, ann, frame, site);
            let b = block_emits(block@, ann, frame, site.after(t).skip());
            let has_else = else_clause is Some;
            let jumps_to_end = else_if_clauses@.len() > 0 || has_else;
            let block_end = site.after(t).skip().after(b);
            let clauses_site = if jumps_to_end { block_end.skip() } else { block_end };
            let else_site = clauses_site.after(else_ifs_emits(else_if_clauses@, ann, frame, clauses_site, has_else, OpCode::Nop));
            let e = match else_clause {
                Some(c) => block_emits(c.block@, ann, frame, else_site),
                None => Emitted::none(),
            };
            let end = else_site.after(e).at;
            t.followed_by(Emitted::op(OpCode::JumpIfPopFalsy { instruction: clauses_site.at as usize })).followed_by(b).followed_by(
                if jumps_to_end { Emitted::op(OpCode::Jump { instruction: end as usize }) } else { Emitted::none() },
            ).followed_by(
                else_ifs_emits(else_if_clauses@, ann, frame, clauses_site, has_else, OpCode::Jump { instruction: end as usize }),
            ).followed_by(e)
        },
        Statement::While { test, block, .. } => {
            let t = expression_emits(*test, ann, frame, site);
            let b = block_emits(block@, ann, frame, site.after(t).skip());
            let end = site.after(t).skip().after(b).skip().at;
            t.followed_by(Emitted::op(OpCode::JumpIfPopFalsy { instruction: end as usize })).followed_by(b).followed_by(
                Emitted::op(OpCode::Jump { instruction: site.at as usize }),
            )
        },
        Statement::Try { block, catch_clauses, else_clause, finally_clause } => {
            let has_catch = catch_clauses@.len() > 0;
            let has_finally = finally_clause is Some;
            let pushes = (if has_finally { 1int } else { 0 }) + (if has_catch { 1int } else { 0 });
            let block_site = Site { at: site.at + pushes, ..site };
            let b = block_emits(block@, ann, frame, block_site);
            let catch_site = block_site.after(b).skip().skip();
            let catches_shape = catches_emits(catch_clauses@, ann, frame, catch_site, OpCode::Nop);
            let else_site = if has_catch { catch_site.after(catches_shape).skip() } else { block_site.after(b) };
            let e = match else_clause {
                Some(c) => block_emits(c.block@, ann, frame, else_site),
                None => Emitted::none(),
            };
            let end = else_site.after(e);
            let f = match finally_clause {
                Some(c) => block_emits(c.block@, ann, frame, end.skip()),
                None => Emitted::none(),
            };
            let start = (if has_finally {
                Emitted::op(OpCode::PushStartFinallyFlowPoint { instruction: end.skip().at as usize })
            } else {
                Emitted::none()
            }).followed_by(
                if has_catch {
                    Emitted::op(OpCode::PushStartCatchFlowPoint { instruction: catch_site.at as usize })
                } else {
                    Emitted::none()
                },
            );
            let catches = if has_catch {
                Emitted::op(OpCode::PopFlowPoint).followed_by(Emitted::op(OpCode::Jump { instruction: else_site.at as usize })).followed_by(
                    catches_emits(catch_clauses@, ann, frame, catch_site, OpCode::Jump { instruction: end.at as usize }),
                ).followed_by(Emitted::op(OpCode::Rethrow))
            } else {
                Emitted::none()
            };
            let finally = if has_finally {
                Emitted::op(OpCode::StartFinally).followed_by(f).followed_by(Emitted::op(OpCode::EndFinally))
            } else {
                Emitted::none()
            };
            start.followed_by(b).followed_by(catches).followed_by(e).followed_by(finally)
        },
    }
}


// WHAT CAN BE COMPILED ////////////////////////////////////////////////////////////////////////////

/// The closure binding `b` of a function created in frame `frame` can be
/// filled: its variable exists and is reachable from `frame`.
pub open spec fn binding_compilable(b: Binding, ann: Annotations, frame: usize) -> bool {
    reachable(ann, frame, b.variable)
}

/// Compiling expression `e` in frame `frame` finds every annotation it needs:
/// each variable is reachable, and each function has a frame with a closure
/// whose bindings can be filled, and parameters that exist.
pub open spec fn expression_compilable(e: Expression, ann: Annotations, frame: usize) -> bool
    decreases e,
{
    match e {
        Expression::Variable { annotation, .. } => reachable(ann, frame, annotation),
        Expression::DotAccess { expression, .. } => expression_compilable(*expression, ann, frame),
        Expression::ItemAccess { expression, key_expression } => expression_compilable(*expression, ann, frame)
            && expression_compilable(*key_expression, ann, frame),
        Expression::Call { expression, arguments } => {
            &&& expression_compilable(*expression, ann, frame)
            &&& forall|i: int| 0 <= i < arguments@.len() ==> expression_compilable(#[trigger] arguments@[i], ann, frame)
        },
        Expression::Binary { left, right, .. } => expression_compilable(*left, ann, frame)
            && expression_compilable(*right, ann, frame),
        Expression::Not { expression } => expression_compilable(*expression, ann, frame),
        Expression::Function { parameters, frame: f, block } => {
            &&& f < ann.frames@.len()
            &&& ann.frames@[f as int].closure is Some
            &&& forall|i: int| 0 <= i < parameters@.len() ==> (#[trigger] parameters@[i]).variable < ann.variables@.len()
            &&& forall|k: int| 0 <= k < frame_bindings(ann, f).len() ==> binding_compilable(#[trigger] frame_bindings(ann, f)[k], ann, frame)
            &&& forall|i: int| 0 <= i < block@.len() ==> statement_compilable(#[trigger] block@[i], ann, f)
        },
        _ => true,
    }
}

/// Compiling statement `s` in frame `frame` finds every annotation it needs;
/// and a `while` has no `else` clause, which the compiler does not handle.
pub open spec fn statement_compilable(s: Statement, ann: Annotations, frame: usize) -> bool
    decreases s,
{
    match s {
        Statement::Use { .. } => true,
        Statement::ExpressionStatement { expression } => expression_compilable(*expression, ann, frame),
        Statement::Assignment { lvalue, rvalue } => {
            &&& expression_compilable(*rvalue, ann, frame)
            &&& match *lvalue {
                Lvalue::VariableLvalue { annotation, .. } => reachable(ann, frame, annotation),
                Lvalue::DotAccessLvalue { expression, .. } => expression_compilable(*expression, ann, frame),
            }
        },
        Statement::Let { annotation, default, .. } => {
            &&& annotation < ann.variables@.len()
            &&& match default {
                Some(e) => expression_compilable(*e, ann, frame),
                None => true,
            }
        },
        Statement::Print { expression } => expression_compilable(*expression, ann, frame),
        Statement::Return { expression } => match expression {
            Some(e) => expression_compilable(*e, ann, frame),
            None => true,
        },
        Statement::Throw { expression } => expression_compilable(*expression, ann, frame),
        Statement::If { test, block, else_if_clauses, else_clause } => {
            &&& expression_compilable(*test, ann, frame)
            &&& forall|i: int| 0 <= i < block@.len() ==> statement_compilable(#[trigger] block@[i], ann, frame)
            &&& forall|k: int| 0 <= k < else_if_clauses@.len() ==> {
                let clause = #[trigger] else_if_clauses@[k];
                &&& expression_compilable(*clause.test, ann, frame)
                &&& forall|i: int| 0 <= i < clause.block@.len() ==> statement_compilable(#[trigger] clause.block@[i], ann, frame)
            }
            &&& match else_clause {
                Some(c) => forall|i: int| 0 <= i < c.block@.len() ==> statement_compilable(#[trigger] c.block@[i], ann, frame),
                None => true,
            }
        },
        Statement::While { test, block, else_clause } => {
            &&& else_clause is None
            &&& expression_compilable(*test, ann, frame)
            &&& forall|i: int| 0 <= i < block@.len() ==> statement_compilable(#[trigger] block@[i], ann, frame)
        },
        Statement::Try { block, catch_clauses, else_clause, finally_clause } => {
            &&& forall|i: int| 0 <= i < block@.len() ==> statement_compilable(#[trigger] block@[i], ann, frame)
            &&& forall|k: int| 0 <= k < catch_clauses@.len() ==> {
                let clause = #[trigger] catch_clauses@[k];
                &&& clause.variable < ann.variables@.len()
                &&& match clause.type_ {
                    Some(t) => expression_compilable(*t, ann, frame),
                    None => true,
                }
                &&& forall|i: int| 0 <= i < clause.block@.len() ==> statement_compilable(#[trigger] clause.block@[i], ann, frame)
            }
            &&& match else_clause {
                Some(c) => forall|i: int| 0 <= i < c.block@.len() ==> statement_compilable(#[trigger] c.block@[i], ann, frame),
                None => true,
            }
            &&& match finally_clause {
                Some(c) => forall|i: int| 0 <= i < c.block@.len() ==> statement_compilable(#[trigger] c.block@[i], ann, frame),
                None => true,
            }
        },
    }
}

// FUNCTIONS ///////////////////////////////////////////////////////////////////////////////////////

/// Where the parameter of variable `v` is stored.
pub open spec fn parameter_definition(ann: Annotations, v: usize) -> FunctionParameterDefinition {
    let variable = ann.variables@[v as int];
    FunctionParameterDefinition {
        name: variable.name,
        storage: match variable.local_storage_type {
            LocalStorageType::Local => FunctionParameterStorage::LocalFunctionParameterStorage(variable.local_storage_index),
            LocalStorageType::SharedLocal => FunctionParameterStorage::SharedLocalFunctionParameterStorage(variable.local_storage_index),
        },
    }
}

/// How the closure binding `b` of a function created in frame `frame` is
/// filled: from a local slot of `frame` when the variable is declared there,
/// else from a slot of `frame`'s own closure.
pub open spec fn binding_definition(ann: Annotations, frame: usize, b: Binding) -> FunctionBindingDefinition {
    let variable = ann.variables@[b.variable as int];
    if variable.declared_in == frame {
        match variable.bound_storage_type {
            BoundStorageType::StaticBound => FunctionBindingDefinition::LocalToStaticBoundBinding(
                variable.local_storage_index,
                b.storage_index,
            ),
            BoundStorageType::SharedBound => FunctionBindingDefinition::SharedLocalToSharedBoundBinding(
                variable.local_storage_index,
                b.storage_index,
            ),
        }
    } else {
        match variable.bound_storage_type {
            BoundStorageType::StaticBound => FunctionBindingDefinition::StaticBoundToStaticBoundBinding(
                bound_slot(ann, frame, b.variable),
                b.storage_index,
            ),
            BoundStorageType::SharedBound => FunctionBindingDefinition::SharedBoundToSharedBoundBinding(
                bound_slot(ann, frame, b.variable),
                b.storage_index,
            ),
        }
    }
}

/// The strings of a code, as text.
pub open spec fn string_views(strings: Seq<Rc<String>>) -> Seq<Seq<char>> {
    strings.map_values(|s: Rc<String>| s@)
}

/// `def` is the definition compiled from the function expression `f`, found
/// in frame `outer`: its code is what the function's block emits in the
/// function's frame, then a return of nothing; its parameters and bindings
/// are stored as the analyses decided; and so on for the functions inside it.
pub open spec fn function_compiled(def: FunctionDefinition, f: Expression, ann: Annotations, outer: usize) -> bool
    decreases def,
{
    match f {
        Expression::Function { parameters, frame, block } => {
            let e = block_emits(block@, ann, frame, Site { at: 0, strings: 0, functions: 0 });
            &&& def.code.opcodes@ == e.opcodes.push(OpCode::ReturnNothing)
            &&& string_views(def.code.strings@) == e.strings
            &&& def.code.inlined_uses@ == e.inlines
            &&& def.code.n_local_variables == ann.frames@[frame as int].n_local_variables
            &&& def.code.n_shared_local_variables == ann.frames@[frame as int].n_shared_local_variables
            &&& def.parameters@ == parameters@.map_values(|p: FunctionParameter| parameter_definition(ann, p.variable))
            &&& def.bindings@ == frame_bindings(ann, frame).map_values(|b: Binding| binding_definition(ann, outer, b))
            &&& def.code.functions@.len() == e.functions.len()
            &&& forall|j: int| 0 <= j < e.functions.len() ==> function_compiled(
                *#[trigger] def.code.functions@[j],
                e.functions[j],
                ann,
                frame,
            )
        },
        _ => false,
    }
}


// JUMPS PAST A STATEMENT //////////////////////////////////////////////////////////////////////////

/// The offsets of the jumps past the `if` statement that the `else if`
/// clauses `clauses`, emitted at `site`, make.
pub open spec fn else_if_end_jumps(clauses: Seq<ElseIf>, ann: Annotations, frame: usize, site: Site, has_else: bool) -> Seq<int>
    decreases clauses.len(),
{
    if clauses.len() == 0 {
        Seq::empty()
    } else {
        let clause = clauses[0];
        let test = expression_emits(*clause.test, ann, frame, site);
        let block = block_emits(clause.block@, ann, frame, site.after(test).skip());
        let jumps_to_end = clauses.len() > 1 || has_else;
        let block_end = site.after(test).skip().after(block);
        let next = if jumps_to_end { block_end.skip() } else { block_end };
        (if jumps_to_end { seq![block_end.at] } else { Seq::empty() }) + else_if_end_jumps(
            clauses.drop_first(),
            ann,
            frame,
            next,
            has_else,
        )
    }
}

/// The `else if` clauses emit the same with any jump past the statement, but
/// for that jump, found at the offsets `else_if_end_jumps` gives.
pub proof fn lemma_else_if_end_jumps(
    clauses: Seq<ElseIf>,
    ann: Annotations,
    frame: usize,
    site: Site,
    has_else: bool,
    end_jump: OpCode,
)
    ensures
        ({
            let a = else_ifs_emits(clauses, ann, frame, site, has_else, OpCode::Nop);
            let b = else_ifs_emits(clauses, ann, frame, site, has_else, end_jump);
            let ps = else_if_end_jumps(clauses, ann, frame, site, has_else);
            &&& b.opcodes.len() == a.opcodes.len()
            &&& b.strings == a.strings
            &&& b.functions == a.functions
            &&& b.inlines == a.inlines
            &&& forall|i: int| 0 <= i < ps.len() ==> site.at <= #[trigger] ps[i] < site.at + a.opcodes.len()
            &&& forall|k: int| 0 <= k < a.opcodes.len() ==> #[trigger] b.opcodes[k] == if ps.contains(site.at + k) {
                end_jump
            } else {
                a.opcodes[k]
            }
        }),
    decreases clauses.len(),
{
    if clauses.len() > 0 {
        let clause = clauses[0];
        let test = expression_emits(*clause.test, ann, frame, site);
        let block = block_emits(clause.block@, ann, frame, site.after(test).skip());
        let jumps_to_end = clauses.len() > 1 || has_else;
        let block_end = site.after(test).skip().after(block);
        let next = if jumps_to_end { block_end.skip() } else { block_end };
        lemma_else_if_end_jumps(clauses.drop_first(), ann, frame, next, has_else, end_jump);
        let a = else_ifs_emits(clauses, ann, frame, site, has_else, OpCode::Nop);
        let b = else_ifs_emits(clauses, ann, frame, site, has_else, end_jump);
        let ps = else_if_end_jumps(clauses, ann, frame, site, has_else);
        let ra = else_ifs_emits(clauses.drop_first(), ann, frame, next, has_else, OpCode::Nop);
        let rb = else_ifs_emits(clauses.drop_first(), ann, frame, next, has_else, end_jump);
        let rps = else_if_end_jumps(clauses.drop_first(), ann, frame, next, has_else);
        let n = next.at - site.at;
        assert(a.opcodes.len() == n + ra.opcodes.len());
        assert forall|k: int| 0 <= k < a.opcodes.len() implies #[trigger] b.opcodes[k] == if ps.contains(site.at + k) {
            end_jump
        } else {
            a.opcodes[k]
        } by {
            if k < n {
                if jumps_to_end && k == n - 1 {
                    assert(ps[0] == site.at + k);
                } else {
                    assert forall|i: int| 0 <= i < ps.len() implies ps[i] != site.at + k by {
                        if jumps_to_end && i == 0 {
                        } else {
                            let r = if jumps_to_end { i - 1 } else { i };
                            assert(ps[i] == rps[r]);
                        }
                    }
                }
            } else {
                assert(b.opcodes[k] == rb.opcodes[k - n]);
                assert(a.opcodes[k] == ra.opcodes[k - n]);
                if ps.contains(site.at + k) {
                    let i = choose|i: int| 0 <= i < ps.len() && ps[i] == site.at + k;
                    if jumps_to_end && i == 0 {
                    } else {
                        let r = if jumps_to_end { i - 1 } else { i };
                        assert(ps[i] == rps[r]);
                        assert(rps.contains(next.at + (k - n)));
                    }
                } else {
                    if rps.contains(next.at + (k - n)) {
                        let r = choose|r: int| 0 <= r < rps.len() && rps[r] == next.at + (k - n);
                        let i = if jumps_to_end { r + 1 } else { r };
                        assert(ps[i] == rps[r]);
                    }
                }
            }
        }
        assert forall|i: int| 0 <= i < ps.len() implies site.at <= #[trigger] ps[i] < site.at + a.opcodes.len() by {
            if jumps_to_end && i == 0 {
            } else {
                let r = if jumps_to_end { i - 1 } else { i };
                assert(ps[i] == rps[r]);
            }
        }
    }
}


/// The offsets of the jumps past the `else` clause of a `try` statement that
/// its `catch` clauses `clauses`, emitted at `site`, make.
pub open spec fn catch_end_jumps(clauses: Seq<Catch>, ann: Annotations, frame: usize, site: Site) -> Seq<int>
    decreases clauses.len(),
{
    if clauses.len() == 0 {
        Seq::empty()
    } else {
        let clause = clauses[0];
        let test = match clause.type_ {
            Some(t) => expression_emits(*t, ann, frame, site).followed_by(Emitted::op(OpCode::ThrownIs)),
            None => Emitted::none(),
        };
        let block = block_emits(clause.block@, ann, frame, site.after(test).skip());
        let block_end = site.after(test).skip().after(block);
        seq![block_end.at] + catch_end_jumps(clauses.drop_first(), ann, frame, block_end.skip())
    }
}

/// The `catch` clauses emit the same with any jump past the `else` clause,
/// but for that jump, found at the offsets `catch_end_jumps` gives.
pub proof fn lemma_catch_end_jumps(clauses: Seq<Catch>, ann: Annotations, frame: usize, site: Site, end_jump: OpCode)
    ensures
        ({
            let a = catches_emits(clauses, ann, frame, site, OpCode::Nop);
            let b = catches_emits(clauses, ann, frame, site, end_jump);
            let ps = catch_end_jumps(clauses, ann, frame, site);
            &&& b.opcodes.len() == a.opcodes.len()
            &&& b.strings == a.strings
            &&& b.functions == a.functions
            &&& b.inlines == a.inlines
            &&& forall|i: int| 0 <= i < ps.len() ==> site.at <= #[trigger] ps[i] < site.at + a.opcodes.len()
            &&& forall|k: int| 0 <= k < a.opcodes.len() ==> #[trigger] b.opcodes[k] == if ps.contains(site.at + k) {
                end_jump
            } else {
                a.opcodes[k]
            }
        }),
    decreases clauses.len(),
{
    if clauses.len() > 0 {
        let clause = clauses[0];
        let test = match clause.type_ {
            Some(t) => expression_emits(*t, ann, frame, site).followed_by(Emitted::op(OpCode::ThrownIs)),
            None => Emitted::none(),
        };
        let block = block_emits(clause.block@, ann, frame, site.after(test).skip());
        let block_end = site.after(test).skip().after(block);
        let next = block_end.skip();
        lemma_catch_end_jumps(clauses.drop_first(), ann, frame, next, end_jump);
        let a = catches_emits(clauses, ann, frame, site, OpCode::Nop);
        let b = catches_emits(clauses, ann, frame, site, end_jump);
        let ps = catch_end_jumps(clauses, ann, frame, site);
        let ra = catches_emits(clauses.drop_first(), ann, frame, next, OpCode::Nop);
        let rb = catches_emits(clauses.drop_first(), ann, frame, next, end_jump);
        let rps = catch_end_jumps(clauses.drop_first(), ann, frame, next);
        let n = next.at - site.at;
        assert(a.opcodes.len() == n + ra.opcodes.len());
        assert forall|k: int| 0 <= k < a.opcodes.len() implies #[trigger] b.opcodes[k] == if ps.contains(site.at + k) {
            end_jump
        } else {
            a.opcodes[k]
        } by {
            if k < n {
                if k == n - 1 {
                    assert(ps[0] == site.at + k);
                } else {
                    assert forall|i: int| 0 <= i < ps.len() implies ps[i] != site.at + k by {
                        if i > 0 {
                            assert(ps[i] == rps[i - 1]);
                        }
                    }
                }
            } else {
                assert(b.opcodes[k] == rb.opcodes[k - n]);
                assert(a.opcodes[k] == ra.opcodes[k - n]);
                if ps.contains(site.at + k) {
                    let i = choose|i: int| 0 <= i < ps.len() && ps[i] == site.at + k;
                    if i > 0 {
                        assert(ps[i] == rps[i - 1]);
                        assert(rps.contains(next.at + (k - n)));
                    }
                } else {
                    if rps.contains(next.at + (k - n)) {
                        let r = choose|r: int| 0 <= r < rps.len() && rps[r] == next.at + (k - n);
                        assert(ps[r + 1] == rps[r]);
                    }
                }
            }
        }
        assert forall|i: int| 0 <= i < ps.len() implies site.at <= #[trigger] ps[i] < site.at + a.opcodes.len() by {
            if i > 0 {
                assert(ps[i] == rps[i - 1]);
            }
        }
    }
}


/// A binary operator compiles to the instruction that computes it: run on
/// two values, the instruction of `+` replaces two integers by their
/// wrapping sum and that of `-` by their wrapping difference; the
/// instruction of `is` replaces a value and a type by whether the value is
/// of the type; that of `|` replaces two types by their union; those of
/// `*` and `/` throw a type error that names the operation.
pub proof fn lemma_operator_computes(
    operator: BinaryOperator,
    s: MachineView,
    code: Code,
    implicit: Module,
    t: MachineView,
    o: Outcome,
)
    requires
        s.data_stack.len() >= 2,
        op_taken(s, code, implicit, operator_opcode(operator), t, o),
    ensures
        ({
            let left = s.data_stack[s.data_stack.len() - 2];
            let right = s.data_stack.last();
            let rest = s.data_stack.drop_last().drop_last();
            &&& operator is Addition && left is Integer && right is Integer
                ==> o == Outcome::Continue
                    && t.data_stack == rest.push(Value::Integer(left->Integer_0.wrapping_add(right->Integer_0)))
                    && t.frame.instruction == (s.frame.instruction + 1) as usize && t.flow == s.flow
            &&& operator is Subtraction && left is Integer && right is Integer
                ==> o == Outcome::Continue
                    && t.data_stack == rest.push(Value::Integer(left->Integer_0.wrapping_sub(right->Integer_0)))
                    && t.frame.instruction == (s.frame.instruction + 1) as usize && t.flow == s.flow
            &&& operator is Is && is_outcome(left, right) is Ok
                ==> o == Outcome::Continue
                    && t.data_stack == rest.push(Value::Boolean(is_outcome(left, right)->Ok_0))
                    && t.frame.instruction == (s.frame.instruction + 1) as usize && t.flow == s.flow
            &&& operator is Union && is_type_value(left) && is_type_value(right)
                ==> o == Outcome::Continue && t.data_stack.len() == rest.len() + 1
                    && t.data_stack.drop_last() == rest
                    && t.data_stack.last() is TypeUnion
                    && t.data_stack.last()->TypeUnion_0.left == left && t.data_stack.last()->TypeUnion_0.right == right
                    && t.frame.instruction == (s.frame.instruction + 1) as usize && t.flow == s.flow
            &&& operator is Multiplication ==> o == Outcome::Continue && t.data_stack == rest
                && t.flow is Throwing
                && is_type_error_saying(t.flow->Throwing_0, "Can't multiply "@ + repr_of(left) + " and "@ + repr_of(right))
            &&& operator is Division ==> o == Outcome::Continue && t.data_stack == rest
                && t.flow is Throwing
                && is_type_error_saying(t.flow->Throwing_0, "Can't divide "@ + repr_of(left) + " and "@ + repr_of(right))
        }),
{
}

} // verus!
