//! Whether the compiler finds every annotation it needs in a program.

use vstd::prelude::*;
use crate::parse::node::{Statement, Expression, Lvalue, Root};
use crate::vm::analysis::annotation::Annotations;
use crate::vm::bytecode::emission::{
    frame_bindings,
    find_binding,
    reachable,
    binding_compilable,
    expression_compilable,
    statement_compilable,
};

verus! {

/// Whether `variable` can be reached from frame `frame`.
fn check_reachable(ann: &Annotations, frame: usize, variable: usize) -> (r: bool)
    requires
        frame < ann.frames@.len(),
    ensures
        r == reachable(*ann, frame, variable),
{
    if variable >= ann.variables.len() {
        return false;
    }
    if ann.variables[variable].declared_in == frame {
        return true;
    }
    let bindings = match &ann.frames[frame].closure {
        Some(c) => &c.bindings,
        None => {
            return false;
        },
    };
    let ghost all = frame_bindings(*ann, frame);
    assert(all.skip(0) =~= all);
    let mut i: usize = 0;
    while i < bindings.len()
        invariant
            all == bindings@,
            all == frame_bindings(*ann, frame),
            variable < ann.variables@.len(),
            ann.variables@[variable as int].declared_in != frame,
            i <= all.len(),
            find_binding(all.skip(i as int), variable) == find_binding(all, variable),
        decreases all.len() - i,
    {
        assert(all.skip(i as int).drop_first() =~= all.skip(i + 1));
        if bindings[i].variable == variable {
            assert(all.skip(i as int)[0] == all[i as int]);
            assert(find_binding(all.skip(i as int), variable) is Some);
            return true;
        }
        i += 1;
    }
    proof {
        assert(all.skip(i as int).len() == 0);
    }
    false
}

/// Whether every statement of `block` can be compiled in frame `frame`.
fn check_block(ann: &Annotations, frame: usize, block: &Vec<Statement>) -> (r: bool)
    requires
        frame < ann.frames@.len(),
    ensures
        r == forall|k: int| 0 <= k < block@.len() ==> statement_compilable(#[trigger] block@[k], *ann, frame),
    decreases block@,
{
    let mut i: usize = 0;
    while i < block.len()
        invariant
            frame < ann.frames@.len(),
            i <= block@.len(),
            forall|k: int| 0 <= k < i ==> statement_compilable(#[trigger] block@[k], *ann, frame),
        decreases block@.len() - i,
    {
        if !check_statement(ann, frame, &block[i]) {
            assert(!statement_compilable(block@[i as int], *ann, frame));
            return false;
        }
        i += 1;
    }
    true
}

/// Whether expression `e` can be compiled in frame `frame`.
fn check_expression(ann: &Annotations, frame: usize, e: &Expression) -> (r: bool)
    requires
        frame < ann.frames@.len(),
    ensures
        r == expression_compilable(*e, *ann, frame),
    decreases *e,
{
    match e {
        Expression::Variable { annotation, .. } => check_reachable(ann, frame, *annotation),
        Expression::DotAccess { expression, .. } => check_expression(ann, frame, &**expression),
        Expression::ItemAccess { expression, key_expression } => check_expression(ann, frame, &**expression) && check_expression(
            ann,
            frame,
            &**key_expression,
        ),
        Expression::Call { expression, arguments } => {
            if !check_expression(ann, frame, &**expression) {
                return false;
            }
            let mut i: usize = 0;
            while i < arguments.len()
                invariant
                    frame < ann.frames@.len(),
                    *e is Call,
                    *arguments == e->Call_arguments,
                    i <= arguments@.len(),
                    forall|k: int| 0 <= k < i ==> expression_compilable(#[trigger] arguments@[k], *ann, frame),
                decreases arguments@.len() - i,
            {
                proof {
                    assert(decreases_to!(*e => e->Call_arguments));
                    assert(decreases_to!(e->Call_arguments => e->Call_arguments@));
                    assert(decreases_to!(e->Call_arguments@ => e->Call_arguments@[i as int]));
                }
                if !check_expression(ann, frame, &arguments[i]) {
                    assert(!expression_compilable(arguments@[i as int], *ann, frame));
                    return false;
                }
                i += 1;
            }
            true
        },
        Expression::Binary { left, right, .. } => check_expression(ann, frame, &**left) && check_expression(ann, frame, &**right),
        Expression::Not { expression } => check_expression(ann, frame, &**expression),
        Expression::Function { parameters, frame: f, block } => {
            let f = *f;
            if f >= ann.frames.len() {
                return false;
            }
            let bindings = match &ann.frames[f].closure {
                Some(c) => &c.bindings,
                None => {
                    return false;
                },
            };
            let mut i: usize = 0;
            while i < parameters.len()
                invariant
                    *e is Function,
                    *parameters == e->Function_parameters,
                    i <= parameters@.len(),
                    forall|k: int| 0 <= k < i ==> (#[trigger] parameters@[k]).variable < ann.variables@.len(),
                decreases parameters@.len() - i,
            {
                if parameters[i].variable >= ann.variables.len() {
                    assert(!(parameters@[i as int].variable < ann.variables@.len()));
                    return false;
                }
                i += 1;
            }
            let ghost all = frame_bindings(*ann, f);
            assert(bindings@ == all);
            let mut i: usize = 0;
            while i < bindings.len()
                invariant
                    frame < ann.frames@.len(),
                    f < ann.frames@.len(),
                    *e is Function,
                    f == e->Function_frame,
                    all == frame_bindings(*ann, f),
                    all == bindings@,
                    i <= all.len(),
                    forall|k: int| 0 <= k < i ==> binding_compilable(#[trigger] all[k], *ann, frame),
                decreases all.len() - i,
            {
                if !check_reachable(ann, frame, bindings[i].variable) {
                    assert(!binding_compilable(all[i as int], *ann, frame));
                    return false;
                }
                i += 1;
            }
            check_block(ann, f, block)
        },
        _ => true,
    }
}

/// Whether statement `s` can be compiled in frame `frame`.
fn check_statement(ann: &Annotations, frame: usize, s: &Statement) -> (r: bool)
    requires
        frame < ann.frames@.len(),
    ensures
        r == statement_compilable(*s, *ann, frame),
    decreases *s,
{
    match s {
        Statement::Use { .. } => true,
        Statement::ExpressionStatement { expression } => check_expression(ann, frame, &**expression),
        Statement::Assignment { lvalue, rvalue } => {
            check_expression(ann, frame, &**rvalue) && match &**lvalue {
                Lvalue::VariableLvalue { annotation, .. } => check_reachable(ann, frame, *annotation),
                Lvalue::DotAccessLvalue { expression, .. } => check_expression(ann, frame, &**expression),
            }
        },
        Statement::Let { annotation, default, .. } => {
            *annotation < ann.variables.len() && match default {
                Some(e) => check_expression(ann, frame, &**e),
                None => true,
            }
        },
        Statement::Print { expression } => check_expression(ann, frame, &**expression),
        Statement::Return { expression } => match expression {
            Some(e) => check_expression(ann, frame, &**e),
            None => true,
        },
        Statement::Throw { expression } => check_expression(ann, frame, &**expression),
        Statement::If { test, block, else_if_clauses, else_clause } => {
            if !check_expression(ann, frame, &**test) || !check_block(ann, frame, block) {
                return false;
            }
            let mut i: usize = 0;
            while i < else_if_clauses.len()
                invariant
                    frame < ann.frames@.len(),
                    *s is If,
                    *else_if_clauses == s->If_else_if_clauses,
                    i <= else_if_clauses@.len(),
                    forall|k: int| 0 <= k < i ==> {
                        let clause = #[trigger] else_if_clauses@[k];
                        &&& expression_compilable(*clause.test, *ann, frame)
                        &&& forall|j: int| 0 <= j < clause.block@.len() ==> statement_compilable(#[trigger] clause.block@[j], *ann, frame)
                    },
                decreases else_if_clauses@.len() - i,
            {
                let clause = &else_if_clauses[i];
                proof {
                    assert(decreases_to!(*s => s->If_else_if_clauses));
                    assert(decreases_to!(s->If_else_if_clauses => s->If_else_if_clauses@));
                    assert(decreases_to!(s->If_else_if_clauses@ => s->If_else_if_clauses@[i as int]));
                    assert(decreases_to!(s->If_else_if_clauses@[i as int] => clause.test));
                    assert(decreases_to!(s->If_else_if_clauses@[i as int] => clause.block));
                    assert(decreases_to!(clause.block => clause.block@));
                }
                if !check_expression(ann, frame, &*clause.test) || !check_block(ann, frame, &clause.block) {
                    assert(else_if_clauses@[i as int] == *clause);
                    return false;
                }
                i += 1;
            }
            match else_clause {
                Some(c) => check_block(ann, frame, &c.block),
                None => true,
            }
        },
        Statement::While { test, block, else_clause } => {
            else_clause.is_none() && check_expression(ann, frame, &**test) && check_block(ann, frame, block)
        },
        Statement::Try { block, catch_clauses, else_clause, finally_clause } => {
            if !check_block(ann, frame, block) {
                return false;
            }
            let mut i: usize = 0;
            while i < catch_clauses.len()
                invariant
                    frame < ann.frames@.len(),
                    *s is Try,
                    *catch_clauses == s->Try_catch_clauses,
                    i <= catch_clauses@.len(),
                    forall|k: int| 0 <= k < i ==> {
                        let clause = #[trigger] catch_clauses@[k];
                        &&& clause.variable < ann.variables@.len()
                        &&& match clause.type_ {
                            Some(t) => expression_compilable(*t, *ann, frame),
                            None => true,
                        }
                        &&& forall|j: int| 0 <= j < clause.block@.len() ==> statement_compilable(#[trigger] clause.block@[j], *ann, frame)
                    },
                decreases catch_clauses@.len() - i,
            {
                let clause = &catch_clauses[i];
                proof {
                    assert(decreases_to!(*s => s->Try_catch_clauses));
                    assert(decreases_to!(s->Try_catch_clauses => s->Try_catch_clauses@));
                    assert(decreases_to!(s->Try_catch_clauses@ => s->Try_catch_clauses@[i as int]));
                    assert(decreases_to!(s->Try_catch_clauses@[i as int] => clause.block));
                    assert(decreases_to!(clause.block => clause.block@));
                }
                if clause.variable >= ann.variables.len() {
                    assert(catch_clauses@[i as int] == *clause);
                    return false;
                }
                let type_ok = match &clause.type_ {
                    Some(t) => {
                        proof {
                            assert(decreases_to!(s->Try_catch_clauses@[i as int] => clause.type_));
                            assert(decreases_to!(clause.type_ => clause.type_->Some_0));
                        }
                        check_expression(ann, frame, &**t)
                    },
                    None => true,
                };
                if !type_ok || !check_block(ann, frame, &clause.block) {
                    assert(catch_clauses@[i as int] == *clause);
                    return false;
                }
                i += 1;
            }
            (match else_clause {
                Some(c) => check_block(ann, frame, &c.block),
                None => true,
            }) && match finally_clause {
                Some(c) => check_block(ann, frame, &c.block),
                None => true,
            }
        },
    }
}

/// The compiler finds every annotation it needs in `root`, analysed into
/// `ann`.
pub open spec fn root_compilable_spec(ann: Annotations, root: Root) -> bool {
    &&& root.frame < ann.frames@.len()
    &&& forall|k: int| 0 <= k < root.statements@.len() ==> statement_compilable(#[trigger] root.statements@[k], ann, root.frame)
}

/// Whether the compiler finds every annotation it needs in `root`.
pub fn root_compilable(ann: &Annotations, root: &Root) -> (r: bool)
    ensures
        r == root_compilable_spec(*ann, *root),
{
    root.frame < ann.frames.len() && check_block(ann, root.frame, &root.statements)
}

} // verus!
