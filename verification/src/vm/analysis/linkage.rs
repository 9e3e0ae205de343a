//! Lexical closure: what name resolution establishes of the frames of a
//! program. A function reaches each variable that it uses either because it
//! declares it or because its closure binds it; and a closure binds only
//! variables that the frame around it reaches in turn.

use vstd::prelude::*;
use crate::parse::node::{Statement, Expression, Lvalue, ElseIf, Catch};
use crate::vm::analysis::annotation::{Annotations, Frame};
use crate::vm::bytecode::emission::{
    reachable,
    find_binding,
    frame_bindings,
    expression_compilable,
    statement_compilable,
};

verus! {

// FRAMES //////////////////////////////////////////////////////////////////////////////////////////

/// Frame `f` has a closure that binds variable `v`.
pub open spec fn binds(f: Frame, v: usize) -> bool {
    f.closure matches Some(c) && exists|k: int| 0 <= k < c.bindings@.len() && #[trigger] c.bindings@[k].variable == v
}

/// Variable `v` exists, and frame `g` declares it or its closure binds it.
pub open spec fn sees(ann: Annotations, g: usize, v: usize) -> bool {
    &&& v < ann.variables@.len()
    &&& (ann.variables@[v as int].declared_in == g || binds(ann.frames@[g as int], v))
}

/// Frame `f`, a function of frame `g`, has a closure, and each variable that
/// the closure binds is one that `g` sees.
pub open spec fn closure_fits(ann: Annotations, g: usize, f: usize) -> bool {
    &&& ann.frames@[f as int].closure is Some
    &&& forall|b: int| 0 <= b < ann.frames@[f as int].closure->Some_0.bindings@.len()
        ==> sees(ann, g, #[trigger] ann.frames@[f as int].closure->Some_0.bindings@[b].variable)
}

/// Every function frame fits in the frame around it, and no frame is a
/// function of two frames.
pub open spec fn closures_chained(ann: Annotations) -> bool {
    &&& forall|g: int, k: int|
        0 <= g < ann.frames@.len() && 0 <= k < ann.frames@[g].functions@.len()
            ==> closure_fits(ann, g as usize, #[trigger] ann.frames@[g].functions@[k])
    &&& forall|g: int, k: int, h: int, l: int|
        0 <= g < ann.frames@.len() && 0 <= k < ann.frames@[g].functions@.len() && 0 <= h < ann.frames@.len()
            && 0 <= l < ann.frames@[h].functions@.len()
            && #[trigger] ann.frames@[g].functions@[k] == #[trigger] ann.frames@[h].functions@[l] ==> g == h
}

/// From `a` to `b` the arena only grew in what `sees` and `closure_fits`
/// read: variables keep their frames, frames keep their functions (and may
/// get more), and closures keep their bindings (and may get more).
pub open spec fn links_grow(a: Annotations, b: Annotations) -> bool {
    &&& a.variables@.len() <= b.variables@.len()
    &&& forall|w: int| 0 <= w < a.variables@.len() ==> (#[trigger] b.variables@[w]).declared_in == a.variables@[w].declared_in
    &&& a.frames@.len() <= b.frames@.len()
    &&& forall|g: int| 0 <= g < a.frames@.len() ==> a.frames@[g].functions@.is_prefix_of(#[trigger] b.frames@[g].functions@)
    &&& forall|g: int, v: usize| 0 <= g < a.frames@.len() && #[trigger] binds(a.frames@[g], v) ==> binds(b.frames@[g], v)
}

/// `a` and `b` agree on what `sees` and `closure_fits` read.
pub open spec fn same_links(a: Annotations, b: Annotations) -> bool {
    &&& a.variables@.len() == b.variables@.len()
    &&& forall|w: int| 0 <= w < a.variables@.len() ==> (#[trigger] b.variables@[w]).declared_in == a.variables@[w].declared_in
    &&& a.frames@.len() == b.frames@.len()
    &&& forall|g: int| 0 <= g < a.frames@.len() ==> (#[trigger] b.frames@[g]).functions@ == a.frames@[g].functions@
    &&& forall|g: int| 0 <= g < a.frames@.len() ==> ((#[trigger] b.frames@[g]).closure is Some <==> a.frames@[g].closure is Some)
    &&& forall|g: int| 0 <= g < a.frames@.len() && a.frames@[g].closure is Some ==> {
        &&& (#[trigger] b.frames@[g]).closure->Some_0.bindings@.len() == a.frames@[g].closure->Some_0.bindings@.len()
        &&& forall|k: int| 0 <= k < a.frames@[g].closure->Some_0.bindings@.len()
            ==> #[trigger] b.frames@[g].closure->Some_0.bindings@[k].variable == a.frames@[g].closure->Some_0.bindings@[k].variable
    }
}

pub proof fn lemma_links_grow_refl(a: Annotations)
    ensures
        links_grow(a, a),
{
    assert forall|g: int| 0 <= g < a.frames@.len() implies a.frames@[g].functions@.is_prefix_of(#[trigger] a.frames@[g].functions@) by {}
}

pub proof fn lemma_links_grow_trans(a: Annotations, b: Annotations, c: Annotations)
    requires
        links_grow(a, b),
        links_grow(b, c),
    ensures
        links_grow(a, c),
{
    assert forall|g: int| 0 <= g < a.frames@.len() implies a.frames@[g].functions@.is_prefix_of(#[trigger] c.frames@[g].functions@) by {
        assert(a.frames@[g].functions@.is_prefix_of(b.frames@[g].functions@));
        assert(b.frames@[g].functions@.is_prefix_of(c.frames@[g].functions@));
    }
    assert forall|g: int, v: usize| 0 <= g < a.frames@.len() && #[trigger] binds(a.frames@[g], v) implies binds(c.frames@[g], v) by {
        assert(binds(b.frames@[g], v));
    }
    assert forall|w: int| 0 <= w < a.variables@.len() implies (#[trigger] c.variables@[w]).declared_in == a.variables@[w].declared_in by {
        assert(b.variables@[w].declared_in == a.variables@[w].declared_in);
    }
}

/// What a frame sees it still sees as the arena grows.
pub proof fn lemma_sees_grows(a: Annotations, b: Annotations, g: usize, v: usize)
    requires
        links_grow(a, b),
        g < a.frames@.len(),
        sees(a, g, v),
    ensures
        sees(b, g, v),
{
    assert(b.variables@[v as int].declared_in == a.variables@[v as int].declared_in);
    if binds(a.frames@[g as int], v) {
        assert(binds(b.frames@[g as int], v));
    }
}

/// Arenas that agree on what `sees` reads agree on what it says.
pub proof fn lemma_same_links(a: Annotations, b: Annotations)
    requires
        a.wf(),
        same_links(a, b),
    ensures
        links_grow(a, b),
        links_grow(b, a),
        closures_chained(a) ==> closures_chained(b),
{
    assert forall|g: int| 0 <= g < a.frames@.len() implies a.frames@[g].functions@.is_prefix_of(#[trigger] b.frames@[g].functions@) by {
        assert(b.frames@[g].functions@ == a.frames@[g].functions@);
    }
    assert forall|g: int| 0 <= g < b.frames@.len() implies b.frames@[g].functions@.is_prefix_of(#[trigger] a.frames@[g].functions@) by {
        assert(b.frames@[g].functions@ == a.frames@[g].functions@);
    }
    assert forall|g: int, v: usize| 0 <= g < a.frames@.len() && #[trigger] binds(a.frames@[g], v) implies binds(b.frames@[g], v) by {
        let c = a.frames@[g].closure->Some_0;
        let k = choose|k: int| 0 <= k < c.bindings@.len() && #[trigger] c.bindings@[k].variable == v;
        assert(b.frames@[g].closure->Some_0.bindings@[k].variable == v);
    }
    assert forall|g: int, v: usize| 0 <= g < b.frames@.len() && #[trigger] binds(b.frames@[g], v) implies binds(a.frames@[g], v) by {
        let c = b.frames@[g].closure->Some_0;
        let k = choose|k: int| 0 <= k < c.bindings@.len() && #[trigger] c.bindings@[k].variable == v;
        assert(a.frames@[g].closure->Some_0.bindings@[k].variable == v);
    }
    assert forall|w: int| 0 <= w < b.variables@.len() implies (#[trigger] a.variables@[w]).declared_in == b.variables@[w].declared_in by {
        assert(b.variables@[w].declared_in == a.variables@[w].declared_in);
    }
    if closures_chained(a) {
        assert forall|g: int, k: int|
            0 <= g < b.frames@.len() && 0 <= k < b.frames@[g].functions@.len()
                implies closure_fits(b, g as usize, #[trigger] b.frames@[g].functions@[k]) by {
            let f = b.frames@[g].functions@[k];
            assert(a.frames@[g].functions@[k] == f);
            assert(closure_fits(a, g as usize, f));
            assert(f < a.frames@.len());
            let c = b.frames@[f as int].closure->Some_0;
            assert forall|i: int| 0 <= i < c.bindings@.len() implies sees(b, g as usize, #[trigger] c.bindings@[i].variable) by {
                let v = c.bindings@[i].variable;
                assert(a.frames@[f as int].closure->Some_0.bindings@[i].variable == v);
                assert(sees(a, g as usize, v));
                lemma_sees_grows(a, b, g as usize, v);
            }
        }
        assert forall|g: int, k: int, h: int, l: int|
            0 <= g < b.frames@.len() && 0 <= k < b.frames@[g].functions@.len() && 0 <= h < b.frames@.len()
                && 0 <= l < b.frames@[h].functions@.len()
                && #[trigger] b.frames@[g].functions@[k] == #[trigger] b.frames@[h].functions@[l] implies g == h by {
            assert(a.frames@[g].functions@[k] == b.frames@[g].functions@[k]);
            assert(a.frames@[h].functions@[l] == b.frames@[h].functions@[l]);
        }
    }
}

/// A closure that binds `v` is found binding it.
pub proof fn lemma_binds_found(ann: Annotations, g: usize, v: usize)
    requires
        binds(ann.frames@[g as int], v),
    ensures
        find_binding(frame_bindings(ann, g), v) is Some,
{
    let bindings = frame_bindings(ann, g);
    let k = choose|k: int| 0 <= k < bindings.len() && #[trigger] bindings[k].variable == v;
    lemma_find_binding_some(bindings, v, k);
}

proof fn lemma_find_binding_some(bindings: Seq<crate::vm::analysis::annotation::Binding>, v: usize, k: int)
    requires
        0 <= k < bindings.len(),
        bindings[k].variable == v,
    ensures
        find_binding(bindings, v) is Some,
    decreases k,
{
    if bindings[0].variable != v {
        lemma_find_binding_some(bindings.drop_first(), v, k - 1);
    }
}


// THE SYNTAX TREE /////////////////////////////////////////////////////////////////////////////////

/// Every variable that `e`, in frame `g`, uses is one that `g` sees; each
/// function in it is a function of `g` whose body is linked in its own frame,
/// and whose parameters are variables.
pub open spec fn expression_linked(e: Expression, ann: Annotations, g: usize) -> bool
    decreases e,
{
    match e {
        Expression::Variable { annotation, .. } => sees(ann, g, annotation),
        Expression::DotAccess { expression, .. } => expression_linked(*expression, ann, g),
        Expression::ItemAccess { expression, key_expression } => expression_linked(*expression, ann, g)
            && expression_linked(*key_expression, ann, g),
        Expression::Call { expression, arguments } => {
            &&& expression_linked(*expression, ann, g)
            &&& forall|i: int| 0 <= i < arguments@.len() ==> expression_linked(#[trigger] arguments@[i], ann, g)
        },
        Expression::Binary { left, right, .. } => expression_linked(*left, ann, g) && expression_linked(*right, ann, g),
        Expression::Not { expression } => expression_linked(*expression, ann, g),
        Expression::Function { parameters, frame: f, block } => {
            &&& ann.frames@[g as int].functions@.contains(f)
            &&& forall|i: int| 0 <= i < parameters@.len() ==> (#[trigger] parameters@[i]).variable < ann.variables@.len()
            &&& forall|i: int| 0 <= i < block@.len() ==> statement_linked(#[trigger] block@[i], ann, f)
        },
        _ => true,
    }
}

/// Every variable that `s`, in frame `g`, uses or assigns to is one that `g`
/// sees; every variable it declares exists; the functions in it are linked;
/// and a `while` in it has no `else` clause.
pub open spec fn statement_linked(s: Statement, ann: Annotations, g: usize) -> bool
    decreases s,
{
    match s {
        Statement::Use { .. } => true,
        Statement::ExpressionStatement { expression } => expression_linked(*expression, ann, g),
        Statement::Assignment { lvalue, rvalue } => {
            &&& expression_linked(*rvalue, ann, g)
            &&& match *lvalue {
                Lvalue::VariableLvalue { annotation, .. } => sees(ann, g, annotation),
                Lvalue::DotAccessLvalue { expression, .. } => expression_linked(*expression, ann, g),
            }
        },
        Statement::Let { annotation, default, .. } => {
            &&& annotation < ann.variables@.len()
            &&& match default {
                Some(e) => expression_linked(*e, ann, g),
                None => true,
            }
        },
        Statement::Print { expression } => expression_linked(*expression, ann, g),
        Statement::Return { expression } => match expression {
            Some(e) => expression_linked(*e, ann, g),
            None => true,
        },
        Statement::Throw { expression } => expression_linked(*expression, ann, g),
        Statement::If { test, block, else_if_clauses, else_clause } => {
            &&& expression_linked(*test, ann, g)
            &&& forall|i: int| 0 <= i < block@.len() ==> statement_linked(#[trigger] block@[i], ann, g)
            &&& forall|k: int| 0 <= k < else_if_clauses@.len() ==> else_if_linked(#[trigger] else_if_clauses@[k], ann, g)
            &&& match else_clause {
                Some(c) => forall|i: int| 0 <= i < c.block@.len() ==> statement_linked(#[trigger] c.block@[i], ann, g),
                None => true,
            }
        },
        Statement::While { test, block, else_clause } => {
            &&& else_clause is None
            &&& expression_linked(*test, ann, g)
            &&& forall|i: int| 0 <= i < block@.len() ==> statement_linked(#[trigger] block@[i], ann, g)
        },
        Statement::Try { block, catch_clauses, else_clause, finally_clause } => {
            &&& forall|i: int| 0 <= i < block@.len() ==> statement_linked(#[trigger] block@[i], ann, g)
            &&& forall|k: int| 0 <= k < catch_clauses@.len() ==> catch_linked(#[trigger] catch_clauses@[k], ann, g)
            &&& match else_clause {
                Some(c) => forall|i: int| 0 <= i < c.block@.len() ==> statement_linked(#[trigger] c.block@[i], ann, g),
                None => true,
            }
            &&& match finally_clause {
                Some(c) => forall|i: int| 0 <= i < c.block@.len() ==> statement_linked(#[trigger] c.block@[i], ann, g),
                None => true,
            }
        },
    }
}

pub open spec fn else_if_linked(clause: ElseIf, ann: Annotations, g: usize) -> bool
    decreases clause,
{
    &&& expression_linked(*clause.test, ann, g)
    &&& forall|i: int| 0 <= i < clause.block@.len() ==> statement_linked(#[trigger] clause.block@[i], ann, g)
}

pub open spec fn catch_linked(clause: Catch, ann: Annotations, g: usize) -> bool
    decreases clause,
{
    &&& clause.variable < ann.variables@.len()
    &&& match clause.type_ {
        Some(t) => expression_linked(*t, ann, g),
        None => true,
    }
    &&& forall|i: int| 0 <= i < clause.block@.len() ==> statement_linked(#[trigger] clause.block@[i], ann, g)
}

/// No `while` in the body of a function in `e` has an `else` clause.
pub open spec fn expression_no_while_else(e: Expression) -> bool
    decreases e,
{
    match e {
        Expression::DotAccess { expression, .. } => expression_no_while_else(*expression),
        Expression::ItemAccess { expression, key_expression } => expression_no_while_else(*expression)
            && expression_no_while_else(*key_expression),
        Expression::Call { expression, arguments } => {
            &&& expression_no_while_else(*expression)
            &&& forall|i: int| 0 <= i < arguments@.len() ==> expression_no_while_else(#[trigger] arguments@[i])
        },
        Expression::Binary { left, right, .. } => expression_no_while_else(*left) && expression_no_while_else(*right),
        Expression::Not { expression } => expression_no_while_else(*expression),
        Expression::Function { block, .. } => forall|i: int| 0 <= i < block@.len() ==> statement_no_while_else(#[trigger] block@[i]),
        _ => true,
    }
}

/// No `while` in `s` has an `else` clause.
pub open spec fn statement_no_while_else(s: Statement) -> bool
    decreases s,
{
    match s {
        Statement::Use { .. } => true,
        Statement::ExpressionStatement { expression } => expression_no_while_else(*expression),
        Statement::Assignment { lvalue, rvalue } => expression_no_while_else(*rvalue) && lvalue_no_while_else(*lvalue),
        Statement::Let { default, .. } => match default {
            Some(e) => expression_no_while_else(*e),
            None => true,
        },
        Statement::Print { expression } => expression_no_while_else(*expression),
        Statement::Return { expression } => match expression {
            Some(e) => expression_no_while_else(*e),
            None => true,
        },
        Statement::Throw { expression } => expression_no_while_else(*expression),
        Statement::If { test, block, else_if_clauses, else_clause } => {
            &&& expression_no_while_else(*test)
            &&& forall|i: int| 0 <= i < block@.len() ==> statement_no_while_else(#[trigger] block@[i])
            &&& forall|k: int| 0 <= k < else_if_clauses@.len() ==> else_if_no_while_else(#[trigger] else_if_clauses@[k])
            &&& match else_clause {
                Some(c) => forall|i: int| 0 <= i < c.block@.len() ==> statement_no_while_else(#[trigger] c.block@[i]),
                None => true,
            }
        },
        Statement::While { test, block, else_clause } => {
            &&& else_clause is None
            &&& expression_no_while_else(*test)
            &&& forall|i: int| 0 <= i < block@.len() ==> statement_no_while_else(#[trigger] block@[i])
        },
        Statement::Try { block, catch_clauses, else_clause, finally_clause } => {
            &&& forall|i: int| 0 <= i < block@.len() ==> statement_no_while_else(#[trigger] block@[i])
            &&& forall|k: int| 0 <= k < catch_clauses@.len() ==> catch_no_while_else(#[trigger] catch_clauses@[k])
            &&& match else_clause {
                Some(c) => forall|i: int| 0 <= i < c.block@.len() ==> statement_no_while_else(#[trigger] c.block@[i]),
                None => true,
            }
            &&& match finally_clause {
                Some(c) => forall|i: int| 0 <= i < c.block@.len() ==> statement_no_while_else(#[trigger] c.block@[i]),
                None => true,
            }
        },
    }
}

pub open spec fn lvalue_no_while_else(lvalue: Lvalue) -> bool
    decreases lvalue,
{
    match lvalue {
        Lvalue::VariableLvalue { .. } => true,
        Lvalue::DotAccessLvalue { expression, .. } => expression_no_while_else(*expression),
    }
}

/// The expression of an assignment target, if it has one, is linked.
pub open spec fn lvalue_expression_linked(lvalue: Lvalue, ann: Annotations, g: usize) -> bool {
    match lvalue {
        Lvalue::VariableLvalue { .. } => true,
        Lvalue::DotAccessLvalue { expression, .. } => expression_linked(*expression, ann, g),
    }
}

pub open spec fn else_if_no_while_else(clause: ElseIf) -> bool
    decreases clause,
{
    &&& expression_no_while_else(*clause.test)
    &&& forall|i: int| 0 <= i < clause.block@.len() ==> statement_no_while_else(#[trigger] clause.block@[i])
}

pub open spec fn catch_no_while_else(clause: Catch) -> bool
    decreases clause,
{
    &&& match clause.type_ {
        Some(t) => expression_no_while_else(*t),
        None => true,
    }
    &&& forall|i: int| 0 <= i < clause.block@.len() ==> statement_no_while_else(#[trigger] clause.block@[i])
}


// AS THE ARENA GROWS //////////////////////////////////////////////////////////////////////////////

/// A linked expression stays linked as the arena grows.
pub proof fn lemma_expression_linked_grows(e: Expression, a: Annotations, b: Annotations, g: usize)
    requires
        a.wf(),
        g < a.frames@.len(),
        links_grow(a, b),
        expression_linked(e, a, g),
    ensures
        expression_linked(e, b, g),
    decreases e,
{
    match e {
        Expression::Variable { annotation, .. } => {
            lemma_sees_grows(a, b, g, annotation);
        },
        Expression::DotAccess { expression, .. } => {
            lemma_expression_linked_grows(*expression, a, b, g);
        },
        Expression::ItemAccess { expression, key_expression } => {
            lemma_expression_linked_grows(*expression, a, b, g);
            lemma_expression_linked_grows(*key_expression, a, b, g);
        },
        Expression::Call { expression, arguments } => {
            lemma_expression_linked_grows(*expression, a, b, g);
            assert forall|i: int| 0 <= i < arguments@.len() implies expression_linked(#[trigger] arguments@[i], b, g) by {
                lemma_expression_linked_grows(arguments@[i], a, b, g);
            }
        },
        Expression::Binary { left, right, .. } => {
            lemma_expression_linked_grows(*left, a, b, g);
            lemma_expression_linked_grows(*right, a, b, g);
        },
        Expression::Not { expression } => {
            lemma_expression_linked_grows(*expression, a, b, g);
        },
        Expression::Function { parameters, frame: f, block } => {
            let fs = a.frames@[g as int].functions@;
            let k = choose|k: int| 0 <= k < fs.len() && fs[k] == f;
            assert(fs.is_prefix_of(b.frames@[g as int].functions@));
            assert(b.frames@[g as int].functions@[k] == f);
            assert(f < a.frames@.len());
            assert forall|i: int| 0 <= i < block@.len() implies statement_linked(#[trigger] block@[i], b, f) by {
                lemma_statement_linked_grows(block@[i], a, b, f);
            }
        },
        _ => {},
    }
}

/// A linked statement stays linked as the arena grows.
pub proof fn lemma_statement_linked_grows(s: Statement, a: Annotations, b: Annotations, g: usize)
    requires
        a.wf(),
        g < a.frames@.len(),
        links_grow(a, b),
        statement_linked(s, a, g),
    ensures
        statement_linked(s, b, g),
    decreases s,
{
    match s {
        Statement::Use { .. } => {},
        Statement::ExpressionStatement { expression } => {
            lemma_expression_linked_grows(*expression, a, b, g);
        },
        Statement::Assignment { lvalue, rvalue } => {
            lemma_expression_linked_grows(*rvalue, a, b, g);
            match *lvalue {
                Lvalue::VariableLvalue { annotation, .. } => {
                    lemma_sees_grows(a, b, g, annotation);
                },
                Lvalue::DotAccessLvalue { expression, .. } => {
                    lemma_expression_linked_grows(*expression, a, b, g);
                },
            }
        },
        Statement::Let { default, .. } => {
            match default {
                Some(e) => {
                    lemma_expression_linked_grows(*e, a, b, g);
                },
                None => {},
            }
        },
        Statement::Print { expression } => {
            lemma_expression_linked_grows(*expression, a, b, g);
        },
        Statement::Return { expression } => {
            match expression {
                Some(e) => {
                    lemma_expression_linked_grows(*e, a, b, g);
                },
                None => {},
            }
        },
        Statement::Throw { expression } => {
            lemma_expression_linked_grows(*expression, a, b, g);
        },
        Statement::If { test, block, else_if_clauses, else_clause } => {
            lemma_expression_linked_grows(*test, a, b, g);
            assert forall|i: int| 0 <= i < block@.len() implies statement_linked(#[trigger] block@[i], b, g) by {
                lemma_statement_linked_grows(block@[i], a, b, g);
            }
            assert forall|k: int| 0 <= k < else_if_clauses@.len() implies else_if_linked(#[trigger] else_if_clauses@[k], b, g) by {
                let clause = else_if_clauses@[k];
                assert(else_if_linked(clause, a, g));
                lemma_expression_linked_grows(*clause.test, a, b, g);
                assert forall|i: int| 0 <= i < clause.block@.len() implies statement_linked(#[trigger] clause.block@[i], b, g) by {
                    lemma_statement_linked_grows(clause.block@[i], a, b, g);
                }
            }
            match else_clause {
                Some(c) => {
                    assert forall|i: int| 0 <= i < c.block@.len() implies statement_linked(#[trigger] c.block@[i], b, g) by {
                        lemma_statement_linked_grows(c.block@[i], a, b, g);
                    }
                },
                None => {},
            }
        },
        Statement::While { test, block, .. } => {
            lemma_expression_linked_grows(*test, a, b, g);
            assert forall|i: int| 0 <= i < block@.len() implies statement_linked(#[trigger] block@[i], b, g) by {
                lemma_statement_linked_grows(block@[i], a, b, g);
            }
        },
        Statement::Try { block, catch_clauses, else_clause, finally_clause } => {
            assert forall|i: int| 0 <= i < block@.len() implies statement_linked(#[trigger] block@[i], b, g) by {
                lemma_statement_linked_grows(block@[i], a, b, g);
            }
            assert forall|k: int| 0 <= k < catch_clauses@.len() implies catch_linked(#[trigger] catch_clauses@[k], b, g) by {
                let clause = catch_clauses@[k];
                assert(catch_linked(clause, a, g));
                match clause.type_ {
                    Some(t) => {
                        lemma_expression_linked_grows(*t, a, b, g);
                    },
                    None => {},
                }
                assert forall|i: int| 0 <= i < clause.block@.len() implies statement_linked(#[trigger] clause.block@[i], b, g) by {
                    lemma_statement_linked_grows(clause.block@[i], a, b, g);
                }
            }
            match else_clause {
                Some(c) => {
                    assert forall|i: int| 0 <= i < c.block@.len() implies statement_linked(#[trigger] c.block@[i], b, g) by {
                        lemma_statement_linked_grows(c.block@[i], a, b, g);
                    }
                },
                None => {},
            }
            match finally_clause {
                Some(c) => {
                    assert forall|i: int| 0 <= i < c.block@.len() implies statement_linked(#[trigger] c.block@[i], b, g) by {
                        lemma_statement_linked_grows(c.block@[i], a, b, g);
                    }
                },
                None => {},
            }
        },
    }
}


// WHAT CAN BE COMPILED ////////////////////////////////////////////////////////////////////////////

/// What a frame sees, the compiler reaches from it.
pub proof fn lemma_sees_reachable(ann: Annotations, g: usize, v: usize)
    requires
        sees(ann, g, v),
    ensures
        reachable(ann, g, v),
{
    if ann.variables@[v as int].declared_in != g {
        lemma_binds_found(ann, g, v);
    }
}

/// A linked expression can be compiled.
pub proof fn lemma_expression_linked_compilable(e: Expression, ann: Annotations, g: usize)
    requires
        ann.wf(),
        closures_chained(ann),
        g < ann.frames@.len(),
        expression_linked(e, ann, g),
    ensures
        expression_compilable(e, ann, g),
    decreases e,
{
    match e {
        Expression::Variable { annotation, .. } => {
            lemma_sees_reachable(ann, g, annotation);
        },
        Expression::DotAccess { expression, .. } => {
            lemma_expression_linked_compilable(*expression, ann, g);
        },
        Expression::ItemAccess { expression, key_expression } => {
            lemma_expression_linked_compilable(*expression, ann, g);
            lemma_expression_linked_compilable(*key_expression, ann, g);
        },
        Expression::Call { expression, arguments } => {
            lemma_expression_linked_compilable(*expression, ann, g);
            assert forall|i: int| 0 <= i < arguments@.len() implies expression_compilable(#[trigger] arguments@[i], ann, g) by {
                lemma_expression_linked_compilable(arguments@[i], ann, g);
            }
        },
        Expression::Binary { left, right, .. } => {
            lemma_expression_linked_compilable(*left, ann, g);
            lemma_expression_linked_compilable(*right, ann, g);
        },
        Expression::Not { expression } => {
            lemma_expression_linked_compilable(*expression, ann, g);
        },
        Expression::Function { parameters, frame: f, block } => {
            let fs = ann.frames@[g as int].functions@;
            let k = choose|k: int| 0 <= k < fs.len() && fs[k] == f;
            assert(f < ann.frames@.len());
            assert(closure_fits(ann, g, fs[k]));
            let bindings = frame_bindings(ann, f);
            assert forall|b: int| 0 <= b < bindings.len() implies crate::vm::bytecode::emission::binding_compilable(
                #[trigger] bindings[b], ann, g) by {
                assert(sees(ann, g, ann.frames@[f as int].closure->Some_0.bindings@[b].variable));
                lemma_sees_reachable(ann, g, bindings[b].variable);
            }
            assert forall|i: int| 0 <= i < block@.len() implies statement_compilable(#[trigger] block@[i], ann, f) by {
                lemma_statement_linked_compilable(block@[i], ann, f);
            }
        },
        _ => {},
    }
}

/// A linked statement can be compiled.
pub proof fn lemma_statement_linked_compilable(s: Statement, ann: Annotations, g: usize)
    requires
        ann.wf(),
        closures_chained(ann),
        g < ann.frames@.len(),
        statement_linked(s, ann, g),
    ensures
        statement_compilable(s, ann, g),
    decreases s,
{
    match s {
        Statement::Use { .. } => {},
        Statement::ExpressionStatement { expression } => {
            lemma_expression_linked_compilable(*expression, ann, g);
        },
        Statement::Assignment { lvalue, rvalue } => {
            lemma_expression_linked_compilable(*rvalue, ann, g);
            match *lvalue {
                Lvalue::VariableLvalue { annotation, .. } => {
                    lemma_sees_reachable(ann, g, annotation);
                },
                Lvalue::DotAccessLvalue { expression, .. } => {
                    lemma_expression_linked_compilable(*expression, ann, g);
                },
            }
        },
        Statement::Let { default, .. } => {
            match default {
                Some(e) => {
                    lemma_expression_linked_compilable(*e, ann, g);
                },
                None => {},
            }
        },
        Statement::Print { expression } => {
            lemma_expression_linked_compilable(*expression, ann, g);
        },
        Statement::Return { expression } => {
            match expression {
                Some(e) => {
                    lemma_expression_linked_compilable(*e, ann, g);
                },
                None => {},
            }
        },
        Statement::Throw { expression } => {
            lemma_expression_linked_compilable(*expression, ann, g);
        },
        Statement::If { test, block, else_if_clauses, else_clause } => {
            lemma_expression_linked_compilable(*test, ann, g);
            assert forall|i: int| 0 <= i < block@.len() implies statement_compilable(#[trigger] block@[i], ann, g) by {
                lemma_statement_linked_compilable(block@[i], ann, g);
            }
            assert forall|k: int| 0 <= k < else_if_clauses@.len() implies {
                let clause = #[trigger] else_if_clauses@[k];
                &&& expression_compilable(*clause.test, ann, g)
                &&& forall|i: int| 0 <= i < clause.block@.len() ==> statement_compilable(#[trigger] clause.block@[i], ann, g)
            } by {
                let clause = else_if_clauses@[k];
                assert(else_if_linked(clause, ann, g));
                lemma_expression_linked_compilable(*clause.test, ann, g);
                assert forall|i: int| 0 <= i < clause.block@.len() implies statement_compilable(#[trigger] clause.block@[i], ann, g) by {
                    lemma_statement_linked_compilable(clause.block@[i], ann, g);
                }
            }
            match else_clause {
                Some(c) => {
                    assert forall|i: int| 0 <= i < c.block@.len() implies statement_compilable(#[trigger] c.block@[i], ann, g) by {
                        lemma_statement_linked_compilable(c.block@[i], ann, g);
                    }
                },
                None => {},
            }
        },
        Statement::While { test, block, .. } => {
            lemma_expression_linked_compilable(*test, ann, g);
            assert forall|i: int| 0 <= i < block@.len() implies statement_compilable(#[trigger] block@[i], ann, g) by {
                lemma_statement_linked_compilable(block@[i], ann, g);
            }
        },
        Statement::Try { block, catch_clauses, else_clause, finally_clause } => {
            assert forall|i: int| 0 <= i < block@.len() implies statement_compilable(#[trigger] block@[i], ann, g) by {
                lemma_statement_linked_compilable(block@[i], ann, g);
            }
            assert forall|k: int| 0 <= k < catch_clauses@.len() implies {
                let clause = #[trigger] catch_clauses@[k];
                &&& clause.variable < ann.variables@.len()
                &&& match clause.type_ {
                    Some(t) => expression_compilable(*t, ann, g),
                    None => true,
                }
                &&& forall|i: int| 0 <= i < clause.block@.len() ==> statement_compilable(#[trigger] clause.block@[i], ann, g)
            } by {
                let clause = catch_clauses@[k];
                assert(catch_linked(clause, ann, g));
                match clause.type_ {
                    Some(t) => {
                        lemma_expression_linked_compilable(*t, ann, g);
                    },
                    None => {},
                }
                assert forall|i: int| 0 <= i < clause.block@.len() implies statement_compilable(#[trigger] clause.block@[i], ann, g) by {
                    lemma_statement_linked_compilable(clause.block@[i], ann, g);
                }
            }
            match else_clause {
                Some(c) => {
                    assert forall|i: int| 0 <= i < c.block@.len() implies statement_compilable(#[trigger] c.block@[i], ann, g) by {
                        lemma_statement_linked_compilable(c.block@[i], ann, g);
                    }
                },
                None => {},
            }
            match finally_clause {
                Some(c) => {
                    assert forall|i: int| 0 <= i < c.block@.len() implies statement_compilable(#[trigger] c.block@[i], ann, g) by {
                        lemma_statement_linked_compilable(c.block@[i], ann, g);
                    }
                },
                None => {},
            }
        },
    }
}


// KEEPING THE CLOSURES CHAINED ////////////////////////////////////////////////////////////////////

/// As `closures_chained`, but for the bindings of variable `v` in the closure
/// of frame `p`, which the frame around `p` may not see yet.
pub open spec fn closures_chained_but(ann: Annotations, p: int, v: usize) -> bool {
    &&& forall|g: int, k: int|
        0 <= g < ann.frames@.len() && 0 <= k < ann.frames@[g].functions@.len() ==> {
            let f = #[trigger] ann.frames@[g].functions@[k];
            &&& ann.frames@[f as int].closure is Some
            &&& forall|b: int| 0 <= b < ann.frames@[f as int].closure->Some_0.bindings@.len()
                && (f != p || ann.frames@[f as int].closure->Some_0.bindings@[b].variable != v)
                ==> sees(ann, g as usize, #[trigger] ann.frames@[f as int].closure->Some_0.bindings@[b].variable)
        }
    &&& forall|g: int, k: int, h: int, l: int|
        0 <= g < ann.frames@.len() && 0 <= k < ann.frames@[g].functions@.len() && 0 <= h < ann.frames@.len()
            && 0 <= l < ann.frames@[h].functions@.len()
            && #[trigger] ann.frames@[g].functions@[k] == #[trigger] ann.frames@[h].functions@[l] ==> g == h
}

/// Chained closures are chained but for anything.
pub proof fn lemma_chained_but_start(ann: Annotations, p: int, v: usize)
    requires
        closures_chained(ann),
    ensures
        closures_chained_but(ann, p, v),
{
    assert forall|g: int, k: int|
        0 <= g < ann.frames@.len() && 0 <= k < ann.frames@[g].functions@.len() implies {
            let f = #[trigger] ann.frames@[g].functions@[k];
            &&& ann.frames@[f as int].closure is Some
            &&& forall|b: int| 0 <= b < ann.frames@[f as int].closure->Some_0.bindings@.len()
                && (f != p || ann.frames@[f as int].closure->Some_0.bindings@[b].variable != v)
                ==> sees(ann, g as usize, #[trigger] ann.frames@[f as int].closure->Some_0.bindings@[b].variable)
        } by {
        assert(closure_fits(ann, g as usize, ann.frames@[g].functions@[k]));
    }
}

/// Once the frame around `p` sees `v`, the closures are chained.
/// On a chain of frames, each a function of the one before, a closure that
/// binds `v` has every closure between it and the frame declaring `v` bind
/// it too.
pub proof fn lemma_binds_down(ann: Annotations, frames: Seq<usize>, v: usize, j0: int, j: int)
    requires
        closures_chained(ann),
        0 <= j0 < j < frames.len(),
        forall|k: int| 1 <= k < frames.len() ==> ann.frames@[frames[k - 1] as int].functions@.contains(#[trigger] frames[k]),
        forall|k: int| 0 <= k < frames.len() ==> #[trigger] frames[k] < ann.frames@.len(),
        forall|i: int, l: int| 0 <= i < l < frames.len() ==> #[trigger] frames[i] < #[trigger] frames[l],
        v < ann.variables@.len(),
        frames[j0] == ann.variables@[v as int].declared_in,
        binds(ann.frames@[frames[j] as int], v),
    ensures
        forall|i: int| j0 < i <= j ==> binds(#[trigger] ann.frames@[frames[i] as int], v),
    decreases j - j0,
{
    let g = frames[j - 1];
    let f = frames[j];
    assert(ann.frames@[g as int].functions@.contains(f));
    let k = choose|k: int| 0 <= k < ann.frames@[g as int].functions@.len() && ann.frames@[g as int].functions@[k] == f;
    assert(g < ann.frames@.len());
    assert(closure_fits(ann, g, ann.frames@[g as int].functions@[k]));
    let c = ann.frames@[f as int].closure->Some_0;
    let b = choose|b: int| 0 <= b < c.bindings@.len() && #[trigger] c.bindings@[b].variable == v;
    assert(sees(ann, g, c.bindings@[b].variable));
    if j - 1 > j0 {
        assert(frames[j0] < frames[j - 1]);
        lemma_binds_down(ann, frames, v, j0, j - 1);
    }
}

pub proof fn lemma_chained_but_end(ann: Annotations, p: usize, v: usize, parent: usize)
    requires
        closures_chained_but(ann, p as int, v),
        forall|g: int, k: int| 0 <= g < ann.frames@.len() && 0 <= k < ann.frames@[g].functions@.len()
            && #[trigger] ann.frames@[g].functions@[k] == p ==> g == parent,
        sees(ann, parent, v),
    ensures
        closures_chained(ann),
{
    assert forall|g: int, k: int|
        0 <= g < ann.frames@.len() && 0 <= k < ann.frames@[g].functions@.len()
            implies closure_fits(ann, g as usize, #[trigger] ann.frames@[g].functions@[k]) by {
        let f = ann.frames@[g].functions@[k];
        assert forall|b: int| 0 <= b < ann.frames@[f as int].closure->Some_0.bindings@.len()
            implies sees(ann, g as usize, #[trigger] ann.frames@[f as int].closure->Some_0.bindings@[b].variable) by {
            if f == p && ann.frames@[f as int].closure->Some_0.bindings@[b].variable == v {
                assert(g == parent);
            }
        }
    }
}

/// Only the closure of frame `fr` changed from `a` to `b`: it keeps its
/// bindings and may get more, of variable `v`, which it binds. When the frame
/// around `p` is `fr`, the bindings of `v` in `fr` are then the only ones that
/// the frame around them may not see yet.
pub proof fn lemma_chained_step(a: Annotations, b: Annotations, p: int, fr: usize, v: usize)
    requires
        a.wf(),
        closures_chained_but(a, p, v),
        fr < a.frames@.len(),
        b.variables@ == a.variables@,
        b.frames@.len() == a.frames@.len(),
        forall|g: int| 0 <= g < a.frames@.len() && g != fr ==> #[trigger] b.frames@[g] == a.frames@[g],
        b.frames@[fr as int].functions@ == a.frames@[fr as int].functions@,
        a.frames@[fr as int].closure is Some,
        b.frames@[fr as int].closure is Some,
        a.frames@[fr as int].closure->Some_0.bindings@.len() <= b.frames@[fr as int].closure->Some_0.bindings@.len(),
        forall|i: int| 0 <= i < a.frames@[fr as int].closure->Some_0.bindings@.len()
            ==> #[trigger] b.frames@[fr as int].closure->Some_0.bindings@[i].variable == a.frames@[fr as int].closure->Some_0.bindings@[i].variable,
        forall|i: int| a.frames@[fr as int].closure->Some_0.bindings@.len() <= i < b.frames@[fr as int].closure->Some_0.bindings@.len()
            ==> #[trigger] b.frames@[fr as int].closure->Some_0.bindings@[i].variable == v,
        binds(b.frames@[fr as int], v),
        p >= 0 ==> forall|g: int, k: int| 0 <= g < a.frames@.len() && 0 <= k < a.frames@[g].functions@.len()
            && #[trigger] a.frames@[g].functions@[k] == p ==> g == fr,
    ensures
        closures_chained_but(b, fr as int, v),
        links_grow(a, b),
{
    assert forall|g: int, u: usize| 0 <= g < a.frames@.len() && #[trigger] binds(a.frames@[g], u) implies binds(b.frames@[g], u) by {
        if g == fr {
            let c = a.frames@[g].closure->Some_0;
            let j = choose|j: int| 0 <= j < c.bindings@.len() && #[trigger] c.bindings@[j].variable == u;
            assert(b.frames@[g].closure->Some_0.bindings@[j].variable == u);
        }
    }
    assert forall|g: int| 0 <= g < a.frames@.len() implies a.frames@[g].functions@.is_prefix_of(#[trigger] b.frames@[g].functions@) by {
        if g != fr {
            assert(b.frames@[g] == a.frames@[g]);
        }
    }
    assert(links_grow(a, b));
    assert forall|g: int, k: int|
        0 <= g < b.frames@.len() && 0 <= k < b.frames@[g].functions@.len() implies {
            let f = #[trigger] b.frames@[g].functions@[k];
            &&& b.frames@[f as int].closure is Some
            &&& forall|bi: int| 0 <= bi < b.frames@[f as int].closure->Some_0.bindings@.len()
                && (f != fr || b.frames@[f as int].closure->Some_0.bindings@[bi].variable != v)
                ==> sees(b, g as usize, #[trigger] b.frames@[f as int].closure->Some_0.bindings@[bi].variable)
        } by {
        assert(b.frames@[g].functions@ == a.frames@[g].functions@) by {
            if g != fr {
                assert(b.frames@[g] == a.frames@[g]);
            }
        }
        let f = b.frames@[g].functions@[k];
        assert(a.frames@[g].functions@[k] == f);
        assert(f < a.frames@.len());
        assert forall|bi: int| 0 <= bi < b.frames@[f as int].closure->Some_0.bindings@.len()
            && (f != fr || b.frames@[f as int].closure->Some_0.bindings@[bi].variable != v)
            implies sees(b, g as usize, #[trigger] b.frames@[f as int].closure->Some_0.bindings@[bi].variable) by {
            let u = b.frames@[f as int].closure->Some_0.bindings@[bi].variable;
            if f == fr {
                assert(bi < a.frames@[fr as int].closure->Some_0.bindings@.len());
                assert(a.frames@[f as int].closure->Some_0.bindings@[bi].variable == u);
                assert(f != p) by {
                    if f == p {
                        assert(g == fr);
                    }
                }
                assert(sees(a, g as usize, u));
                lemma_sees_grows(a, b, g as usize, u);
            } else {
                assert(b.frames@[f as int] == a.frames@[f as int]);
                assert(a.frames@[f as int].closure->Some_0.bindings@[bi].variable == u);
                if f == p && u == v {
                    assert(g == fr);
                    assert(sees(b, fr, v));
                } else {
                    assert(sees(a, g as usize, u));
                    lemma_sees_grows(a, b, g as usize, u);
                }
            }
        }
    }
    assert forall|g: int, k: int, h: int, l: int|
        0 <= g < b.frames@.len() && 0 <= k < b.frames@[g].functions@.len() && 0 <= h < b.frames@.len()
            && 0 <= l < b.frames@[h].functions@.len()
            && #[trigger] b.frames@[g].functions@[k] == #[trigger] b.frames@[h].functions@[l] implies g == h by {
        assert(b.frames@[g].functions@ == a.frames@[g].functions@) by {
            if g != fr {
                assert(b.frames@[g] == a.frames@[g]);
            }
        }
        assert(b.frames@[h].functions@ == a.frames@[h].functions@) by {
            if h != fr {
                assert(b.frames@[h] == a.frames@[h]);
            }
        }
        assert(a.frames@[g].functions@[k] == a.frames@[h].functions@[l]);
    }
}

/// The closures stay chained when only variables are added, or what the
/// analyses record of them changes, other than their frames.
pub proof fn lemma_chained_same_frames(a: Annotations, b: Annotations)
    requires
        a.wf(),
        closures_chained(a),
        a.variables@.len() <= b.variables@.len(),
        forall|w: int| 0 <= w < a.variables@.len() ==> (#[trigger] b.variables@[w]).declared_in == a.variables@[w].declared_in,
        b.frames@.len() == a.frames@.len(),
        forall|g: int| 0 <= g < a.frames@.len() ==> (#[trigger] b.frames@[g]).functions@ == a.frames@[g].functions@
            && b.frames@[g].closure == a.frames@[g].closure,
    ensures
        closures_chained(b),
        links_grow(a, b),
{
    assert forall|g: int| 0 <= g < a.frames@.len() implies a.frames@[g].functions@.is_prefix_of(#[trigger] b.frames@[g].functions@) by {
        assert(b.frames@[g].functions@ == a.frames@[g].functions@);
    }
    assert forall|g: int, u: usize| 0 <= g < a.frames@.len() && #[trigger] binds(a.frames@[g], u) implies binds(b.frames@[g], u) by {
        assert(b.frames@[g].closure == a.frames@[g].closure);
    }
    assert(links_grow(a, b));
    assert forall|g: int, k: int|
        0 <= g < b.frames@.len() && 0 <= k < b.frames@[g].functions@.len()
            implies closure_fits(b, g as usize, #[trigger] b.frames@[g].functions@[k]) by {
        let f = b.frames@[g].functions@[k];
        assert(a.frames@[g].functions@[k] == f);
        assert(closure_fits(a, g as usize, f));
        assert(f < a.frames@.len());
        assert(b.frames@[f as int].closure == a.frames@[f as int].closure);
        assert forall|bi: int| 0 <= bi < b.frames@[f as int].closure->Some_0.bindings@.len()
            implies sees(b, g as usize, #[trigger] b.frames@[f as int].closure->Some_0.bindings@[bi].variable) by {
            let u = b.frames@[f as int].closure->Some_0.bindings@[bi].variable;
            assert(sees(a, g as usize, u));
            lemma_sees_grows(a, b, g as usize, u);
        }
    }
    assert forall|g: int, k: int, h: int, l: int|
        0 <= g < b.frames@.len() && 0 <= k < b.frames@[g].functions@.len() && 0 <= h < b.frames@.len()
            && 0 <= l < b.frames@[h].functions@.len()
            && #[trigger] b.frames@[g].functions@[k] == #[trigger] b.frames@[h].functions@[l] implies g == h by {
        assert(b.frames@[g].functions@ == a.frames@[g].functions@);
        assert(b.frames@[h].functions@ == a.frames@[h].functions@);
        assert(a.frames@[g].functions@[k] == a.frames@[h].functions@[l]);
    }
}

/// `cur` is frame `g`.
pub open spec fn is_frame(cur: Option<usize>, g: int) -> bool {
    cur matches Some(c) && c == g
}

/// Adding frame `f`, with no function, a closure without bindings or none,
/// as the last function of frame `cur` (or of no frame), keeps the closures
/// chained.
pub proof fn lemma_chained_new_frame(a: Annotations, b: Annotations, cur: Option<usize>)
    requires
        a.wf(),
        closures_chained(a),
        a.frames@.len() < usize::MAX,
        b.variables@ == a.variables@,
        b.frames@.len() == a.frames@.len() + 1,
        b.frames@[a.frames@.len() as int].functions@.len() == 0,
        b.frames@[a.frames@.len() as int].closure matches Some(c) ==> c.bindings@.len() == 0,
        cur matches Some(c) ==> c < a.frames@.len() && b.frames@[a.frames@.len() as int].closure is Some,
        forall|g: int| 0 <= g < a.frames@.len() && !is_frame(cur, g) ==> #[trigger] b.frames@[g] == a.frames@[g],
        cur matches Some(c) ==> b.frames@[c as int].closure == a.frames@[c as int].closure
            && b.frames@[c as int].functions@ == a.frames@[c as int].functions@.push(a.frames@.len() as usize),
    ensures
        closures_chained(b),
        links_grow(a, b),
{
    let n = a.frames@.len();
    assert forall|g: int| 0 <= g < n implies (#[trigger] b.frames@[g]).closure == a.frames@[g].closure by {
        if !is_frame(cur, g) {
            assert(b.frames@[g] == a.frames@[g]);
        }
    }
    assert forall|g: int| 0 <= g < n implies a.frames@[g].functions@.is_prefix_of(#[trigger] b.frames@[g].functions@) by {
        if !is_frame(cur, g) {
            assert(b.frames@[g] == a.frames@[g]);
        }
    }
    assert forall|g: int, u: usize| 0 <= g < n && #[trigger] binds(a.frames@[g], u) implies binds(b.frames@[g], u) by {
        assert(b.frames@[g].closure == a.frames@[g].closure);
    }
    assert(links_grow(a, b));
    assert forall|g: int, k: int|
        0 <= g < b.frames@.len() && 0 <= k < b.frames@[g].functions@.len()
            implies closure_fits(b, g as usize, #[trigger] b.frames@[g].functions@[k]) by {
        let f = b.frames@[g].functions@[k];
        if g == n {
        } else if is_frame(cur, g) && k == a.frames@[g].functions@.len() {
            assert(f == n);
        } else {
            assert(a.frames@[g].functions@[k] == f) by {
                if !is_frame(cur, g) {
                    assert(b.frames@[g] == a.frames@[g]);
                }
            }
            assert(closure_fits(a, g as usize, f));
            assert(f < n);
            assert forall|bi: int| 0 <= bi < b.frames@[f as int].closure->Some_0.bindings@.len()
                implies sees(b, g as usize, #[trigger] b.frames@[f as int].closure->Some_0.bindings@[bi].variable) by {
                let u = b.frames@[f as int].closure->Some_0.bindings@[bi].variable;
                assert(sees(a, g as usize, u));
                lemma_sees_grows(a, b, g as usize, u);
            }
        }
    }
    assert forall|g: int, k: int, h: int, l: int|
        0 <= g < b.frames@.len() && 0 <= k < b.frames@[g].functions@.len() && 0 <= h < b.frames@.len()
            && 0 <= l < b.frames@[h].functions@.len()
            && #[trigger] b.frames@[g].functions@[k] == #[trigger] b.frames@[h].functions@[l] implies g == h by {
        let f = b.frames@[g].functions@[k];
        let g_new = is_frame(cur, g) && k == a.frames@[g].functions@.len();
        let h_new = is_frame(cur, h) && l == a.frames@[h].functions@.len();
        if g == n || h == n {
        } else if g_new && h_new {
        } else if g_new {
            assert(b.frames@[h].functions@[l] == a.frames@[h].functions@[l]) by {
                if !is_frame(cur, h) {
                    assert(b.frames@[h] == a.frames@[h]);
                }
            }
            assert(a.frames@[h].functions@[l] < n);
        } else if h_new {
            assert(b.frames@[g].functions@[k] == a.frames@[g].functions@[k]) by {
                if !is_frame(cur, g) {
                    assert(b.frames@[g] == a.frames@[g]);
                }
            }
            assert(a.frames@[g].functions@[k] < n);
        } else {
            assert(b.frames@[g].functions@[k] == a.frames@[g].functions@[k]) by {
                if !is_frame(cur, g) {
                    assert(b.frames@[g] == a.frames@[g]);
                }
            }
            assert(b.frames@[h].functions@[l] == a.frames@[h].functions@[l]) by {
                if !is_frame(cur, h) {
                    assert(b.frames@[h] == a.frames@[h]);
                }
            }
        }
    }
}


/// With nothing left out, chained closures.
pub proof fn lemma_chained_but_none(ann: Annotations, v: usize)
    requires
        closures_chained_but(ann, -1, v),
    ensures
        closures_chained(ann),
{
    assert forall|g: int, k: int|
        0 <= g < ann.frames@.len() && 0 <= k < ann.frames@[g].functions@.len()
            implies closure_fits(ann, g as usize, #[trigger] ann.frames@[g].functions@[k]) by {
        let f = ann.frames@[g].functions@[k];
        assert forall|b: int| 0 <= b < ann.frames@[f as int].closure->Some_0.bindings@.len()
            implies sees(ann, g as usize, #[trigger] ann.frames@[f as int].closure->Some_0.bindings@[b].variable) by {
            assert(f != -1);
        }
    }
}

/// A frame that is a function of `parent` is a function of no other frame.
pub proof fn lemma_unique_parent(ann: Annotations, q: int, v: usize, p: usize, parent: usize)
    requires
        closures_chained_but(ann, q, v),
        parent < ann.frames@.len(),
        ann.frames@[parent as int].functions@.contains(p),
    ensures
        forall|g: int, k: int| 0 <= g < ann.frames@.len() && 0 <= k < ann.frames@[g].functions@.len()
            && #[trigger] ann.frames@[g].functions@[k] == p ==> g == parent,
{
    let fs = ann.frames@[parent as int].functions@;
    let j = choose|j: int| 0 <= j < fs.len() && fs[j] == p;
    assert forall|g: int, k: int| 0 <= g < ann.frames@.len() && 0 <= k < ann.frames@[g].functions@.len()
        && #[trigger] ann.frames@[g].functions@[k] == p implies g == parent by {
        assert(ann.frames@[g].functions@[k] == ann.frames@[parent as int].functions@[j]);
    }
}


/// A function of a frame stays one as the arena grows.
pub proof fn lemma_function_kept(a: Annotations, b: Annotations, g: usize, f: usize)
    requires
        links_grow(a, b),
        g < a.frames@.len(),
        a.frames@[g as int].functions@.contains(f),
    ensures
        b.frames@[g as int].functions@.contains(f),
{
    let fs = a.frames@[g as int].functions@;
    let k = choose|k: int| 0 <= k < fs.len() && fs[k] == f;
    assert(fs.is_prefix_of(b.frames@[g as int].functions@));
    assert(b.frames@[g as int].functions@[k] == f);
}

} // verus!
