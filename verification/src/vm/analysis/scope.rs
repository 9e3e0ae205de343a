//! What name resolution establishes of a program: every variable it uses
//! refers to the innermost declaration of its name.

use vstd::prelude::*;
use crate::lang::identifier::Identifier;
use crate::parse::node::{Statement, Expression, Lvalue, ElseIf, Catch, FunctionParameter};

verus! {

// WHAT THE ANALYSIS FINDS /////////////////////////////////////////////////////////////////////////

/// A declaration in scope: the index of a variable and its name.
pub type Declaration = (usize, Identifier);

/// The first of `declarations` of the name `name`.
pub open spec fn first_declaration(declarations: Seq<Declaration>, name: Identifier) -> Option<usize>
    decreases declarations.len(),
{
    if declarations.len() == 0 {
        None
    } else if declarations[0].1 == name {
        Some(declarations[0].0)
    } else {
        first_declaration(declarations.drop_first(), name)
    }
}

/// The variable that `name` refers to among the scopes `scopes` (innermost
/// last): the first declaration of that name in the innermost scope that has
/// one.
pub open spec fn lookup(scopes: Seq<Seq<Declaration>>, name: Identifier) -> Option<usize>
    decreases scopes.len(),
{
    if scopes.len() == 0 {
        None
    } else {
        match first_declaration(scopes.last(), name) {
            Some(v) => Some(v),
            None => lookup(scopes.drop_last(), name),
        }
    }
}

/// The declarations that the `let` statements of `block` make, in order.
pub open spec fn let_declarations(block: Seq<Statement>) -> Seq<Declaration>
    decreases block.len(),
{
    if block.len() == 0 {
        Seq::empty()
    } else {
        let rest = let_declarations(block.drop_last());
        match block.last() {
            Statement::Let { variable_name, annotation, .. } => rest.push((annotation, variable_name)),
            _ => rest,
        }
    }
}

/// The declarations that the parameters of a function make, in order.
pub open spec fn parameter_declarations(parameters: Seq<FunctionParameter>) -> Seq<Declaration> {
    parameters.map_values(|p: FunctionParameter| (p.variable, p.variable_name))
}

/// A variable use named `name` and annotated `annotation` is resolved in
/// `scopes`: when a declaration of the name is in scope, the annotation is its
/// variable.
pub open spec fn use_resolved(scopes: Seq<Seq<Declaration>>, name: Identifier, annotation: usize) -> bool {
    lookup(scopes, name) matches Some(v) ==> annotation == v
}

/// Every variable in `block`, opened in `scopes` with the declarations
/// `declared` (its parameters, or the variable of a `catch`), then its own
/// `let` statements, is resolved.
pub open spec fn block_resolved(block: Seq<Statement>, scopes: Seq<Seq<Declaration>>, declared: Seq<Declaration>) -> bool
    decreases block,
{
    let inner = scopes.push(declared + let_declarations(block));
    forall|i: int| 0 <= i < block.len() ==> statement_resolved(#[trigger] block[i], inner)
}

/// Every variable that `statement` uses, or assigns to, is resolved in
/// `scopes`.
pub open spec fn statement_resolved(statement: Statement, scopes: Seq<Seq<Declaration>>) -> bool
    decreases statement,
{
    match statement {
        Statement::ExpressionStatement { expression } => expression_resolved(*expression, scopes),
        Statement::Print { expression } => expression_resolved(*expression, scopes),
        Statement::Throw { expression } => expression_resolved(*expression, scopes),
        Statement::Assignment { lvalue, rvalue } => lvalue_resolved(*lvalue, scopes) && expression_resolved(*rvalue, scopes),
        Statement::Use { .. } => true,
        Statement::Let { default, .. } => match default {
            Some(e) => expression_resolved(*e, scopes),
            None => true,
        },
        Statement::Return { expression } => match expression {
            Some(e) => expression_resolved(*e, scopes),
            None => true,
        },
        Statement::If { test, block, else_if_clauses, else_clause } => {
            &&& expression_resolved(*test, scopes)
            &&& block_resolved(block@, scopes, Seq::empty())
            &&& forall|i: int|
                0 <= i < else_if_clauses@.len() ==> else_if_resolved(#[trigger] else_if_clauses@[i], scopes)
            &&& match else_clause {
                Some(e) => block_resolved(e.block@, scopes, Seq::empty()),
                None => true,
            }
        },
        Statement::While { test, block, else_clause } => {
            &&& expression_resolved(*test, scopes)
            &&& block_resolved(block@, scopes, Seq::empty())
            &&& match else_clause {
                Some(e) => block_resolved(e.block@, scopes, Seq::empty()),
                None => true,
            }
        },
        Statement::Try { block, catch_clauses, else_clause, finally_clause } => {
            &&& block_resolved(block@, scopes, Seq::empty())
            &&& forall|i: int|
                0 <= i < catch_clauses@.len() ==> catch_resolved(#[trigger] catch_clauses@[i], scopes)
            &&& match else_clause {
                Some(e) => block_resolved(e.block@, scopes, Seq::empty()),
                None => true,
            }
            &&& match finally_clause {
                Some(f) => block_resolved(f.block@, scopes, Seq::empty()),
                None => true,
            }
        },
    }
}

pub open spec fn else_if_resolved(clause: ElseIf, scopes: Seq<Seq<Declaration>>) -> bool
    decreases clause,
{
    expression_resolved(*clause.test, scopes) && block_resolved(clause.block@, scopes, Seq::empty())
}

pub open spec fn catch_resolved(clause: Catch, scopes: Seq<Seq<Declaration>>) -> bool
    decreases clause,
{
    &&& match clause.type_ {
        Some(e) => expression_resolved(*e, scopes),
        None => true,
    }
    &&& block_resolved(clause.block@, scopes, seq![(clause.variable, clause.variable_name)])
}

pub open spec fn parameter_resolved(parameter: FunctionParameter, scopes: Seq<Seq<Declaration>>) -> bool
    decreases parameter,
{
    &&& match parameter.type_ {
        Some(e) => expression_resolved(*e, scopes),
        None => true,
    }
    &&& match parameter.default {
        Some(e) => expression_resolved(*e, scopes),
        None => true,
    }
}

/// Every variable that `expression` uses is resolved in `scopes`; a function
/// opens a scope with its parameters and the `let` statements of its body.
pub open spec fn expression_resolved(expression: Expression, scopes: Seq<Seq<Declaration>>) -> bool
    decreases expression,
{
    match expression {
        Expression::Function { parameters, block, .. } => {
            &&& forall|i: int|
                0 <= i < parameters@.len() ==> parameter_resolved(#[trigger] parameters@[i], scopes)
            &&& block_resolved(block@, scopes, parameter_declarations(parameters@))
        },
        Expression::Binary { left, right, .. } => expression_resolved(*left, scopes)
            && expression_resolved(*right, scopes),
        Expression::Not { expression } => expression_resolved(*expression, scopes),
        Expression::DotAccess { expression, .. } => expression_resolved(*expression, scopes),
        Expression::ItemAccess { expression, key_expression } => expression_resolved(*expression, scopes)
            && expression_resolved(*key_expression, scopes),
        Expression::Call { expression, arguments } => {
            &&& expression_resolved(*expression, scopes)
            &&& forall|i: int|
                0 <= i < arguments@.len() ==> expression_resolved(#[trigger] arguments@[i], scopes)
        },
        Expression::Variable { name, annotation, .. } => use_resolved(scopes, name, annotation),
        _ => true,
    }
}

pub open spec fn lvalue_resolved(lvalue: Lvalue, scopes: Seq<Seq<Declaration>>) -> bool
    decreases lvalue,
{
    match lvalue {
        Lvalue::VariableLvalue { name, annotation } => use_resolved(scopes, name, annotation),
        Lvalue::DotAccessLvalue { expression, .. } => expression_resolved(*expression, scopes),
    }
}

/// The declarations of the variables `ids`, named by `name_of`.
pub open spec fn declarations_of(ids: Seq<usize>, name_of: spec_fn(usize) -> Identifier) -> Seq<Declaration> {
    ids.map_values(|v: usize| (v, name_of(v)))
}

/// The declarations that the `let` statements of `block` make when the one at
/// position `i` declares variable `declared[i]`.
pub open spec fn declared_lets(block: Seq<Statement>, declared: Seq<usize>) -> Seq<Declaration>
    decreases block.len(),
{
    if block.len() == 0 {
        Seq::empty()
    } else {
        let rest = declared_lets(block.drop_last(), declared);
        match block.last() {
            Statement::Let { variable_name, .. } => rest.push((declared[block.len() - 1], variable_name)),
            _ => rest,
        }
    }
}

/// Statement `new` is statement `old` after analysis, which gave a `let` the
/// variable `v`: the same kind of statement, and a `let` of the same name.
pub open spec fn let_kept(old: Statement, new: Statement, v: usize) -> bool {
    &&& (old is Let <==> new is Let)
    &&& old is Let ==> new->Let_variable_name == old->Let_variable_name && new->Let_annotation == v
}

/// After analysis, the `let` statements of a block declare the variables they
/// were given.
pub proof fn lemma_declared_lets(old: Seq<Statement>, new: Seq<Statement>, declared: Seq<usize>)
    requires
        old.len() == new.len(),
        declared.len() >= old.len(),
        forall|i: int| 0 <= i < old.len() ==> let_kept(old[i], #[trigger] new[i], declared[i]),
    ensures
        let_declarations(new) == declared_lets(old, declared),
    decreases old.len(),
{
    if old.len() > 0 {
        let n = old.len() - 1;
        assert(let_kept(old[n], new[n], declared[n]));
        lemma_declared_lets(old.drop_last(), new.drop_last(), declared);
    }
}

/// The `let` statements of a prefix of a block.
pub proof fn lemma_declared_lets_step(block: Seq<Statement>, declared: Seq<usize>, i: int)
    requires
        0 <= i < block.len(),
    ensures
        declared_lets(block.take(i + 1), declared) == if block[i] is Let {
            declared_lets(block.take(i), declared).push((declared[i], block[i]->Let_variable_name))
        } else {
            declared_lets(block.take(i), declared)
        },
{
    assert(block.take(i + 1).drop_last() =~= block.take(i));
    assert(block.take(i + 1).last() == block[i]);
}

/// The declarations of a block's `let` statements depend only on the
/// variables given to its own statements.
pub proof fn lemma_declared_lets_prefix(block: Seq<Statement>, d1: Seq<usize>, d2: Seq<usize>)
    requires
        forall|j: int| 0 <= j < block.len() ==> #[trigger] d1[j] == d2[j],
    ensures
        declared_lets(block, d1) == declared_lets(block, d2),
    decreases block.len(),
{
    if block.len() > 0 {
        lemma_declared_lets_prefix(block.drop_last(), d1, d2);
        assert(d1[block.len() - 1] == d2[block.len() - 1]);
    }
}

} // verus!
