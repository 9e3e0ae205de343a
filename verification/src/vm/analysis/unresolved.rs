//! The uses of variables that name resolution reports: those whose name no
//! declaration in scope makes, in the order the analysis meets them.

use vstd::prelude::*;
use crate::lang::identifier::Identifier;
use crate::parse::node::{Statement, Expression, Lvalue, ElseIf, Catch, FunctionParameter};
use crate::vm::analysis::scope::{Declaration, first_declaration, lookup, declared_lets, parameter_declarations};
use crate::vm::analysis::resolution::{let_names, parameter_names};
use crate::vm::error::AnalysisError;

verus! {

/// A use that no declaration in scope resolves: its name, the offset it is
/// reported at, and whether it is the target of an assignment.
pub type Unresolved = (Identifier, usize, bool);

/// The names declared in each scope.
pub open spec fn scope_names(scopes: Seq<Seq<Declaration>>) -> Seq<Seq<Identifier>> {
    scopes.map_values(|s: Seq<Declaration>| s.map_values(|d: Declaration| d.1))
}

/// Some scope of `env` declares `name`.
pub open spec fn visible(env: Seq<Seq<Identifier>>, name: Identifier) -> bool
    decreases env.len(),
{
    env.len() > 0 && (env.last().contains(name) || visible(env.drop_last(), name))
}

proof fn lemma_first_declaration_names(ds: Seq<Declaration>, name: Identifier)
    ensures
        (first_declaration(ds, name) is Some) == ds.map_values(|d: Declaration| d.1).contains(name),
    decreases ds.len(),
{
    let ns = ds.map_values(|d: Declaration| d.1);
    if ds.len() > 0 {
        lemma_first_declaration_names(ds.drop_first(), name);
        assert(ds.drop_first().map_values(|d: Declaration| d.1) =~= ns.drop_first());
        if ns.contains(name) && ds[0].1 != name {
            let k = choose|k: int| 0 <= k < ns.len() && ns[k] == name;
            assert(ns.drop_first()[k - 1] == name);
        }
        if ns.drop_first().contains(name) {
            let k = choose|k: int| 0 <= k < ns.drop_first().len() && ns.drop_first()[k] == name;
            assert(ns[k + 1] == name);
        }
        if ds[0].1 == name {
            assert(ns[0] == name);
        }
    }
}

/// A name is found in scope exactly when some scope declares it.
pub proof fn lemma_lookup_visible(scopes: Seq<Seq<Declaration>>, name: Identifier)
    ensures
        (lookup(scopes, name) is Some) == visible(scope_names(scopes), name),
    decreases scopes.len(),
{
    if scopes.len() > 0 {
        lemma_first_declaration_names(scopes.last(), name);
        lemma_lookup_visible(scopes.drop_last(), name);
        assert(scope_names(scopes.drop_last()) =~= scope_names(scopes).drop_last());
    }
}

/// A use of `name` at `offset` is reported unless some scope declares it.
pub open spec fn use_unresolved(env: Seq<Seq<Identifier>>, name: Identifier, offset: usize, target: bool) -> Seq<Unresolved> {
    if visible(env, name) {
        Seq::empty()
    } else {
        seq![(name, offset, target)]
    }
}

/// The unresolved uses of `expression` in the scopes `env`, in the order the
/// analysis meets them.
pub open spec fn expression_unresolved(expression: Expression, env: Seq<Seq<Identifier>>) -> Seq<Unresolved>
    decreases expression, 0nat,
{
    match expression {
        Expression::Variable { name, source_offset, .. } => use_unresolved(env, name, source_offset, false),
        Expression::ItemAccess { expression, key_expression } => expression_unresolved(*expression, env)
            + expression_unresolved(*key_expression, env),
        Expression::DotAccess { expression, .. } => expression_unresolved(*expression, env),
        Expression::Call { expression, arguments } => expression_unresolved(*expression, env)
            + arguments_unresolved(arguments@, env),
        Expression::Binary { left, right, .. } => expression_unresolved(*left, env) + expression_unresolved(*right, env),
        Expression::Not { expression } => expression_unresolved(*expression, env),
        Expression::Function { parameters, block, .. } => parameters_unresolved(parameters@, env)
            + block_unresolved(block@, env, parameter_names(parameters@)),
        _ => Seq::empty(),
    }
}

pub open spec fn arguments_unresolved(arguments: Seq<Expression>, env: Seq<Seq<Identifier>>) -> Seq<Unresolved>
    decreases arguments, 0nat,
{
    if arguments.len() == 0 {
        Seq::empty()
    } else {
        expression_unresolved(arguments[0], env) + arguments_unresolved(arguments.drop_first(), env)
    }
}

pub open spec fn optional_unresolved(expression: Option<Box<Expression>>, env: Seq<Seq<Identifier>>) -> Seq<Unresolved>
    decreases expression, 0nat,
{
    match expression {
        Some(e) => expression_unresolved(*e, env),
        None => Seq::empty(),
    }
}

/// The types, then the defaults, of the parameters, one parameter after
/// the other.
pub open spec fn parameters_unresolved(parameters: Seq<FunctionParameter>, env: Seq<Seq<Identifier>>) -> Seq<Unresolved>
    decreases parameters, 0nat,
{
    if parameters.len() == 0 {
        Seq::empty()
    } else {
        optional_unresolved(parameters[0].type_, env) + optional_unresolved(parameters[0].default, env)
            + parameters_unresolved(parameters.drop_first(), env)
    }
}

/// The unresolved uses of `block`, opened in `env` with the names `declared`
/// and those of its own `let` statements.
pub open spec fn block_unresolved(block: Seq<Statement>, env: Seq<Seq<Identifier>>, declared: Seq<Identifier>) -> Seq<Unresolved>
    decreases block, 1nat,
{
    statements_unresolved(block, env.push(declared + let_names(block)))
}

pub open spec fn statements_unresolved(statements: Seq<Statement>, env: Seq<Seq<Identifier>>) -> Seq<Unresolved>
    decreases statements, 0nat,
{
    if statements.len() == 0 {
        Seq::empty()
    } else {
        statement_unresolved(statements[0], env) + statements_unresolved(statements.drop_first(), env)
    }
}

pub open spec fn lvalue_unresolved(lvalue: Lvalue, env: Seq<Seq<Identifier>>) -> Seq<Unresolved>
    decreases lvalue, 0nat,
{
    match lvalue {
        Lvalue::VariableLvalue { name, .. } => use_unresolved(env, name, 0, true),
        Lvalue::DotAccessLvalue { expression, .. } => expression_unresolved(*expression, env),
    }
}

pub open spec fn statement_unresolved(statement: Statement, env: Seq<Seq<Identifier>>) -> Seq<Unresolved>
    decreases statement, 0nat,
{
    match statement {
        Statement::ExpressionStatement { expression } => expression_unresolved(*expression, env),
        Statement::Print { expression } => expression_unresolved(*expression, env),
        Statement::Throw { expression } => expression_unresolved(*expression, env),
        Statement::Assignment { lvalue, rvalue } => lvalue_unresolved(*lvalue, env) + expression_unresolved(*rvalue, env),
        Statement::Use { .. } => Seq::empty(),
        Statement::Let { default, .. } => optional_unresolved(default, env),
        Statement::Return { expression } => optional_unresolved(expression, env),
        Statement::If { test, block, else_if_clauses, else_clause } => expression_unresolved(*test, env)
            + block_unresolved(block@, env, Seq::empty()) + else_ifs_unresolved(else_if_clauses@, env)
            + match else_clause {
                Some(e) => block_unresolved(e.block@, env, Seq::empty()),
                None => Seq::empty(),
            },
        Statement::While { test, block, else_clause } => expression_unresolved(*test, env)
            + block_unresolved(block@, env, Seq::empty())
            + match else_clause {
                Some(e) => block_unresolved(e.block@, env, Seq::empty()),
                None => Seq::empty(),
            },
        Statement::Try { block, catch_clauses, else_clause, finally_clause } => block_unresolved(block@, env, Seq::empty())
            + catches_unresolved(catch_clauses@, env)
            + match else_clause {
                Some(e) => block_unresolved(e.block@, env, Seq::empty()),
                None => Seq::empty(),
            }
            + match finally_clause {
                Some(f) => block_unresolved(f.block@, env, Seq::empty()),
                None => Seq::empty(),
            },
    }
}

pub open spec fn else_ifs_unresolved(clauses: Seq<ElseIf>, env: Seq<Seq<Identifier>>) -> Seq<Unresolved>
    decreases clauses, 0nat,
{
    if clauses.len() == 0 {
        Seq::empty()
    } else {
        expression_unresolved(*clauses[0].test, env) + block_unresolved(clauses[0].block@, env, Seq::empty())
            + else_ifs_unresolved(clauses.drop_first(), env)
    }
}

pub open spec fn catch_unresolved(clause: Catch, env: Seq<Seq<Identifier>>) -> Seq<Unresolved>
    decreases clause, 0nat,
{
    optional_unresolved(clause.type_, env) + block_unresolved(clause.block@, env, seq![clause.variable_name])
}

pub open spec fn catches_unresolved(clauses: Seq<Catch>, env: Seq<Seq<Identifier>>) -> Seq<Unresolved>
    decreases clauses, 0nat,
{
    if clauses.len() == 0 {
        Seq::empty()
    } else {
        catch_unresolved(clauses[0], env) + catches_unresolved(clauses.drop_first(), env)
    }
}

// ONE LEVEL AT A TIME /////////////////////////////////////////////////////////////////////////////
// Each of these states one unfolding of a definition, for the walks over the
// syntax tree to call where they take the node apart.

/// What `expression_unresolved` is, one level down.
pub proof fn lemma_expression_unresolved(expression: Expression, env: Seq<Seq<Identifier>>)
    ensures
        expression_unresolved(expression, env) == (
            match expression {
                Expression::Variable { name, source_offset, .. } => use_unresolved(env, name, source_offset, false),
                Expression::ItemAccess { expression, key_expression } => expression_unresolved(*expression, env)
                    + expression_unresolved(*key_expression, env),
                Expression::DotAccess { expression, .. } => expression_unresolved(*expression, env),
                Expression::Call { expression, arguments } => expression_unresolved(*expression, env)
                    + arguments_unresolved(arguments@, env),
                Expression::Binary { left, right, .. } => expression_unresolved(*left, env) + expression_unresolved(*right, env),
                Expression::Not { expression } => expression_unresolved(*expression, env),
                Expression::Function { parameters, block, .. } => parameters_unresolved(parameters@, env)
                    + block_unresolved(block@, env, parameter_names(parameters@)),
                _ => Seq::empty(),
            }
        ),
{
}

/// What `statement_unresolved` is, one level down.
pub proof fn lemma_statement_unresolved(statement: Statement, env: Seq<Seq<Identifier>>)
    ensures
        statement_unresolved(statement, env) == (
            match statement {
                Statement::ExpressionStatement { expression } => expression_unresolved(*expression, env),
                Statement::Print { expression } => expression_unresolved(*expression, env),
                Statement::Throw { expression } => expression_unresolved(*expression, env),
                Statement::Assignment { lvalue, rvalue } => lvalue_unresolved(*lvalue, env) + expression_unresolved(*rvalue, env),
                Statement::Use { .. } => Seq::empty(),
                Statement::Let { default, .. } => optional_unresolved(default, env),
                Statement::Return { expression } => optional_unresolved(expression, env),
                Statement::If { test, block, else_if_clauses, else_clause } => expression_unresolved(*test, env)
                    + block_unresolved(block@, env, Seq::empty()) + else_ifs_unresolved(else_if_clauses@, env)
                    + match else_clause {
                        Some(e) => block_unresolved(e.block@, env, Seq::empty()),
                        None => Seq::empty(),
                    },
                Statement::While { test, block, else_clause } => expression_unresolved(*test, env)
                    + block_unresolved(block@, env, Seq::empty())
                    + match else_clause {
                        Some(e) => block_unresolved(e.block@, env, Seq::empty()),
                        None => Seq::empty(),
                    },
                Statement::Try { block, catch_clauses, else_clause, finally_clause } => block_unresolved(block@, env, Seq::empty())
                    + catches_unresolved(catch_clauses@, env)
                    + match else_clause {
                        Some(e) => block_unresolved(e.block@, env, Seq::empty()),
                        None => Seq::empty(),
                    }
                    + match finally_clause {
                        Some(f) => block_unresolved(f.block@, env, Seq::empty()),
                        None => Seq::empty(),
                    },
            }
        ),
{
}

/// What `block_unresolved` is.
pub proof fn lemma_block_unresolved(block: Seq<Statement>, env: Seq<Seq<Identifier>>, declared: Seq<Identifier>)
    ensures
        block_unresolved(block, env, declared) == ({
            statements_unresolved(block, env.push(declared + let_names(block)))
        }),
{
}

/// What `optional_unresolved` is.
pub proof fn lemma_optional_unresolved(expression: Option<Box<Expression>>, env: Seq<Seq<Identifier>>)
    ensures
        optional_unresolved(expression, env) == ({
            match expression {
                Some(e) => expression_unresolved(*e, env),
                None => Seq::empty(),
            }
        }),
{
}

/// What `lvalue_unresolved` is.
pub proof fn lemma_lvalue_unresolved(lvalue: Lvalue, env: Seq<Seq<Identifier>>)
    ensures
        lvalue_unresolved(lvalue, env) == ({
            match lvalue {
                Lvalue::VariableLvalue { name, .. } => use_unresolved(env, name, 0, true),
                Lvalue::DotAccessLvalue { expression, .. } => expression_unresolved(*expression, env),
            }
        }),
{
}

/// What `catch_unresolved` is.
pub proof fn lemma_catch_unresolved(clause: Catch, env: Seq<Seq<Identifier>>)
    ensures
        catch_unresolved(clause, env) == ({
            optional_unresolved(clause.type_, env) + block_unresolved(clause.block@, env, seq![clause.variable_name])
        }),
{
}

// THE ERRORS //////////////////////////////////////////////////////////////////////////////////////

/// `error` is the report of the unresolved use `u`, with the names of the
/// table `names`: "Variable not found: $" and the name, followed by a full
/// stop for an assignment target.
pub open spec fn reports(error: AnalysisError, names: Seq<Seq<char>>, u: Unresolved) -> bool {
    &&& error.message@ == "Variable not found: $"@ + names[u.0.index as int] + if u.2 { "."@ } else { ""@ }
    &&& error.source_offset == u.1
}

/// From `before` to `after`, the errors that report `us`, in order, were
/// added.
#[verifier::opaque]
pub open spec fn reported(before: Seq<AnalysisError>, after: Seq<AnalysisError>, names: Seq<Seq<char>>, us: Seq<Unresolved>) -> bool {
    &&& after.len() == before.len() + us.len()
    &&& after.take(before.len() as int) == before
    &&& forall|i: int| 0 <= i < us.len() ==> reports(#[trigger] after[before.len() + i], names, us[i])
}

/// Nothing was reported.
pub proof fn lemma_reported_none(errors: Seq<AnalysisError>, names: Seq<Seq<char>>)
    ensures
        reported(errors, errors, names, Seq::empty()),
{
    reveal(reported);
    assert(errors.take(errors.len() as int) =~= errors);
}

/// One error, reporting `u`, was added.
pub proof fn lemma_reported_one(before: Seq<AnalysisError>, e: AnalysisError, names: Seq<Seq<char>>, u: Unresolved)
    requires
        reports(e, names, u),
    ensures
        reported(before, before.push(e), names, seq![u]),
{
    reveal(reported);
    assert(before.push(e).take(before.len() as int) =~= before);
    assert(before.push(e)[before.len() as int] == e);
}

/// As many errors as unresolved uses were added.
pub proof fn lemma_reported_len(before: Seq<AnalysisError>, after: Seq<AnalysisError>, names: Seq<Seq<char>>, us: Seq<Unresolved>)
    requires
        reported(before, after, names, us),
    ensures
        after.len() == before.len() + us.len(),
{
    reveal(reported);
}

/// Reports made one after the other.
pub proof fn lemma_reported_then(
    a: Seq<AnalysisError>,
    b: Seq<AnalysisError>,
    c: Seq<AnalysisError>,
    names: Seq<Seq<char>>,
    u1: Seq<Unresolved>,
    u2: Seq<Unresolved>,
)
    requires
        reported(a, b, names, u1),
        reported(b, c, names, u2),
    ensures
        reported(a, c, names, u1 + u2),
{
    reveal(reported);
    assert(c.take(a.len() as int) =~= b.take(a.len() as int)) by {
        assert forall|i: int| 0 <= i < a.len() implies c[i] == b[i] by {
            assert(c.take(b.len() as int)[i] == b[i]);
        }
    }
    assert forall|i: int| 0 <= i < (u1 + u2).len() implies reports(#[trigger] c[a.len() + i], names, (u1 + u2)[i]) by {
        if i < u1.len() {
            assert(reports(b[a.len() + i], names, u1[i]));
            assert(c.take(b.len() as int)[a.len() + i] == b[a.len() + i]);
        } else {
            assert(reports(c[b.len() + (i - u1.len())], names, u2[i - u1.len()]));
        }
    }
}

// SEQUENCES, ONE ITEM AT A TIME ///////////////////////////////////////////////////////////////////

pub proof fn lemma_arguments_step(arguments: Seq<Expression>, env: Seq<Seq<Identifier>>, i: int)
    requires
        0 <= i < arguments.len(),
    ensures
        arguments_unresolved(arguments.take(i + 1), env) == arguments_unresolved(arguments.take(i), env) + expression_unresolved(arguments[i], env),
    decreases i,
{
    let t1 = arguments.take(i + 1);
    let t0 = arguments.take(i);
    let d = arguments.drop_first();
    let g0 = expression_unresolved(arguments[0], env);
    let gi = expression_unresolved(arguments[i], env);
    assert(t1[0] == arguments[0]);
    if i > 0 {
        lemma_arguments_step(d, env, i - 1);
        assert(t1.drop_first() =~= d.take(i));
        assert(t0.drop_first() =~= d.take(i - 1));
        assert(t0[0] == arguments[0]);
        assert(d[i - 1] == arguments[i]);
        let r = arguments_unresolved(d.take(i - 1), env);
        assert(arguments_unresolved(d.take(i), env) == r + gi);
        assert(arguments_unresolved(t1, env) == g0 + arguments_unresolved(d.take(i), env));
        assert(arguments_unresolved(t0, env) == g0 + r);
        assert(g0 + (r + gi) =~= (g0 + r) + gi);
    } else {
        assert(t1.drop_first() =~= Seq::<Expression>::empty());
        assert(t0 =~= Seq::<Expression>::empty());
        assert(arguments_unresolved(t1.drop_first(), env) == Seq::<Unresolved>::empty());
        assert(arguments_unresolved(t1, env) == g0 + Seq::<Unresolved>::empty());
        assert(g0 + Seq::<Unresolved>::empty() =~= Seq::<Unresolved>::empty() + gi);
    }
}

/// The whole sequence, one item at a time.
pub proof fn lemma_arguments_all(arguments: Seq<Expression>, env: Seq<Seq<Identifier>>)
    ensures
        arguments_unresolved(arguments.take(arguments.len() as int), env) == arguments_unresolved(arguments, env),
        arguments_unresolved(arguments.take(0), env) == Seq::<Unresolved>::empty(),
{
    assert(arguments.take(arguments.len() as int) =~= arguments);
    assert(arguments.take(0) =~= Seq::<Expression>::empty());
}

pub proof fn lemma_parameters_step(parameters: Seq<FunctionParameter>, env: Seq<Seq<Identifier>>, i: int)
    requires
        0 <= i < parameters.len(),
    ensures
        parameters_unresolved(parameters.take(i + 1), env) == parameters_unresolved(parameters.take(i), env) + (optional_unresolved(parameters[i].type_, env) + optional_unresolved(parameters[i].default, env)),
    decreases i,
{
    let t1 = parameters.take(i + 1);
    let t0 = parameters.take(i);
    let d = parameters.drop_first();
    let g0 = (optional_unresolved(parameters[0].type_, env) + optional_unresolved(parameters[0].default, env));
    let gi = (optional_unresolved(parameters[i].type_, env) + optional_unresolved(parameters[i].default, env));
    assert(t1[0] == parameters[0]);
    if i > 0 {
        lemma_parameters_step(d, env, i - 1);
        assert(t1.drop_first() =~= d.take(i));
        assert(t0.drop_first() =~= d.take(i - 1));
        assert(t0[0] == parameters[0]);
        assert(d[i - 1] == parameters[i]);
        let r = parameters_unresolved(d.take(i - 1), env);
        assert(parameters_unresolved(d.take(i), env) == r + gi);
        assert(parameters_unresolved(t1, env) == g0 + parameters_unresolved(d.take(i), env));
        assert(parameters_unresolved(t0, env) == g0 + r);
        assert(g0 + (r + gi) =~= (g0 + r) + gi);
    } else {
        assert(t1.drop_first() =~= Seq::<FunctionParameter>::empty());
        assert(t0 =~= Seq::<FunctionParameter>::empty());
        assert(parameters_unresolved(t1.drop_first(), env) == Seq::<Unresolved>::empty());
        assert(parameters_unresolved(t1, env) == g0 + Seq::<Unresolved>::empty());
        assert(g0 + Seq::<Unresolved>::empty() =~= Seq::<Unresolved>::empty() + gi);
    }
}

/// The whole sequence, one item at a time.
pub proof fn lemma_parameters_all(parameters: Seq<FunctionParameter>, env: Seq<Seq<Identifier>>)
    ensures
        parameters_unresolved(parameters.take(parameters.len() as int), env) == parameters_unresolved(parameters, env),
        parameters_unresolved(parameters.take(0), env) == Seq::<Unresolved>::empty(),
{
    assert(parameters.take(parameters.len() as int) =~= parameters);
    assert(parameters.take(0) =~= Seq::<FunctionParameter>::empty());
}

pub proof fn lemma_statements_step(statements: Seq<Statement>, env: Seq<Seq<Identifier>>, i: int)
    requires
        0 <= i < statements.len(),
    ensures
        statements_unresolved(statements.take(i + 1), env) == statements_unresolved(statements.take(i), env) + statement_unresolved(statements[i], env),
    decreases i,
{
    let t1 = statements.take(i + 1);
    let t0 = statements.take(i);
    let d = statements.drop_first();
    let g0 = statement_unresolved(statements[0], env);
    let gi = statement_unresolved(statements[i], env);
    assert(t1[0] == statements[0]);
    if i > 0 {
        lemma_statements_step(d, env, i - 1);
        assert(t1.drop_first() =~= d.take(i));
        assert(t0.drop_first() =~= d.take(i - 1));
        assert(t0[0] == statements[0]);
        assert(d[i - 1] == statements[i]);
        let r = statements_unresolved(d.take(i - 1), env);
        assert(statements_unresolved(d.take(i), env) == r + gi);
        assert(statements_unresolved(t1, env) == g0 + statements_unresolved(d.take(i), env));
        assert(statements_unresolved(t0, env) == g0 + r);
        assert(g0 + (r + gi) =~= (g0 + r) + gi);
    } else {
        assert(t1.drop_first() =~= Seq::<Statement>::empty());
        assert(t0 =~= Seq::<Statement>::empty());
        assert(statements_unresolved(t1.drop_first(), env) == Seq::<Unresolved>::empty());
        assert(statements_unresolved(t1, env) == g0 + Seq::<Unresolved>::empty());
        assert(g0 + Seq::<Unresolved>::empty() =~= Seq::<Unresolved>::empty() + gi);
    }
}

/// The whole sequence, one item at a time.
pub proof fn lemma_statements_all(statements: Seq<Statement>, env: Seq<Seq<Identifier>>)
    ensures
        statements_unresolved(statements.take(statements.len() as int), env) == statements_unresolved(statements, env),
        statements_unresolved(statements.take(0), env) == Seq::<Unresolved>::empty(),
{
    assert(statements.take(statements.len() as int) =~= statements);
    assert(statements.take(0) =~= Seq::<Statement>::empty());
}

pub proof fn lemma_else_ifs_step(clauses: Seq<ElseIf>, env: Seq<Seq<Identifier>>, i: int)
    requires
        0 <= i < clauses.len(),
    ensures
        else_ifs_unresolved(clauses.take(i + 1), env) == else_ifs_unresolved(clauses.take(i), env) + (expression_unresolved(*clauses[i].test, env) + block_unresolved(clauses[i].block@, env, Seq::empty())),
    decreases i,
{
    let t1 = clauses.take(i + 1);
    let t0 = clauses.take(i);
    let d = clauses.drop_first();
    let g0 = (expression_unresolved(*clauses[0].test, env) + block_unresolved(clauses[0].block@, env, Seq::empty()));
    let gi = (expression_unresolved(*clauses[i].test, env) + block_unresolved(clauses[i].block@, env, Seq::empty()));
    assert(t1[0] == clauses[0]);
    if i > 0 {
        lemma_else_ifs_step(d, env, i - 1);
        assert(t1.drop_first() =~= d.take(i));
        assert(t0.drop_first() =~= d.take(i - 1));
        assert(t0[0] == clauses[0]);
        assert(d[i - 1] == clauses[i]);
        let r = else_ifs_unresolved(d.take(i - 1), env);
        assert(else_ifs_unresolved(d.take(i), env) == r + gi);
        assert(else_ifs_unresolved(t1, env) == g0 + else_ifs_unresolved(d.take(i), env));
        assert(else_ifs_unresolved(t0, env) == g0 + r);
        assert(g0 + (r + gi) =~= (g0 + r) + gi);
    } else {
        assert(t1.drop_first() =~= Seq::<ElseIf>::empty());
        assert(t0 =~= Seq::<ElseIf>::empty());
        assert(else_ifs_unresolved(t1.drop_first(), env) == Seq::<Unresolved>::empty());
        assert(else_ifs_unresolved(t1, env) == g0 + Seq::<Unresolved>::empty());
        assert(g0 + Seq::<Unresolved>::empty() =~= Seq::<Unresolved>::empty() + gi);
    }
}

/// The whole sequence, one item at a time.
pub proof fn lemma_else_ifs_all(clauses: Seq<ElseIf>, env: Seq<Seq<Identifier>>)
    ensures
        else_ifs_unresolved(clauses.take(clauses.len() as int), env) == else_ifs_unresolved(clauses, env),
        else_ifs_unresolved(clauses.take(0), env) == Seq::<Unresolved>::empty(),
{
    assert(clauses.take(clauses.len() as int) =~= clauses);
    assert(clauses.take(0) =~= Seq::<ElseIf>::empty());
}

pub proof fn lemma_catches_step(clauses: Seq<Catch>, env: Seq<Seq<Identifier>>, i: int)
    requires
        0 <= i < clauses.len(),
    ensures
        catches_unresolved(clauses.take(i + 1), env) == catches_unresolved(clauses.take(i), env) + catch_unresolved(clauses[i], env),
    decreases i,
{
    let t1 = clauses.take(i + 1);
    let t0 = clauses.take(i);
    let d = clauses.drop_first();
    let g0 = catch_unresolved(clauses[0], env);
    let gi = catch_unresolved(clauses[i], env);
    assert(t1[0] == clauses[0]);
    if i > 0 {
        lemma_catches_step(d, env, i - 1);
        assert(t1.drop_first() =~= d.take(i));
        assert(t0.drop_first() =~= d.take(i - 1));
        assert(t0[0] == clauses[0]);
        assert(d[i - 1] == clauses[i]);
        let r = catches_unresolved(d.take(i - 1), env);
        assert(catches_unresolved(d.take(i), env) == r + gi);
        assert(catches_unresolved(t1, env) == g0 + catches_unresolved(d.take(i), env));
        assert(catches_unresolved(t0, env) == g0 + r);
        assert(g0 + (r + gi) =~= (g0 + r) + gi);
    } else {
        assert(t1.drop_first() =~= Seq::<Catch>::empty());
        assert(t0 =~= Seq::<Catch>::empty());
        assert(catches_unresolved(t1.drop_first(), env) == Seq::<Unresolved>::empty());
        assert(catches_unresolved(t1, env) == g0 + Seq::<Unresolved>::empty());
        assert(g0 + Seq::<Unresolved>::empty() =~= Seq::<Unresolved>::empty() + gi);
    }
}

/// The whole sequence, one item at a time.
pub proof fn lemma_catches_all(clauses: Seq<Catch>, env: Seq<Seq<Identifier>>)
    ensures
        catches_unresolved(clauses.take(clauses.len() as int), env) == catches_unresolved(clauses, env),
        catches_unresolved(clauses.take(0), env) == Seq::<Unresolved>::empty(),
{
    assert(clauses.take(clauses.len() as int) =~= clauses);
    assert(clauses.take(0) =~= Seq::<Catch>::empty());
}

// SCOPES ////////////////////////////////////////////////////////////////////////////////////////

/// The names of the declarations of a block's `let` statements are the names
/// those statements declare.
pub proof fn lemma_declared_lets_names(block: Seq<Statement>, declared: Seq<usize>)
    ensures
        declared_lets(block, declared).map_values(|d: Declaration| d.1) == let_names(block),
    decreases block.len(),
{
    if block.len() > 0 {
        lemma_declared_lets_names(block.drop_last(), declared);
        let rest = declared_lets(block.drop_last(), declared);
        if block.last() is Let {
            assert(rest.push((declared[block.len() - 1], block.last()->Let_variable_name)).map_values(|d: Declaration| d.1)
                =~= rest.map_values(|d: Declaration| d.1).push(block.last()->Let_variable_name));
        }
    } else {
        assert(declared_lets(block, declared).map_values(|d: Declaration| d.1) =~= Seq::<Identifier>::empty());
    }
}

/// The names of a new innermost scope.
pub proof fn lemma_scope_names_push(scopes: Seq<Seq<Declaration>>, a: Seq<Declaration>, b: Seq<Declaration>)
    ensures
        scope_names(scopes.push(a + b)) == scope_names(scopes).push(
            a.map_values(|d: Declaration| d.1) + b.map_values(|d: Declaration| d.1)),
{
    assert((a + b).map_values(|d: Declaration| d.1) =~= a.map_values(|d: Declaration| d.1) + b.map_values(|d: Declaration| d.1));
    assert(scope_names(scopes.push(a + b)) =~= scope_names(scopes).push((a + b).map_values(|d: Declaration| d.1)));
}

/// The names of the declarations of parameters are the parameters' names.
pub proof fn lemma_parameter_declaration_names(parameters: Seq<FunctionParameter>)
    ensures
        parameter_declarations(parameters).map_values(|d: Declaration| d.1) == parameter_names(parameters),
{
    assert(parameter_declarations(parameters).map_values(|d: Declaration| d.1) =~= parameter_names(parameters));
}

} // verus!
