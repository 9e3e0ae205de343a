//! Name resolution: ties every variable in a program to its declaration,
//! records when each variable is read and written in its own frame, and which
//! closures bind it.

use vstd::prelude::*;
use vstd::string::*;
use crate::lang::identifier::{Identifier, IdentifierTable};
use crate::parse::node::{Root, Statement, Expression, Lvalue, ElseIf, Catch, FunctionParameter};
use crate::vm::analysis::annotation::{
    Annotations,
    Frame,
    Variable,
    Use,
    Binding,
    BindVariable,
    ReadVariable,
    WriteVariable,
    NameResolution,
    Time,
};
use crate::vm::error::AnalysisError;
use crate::vm::repl::State;
use crate::lang::value::Value;
use crate::vm::analysis::scope::{
    Declaration,
    first_declaration,
    lookup,
    expression_resolved,
    statement_resolved,
    block_resolved,
    parameter_resolved,
    else_if_resolved,
    catch_resolved,
    lvalue_resolved,
    let_declarations,
    parameter_declarations,
    let_kept,
    lemma_declared_lets,
    declarations_of,
    declared_lets,
    lemma_declared_lets_step,
    lemma_declared_lets_prefix,
};
use crate::vm::analysis::unresolved::{
    Unresolved,
    scope_names,
    use_unresolved,
    expression_unresolved,
    lemma_expression_unresolved,
    lemma_statement_unresolved,
    lemma_block_unresolved,
    lemma_optional_unresolved,
    lemma_lvalue_unresolved,
    lemma_catch_unresolved,
    arguments_unresolved,
    optional_unresolved,
    parameters_unresolved,
    lvalue_unresolved,
    statement_unresolved,
    statements_unresolved,
    block_unresolved,
    else_ifs_unresolved,
    catch_unresolved,
    catches_unresolved,
    reported,
    lemma_reported_one,
    lemma_reported_none,
    lemma_reported_then,
    lemma_lookup_visible,
    lemma_arguments_step,
    lemma_arguments_all,
    lemma_parameters_step,
    lemma_parameters_all,
    lemma_statements_step,
    lemma_statements_all,
    lemma_else_ifs_step,
    lemma_else_ifs_all,
    lemma_catches_step,
    lemma_catches_all,
    lemma_declared_lets_names,
    lemma_scope_names_push,
    lemma_parameter_declaration_names,
};
use crate::vm::analysis::linkage::{
    binds,
    lemma_binds_down,
    links_grow,
    lemma_links_grow_trans,
    closures_chained,
    closures_chained_but,
    lemma_chained_but_start,
    lemma_chained_but_end,
    lemma_chained_step,
    lemma_chained_same_frames,
    lemma_chained_new_frame,
    lemma_chained_but_none,
    lemma_unique_parent,
    is_frame,
    sees,
    expression_linked,
    statement_linked,
    else_if_linked,
    catch_linked,
    expression_no_while_else,
    statement_no_while_else,
    else_if_no_while_else,
    catch_no_while_else,
    lvalue_no_while_else,
    lvalue_expression_linked,
    lemma_expression_linked_grows,
    lemma_statement_linked_grows,
    lemma_function_kept,
};


verus! {

// WHAT THE ANALYSIS ACCEPTS ///////////////////////////////////////////////////////////////////////

/// The names that the `let` statements of `block` declare, in order.
pub open spec fn let_names(block: Seq<Statement>) -> Seq<Identifier>
    decreases block.len(),
{
    if block.len() == 0 {
        Seq::empty()
    } else {
        let rest = let_names(block.drop_last());
        match block.last() {
            Statement::Let { variable_name, .. } => rest.push(variable_name),
            _ => rest,
        }
    }
}

/// No `let` of `block` declares a name that `declared` or an earlier `let`
/// of the block already declares.
pub open spec fn no_double_declaration(block: Seq<Statement>, declared: Seq<Identifier>) -> bool {
    let lets = let_names(block);
    forall|k: int|
        0 <= k < lets.len() ==> !declared.contains(#[trigger] lets[k]) && !lets.take(k).contains(
            lets[k],
        )
}

/// The names of function parameters, in order.
pub open spec fn parameter_names(parameters: Seq<FunctionParameter>) -> Seq<Identifier> {
    parameters.map_values(|p: FunctionParameter| p.variable_name)
}

/// A block that name resolution can analyse, opened with the names
/// `declared` already in its scope: see `statement_resolvable`.
pub open spec fn block_resolvable(block: Seq<Statement>, declared: Seq<Identifier>, n: nat) -> bool
    decreases block,
{
    &&& no_double_declaration(block, declared)
    &&& forall|i: int| 0 <= i < block.len() ==> statement_resolvable(#[trigger] block[i], n)
}

/// A statement that name resolution can analyse: no block declares a name
/// twice, and every variable name it holds is one of the `n` names of the
/// identifier table.
pub open spec fn statement_resolvable(statement: Statement, n: nat) -> bool
    decreases statement,
{
    match statement {
        Statement::ExpressionStatement { expression } => expression_resolvable(*expression, n),
        Statement::Print { expression } => expression_resolvable(*expression, n),
        Statement::Assignment { lvalue, rvalue } => lvalue_resolvable(*lvalue, n)
            && expression_resolvable(*rvalue, n),
        Statement::Use { .. } => true,
        Statement::Let { default, .. } => match default {
            Some(e) => expression_resolvable(*e, n),
            None => true,
        },
        Statement::Return { expression } => match expression {
            Some(e) => expression_resolvable(*e, n),
            None => true,
        },
        Statement::Throw { expression } => expression_resolvable(*expression, n),
        Statement::If { test, block, else_if_clauses, else_clause } => {
            &&& expression_resolvable(*test, n)
            &&& block_resolvable(block@, Seq::empty(), n)
            &&& forall|i: int|
                0 <= i < else_if_clauses@.len() ==> else_if_resolvable(
                    #[trigger] else_if_clauses@[i],
                    n,
                )
            &&& match else_clause {
                Some(e) => block_resolvable(e.block@, Seq::empty(), n),
                None => true,
            }
        },
        Statement::While { test, block, else_clause } => {
            &&& expression_resolvable(*test, n)
            &&& block_resolvable(block@, Seq::empty(), n)
            &&& match else_clause {
                Some(e) => block_resolvable(e.block@, Seq::empty(), n),
                None => true,
            }
        },
        Statement::Try { block, catch_clauses, else_clause, finally_clause } => {
            &&& block_resolvable(block@, Seq::empty(), n)
            &&& forall|i: int|
                0 <= i < catch_clauses@.len() ==> catch_resolvable(#[trigger] catch_clauses@[i], n)
            &&& match else_clause {
                Some(e) => block_resolvable(e.block@, Seq::empty(), n),
                None => true,
            }
            &&& match finally_clause {
                Some(f) => block_resolvable(f.block@, Seq::empty(), n),
                None => true,
            }
        },
    }
}

pub open spec fn else_if_resolvable(clause: ElseIf, n: nat) -> bool
    decreases clause,
{
    expression_resolvable(*clause.test, n) && block_resolvable(clause.block@, Seq::empty(), n)
}

pub open spec fn catch_resolvable(clause: Catch, n: nat) -> bool
    decreases clause,
{
    &&& match clause.type_ {
        Some(e) => expression_resolvable(*e, n),
        None => true,
    }
    &&& block_resolvable(clause.block@, seq![clause.variable_name], n)
}

pub open spec fn parameter_resolvable(parameter: FunctionParameter, n: nat) -> bool
    decreases parameter,
{
    &&& match parameter.type_ {
        Some(e) => expression_resolvable(*e, n),
        None => true,
    }
    &&& match parameter.default {
        Some(e) => expression_resolvable(*e, n),
        None => true,
    }
}

pub open spec fn expression_resolvable(expression: Expression, n: nat) -> bool
    decreases expression,
{
    match expression {
        Expression::Function { parameters, block, .. } => {
            &&& forall|i: int|
                0 <= i < parameters@.len() ==> parameter_resolvable(#[trigger] parameters@[i], n)
            &&& block_resolvable(block@, parameter_names(parameters@), n)
        },
        Expression::Binary { left, right, .. } => expression_resolvable(*left, n)
            && expression_resolvable(*right, n),
        Expression::Not { expression } => expression_resolvable(*expression, n),
        Expression::DotAccess { expression, .. } => expression_resolvable(*expression, n),
        Expression::ItemAccess { expression, key_expression } => expression_resolvable(
            *expression,
            n,
        ) && expression_resolvable(*key_expression, n),
        Expression::Call { expression, arguments } => {
            &&& expression_resolvable(*expression, n)
            &&& forall|i: int|
                0 <= i < arguments@.len() ==> expression_resolvable(#[trigger] arguments@[i], n)
        },
        Expression::Variable { name, .. } => name.index < n,
        _ => true,
    }
}

pub open spec fn lvalue_resolvable(lvalue: Lvalue, n: nat) -> bool
    decreases lvalue,
{
    match lvalue {
        Lvalue::VariableLvalue { name, .. } => name.index < n,
        Lvalue::DotAccessLvalue { expression, .. } => expression_resolvable(*expression, n),
    }
}

proof fn lemma_first_declaration(ids: Seq<usize>, name_of: spec_fn(usize) -> Identifier, name: Identifier)
    ensures
        first_named(ids, name_of, name) == first_declaration(declarations_of(ids, name_of), name),
    decreases ids.len(),
{
    if ids.len() > 0 {
        assert(declarations_of(ids, name_of).drop_first() =~= declarations_of(ids.drop_first(), name_of));
        lemma_first_declaration(ids.drop_first(), name_of, name);
    }
}

proof fn lemma_lookup(scopes: Seq<Seq<usize>>, name_of: spec_fn(usize) -> Identifier, name: Identifier)
    ensures
        innermost_named(scopes, name_of, name) == lookup(
            scopes.map_values(|ids: Seq<usize>| declarations_of(ids, name_of)),
            name,
        ),
    decreases scopes.len(),
{
    if scopes.len() > 0 {
        let m = scopes.map_values(|ids: Seq<usize>| declarations_of(ids, name_of));
        assert(m.drop_last() =~= scopes.drop_last().map_values(|ids: Seq<usize>| declarations_of(ids, name_of)));
        lemma_first_declaration(scopes.last(), name_of, name);
        lemma_lookup(scopes.drop_last(), name_of, name);
    }
}

// THE ANALYSIS ////////////////////////////////////////////////////////////////////////////////////

struct Scope {
    declared_variables: Vec<usize>,
    used: Vec<usize>,
}

/// The state of name resolution while it walks a program: the stack of frames
/// it is in, the stack of block scopes, the time, and the errors found.
pub struct AnalyzeResolution {
    frames: Vec<usize>,
    scopes: Vec<Scope>,
    time: Time,
    pub errors: Vec<AnalysisError>,
}

impl AnalyzeResolution {
    /// The analysis is consistent with the arena `ann`: the frames on its stack
    /// exist, were opened in order and, but for the root, are function frames
    /// with a closure; every variable in scope is declared in one of them; and
    /// every use in scope exists.
    pub closed spec fn inv(&self, ann: &Annotations) -> bool {
        &&& self.inv_frames(ann)
        &&& closures_chained(*ann)
    }

    /// As `inv`, but for the closures being chained; and each frame on the
    /// stack, but the first, is a function of the one below it.
    pub closed spec fn inv_frames(&self, ann: &Annotations) -> bool {
        &&& ann.wf()
        &&& forall|k: int| 1 <= k < self.frames@.len()
            ==> ann.frames@[self.frames@[k - 1] as int].functions@.contains(#[trigger] self.frames@[k])
        &&& forall|k: int| 0 <= k < self.frames@.len() ==> #[trigger] self.frames@[k] < ann.frames@.len()
        &&& forall|i: int, j: int|
            0 <= i < j < self.frames@.len() ==> #[trigger] self.frames@[i] < #[trigger] self.frames@[j]
        &&& forall|k: int|
            1 <= k < self.frames@.len() ==> (#[trigger] ann.frames@[self.frames@[k] as int]).closure is Some
        &&& forall|s: int, k: int|
            0 <= s < self.scopes@.len() && 0 <= k < self.scopes@[s].declared_variables@.len() ==> {
                let v = #[trigger] self.scopes@[s].declared_variables@[k];
                &&& v < ann.variables@.len()
                &&& self.frames@.contains(ann.variables@[v as int].declared_in)
            }
        &&& forall|s: int, k: int|
            0 <= s < self.scopes@.len() && 0 <= k < self.scopes@[s].used@.len()
                ==> #[trigger] self.scopes@[s].used@[k] < ann.uses@.len()
    }

    /// Inside a frame and a scope.
    pub closed spec fn is_open(&self) -> bool {
        self.frames@.len() >= 1 && self.scopes@.len() >= 1
    }

    /// The errors found so far.
    pub closed spec fn error_list(&self) -> Seq<AnalysisError> {
        self.errors@
    }

    /// How many errors were found so far.
    pub fn error_count(&self) -> (n: usize)
        ensures
            n == self.error_list().len(),
    {
        self.errors.len()
    }

    /// The errors found.
    pub fn into_errors(self) -> (errors: Vec<AnalysisError>)
        ensures
            errors@ == self.error_list(),
    {
        self.errors
    }

    pub closed spec fn depth(&self) -> (nat, nat) {
        (self.frames@.len(), self.scopes@.len())
    }

    pub fn new() -> (r: AnalyzeResolution)
        ensures
            r.error_list().len() == 0,
            r.depth() == (0nat, 0nat),
            r.is_idle(),
    {
        AnalyzeResolution { frames: Vec::new(), scopes: Vec::new(), time: 0, errors: Vec::new() }
    }

    /// Advances the clock and gives the new time (wrapping at the top of
    /// `usize`).
    fn tick(&mut self) -> (t: Time)
        ensures
            t == final(self).time,
            t == (if old(self).time < usize::MAX { old(self).time + 1 } else { 0 }),
            final(self).frames == old(self).frames,
            final(self).scopes == old(self).scopes,
            final(self).errors == old(self).errors,
    {
        self.time = self.time.wrapping_add(1);
        self.time
    }
}

// LOOKING NAMES UP ////////////////////////////////////////////////////////////////////////////////

/// The first of `ids` whose name (by `name_of`) is `name`.
pub open spec fn first_named(ids: Seq<usize>, name_of: spec_fn(usize) -> Identifier, name: Identifier) -> Option<usize>
    decreases ids.len(),
{
    if ids.len() == 0 {
        None
    } else if name_of(ids[0]) == name {
        Some(ids[0])
    } else {
        first_named(ids.drop_first(), name_of, name)
    }
}

/// The declaration of `name` in the innermost of `scopes` that has one.
pub open spec fn innermost_named(
    scopes: Seq<Seq<usize>>,
    name_of: spec_fn(usize) -> Identifier,
    name: Identifier,
) -> Option<usize>
    decreases scopes.len(),
{
    if scopes.len() == 0 {
        None
    } else {
        match first_named(scopes.last(), name_of, name) {
            Some(v) => Some(v),
            None => innermost_named(scopes.drop_last(), name_of, name),
        }
    }
}

proof fn lemma_first_named_step(ids: Seq<usize>, i: int, name_of: spec_fn(usize) -> Identifier, name: Identifier)
    requires
        0 <= i < ids.len(),
        name_of(ids[i]) != name,
    ensures
        first_named(ids.skip(i), name_of, name) == first_named(ids.skip(i + 1), name_of, name),
{
    assert(ids.skip(i).drop_first() =~= ids.skip(i + 1));
}

proof fn lemma_first_named_found(ids: Seq<usize>, name_of: spec_fn(usize) -> Identifier, name: Identifier)
    ensures
        first_named(ids, name_of, name) matches Some(v) ==> ids.contains(v) && name_of(v) == name,
        first_named(ids, name_of, name) is None ==> forall|k: int| 0 <= k < ids.len() ==> name_of(#[trigger] ids[k]) != name,
    decreases ids.len(),
{
    if ids.len() > 0 {
        lemma_first_named_found(ids.drop_first(), name_of, name);
        if name_of(ids[0]) != name {
            assert forall|k: int| 0 <= k < ids.len() && first_named(ids, name_of, name) is None implies name_of(#[trigger] ids[k]) != name by {
                if k > 0 {
                    assert(ids[k] == ids.drop_first()[k - 1]);
                }
            }
            if let Some(v) = first_named(ids, name_of, name) {
                assert(ids.drop_first().contains(v));
                let j = choose|j: int| 0 <= j < ids.drop_first().len() && ids.drop_first()[j] == v;
                assert(ids[j + 1] == v);
            }
        } else {
            assert(ids[0] == ids[0]);
        }
    }
}

impl AnalyzeResolution {
    /// The variables declared in each open scope, innermost last.
    pub closed spec fn scope_variables(&self) -> Seq<Seq<usize>> {
        self.scopes@.map_values(|s: Scope| s.declared_variables@)
    }

    /// The uses in each open scope, innermost last.
    pub closed spec fn scope_uses(&self) -> Seq<Seq<usize>> {
        self.scopes@.map_values(|s: Scope| s.used@)
    }

    /// The frames the analysis is in, innermost last.
    pub closed spec fn frame_stack(&self) -> Seq<usize> {
        self.frames@
    }
}

/// The name of variable `v` in `ann`.
pub open spec fn variable_name(ann: &Annotations) -> spec_fn(usize) -> Identifier {
    |v: usize| ann.variables@[v as int].name
}

/// The name of use `u` in `ann`.
pub open spec fn use_name(ann: &Annotations) -> spec_fn(usize) -> Identifier {
    |u: usize| ann.uses@[u as int].name
}

impl AnalyzeResolution {
    #[verifier::spinoff_prover]
    fn push_frame(&mut self, ann: &Annotations, frame: usize)
        requires
            old(self).inv(ann),
            frame < ann.frames@.len(),
            old(self).frames@.len() >= 1 ==> ann.frames@[frame as int].closure is Some,
            old(self).frames@.len() >= 1 ==> ann.frames@[old(self).frames@.last() as int].functions@.contains(frame),
            forall|k: int| 0 <= k < old(self).frames@.len() ==> old(self).frames@[k] < frame,
        ensures
            final(self).inv(ann),
            final(self).frames@ == old(self).frames@.push(frame),
            final(self).scopes@ == old(self).scopes@,
            final(self).time == old(self).time,
            final(self).errors@ == old(self).errors@,
    {
        self.frames.push(frame);
        proof {
            assert forall|k: int| 1 <= k < self.frames@.len()
                implies ann.frames@[self.frames@[k - 1] as int].functions@.contains(#[trigger] self.frames@[k]) by {
                if k < self.frames@.len() - 1 {
                    assert(self.frames@[k] == old(self).frames@[k]);
                    assert(self.frames@[k - 1] == old(self).frames@[k - 1]);
                }
            }
            assert forall|s: int, k: int|
                0 <= s < self.scopes@.len() && 0 <= k < self.scopes@[s].declared_variables@.len() implies
                    self.frames@.contains(ann.variables@[self.scopes@[s].declared_variables@[k] as int].declared_in) by {
                let v = self.scopes@[s].declared_variables@[k];
                assert(old(self).frames@.contains(ann.variables@[v as int].declared_in));
                let j = choose|j: int| 0 <= j < old(self).frames@.len() && old(self).frames@[j] == ann.variables@[v as int].declared_in;
                assert(self.frames@[j] == ann.variables@[v as int].declared_in);
            }
        }
    }

    #[verifier::spinoff_prover]
    fn pop_frame(&mut self, ann: &Annotations)
        requires
            old(self).inv(ann),
            old(self).frames@.len() >= 1,
            forall|s: int, k: int|
                0 <= s < old(self).scopes@.len() && 0 <= k < old(self).scopes@[s].declared_variables@.len() ==>
                    ann.variables@[old(self).scopes@[s].declared_variables@[k] as int].declared_in != old(self).frames@.last(),
        ensures
            final(self).inv(ann),
            final(self).frames@ == old(self).frames@.drop_last(),
            final(self).scopes@ == old(self).scopes@,
            final(self).time == old(self).time,
            final(self).errors@ == old(self).errors@,
    {
        self.frames.pop();
        proof {
            assert forall|s: int, k: int|
                0 <= s < self.scopes@.len() && 0 <= k < self.scopes@[s].declared_variables@.len() implies
                    self.frames@.contains(ann.variables@[self.scopes@[s].declared_variables@[k] as int].declared_in) by {
                let v = self.scopes@[s].declared_variables@[k];
                let d = ann.variables@[v as int].declared_in;
                assert(old(self).frames@.contains(d));
                let j = choose|j: int| 0 <= j < old(self).frames@.len() && old(self).frames@[j] == d;
                assert(j < old(self).frames@.len() - 1);
                assert(self.frames@[j] == d);
            }
        }
    }

    #[verifier::spinoff_prover]
    fn push_scope(&mut self, ann: &Annotations)
        requires
            old(self).inv(ann),
        ensures
            final(self).inv(ann),
            final(self).frames@ == old(self).frames@,
            final(self).scopes@.len() == old(self).scopes@.len() + 1,
            forall|s: int| 0 <= s < old(self).scopes@.len() ==> final(self).scopes@[s] == old(self).scopes@[s],
            final(self).scopes@.last().declared_variables@.len() == 0,
            final(self).scopes@.last().used@.len() == 0,
            final(self).time == old(self).time,
            final(self).errors@ == old(self).errors@,
    {
        self.scopes.push(Scope { declared_variables: Vec::new(), used: Vec::new() });
        proof {
            assert forall|s: int, k: int|
                0 <= s < self.scopes@.len() && 0 <= k < self.scopes@[s].declared_variables@.len() implies {
                    let v = #[trigger] self.scopes@[s].declared_variables@[k];
                    &&& v < ann.variables@.len()
                    &&& self.frames@.contains(ann.variables@[v as int].declared_in)
                } by {
                assert(s < old(self).scopes@.len());
                assert(self.scopes@[s] == old(self).scopes@[s]);
            }
            assert forall|s: int, k: int|
                0 <= s < self.scopes@.len() && 0 <= k < self.scopes@[s].used@.len()
                    implies #[trigger] self.scopes@[s].used@[k] < ann.uses@.len() by {
                assert(s < old(self).scopes@.len());
                assert(self.scopes@[s] == old(self).scopes@[s]);
            }
        }
    }

    #[verifier::spinoff_prover]
    fn pop_scope(&mut self, ann: &Annotations)
        requires
            old(self).inv(ann),
            old(self).scopes@.len() >= 1,
        ensures
            final(self).inv(ann),
            final(self).frames@ == old(self).frames@,
            final(self).scopes@ == old(self).scopes@.drop_last(),
            final(self).time == old(self).time,
            final(self).errors@ == old(self).errors@,
    {
        self.scopes.pop();
        proof {
            assert forall|s: int, k: int|
                0 <= s < self.scopes@.len() && 0 <= k < self.scopes@[s].declared_variables@.len() implies {
                    let v = #[trigger] self.scopes@[s].declared_variables@[k];
                    &&& v < ann.variables@.len()
                    &&& self.frames@.contains(ann.variables@[v as int].declared_in)
                } by {
                assert(self.scopes@[s] == old(self).scopes@[s]);
            }
            assert forall|s: int, k: int|
                0 <= s < self.scopes@.len() && 0 <= k < self.scopes@[s].used@.len()
                    implies #[trigger] self.scopes@[s].used@[k] < ann.uses@.len() by {
                assert(self.scopes@[s] == old(self).scopes@[s]);
            }
        }
    }
}

/// `new` is `old` with variable `v` added to the frame's declared variables.
pub open spec fn frame_declares(old: Frame, new: Frame, v: usize) -> bool {
    &&& new.declared_variables@ == old.declared_variables@.push(v)
    &&& new.functions@ == old.functions@
    &&& new.closure == old.closure
    &&& new.n_local_variables == old.n_local_variables
    &&& new.n_shared_local_variables == old.n_shared_local_variables
}

/// Variable `v` was just created: named `name`, declared in frame `frame`,
/// with no read, write or binding yet.
pub open spec fn fresh_variable(v: Variable, name: Identifier, frame: usize) -> bool {
    &&& v.name == name
    &&& v.declared_in == frame
    &&& v.reads@.len() == 0
    &&& v.writes@.len() == 0
    &&& v.root_binds@.len() == 0
    &&& v.n_binds == 0
}

proof fn lemma_innermost_step(scopes: Seq<Seq<usize>>, s: int, name_of: spec_fn(usize) -> Identifier, name: Identifier)
    requires
        0 < s <= scopes.len(),
        first_named(scopes[s - 1], name_of, name) is None,
    ensures
        innermost_named(scopes.take(s), name_of, name) == innermost_named(scopes.take(s - 1), name_of, name),
{
    assert(scopes.take(s).last() == scopes[s - 1]);
    assert(scopes.take(s).drop_last() =~= scopes.take(s - 1));
}

proof fn lemma_innermost_found(scopes: Seq<Seq<usize>>, s: int, name_of: spec_fn(usize) -> Identifier, name: Identifier)
    requires
        0 < s <= scopes.len(),
        first_named(scopes[s - 1], name_of, name) is Some,
    ensures
        innermost_named(scopes.take(s), name_of, name) == first_named(scopes[s - 1], name_of, name),
{
    assert(scopes.take(s).last() == scopes[s - 1]);
}

impl AnalyzeResolution {
    /// Declares a new variable named `name` in the current frame and scope.
    #[verifier::spinoff_prover]
    fn declare_variable(&mut self, ann: &mut Annotations, name: Identifier) -> (v: usize)
        requires
            old(self).inv(old(ann)),
            old(self).is_open(),
        ensures
            final(self).inv(final(ann)),
            v == old(ann).variables@.len(),
            final(ann).variables@.len() == v + 1,
            forall|w: int| 0 <= w < v ==> final(ann).variables@[w] == old(ann).variables@[w],
            fresh_variable(final(ann).variables@[v as int], name, old(self).frames@.last()),
            final(ann).frames@.len() == old(ann).frames@.len(),
            forall|f: int| 0 <= f < old(ann).frames@.len() && f != old(self).frames@.last() ==>
                final(ann).frames@[f] == old(ann).frames@[f],
            frame_declares(old(ann).frames@[old(self).frames@.last() as int], final(ann).frames@[old(self).frames@.last() as int], v),
            final(ann).uses@ == old(ann).uses@,
            arena_grows(old(ann), final(ann)),
            final(self).frames@ == old(self).frames@,
            final(self).scopes@.len() == old(self).scopes@.len(),
            forall|s: int| 0 <= s < old(self).scopes@.len() - 1 ==> final(self).scopes@[s] == old(self).scopes@[s],
            final(self).scopes@.last().declared_variables@ == old(self).scopes@.last().declared_variables@.push(v),
            final(self).scopes@.last().used@ == old(self).scopes@.last().used@,
            final(self).time == old(self).time,
            final(self).errors@ == old(self).errors@,
    {
        let frame = self.frames[self.frames.len() - 1];
        let v = ann.variables.len();
        ann.variables.push(Variable::new(name, frame));
        ann.frames[frame].declared_variables.push(v);
        let last = self.scopes.len() - 1;
        self.scopes[last].declared_variables.push(v);
        proof {
            assert(old(self).frames@.contains(frame));
            let ghost fr = old(self).frames@;
            assert(fr[fr.len() - 1] == frame);
            assert forall|s: int, k: int|
                0 <= s < self.scopes@.len() && 0 <= k < self.scopes@[s].declared_variables@.len() implies
                    (#[trigger] self.scopes@[s].declared_variables@[k]) < ann.variables@.len()
                    && self.frames@.contains(ann.variables@[self.scopes@[s].declared_variables@[k] as int].declared_in) by {
                let w = self.scopes@[s].declared_variables@[k];
                if s == last && k == self.scopes@[s].declared_variables@.len() - 1 {
                    assert(w == v);
                } else {
                    assert(w == old(self).scopes@[s].declared_variables@[k]);
                    assert(ann.variables@[w as int] == old(ann).variables@[w as int]);
                }
            }
            assert forall|w: int| 0 <= w < v implies ann.variables@[w] == #[trigger] old(ann).variables@[w] by {}
            assert forall|f: int| 0 <= f < old(ann).frames@.len() && f != frame implies #[trigger] ann.frames@[f] == old(ann).frames@[f] by {}
            old(ann).lemma_declare_keeps_wf(ann, frame, v);
            assert(ann.wf());
            assert forall|f: int| 0 <= f < old(ann).frames@.len() implies old(ann).frames@[f].declared_variables@.is_prefix_of(
                #[trigger] ann.frames@[f].declared_variables@) by {
                if f != frame {
                    assert(ann.frames@[f] == old(ann).frames@[f]);
                }
            }
            assert forall|u: int| 0 <= u < old(ann).uses@.len() implies #[trigger] ann.uses@[u] == old(ann).uses@[u] by {}
            assert forall|w: int| 0 <= w < old(ann).variables@.len() implies (#[trigger] ann.variables@[w]).name == old(ann).variables@[w].name
                && ann.variables@[w].declared_in == old(ann).variables@[w].declared_in by {
                assert(ann.variables@[w] == old(ann).variables@[w]);
            }
            assert forall|s: int, k: int|
                0 <= s < self.scopes@.len() && 0 <= k < self.scopes@[s].used@.len()
                    implies #[trigger] self.scopes@[s].used@[k] < ann.uses@.len() by {
                assert(self.scopes@[s].used@ == old(self).scopes@[s].used@);
            }
            assert forall|k: int| 0 <= k < self.frames@.len() implies #[trigger] self.frames@[k] < ann.frames@.len() by {
                assert(old(self).frames@[k] < old(ann).frames@.len());
            }
            assert forall|k: int| 1 <= k < self.frames@.len() implies (#[trigger] ann.frames@[self.frames@[k] as int]).closure is Some by {
                assert(ann.frames@[self.frames@[k] as int].closure == old(ann).frames@[self.frames@[k] as int].closure);
            }
        }
        v
    }

    /// The variable that `name` refers to: the one declared in the innermost
    /// scope that declares that name (the first such in the scope).
    fn find_variable(&self, ann: &Annotations, name: Identifier) -> (r: Result<usize, ()>)
        requires
            self.inv(ann),
        ensures
            r == (match innermost_named(self.scope_variables(), variable_name(ann), name) {
                Some(v) => Ok::<usize, ()>(v),
                None => Err(()),
            }),
    {
        let ghost all = self.scope_variables();
        let mut s = self.scopes.len();
        proof {
            assert(all.take(s as int) =~= all);
        }
        while s > 0
            invariant
                s <= self.scopes@.len(),
                all == self.scope_variables(),
                all.len() == self.scopes@.len(),
                self.inv(ann),
                innermost_named(all, variable_name(ann), name) == innermost_named(all.take(s as int), variable_name(ann), name),
            decreases s,
        {
            let scope = &self.scopes[s - 1];
            let ghost ids = scope.declared_variables@;
            assert(ids == all[s - 1]);
            let mut k: usize = 0;
            proof {
                assert(ids.skip(0) =~= ids);
            }
            while k < scope.declared_variables.len()
                invariant
                    k <= ids.len(),
                    ids == scope.declared_variables@,
                    self.inv(ann),
                    0 < s <= self.scopes@.len(),
                    scope == &self.scopes@[s - 1],
                    first_named(ids, variable_name(ann), name) == first_named(ids.skip(k as int), variable_name(ann), name),
                    all == self.scope_variables(),
                    all.len() == self.scopes@.len(),
                    ids == all[s - 1],
                    innermost_named(all, variable_name(ann), name) == innermost_named(all.take(s as int), variable_name(ann), name),
                decreases ids.len() - k,
            {
                let v = scope.declared_variables[k];
                assert(v < ann.variables@.len());
                if ann.variables[v].name == name {
                    proof {
                        assert(ids.skip(k as int)[0] == v);
                        lemma_innermost_found(all, s as int, variable_name(ann), name);
                    }
                    return Ok(v);
                }
                proof {
                    lemma_first_named_step(ids, k as int, variable_name(ann), name);
                }
                k += 1;
            }
            proof {
                assert(ids.skip(k as int).len() == 0);
                lemma_innermost_step(all, s as int, variable_name(ann), name);
            }
            s -= 1;
        }
        proof {
            assert(all.take(0).len() == 0);
        }
        Err(())
    }

    /// What the bare name `name` refers to: the innermost `use` in scope that
    /// makes it, or else the implicit names.
    fn find_name(&self, ann: &Annotations, name: Identifier) -> (r: NameResolution)
        requires
            self.inv(ann),
        ensures
            r == (match innermost_named(self.scope_uses(), use_name(ann), name) {
                Some(u) => NameResolution::Use(u),
                None => NameResolution::Implicit,
            }),
    {
        let ghost all = self.scope_uses();
        let mut s = self.scopes.len();
        proof {
            assert(all.take(s as int) =~= all);
        }
        while s > 0
            invariant
                s <= self.scopes@.len(),
                all == self.scope_uses(),
                all.len() == self.scopes@.len(),
                self.inv(ann),
                innermost_named(all, use_name(ann), name) == innermost_named(all.take(s as int), use_name(ann), name),
            decreases s,
        {
            let scope = &self.scopes[s - 1];
            let ghost ids = scope.used@;
            assert(ids == all[s - 1]);
            let mut k: usize = 0;
            proof {
                assert(ids.skip(0) =~= ids);
            }
            while k < scope.used.len()
                invariant
                    k <= ids.len(),
                    ids == scope.used@,
                    self.inv(ann),
                    0 < s <= self.scopes@.len(),
                    scope == &self.scopes@[s - 1],
                    first_named(ids, use_name(ann), name) == first_named(ids.skip(k as int), use_name(ann), name),
                    all == self.scope_uses(),
                    all.len() == self.scopes@.len(),
                    ids == all[s - 1],
                    innermost_named(all, use_name(ann), name) == innermost_named(all.take(s as int), use_name(ann), name),
                decreases ids.len() - k,
            {
                let u = scope.used[k];
                assert(u < ann.uses@.len());
                if ann.uses[u].name == name {
                    proof {
                        assert(ids.skip(k as int)[0] == u);
                        lemma_innermost_found(all, s as int, use_name(ann), name);
                    }
                    return NameResolution::Use(u);
                }
                proof {
                    lemma_first_named_step(ids, k as int, use_name(ann), name);
                }
                k += 1;
            }
            proof {
                assert(ids.skip(k as int).len() == 0);
                lemma_innermost_step(all, s as int, use_name(ann), name);
            }
            s -= 1;
        }
        proof {
            assert(all.take(0).len() == 0);
        }
        NameResolution::Implicit
    }
}

/// `new` is `old` with only the bindings of its closure changed.
pub open spec fn same_but_bindings(old: Frame, new: Frame) -> bool {
    &&& new.declared_variables@ == old.declared_variables@
    &&& new.functions@ == old.functions@
    &&& new.n_local_variables == old.n_local_variables
    &&& new.n_shared_local_variables == old.n_shared_local_variables
    &&& (old.closure is Some <==> new.closure is Some)
    &&& (old.closure matches Some(c) ==> new.closure->Some_0.created_at == c.created_at
        && new.closure->Some_0.n_static_bound_variables == c.n_static_bound_variables
        && new.closure->Some_0.n_shared_bound_variables == c.n_shared_bound_variables)
}

/// `new` is `old` with only the record of its binds changed.
pub open spec fn same_but_binds(old: Variable, new: Variable) -> bool {
    &&& new.name == old.name
    &&& new.declared_in == old.declared_in
    &&& new.reads@ == old.reads@
    &&& new.writes@ == old.writes@
    &&& new.local_storage_type == old.local_storage_type
    &&& new.local_storage_index == old.local_storage_index
    &&& new.bound_storage_type == old.bound_storage_type
}

/// Frame `f` has a closure with a binding of variable `v` that assigns to it.
pub open spec fn binds_mutably(f: Frame, v: usize) -> bool {
    f.closure matches Some(c) && exists|k: int| 0 <= k < c.bindings@.len()
        && #[trigger] c.bindings@[k].variable == v && c.bindings@[k].mutable
}

/// The time after `t` on the analysis clock, which wraps at the top of
/// `usize`.
pub open spec fn next_time(t: Time) -> Time {
    if t < usize::MAX { (t + 1) as usize } else { 0 }
}

/// The position of the binding of `variable` in the closure of `frame`.
fn binding_of(frame: &Frame, variable: usize) -> (r: Option<usize>)
    ensures
        r matches Some(b) ==> frame.closure matches Some(c) && b < c.bindings@.len()
            && c.bindings@[b as int].variable == variable,
        r is None ==> !binds(*frame, variable),
{
    match &frame.closure {
        Some(closure) => {
            let mut b: usize = 0;
            while b < closure.bindings.len()
                invariant
                    b <= closure.bindings@.len(),
                    frame.closure == Some(*closure),
                    forall|i: int| 0 <= i < b ==> closure.bindings@[i].variable != variable,
                decreases closure.bindings@.len() - b,
            {
                if closure.bindings[b].variable == variable {
                    return Some(b);
                }
                b += 1;
            }
            None
        },
        None => None,
    }
}

/// Marks binding `b` of the closure of `frame` mutable.
fn mark_binding_mutable(frame: &mut Frame, b: usize)
    requires
        old(frame).closure matches Some(c) && b < c.bindings@.len(),
    ensures
        same_but_bindings(*old(frame), *final(frame)),
        final(frame).closure->Some_0.bindings@ == old(frame).closure->Some_0.bindings@.update(
            b as int,
            Binding { mutable: true, ..old(frame).closure->Some_0.bindings@[b as int] },
        ),
{
    match &mut frame.closure {
        Some(closure) => {
            closure.bindings[b].mutable = true;
        },
        None => {},
    }
}

/// Adds a binding of `variable` to the closure of `frame`.
fn add_binding(frame: &mut Frame, variable: usize, mutable: bool)
    requires
        old(frame).closure is Some,
    ensures
        same_but_bindings(*old(frame), *final(frame)),
        final(frame).closure->Some_0.bindings@ == old(frame).closure->Some_0.bindings@.push(
            Binding { variable, mutable, storage_index: 0 },
        ),
{
    match &mut frame.closure {
        Some(closure) => {
            closure.bindings.push(Binding { variable, mutable, storage_index: 0 });
        },
        None => {},
    }
}

/// Records, in the declaring frame, a bind of `variable` by a closure created
/// at `time`: merged into an earlier bind at the same time, or added.
fn record_root_bind(variable: &mut Variable, time: Time, mutable: bool)
    ensures
        same_but_binds(*old(variable), *final(variable)),
        exists|r: int| 0 <= r < final(variable).root_binds@.len()
            && #[trigger] final(variable).root_binds@[r].time == time
            && (mutable ==> final(variable).root_binds@[r].mutable),
{
    let mut r: usize = 0;
    while r < variable.root_binds.len()
        invariant
            r <= variable.root_binds@.len(),
            *variable == *old(variable),
        decreases variable.root_binds@.len() - r,
    {
        if variable.root_binds[r].time == time {
            let m = variable.root_binds[r].mutable || mutable;
            variable.root_binds[r].mutable = m;
            assert(variable.root_binds@[r as int].time == time);
            return;
        }
        r += 1;
    }
    variable.root_binds.push(BindVariable { time, mutable });
    variable.n_binds = variable.n_binds.wrapping_add(1);
    assert(variable.root_binds@[variable.root_binds@.len() - 1].time == time);
}

impl AnalyzeResolution {
    /// Changing only the bindings of the closure of frame `frame`, to bindings
    /// of existing variables, keeps the analysis consistent with the arena.
    proof fn lemma_bindings_changed(&self, a: &Annotations, b: &Annotations, frame: usize)
        requires
            self.inv_frames(a),
            frame < a.frames@.len(),
            b.variables@ == a.variables@,
            b.uses@ == a.uses@,
            b.frames@.len() == a.frames@.len(),
            forall|f: int| 0 <= f < a.frames@.len() && f != frame ==> #[trigger] b.frames@[f] == a.frames@[f],
            same_but_bindings(a.frames@[frame as int], b.frames@[frame as int]),
            b.frames@[frame as int].closure is Some ==> forall|k: int| 0 <= k < b.frames@[frame as int].closure->Some_0.bindings@.len()
                ==> #[trigger] b.frames@[frame as int].closure->Some_0.bindings@[k].variable < b.variables@.len(),
        ensures
            self.inv_frames(b),
    {
        assert forall|f: int, k: int|
            0 <= f < b.frames@.len() && 0 <= k < b.frames@[f].declared_variables@.len() implies
                #[trigger] b.frames@[f].declared_variables@[k] < b.variables@.len() by {
            assert(b.frames@[f].declared_variables@ == a.frames@[f].declared_variables@);
        }
        assert forall|f: int, k: int|
            0 <= f < b.frames@.len() && 0 <= k < b.frames@[f].functions@.len() implies f
                < #[trigger] b.frames@[f].functions@[k] < b.frames@.len() by {
            assert(b.frames@[f].functions@ == a.frames@[f].functions@);
        }
        assert forall|f: int, k: int|
            0 <= f < b.frames@.len() && b.frames@[f].closure is Some && 0 <= k
                < b.frames@[f].closure->Some_0.bindings@.len() implies
                #[trigger] b.frames@[f].closure->Some_0.bindings@[k].variable < b.variables@.len() by {
            if f != frame {
                assert(b.frames@[f] == a.frames@[f]);
                assert(a.frames@[f].closure->Some_0.bindings@[k].variable < a.variables@.len());
            }
        }
        assert forall|f: int, k: int|
            0 <= f < b.frames@.len() && 0 <= k < b.frames@[f].declared_variables@.len()
                implies b.variables@[#[trigger] b.frames@[f].declared_variables@[k] as int].declared_in == f by {
            assert(b.frames@[f].declared_variables@ == a.frames@[f].declared_variables@);
        }
        assert forall|f: int, i: int, j: int|
            0 <= f < b.frames@.len() && 0 <= i < j < b.frames@[f].declared_variables@.len()
                implies #[trigger] b.frames@[f].declared_variables@[i] != #[trigger] b.frames@[f].declared_variables@[j] by {
            assert(b.frames@[f].declared_variables@ == a.frames@[f].declared_variables@);
        }
        assert forall|k: int| 1 <= k < self.frames@.len()
            implies b.frames@[self.frames@[k - 1] as int].functions@.contains(#[trigger] self.frames@[k]) by {
            let g = self.frames@[k - 1] as int;
            assert(a.frames@[g].functions@.contains(self.frames@[k]));
            assert(b.frames@[g].functions@ == a.frames@[g].functions@) by {
                if g != frame {
                    assert(b.frames@[g] == a.frames@[g]);
                }
            }
        }
        assert forall|k: int| 1 <= k < self.frames@.len() implies (#[trigger] b.frames@[self.frames@[k] as int]).closure is Some by {
            assert(a.frames@[self.frames@[k] as int].closure is Some);
            assert(same_but_bindings(a.frames@[self.frames@[k] as int], b.frames@[self.frames@[k] as int]));
        }
    }
}

impl AnalyzeResolution {
    /// Records that the current frame, a closure nested in the frame that
    /// declares `variable`, uses it (and assigns to it when `mutable`): each
    /// closure between the two that does not bind it yet gets a binding, and
    /// the declaring frame records a bind at the time the outermost of them
    /// was created, unless a closure already bound the variable and this use
    /// does not assign to it.
    #[verifier::spinoff_prover]
    #[verifier::rlimit(100)]
    fn bind_variable(&mut self, ann: &mut Annotations, variable: usize, mutable: bool)
        requires
            old(self).inv(old(ann)),
            old(self).is_open(),
            variable < old(ann).variables@.len(),
            old(self).frames@.contains(old(ann).variables@[variable as int].declared_in),
            old(self).frames@.last() != old(ann).variables@[variable as int].declared_in,
        ensures
            final(self).inv(final(ann)),
            *final(self) == *old(self),
            final(ann).uses@ == old(ann).uses@,
            final(ann).frames@.len() == old(ann).frames@.len(),
            forall|f: int| 0 <= f < old(ann).frames@.len() ==> same_but_bindings(old(ann).frames@[f], #[trigger] final(ann).frames@[f]),
            final(ann).variables@.len() == old(ann).variables@.len(),
            forall|w: int| 0 <= w < old(ann).variables@.len() && w != variable ==> final(ann).variables@[w] == old(ann).variables@[w],
            same_but_binds(old(ann).variables@[variable as int], final(ann).variables@[variable as int]),
            forall|g: int, v: usize| 0 <= g < old(ann).frames@.len() && #[trigger] binds(old(ann).frames@[g], v)
                ==> binds(final(ann).frames@[g], v),
            sees(*final(ann), old(self).frames@.last(), variable),
            forall|j: int| 0 <= j < old(self).frames@.len()
                && old(self).frames@[j] > old(ann).variables@[variable as int].declared_in
                ==> binds(#[trigger] final(ann).frames@[old(self).frames@[j] as int], variable),
            mutable ==> forall|j: int| 0 <= j < old(self).frames@.len()
                && old(self).frames@[j] > old(ann).variables@[variable as int].declared_in
                ==> binds_mutably(#[trigger] final(ann).frames@[old(self).frames@[j] as int], variable),
            mutable ==> exists|j: int| 0 <= j < old(self).frames@.len() - 1
                && #[trigger] old(self).frames@[j] == old(ann).variables@[variable as int].declared_in
                && exists|r: int| 0 <= r < final(ann).variables@[variable as int].root_binds@.len()
                    && #[trigger] final(ann).variables@[variable as int].root_binds@[r].time
                        == old(ann).frames@[old(self).frames@[j + 1] as int].closure->Some_0.created_at
                    && final(ann).variables@[variable as int].root_binds@[r].mutable,
            forall|f: int| 0 <= f < old(ann).frames@.len() && (forall|j: int| 0 <= j < old(self).frames@.len()
                && old(self).frames@[j] > old(ann).variables@[variable as int].declared_in ==> #[trigger] old(self).frames@[j] != f)
                ==> #[trigger] final(ann).frames@[f] == old(ann).frames@[f],
    {
        let declared_in = ann.variables[variable].declared_in;
        let mut time: Time = 0;
        let mut k = self.frames.len();
        proof {
            lemma_chained_but_start(*ann, -1, variable);
        }
        while k > 0
            invariant_except_break
                exists|j: int| 0 <= j < k && self.frames@[j] == declared_in,
            invariant
                self.inv_frames(ann),
                *self == *old(self),
                self.is_open(),
                k <= self.frames@.len(),
                variable < ann.variables@.len(),
                declared_in == ann.variables@[variable as int].declared_in,
                ann.uses@ == old(ann).uses@,
                ann.frames@.len() == old(ann).frames@.len(),
                forall|f: int| 0 <= f < old(ann).frames@.len() ==> same_but_bindings(old(ann).frames@[f], #[trigger] ann.frames@[f]),
                ann.variables@.len() == old(ann).variables@.len(),
                forall|w: int| 0 <= w < old(ann).variables@.len() && w != variable ==> ann.variables@[w] == old(ann).variables@[w],
                same_but_binds(old(ann).variables@[variable as int], ann.variables@[variable as int]),
                forall|g: int, v: usize| 0 <= g < old(ann).frames@.len() && #[trigger] binds(old(ann).frames@[g], v)
                    ==> binds(ann.frames@[g], v),
                closures_chained_but(*ann, if k < self.frames@.len() { self.frames@[k as int] as int } else { -1 }, variable),
                k < self.frames@.len() ==> binds(ann.frames@[self.frames@[k as int] as int], variable),
                k < self.frames@.len() ==> binds(ann.frames@[self.frames@.last() as int], variable),
                self.frames@.last() != declared_in,
                forall|j: int| k <= j < self.frames@.len() ==> binds(#[trigger] ann.frames@[self.frames@[j] as int], variable),
                mutable ==> forall|j: int| k <= j < self.frames@.len() ==> binds_mutably(#[trigger] ann.frames@[self.frames@[j] as int], variable),
                k < self.frames@.len() ==> time == old(ann).frames@[self.frames@[k as int] as int].closure->Some_0.created_at,
                forall|f: int| 0 <= f < old(ann).frames@.len() && (forall|j: int| k <= j < self.frames@.len()
                    ==> #[trigger] self.frames@[j] != f) ==> #[trigger] ann.frames@[f] == old(ann).frames@[f],
            ensures
                self.inv(ann),
                *self == *old(self),
                variable < ann.variables@.len(),
                ann.uses@ == old(ann).uses@,
                ann.frames@.len() == old(ann).frames@.len(),
                forall|f: int| 0 <= f < old(ann).frames@.len() ==> same_but_bindings(old(ann).frames@[f], #[trigger] ann.frames@[f]),
                ann.variables@.len() == old(ann).variables@.len(),
                forall|w: int| 0 <= w < old(ann).variables@.len() && w != variable ==> ann.variables@[w] == old(ann).variables@[w],
                same_but_binds(old(ann).variables@[variable as int], ann.variables@[variable as int]),
                forall|g: int, v: usize| 0 <= g < old(ann).frames@.len() && #[trigger] binds(old(ann).frames@[g], v)
                    ==> binds(ann.frames@[g], v),
                sees(*ann, old(self).frames@.last(), variable),
                forall|j: int| 0 <= j < old(self).frames@.len() && old(self).frames@[j] > declared_in
                    ==> binds(#[trigger] ann.frames@[old(self).frames@[j] as int], variable),
                mutable ==> forall|j: int| 0 <= j < old(self).frames@.len() && old(self).frames@[j] > declared_in
                    ==> binds_mutably(#[trigger] ann.frames@[old(self).frames@[j] as int], variable),
                mutable ==> exists|j: int| 0 <= j < old(self).frames@.len() - 1 && #[trigger] old(self).frames@[j] == declared_in
                    && time == old(ann).frames@[old(self).frames@[j + 1] as int].closure->Some_0.created_at,
                forall|f: int| 0 <= f < old(ann).frames@.len() && (forall|j: int| 0 <= j < old(self).frames@.len()
                    && old(self).frames@[j] > declared_in ==> #[trigger] old(self).frames@[j] != f)
                    ==> #[trigger] ann.frames@[f] == old(ann).frames@[f],
            decreases k,
        {
            let frame = self.frames[k - 1];
            let ghost pending: int = if k < self.frames@.len() { self.frames@[k as int] as int } else { -1 };
            proof {
                if k < self.frames@.len() {
                    assert(ann.frames@[self.frames@[k - 1] as int].functions@.contains(self.frames@[k as int]));
                    lemma_unique_parent(*ann, pending, variable, self.frames@[k as int], frame);
                }
            }
            if frame == declared_in {
                proof {
                    assert(k < self.frames@.len());
                    assert forall|j: int| 0 <= j < old(self).frames@.len() && old(self).frames@[j] > declared_in
                        implies binds(#[trigger] ann.frames@[old(self).frames@[j] as int], variable) by {
                        if j < k - 1 {
                            assert(self.frames@[j] < self.frames@[k - 1]);
                        }
                    }
                    if mutable {
                        assert forall|j: int| 0 <= j < old(self).frames@.len() && old(self).frames@[j] > declared_in
                            implies binds_mutably(#[trigger] ann.frames@[old(self).frames@[j] as int], variable) by {
                            if j < k {
                                if j < k - 1 {
                                    assert(self.frames@[j] < self.frames@[k - 1]);
                                }
                            }
                        }
                        assert(old(self).frames@[k - 1] == declared_in);
                    }
                    if k < self.frames@.len() {
                        lemma_chained_but_end(*ann, self.frames@[k as int], variable, frame);
                    } else {
                        lemma_chained_but_none(*ann, variable);
                    }
                    assert forall|f: int| 0 <= f < old(ann).frames@.len() && (forall|j: int| 0 <= j < old(self).frames@.len()
                        && old(self).frames@[j] > declared_in ==> #[trigger] old(self).frames@[j] != f)
                        implies #[trigger] ann.frames@[f] == old(ann).frames@[f] by {
                        assert forall|j: int| k <= j < self.frames@.len() implies #[trigger] self.frames@[j] != f by {
                            assert(self.frames@[k - 1] < self.frames@[j]);
                        }
                    }
                }
                break;
            }
            assert(k - 1 >= 1);
            assert(ann.frames@[frame as int].closure is Some);
            time = match &ann.frames[frame].closure {
                Some(closure) => closure.created_at,
                None => 0,
            };
            let ghost a0 = *ann;
            match binding_of(&ann.frames[frame], variable) {
                Some(b) => {
                    if !mutable {
                        proof {
                            if k < self.frames@.len() {
                                lemma_chained_but_end(*ann, self.frames@[k as int], variable, frame);
                            } else {
                                lemma_chained_but_none(*ann, variable);
                            }
                            let j0 = choose|j: int| 0 <= j < k && self.frames@[j] == declared_in;
                            assert(forall|j: int| 0 <= j < old(self).frames@.len() && old(self).frames@[j] > declared_in
                                ==> binds(#[trigger] ann.frames@[old(self).frames@[j] as int], variable)) by {
                                assert(binds(ann.frames@[frame as int], variable));
                                if j0 < k - 1 {
                                    lemma_binds_down(*ann, self.frames@, variable, j0, k - 1);
                                }
                                assert forall|j: int| 0 <= j < old(self).frames@.len() && old(self).frames@[j] > declared_in
                                    implies binds(#[trigger] ann.frames@[old(self).frames@[j] as int], variable) by {
                                    if j <= j0 {
                                        if j < j0 {
                                            assert(self.frames@[j] < self.frames@[j0]);
                                        }
                                    }
                                }
                            }
                            assert forall|f: int| 0 <= f < old(ann).frames@.len() && (forall|j: int| 0 <= j < old(self).frames@.len()
                                && old(self).frames@[j] > declared_in ==> #[trigger] old(self).frames@[j] != f)
                                implies #[trigger] ann.frames@[f] == old(ann).frames@[f] by {
                                assert forall|j: int| k <= j < self.frames@.len() implies #[trigger] self.frames@[j] != f by {
                                    assert(self.frames@[j0] < self.frames@[j]);
                                }
                            }
                        }
                        return;
                    }
                    mark_binding_mutable(&mut ann.frames[frame], b);
                    proof {
                        assert forall|k: int| 0 <= k < ann.frames@[frame as int].closure->Some_0.bindings@.len()
                            implies #[trigger] ann.frames@[frame as int].closure->Some_0.bindings@[k].variable < ann.variables@.len() by {
                            assert(a0.frames@[frame as int].closure->Some_0.bindings@[k].variable < a0.variables@.len());
                        }
                        self.lemma_bindings_changed(&a0, ann, frame);
                        assert(ann.frames@[frame as int].closure->Some_0.bindings@[b as int].variable == variable);
                        assert forall|g: int| 0 <= g < a0.frames@.len() && g != frame implies #[trigger] ann.frames@[g] == a0.frames@[g] by {}
                        lemma_chained_step(a0, *ann, pending, frame, variable);
                        assert(ann.frames@[frame as int].closure->Some_0.bindings@[b as int].mutable);
                        assert(binds_mutably(ann.frames@[frame as int], variable));
                        assert(binds(ann.frames@[frame as int], variable));
                    }
                },
                None => {
                    add_binding(&mut ann.frames[frame], variable, mutable);
                    proof {
                        assert forall|k: int| 0 <= k < ann.frames@[frame as int].closure->Some_0.bindings@.len()
                            implies #[trigger] ann.frames@[frame as int].closure->Some_0.bindings@[k].variable < ann.variables@.len() by {
                            if k < a0.frames@[frame as int].closure->Some_0.bindings@.len() {
                                assert(a0.frames@[frame as int].closure->Some_0.bindings@[k].variable < a0.variables@.len());
                            }
                        }
                        self.lemma_bindings_changed(&a0, ann, frame);
                        let n = a0.frames@[frame as int].closure->Some_0.bindings@.len();
                        assert(ann.frames@[frame as int].closure->Some_0.bindings@[n as int].variable == variable);
                        assert(binds(ann.frames@[frame as int], variable));
                        assert forall|g: int| 0 <= g < a0.frames@.len() && g != frame implies #[trigger] ann.frames@[g] == a0.frames@[g] by {}
                        lemma_chained_step(a0, *ann, pending, frame, variable);
                        if mutable {
                            assert(ann.frames@[frame as int].closure->Some_0.bindings@[n as int].mutable);
                            assert(binds_mutably(ann.frames@[frame as int], variable));
                        }
                    }
                    ann.variables[variable].n_binds = ann.variables[variable].n_binds.wrapping_add(1);
                },
            }
            proof {
                assert forall|g: int, v: usize| 0 <= g < old(ann).frames@.len() && #[trigger] binds(old(ann).frames@[g], v)
                    implies binds(ann.frames@[g], v) by {
                    assert(binds(a0.frames@[g], v));
                }
                assert forall|j: int| k - 1 <= j < self.frames@.len()
                    implies binds(#[trigger] ann.frames@[self.frames@[j] as int], variable) by {
                    if j >= k {
                        assert(self.frames@[k - 1] < self.frames@[j]);
                        assert(ann.frames@[self.frames@[j] as int] == a0.frames@[self.frames@[j] as int]);
                    }
                }
                if mutable {
                    assert forall|j: int| k <= j < self.frames@.len()
                        implies binds_mutably(#[trigger] ann.frames@[self.frames@[j] as int], variable) by {
                        assert(self.frames@[k - 1] < self.frames@[j]);
                        assert(ann.frames@[self.frames@[j] as int] == a0.frames@[self.frames@[j] as int]);
                    }
                }
                assert forall|f: int| 0 <= f < old(ann).frames@.len() && (forall|j: int| k - 1 <= j < self.frames@.len()
                    ==> #[trigger] self.frames@[j] != f) implies #[trigger] ann.frames@[f] == old(ann).frames@[f] by {
                    assert(self.frames@[k - 1] != f);
                    assert(ann.frames@[f] == a0.frames@[f]);
                    assert(forall|j: int| k <= j < self.frames@.len() ==> #[trigger] self.frames@[j] != f);
                }
            }
            k -= 1;
        }
        let ghost before = *ann;
        record_root_bind(&mut ann.variables[variable], time, mutable);
        proof {
            assert forall|g: int| 0 <= g < before.frames@.len() implies (#[trigger] ann.frames@[g]).functions@ == before.frames@[g].functions@
                && ann.frames@[g].closure == before.frames@[g].closure by {}
            assert forall|j: int| 0 <= j < old(self).frames@.len() && old(self).frames@[j] > declared_in
                implies binds(#[trigger] ann.frames@[old(self).frames@[j] as int], variable) by {
                assert(binds(before.frames@[old(self).frames@[j] as int], variable));
                assert(ann.frames@[old(self).frames@[j] as int].closure == before.frames@[old(self).frames@[j] as int].closure);
            }
            assert forall|w: int| 0 <= w < before.variables@.len() implies (#[trigger] ann.variables@[w]).declared_in == before.variables@[w].declared_in by {
                if w != variable {
                    assert(ann.variables@[w] == before.variables@[w]);
                }
            }
            lemma_chained_same_frames(before, *ann);
        }
    }
}

/// `new` only adds to `old`: existing variables keep their names and declaring
/// frames, and existing uses stay as they are.
pub open spec fn arena_grows(old: &Annotations, new: &Annotations) -> bool {
    &&& old.variables@.len() <= new.variables@.len()
    &&& forall|w: int|
        0 <= w < old.variables@.len() ==> (#[trigger] new.variables@[w]).name == old.variables@[w].name
            && new.variables@[w].declared_in == old.variables@[w].declared_in
    &&& old.frames@.len() <= new.frames@.len()
    &&& old.uses@.len() <= new.uses@.len()
    &&& forall|u: int| 0 <= u < old.uses@.len() ==> #[trigger] new.uses@[u] == old.uses@[u]
    &&& forall|f: int| 0 <= f < old.frames@.len() ==> old.frames@[f].declared_variables@.is_prefix_of(
        #[trigger] new.frames@[f].declared_variables@)
    &&& links_grow(*old, *new)
}

proof fn lemma_arena_grows_trans(a: &Annotations, b: &Annotations, c: &Annotations)
    requires
        arena_grows(a, b),
        arena_grows(b, c),
    ensures
        arena_grows(a, c),
{
    assert forall|f: int| 0 <= f < a.frames@.len() implies a.frames@[f].declared_variables@.is_prefix_of(
        #[trigger] c.frames@[f].declared_variables@) by {
        assert(a.frames@[f].declared_variables@.is_prefix_of(b.frames@[f].declared_variables@));
        assert(b.frames@[f].declared_variables@.is_prefix_of(c.frames@[f].declared_variables@));
    }
    assert forall|w: int| 0 <= w < a.variables@.len() implies (#[trigger] c.variables@[w]).name == a.variables@[w].name
        && c.variables@[w].declared_in == a.variables@[w].declared_in by {
        assert(b.variables@[w].name == a.variables@[w].name);
    }
    assert forall|u: int| 0 <= u < a.uses@.len() implies #[trigger] c.uses@[u] == a.uses@[u] by {
        assert(b.uses@[u] == a.uses@[u]);
    }
    lemma_links_grow_trans(*a, *b, *c);
}

/// The message of the error for a variable `name` that is not in scope.
fn not_found_message(names: &IdentifierTable, name: Identifier, suffix: &str) -> (m: String)
    requires
        names.has(name),
    ensures
        m@ == "Variable not found: $"@ + names@[name.index as int] + suffix@,
{
    let mut m = String::from_str("Variable not found: $");
    m.append(names.get_value(name));
    m.append(suffix);
    m
}

impl AnalyzeResolution {
    /// The names declared in the innermost scope, in order.
    pub closed spec fn current_scope_names(&self, ann: &Annotations) -> Seq<Identifier> {
        self.scopes@.last().declared_variables@.map_values(|v: usize| ann.variables@[v as int].name)
    }

    /// A walk over part of the program took the analysis from `self` to
    /// `after` and the arena from `ann` to `ann_after`: the frames and scopes
    /// it was in are as they were (but for uses added to the innermost scope),
    /// errors were only added, and the arena only grew.
    pub closed spec fn walked(&self, after: &Self, ann: &Annotations, ann_after: &Annotations) -> bool {
        &&& after.inv(ann_after)
        &&& after.frames@ == self.frames@
        &&& after.scopes@.len() == self.scopes@.len()
        &&& forall|s: int| 0 <= s < self.scopes@.len() - 1 ==> #[trigger] after.scopes@[s] == self.scopes@[s]
        &&& after.scopes@.last().declared_variables@ == self.scopes@.last().declared_variables@
        &&& self.errors@.is_prefix_of(after.errors@)
        &&& arena_grows(ann, ann_after)
    }

    #[verifier::spinoff_prover]
    fn read_variable(&mut self, ann: &mut Annotations, variable: usize)
        requires
            old(self).inv(old(ann)),
            old(self).is_open(),
            variable < old(ann).variables@.len(),
            old(self).frames@.contains(old(ann).variables@[variable as int].declared_in),
        ensures
            old(self).walked(final(self), old(ann), final(ann)),
            final(self).scopes@ == old(self).scopes@,
            final(self).errors@ == old(self).errors@,
            final(ann).variables@.len() == old(ann).variables@.len(),
            sees(*final(ann), old(self).frames@.last(), variable),
            old(self).frames@.last() == old(ann).variables@[variable as int].declared_in ==> {
                &&& final(ann).variables@[variable as int].reads@ == old(ann).variables@[variable as int].reads@.push(
                    ReadVariable { time: next_time(old(self).time) })
                &&& final(self).time == next_time(old(self).time)
                &&& final(ann).frames@ == old(ann).frames@
            },
            old(self).frames@.last() != old(ann).variables@[variable as int].declared_in
                ==> final(ann).variables@[variable as int].reads@ == old(ann).variables@[variable as int].reads@,
            final(ann).variables@[variable as int].writes@ == old(ann).variables@[variable as int].writes@,
            forall|w: int| 0 <= w < old(ann).variables@.len() && w != variable ==> final(ann).variables@[w] == old(ann).variables@[w],
    {
        let current = self.frames[self.frames.len() - 1];
        if current == ann.variables[variable].declared_in {
            let time = self.tick();
            ann.variables[variable].reads.push(ReadVariable { time });
        } else {
            self.bind_variable(ann, variable, false);
        }
        proof {
            assert forall|f: int| 0 <= f < old(ann).frames@.len() implies old(ann).frames@[f].declared_variables@.is_prefix_of(
                #[trigger] ann.frames@[f].declared_variables@) by {
                assert(ann.frames@[f].declared_variables@ == old(ann).frames@[f].declared_variables@);
            }
            assert forall|w: int| 0 <= w < old(ann).variables@.len() implies (#[trigger] ann.variables@[w]).name == old(ann).variables@[w].name
                && ann.variables@[w].declared_in == old(ann).variables@[w].declared_in by {
                if w != variable {
                    assert(ann.variables@[w] == old(ann).variables@[w]);
                }
            }
            assert forall|g: int| 0 <= g < old(ann).frames@.len() implies old(ann).frames@[g].functions@.is_prefix_of(
                #[trigger] ann.frames@[g].functions@) by {
                assert(ann.frames@[g].functions@ == old(ann).frames@[g].functions@);
            }
            assert forall|g: int, v: usize| 0 <= g < old(ann).frames@.len() && #[trigger] binds(old(ann).frames@[g], v)
                implies binds(ann.frames@[g], v) by {
                if current == old(ann).variables@[variable as int].declared_in {
                    assert(ann.frames@[g] == old(ann).frames@[g]);
                }
            }
            assert(links_grow(*old(ann), *ann));
        }
    }

    #[verifier::spinoff_prover]
    fn write_variable(&mut self, ann: &mut Annotations, variable: usize)
        requires
            old(self).inv(old(ann)),
            old(self).is_open(),
            variable < old(ann).variables@.len(),
            old(self).frames@.contains(old(ann).variables@[variable as int].declared_in),
        ensures
            old(self).walked(final(self), old(ann), final(ann)),
            final(self).scopes@ == old(self).scopes@,
            final(self).errors@ == old(self).errors@,
            sees(*final(ann), old(self).frames@.last(), variable),
            old(self).frames@.last() == old(ann).variables@[variable as int].declared_in ==> {
                &&& final(ann).variables@[variable as int].writes@ == old(ann).variables@[variable as int].writes@.push(
                    WriteVariable { time: next_time(old(self).time) })
                &&& final(self).time == next_time(old(self).time)
                &&& final(ann).frames@ == old(ann).frames@
            },
            old(self).frames@.last() != old(ann).variables@[variable as int].declared_in
                ==> final(ann).variables@[variable as int].writes@ == old(ann).variables@[variable as int].writes@,
            final(ann).variables@[variable as int].reads@ == old(ann).variables@[variable as int].reads@,
            forall|w: int| 0 <= w < old(ann).variables@.len() && w != variable ==> final(ann).variables@[w] == old(ann).variables@[w],
            old(self).frames@.last() != old(ann).variables@[variable as int].declared_in ==> forall|j: int|
                0 <= j < old(self).frames@.len() && old(self).frames@[j] > old(ann).variables@[variable as int].declared_in
                ==> binds_mutably(#[trigger] final(ann).frames@[old(self).frames@[j] as int], variable),
    {
        let current = self.frames[self.frames.len() - 1];
        if current == ann.variables[variable].declared_in {
            let time = self.tick();
            ann.variables[variable].writes.push(WriteVariable { time });
        } else {
            self.bind_variable(ann, variable, true);
        }
        proof {
            assert forall|f: int| 0 <= f < old(ann).frames@.len() implies old(ann).frames@[f].declared_variables@.is_prefix_of(
                #[trigger] ann.frames@[f].declared_variables@) by {
                assert(ann.frames@[f].declared_variables@ == old(ann).frames@[f].declared_variables@);
            }
            assert forall|w: int| 0 <= w < old(ann).variables@.len() implies (#[trigger] ann.variables@[w]).name == old(ann).variables@[w].name
                && ann.variables@[w].declared_in == old(ann).variables@[w].declared_in by {
                if w != variable {
                    assert(ann.variables@[w] == old(ann).variables@[w]);
                }
            }
            assert forall|g: int| 0 <= g < old(ann).frames@.len() implies old(ann).frames@[g].functions@.is_prefix_of(
                #[trigger] ann.frames@[g].functions@) by {
                assert(ann.frames@[g].functions@ == old(ann).frames@[g].functions@);
            }
            assert forall|g: int, v: usize| 0 <= g < old(ann).frames@.len() && #[trigger] binds(old(ann).frames@[g], v)
                implies binds(ann.frames@[g], v) by {
                if current == old(ann).variables@[variable as int].declared_in {
                    assert(ann.frames@[g] == old(ann).frames@[g]);
                }
            }
            assert(links_grow(*old(ann), *ann));
        }
    }
}

impl AnalyzeResolution {
    /// A linked expression of the current frame stays linked as the arena
    /// grows.
    proof fn lemma_expression_kept(&self, ann: &Annotations, later: &Annotations, e: Expression)
        requires
            self.inv(ann),
            self.is_open(),
            arena_grows(ann, later),
            expression_linked(e, *ann, self.frames@.last()),
        ensures
            expression_linked(e, *later, self.frames@.last()),
    {
        lemma_expression_linked_grows(e, *ann, *later, self.frames@.last());
    }

    /// A linked statement of the current frame stays linked as the arena
    /// grows.
    proof fn lemma_statement_kept(&self, ann: &Annotations, later: &Annotations, s: Statement)
        requires
            self.inv(ann),
            self.is_open(),
            arena_grows(ann, later),
            statement_linked(s, *ann, self.frames@.last()),
        ensures
            statement_linked(s, *later, self.frames@.last()),
    {
        lemma_statement_linked_grows(s, *ann, *later, self.frames@.last());
    }

    /// A block of linked statements of the current frame stays linked as the
    /// arena grows.
    proof fn lemma_block_kept(&self, ann: &Annotations, later: &Annotations, block: Seq<Statement>)
        requires
            self.inv(ann),
            self.is_open(),
            arena_grows(ann, later),
            forall|i: int| 0 <= i < block.len() ==> statement_linked(#[trigger] block[i], *ann, self.frames@.last()),
        ensures
            forall|i: int| 0 <= i < block.len() ==> statement_linked(#[trigger] block[i], *later, self.frames@.last()),
    {
        assert forall|i: int| 0 <= i < block.len() implies statement_linked(#[trigger] block[i], *later, self.frames@.last()) by {
            self.lemma_statement_kept(ann, later, block[i]);
        }
    }

    proof fn lemma_else_if_kept(&self, ann: &Annotations, later: &Annotations, clause: ElseIf)
        requires
            self.inv(ann),
            self.is_open(),
            arena_grows(ann, later),
            else_if_linked(clause, *ann, self.frames@.last()),
        ensures
            else_if_linked(clause, *later, self.frames@.last()),
    {
        self.lemma_expression_kept(ann, later, *clause.test);
        self.lemma_block_kept(ann, later, clause.block@);
    }

    proof fn lemma_catch_kept(&self, ann: &Annotations, later: &Annotations, clause: Catch)
        requires
            self.inv(ann),
            self.is_open(),
            arena_grows(ann, later),
            catch_linked(clause, *ann, self.frames@.last()),
        ensures
            catch_linked(clause, *later, self.frames@.last()),
    {
        match clause.type_ {
            Some(t) => {
                self.lemma_expression_kept(ann, later, *t);
            },
            None => {},
        }
        self.lemma_block_kept(ann, later, clause.block@);
    }
}

proof fn lemma_innermost_in_scope(scopes: Seq<Seq<usize>>, name_of: spec_fn(usize) -> Identifier, name: Identifier)
    ensures
        innermost_named(scopes, name_of, name) matches Some(v) ==> exists|s: int, k: int|
            0 <= s < scopes.len() && 0 <= k < scopes[s].len() && #[trigger] scopes[s][k] == v,
    decreases scopes.len(),
{
    if scopes.len() > 0 {
        lemma_first_named_found(scopes.last(), name_of, name);
        lemma_innermost_in_scope(scopes.drop_last(), name_of, name);
        if let Some(v) = innermost_named(scopes, name_of, name) {
            if first_named(scopes.last(), name_of, name) is Some {
                let k = choose|k: int| 0 <= k < scopes.last().len() && scopes.last()[k] == v;
                assert(scopes[scopes.len() - 1][k] == v);
            } else {
                let (s, k) = choose|s: int, k: int|
                    0 <= s < scopes.drop_last().len() && 0 <= k < scopes.drop_last()[s].len() && #[trigger] scopes.drop_last()[s][k] == v;
                assert(scopes[s][k] == v);
            }
        }
    }
}

impl AnalyzeResolution {
    /// The declarations in each open scope, named as in `ann`, innermost last.
    #[verifier::opaque]
    pub closed spec fn scope_declarations(&self, ann: &Annotations) -> Seq<Seq<Declaration>> {
        self.scope_variables().map_values(|ids: Seq<usize>| declarations_of(ids, variable_name(ann)))
    }

    /// There is one list of declarations for each open scope.
    proof fn lemma_scope_declarations_len(&self, ann: &Annotations)
        ensures
            self.scope_declarations(ann).len() == self.scopes@.len(),
    {
        reveal(AnalyzeResolution::scope_declarations);
    }

    /// Opening a scope opens one with no declarations.
    proof fn lemma_pushed_scope(&self, after: &Self, ann: &Annotations)
        requires
            after.scopes@.len() == self.scopes@.len() + 1,
            forall|s: int| 0 <= s < self.scopes@.len() ==> #[trigger] after.scopes@[s] == self.scopes@[s],
            after.scopes@.last().declared_variables@.len() == 0,
        ensures
            after.scope_declarations(ann) == self.scope_declarations(ann).push(Seq::empty()),
    {
        reveal(AnalyzeResolution::scope_declarations);
        assert(after.scopes@.last().declared_variables@ =~= Seq::<usize>::empty());
        assert(declarations_of(Seq::<usize>::empty(), variable_name(ann)) =~= Seq::<Declaration>::empty());
        assert(after.scope_declarations(ann) =~= self.scope_declarations(ann).push(Seq::empty()));
    }

    /// With one open scope, the declarations in scope are its variables.
    proof fn lemma_one_scope(&self, ann: &Annotations)
        requires
            self.scopes@.len() == 1,
        ensures
            self.scope_declarations(ann) == seq![declarations_of(self.scopes@[0].declared_variables@, variable_name(ann))],
    {
        reveal(AnalyzeResolution::scope_declarations);
        assert(self.scope_declarations(ann) =~= seq![declarations_of(self.scopes@[0].declared_variables@, variable_name(ann))]);
    }

    /// The variable that `name` refers to in the scopes of the analysis.
    proof fn lemma_lookup_here(&self, ann: &Annotations, name: Identifier)
        ensures
            innermost_named(self.scope_variables(), variable_name(ann), name) == lookup(self.scope_declarations(ann), name),
    {
        reveal(AnalyzeResolution::scope_declarations);
        lemma_lookup(self.scope_variables(), variable_name(ann), name);
    }

    /// Declaring variable `v`, named `name`, in the innermost scope adds its
    /// declaration there.
    proof fn lemma_declare_extends(&self, after: &Self, ann: &Annotations, ann_after: &Annotations, v: usize, name: Identifier)
        requires
            self.inv(ann),
            self.scopes@.len() >= 1,
            after.scopes@.len() == self.scopes@.len(),
            forall|s: int| 0 <= s < self.scopes@.len() - 1 ==> #[trigger] after.scopes@[s] == self.scopes@[s],
            after.scopes@.last().declared_variables@ == self.scopes@.last().declared_variables@.push(v),
            arena_grows(ann, ann_after),
            v < ann_after.variables@.len(),
            ann_after.variables@[v as int].name == name,
        ensures
            after.scope_declarations(ann_after) == self.scope_declarations(ann).drop_last().push(
                self.scope_declarations(ann).last().push((v, name)),
            ),
    {
        reveal(AnalyzeResolution::scope_declarations);
        let n = self.scopes@.len();
        assert forall|s: int| 0 <= s < n implies #[trigger] after.scope_declarations(ann_after)[s]
            == self.scope_declarations(ann).drop_last().push(self.scope_declarations(ann).last().push((v, name)))[s] by {
            let ids = self.scopes@[s].declared_variables@;
            assert forall|k: int| 0 <= k < ids.len() implies
                #[trigger] ann_after.variables@[ids[k] as int].name == ann.variables@[ids[k] as int].name by {
                assert(ids[k] < ann.variables@.len());
            }
            if s < n - 1 {
                assert(after.scopes@[s] == self.scopes@[s]);
                assert(declarations_of(ids, variable_name(ann)) =~= declarations_of(ids, variable_name(ann_after)));
            } else {
                assert(declarations_of(ids.push(v), variable_name(ann_after)) =~= declarations_of(ids, variable_name(ann)).push((v, name)));
            }
        }
        assert(after.scope_declarations(ann_after) =~= self.scope_declarations(ann).drop_last().push(
            self.scope_declarations(ann).last().push((v, name))));
    }

    /// A walk leaves the declarations in scope as they were.
    proof fn lemma_walked_trans(&self, mid: &Self, after: &Self, ann: &Annotations, ann_mid: &Annotations, ann_after: &Annotations)
        requires
            self.walked(mid, ann, ann_mid),
            mid.walked(after, ann_mid, ann_after),
        ensures
            self.walked(after, ann, ann_after),
    {
        lemma_arena_grows_trans(ann, ann_mid, ann_after);
        assert forall|s: int| 0 <= s < self.scopes@.len() - 1 implies #[trigger] after.scopes@[s] == self.scopes@[s] by {
            assert(mid.scopes@[s] == self.scopes@[s]);
        }
    }

    proof fn lemma_walked_declarations(&self, after: &Self, ann: &Annotations, ann_after: &Annotations)
        requires
            self.inv(ann),
            self.walked(after, ann, ann_after),
        ensures
            self.scope_declarations(ann) == after.scope_declarations(ann_after),
            self.scope_variables() == after.scope_variables(),
    {
        self.lemma_same_scopes_declarations(after, ann, ann_after);
    }

    /// With the same variables in scope, and the arena only grown, the
    /// declarations in scope are the same.
    proof fn lemma_same_scopes_declarations(&self, after: &Self, ann: &Annotations, ann_after: &Annotations)
        requires
            self.inv(ann),
            after.scopes@.len() == self.scopes@.len(),
            forall|s: int| 0 <= s < self.scopes@.len() - 1 ==> #[trigger] after.scopes@[s] == self.scopes@[s],
            self.scopes@.len() > 0 ==> after.scopes@.last().declared_variables@ == self.scopes@.last().declared_variables@,
            arena_grows(ann, ann_after),
        ensures
            self.scope_declarations(ann) == after.scope_declarations(ann_after),
            self.scope_variables() == after.scope_variables(),
    {
        reveal(AnalyzeResolution::scope_declarations);
        assert forall|s: int| 0 <= s < self.scopes@.len() implies
            #[trigger] after.scopes@[s].declared_variables@ == self.scopes@[s].declared_variables@ by {
            if s < self.scopes@.len() - 1 {
                assert(after.scopes@[s] == self.scopes@[s]);
            }
        }
        assert(self.scope_variables() =~= after.scope_variables());
        assert forall|s: int| 0 <= s < self.scopes@.len() implies
            #[trigger] self.scope_declarations(ann)[s] == after.scope_declarations(ann_after)[s] by {
            let ids = self.scopes@[s].declared_variables@;
            assert forall|k: int| 0 <= k < ids.len() implies
                #[trigger] ann_after.variables@[ids[k] as int].name == ann.variables@[ids[k] as int].name by {
                assert(ids[k] < ann.variables@.len());
            }
            assert(declarations_of(ids, variable_name(ann)) =~= declarations_of(ids, variable_name(ann_after)));
        }
        assert(self.scope_declarations(ann) =~= after.scope_declarations(ann_after));
    }
}

impl AnalyzeResolution {
    /// A variable found by name is in scope, so it exists and its declaring
    /// frame is on the stack.
    proof fn lemma_found_in_scope(&self, ann: &Annotations, name: Identifier)
        requires
            self.inv(ann),
        ensures
            innermost_named(self.scope_variables(), variable_name(ann), name) matches Some(v) ==>
                v < ann.variables@.len() && self.frames@.contains(ann.variables@[v as int].declared_in),
    {
        lemma_innermost_in_scope(self.scope_variables(), variable_name(ann), name);
        if let Some(v) = innermost_named(self.scope_variables(), variable_name(ann), name) {
            let (s, k) = choose|s: int, k: int|
                0 <= s < self.scope_variables().len() && 0 <= k < self.scope_variables()[s].len()
                    && #[trigger] self.scope_variables()[s][k] == v;
            assert(self.scopes@[s].declared_variables@[k] == v);
        }
    }

    /// What reading the variable named `name`, at `offset`, did: when no
    /// declaration of it is in scope, one "Variable not found" error was added
    /// and nothing else changed; else the use names the innermost declaration
    /// `v`, no error was added, and the use was recorded: as a read at the next
    /// time when `v` belongs to the current frame, else as a binding of `v` by
    /// the current frame's closure. No other variable changed.
    pub closed spec fn variable_read(&self, after: &Self, ann: &Annotations, ann_after: &Annotations,
        names: Seq<Seq<char>>, name: Identifier, offset: usize, annotation: usize) -> bool {
        if lookup(self.scope_declarations(ann), name) is None {
            &&& after.errors@.len() == self.errors@.len() + 1
            &&& after.errors@.drop_last() == self.errors@
            &&& after.errors@.last().message@ == "Variable not found: $"@ + names[name.index as int]
            &&& after.errors@.last().source_offset == offset
            &&& *ann_after == *ann
            &&& after.time == self.time
        } else {
            let v = lookup(self.scope_declarations(ann), name)->Some_0;
            &&& after.errors@ == self.errors@
            &&& annotation == v
            &&& v < ann.variables@.len()
            &&& ann_after.variables@.len() == ann.variables@.len()
            &&& forall|w: int| 0 <= w < ann.variables@.len() && w != v
                ==> #[trigger] ann_after.variables@[w] == ann.variables@[w]
            &&& ann_after.variables@[v as int].writes@ == ann.variables@[v as int].writes@
            &&& if self.frames@.last() == ann.variables@[v as int].declared_in {
                &&& ann_after.variables@[v as int].reads@ == ann.variables@[v as int].reads@.push(
                    ReadVariable { time: next_time(self.time) })
                &&& after.time == next_time(self.time)
                &&& ann_after.frames@ == ann.frames@
            } else {
                &&& ann_after.variables@[v as int].reads@ == ann.variables@[v as int].reads@
                &&& binds(ann_after.frames@[self.frames@.last() as int], v)
            }
        }
    }

    #[verifier::spinoff_prover]
    #[verifier::rlimit(100)]
    fn analyze_variable(&mut self, ann: &mut Annotations, names: &IdentifierTable, name: Identifier,
        annotation: &mut usize, source_offset: usize)
        requires
            old(self).inv(old(ann)),
            old(self).is_open(),
            name.index < names@.len(),
        ensures
            old(self).walked(final(self), old(ann), final(ann)),
            final(self).scopes@ == old(self).scopes@,
            old(self).variable_read(final(self), old(ann), final(ann), names@, name, source_offset, *final(annotation)),
            lookup(old(self).scope_declarations(old(ann)), name) is Some ==> *final(annotation)
                == lookup(old(self).scope_declarations(old(ann)), name)->Some_0,
            lookup(old(self).scope_declarations(old(ann)), name) is Some ==> final(self).errors@ == old(self).errors@,
            lookup(old(self).scope_declarations(old(ann)), name) is None ==> final(self).errors@.len() > old(self).errors@.len(),
            reported(old(self).errors@, final(self).errors@, names@,
                use_unresolved(scope_names(old(self).scope_declarations(old(ann))), name, source_offset, false)),
    {
        proof {
            self.lemma_found_in_scope(ann, name);
            self.lemma_lookup_here(ann, name);
            lemma_lookup_visible(self.scope_declarations(ann), name);
            lemma_reported_none(self.errors@, names@);
        }
        match self.find_variable(ann, name) {
            Ok(variable) => {
                *annotation = variable;
                self.read_variable(ann, variable);
                proof {
                    let top = old(self).frames@.last();
                    assert(ann.variables@[variable as int].declared_in == old(ann).variables@[variable as int].declared_in);
                    if top != old(ann).variables@[variable as int].declared_in {
                        assert(binds(ann.frames@[top as int], variable));
                    }
                }
            },
            Err(()) => {
                let message = not_found_message(names, name, "");
                proof {
                    reveal_strlit("");
                    assert(message@ =~= "Variable not found: $"@ + names@[name.index as int]);
                }
                self.errors.push(AnalysisError { message, source_offset });
                proof {
                    assert(self.errors@.drop_last() == old(self).errors@);
                    let u: Unresolved = (name, source_offset, false);
                    assert("Variable not found: $"@ + names@[name.index as int] + ""@
                        =~= "Variable not found: $"@ + names@[name.index as int]);
                    lemma_reported_one(old(self).errors@, self.errors@.last(), names@, u);
                    assert(old(self).errors@.push(self.errors@.last()) =~= self.errors@);
                }
            },
        }
    }

    #[verifier::spinoff_prover]
    #[verifier::rlimit(100)]
    fn analyze_expression(&mut self, ann: &mut Annotations, names: &IdentifierTable, expression: &mut Expression)
        requires
            old(self).inv(old(ann)),
            old(self).is_open(),
            expression_resolvable(*old(expression), names@.len()),
        ensures
            old(self).walked(final(self), old(ann), final(ann)),
            final(self).scopes@ == old(self).scopes@,
            expression_resolved(*final(expression), old(self).scope_declarations(old(ann))),
            expression_no_while_else(*old(expression)) && final(self).errors@.len() == old(self).errors@.len()
                ==> expression_linked(*final(expression), *final(ann), old(self).frames@.last()),
            *old(expression) matches Expression::Variable { name, source_offset, .. }
                ==> old(self).variable_read(final(self), old(ann), final(ann), names@, name, source_offset,
                    final(expression)->Variable_annotation),
            reported(old(self).errors@, final(self).errors@, names@,
                expression_unresolved(*old(expression), scope_names(old(self).scope_declarations(old(ann))))),
        decreases *old(expression), 1nat,
    {
        let ghost env = scope_names(self.scope_declarations(ann));
        proof {
            lemma_reported_none(self.errors@, names@);
            lemma_expression_unresolved(*expression, env);
        }
        match expression {
            Expression::Variable { name, annotation, source_offset } => {
                self.analyze_variable(ann, names, *name, annotation, *source_offset);
            },
            Expression::Name { identifier, annotation } => {
                annotation.resolution = self.find_name(ann, *identifier);
            },
            Expression::ItemAccess { .. } | Expression::Binary { .. } => {
                self.analyze_pair(ann, names, expression);
            },
            Expression::DotAccess { expression: accessed, .. } => {
                self.analyze_expression(ann, names, &mut **accessed);
            },
            Expression::Call { .. } => {
                self.analyze_call(ann, names, expression);
            },
            Expression::Not { expression: negated } => {
                self.analyze_expression(ann, names, &mut **negated);
            },
            Expression::Function { .. } => {
                self.analyze_function(ann, names, expression);
            },
            _ => {},
        }
    }

    /// Analyses the two operands of an item access or of a binary operation,
    /// the first one first.
    #[verifier::spinoff_prover]
    #[verifier::rlimit(60)]
    fn analyze_pair(&mut self, ann: &mut Annotations, names: &IdentifierTable, expression: &mut Expression)
        requires
            old(self).inv(old(ann)),
            old(self).is_open(),
            *old(expression) is ItemAccess || *old(expression) is Binary,
            expression_resolvable(*old(expression), names@.len()),
        ensures
            old(self).walked(final(self), old(ann), final(ann)),
            final(self).scopes@ == old(self).scopes@,
            expression_resolved(*final(expression), old(self).scope_declarations(old(ann))),
            expression_no_while_else(*old(expression)) && final(self).errors@.len() == old(self).errors@.len()
                ==> expression_linked(*final(expression), *final(ann), old(self).frames@.last()),
            reported(old(self).errors@, final(self).errors@, names@,
                expression_unresolved(*old(expression), scope_names(old(self).scope_declarations(old(ann))))),
        decreases *old(expression), 0nat,
    {
        let ghost s0 = *self;
        let ghost a0 = *ann;
        let ghost env = scope_names(self.scope_declarations(ann));
        proof {
            lemma_expression_unresolved(*expression, env);
        }
        let (first, second) = match expression {
            Expression::ItemAccess { expression: accessed, key_expression } => (accessed, key_expression),
            Expression::Binary { left, right, .. } => (left, right),
            _ => {
                return;
            },
        };
        let ghost u1 = expression_unresolved(**first, env);
        let ghost u2 = expression_unresolved(**second, env);
        self.analyze_expression(ann, names, &mut **first);
        let ghost s1 = *self;
        let ghost a1 = *ann;
        self.analyze_expression(ann, names, &mut **second);
        proof {
            s0.lemma_walked_declarations(&s1, &a0, &a1);
            lemma_reported_then(s0.errors@, s1.errors@, self.errors@, names@, u1, u2);
            if expression_no_while_else(*old(expression)) && self.errors@.len() == s0.errors@.len() {
                assert(s1.errors@.len() == s0.errors@.len());
                s1.lemma_expression_kept(&a1, ann, **first);
            }
        }
    }

    /// Analyses a call: the called expression, then the arguments in order.
    #[verifier::spinoff_prover]
    #[verifier::rlimit(100)]
    fn analyze_call(&mut self, ann: &mut Annotations, names: &IdentifierTable, expression: &mut Expression)
        requires
            old(self).inv(old(ann)),
            old(self).is_open(),
            *old(expression) is Call,
            expression_resolvable(*old(expression), names@.len()),
        ensures
            old(self).walked(final(self), old(ann), final(ann)),
            final(self).scopes@ == old(self).scopes@,
            expression_resolved(*final(expression), old(self).scope_declarations(old(ann))),
            expression_no_while_else(*old(expression)) && final(self).errors@.len() == old(self).errors@.len()
                ==> expression_linked(*final(expression), *final(ann), old(self).frames@.last()),
            reported(old(self).errors@, final(self).errors@, names@,
                expression_unresolved(*old(expression), scope_names(old(self).scope_declarations(old(ann))))),
        decreases *old(expression), 0nat,
    {
        let ghost s0 = *self;
        let ghost a0 = *ann;
        let ghost d = self.scope_declarations(ann);
        let ghost g = self.frames@.last();
        let ghost env = scope_names(d);
        proof {
            lemma_expression_unresolved(*expression, env);
        }
        let (called, arguments) = match expression {
            Expression::Call { expression: called, arguments } => (called, arguments),
            _ => {
                return;
            },
        };
        self.analyze_expression(ann, names, &mut **called);
        let ghost s1 = *self;
        let ghost a1 = *ann;
        let ghost old_arguments = *arguments;
        let ghost uc = expression_unresolved(*old(expression)->Call_expression, env);
        proof {
            lemma_arguments_all(old_arguments@, env);
            assert(uc + Seq::<Unresolved>::empty() =~= uc);
        }
        let mut i: usize = 0;
        while i < arguments.len()
            invariant
                i <= arguments@.len(),
                old(self).walked(self, old(ann), ann),
                self.scopes@ == old(self).scopes@,
                self.is_open(),
                *old(expression) is Call,
                old_arguments == old(expression)->Call_arguments,
                arguments@.len() == old_arguments@.len(),
                forall|j: int| i <= j < arguments@.len() ==> arguments@[j] == old_arguments@[j],
                forall|j: int| 0 <= j < old_arguments@.len() ==> expression_resolvable(#[trigger] old_arguments@[j], names@.len()),
                old(self).inv(old(ann)),
                d == old(self).scope_declarations(old(ann)),
                forall|j: int| 0 <= j < i ==> expression_resolved(#[trigger] arguments@[j], d),
                s1.walked(self, &a1, ann),
                s1.frames@ == s0.frames@,
                g == s0.frames@.last(),
                s0.errors@.is_prefix_of(s1.errors@),
                env == scope_names(d),
                uc == expression_unresolved(*old(expression)->Call_expression, env),
                reported(s0.errors@, self.errors@, names@, uc + arguments_unresolved(old_arguments@.take(i as int), env)),
                expression_no_while_else(*old(expression)) && self.errors@.len() == s0.errors@.len() ==> {
                    &&& expression_linked(**called, *ann, g)
                    &&& forall|j: int| 0 <= j < i ==> expression_linked(#[trigger] arguments@[j], *ann, g)
                },
            decreases arguments@.len() - i,
        {
            proof {
                assert(decreases_to!(*old(expression) => old(expression)->Call_arguments));
                assert(decreases_to!(old_arguments => old_arguments@));
                assert(decreases_to!(old_arguments@ => old_arguments@[i as int]));
            }
            let ghost before = *self;
            let ghost before_ann = *ann;
            proof {
                old(self).lemma_walked_declarations(&before, old(ann), &before_ann);
            }
            self.analyze_expression(ann, names, &mut arguments[i]);
            proof {
                lemma_reported_then(s0.errors@, before.errors@, self.errors@, names@,
                    uc + arguments_unresolved(old_arguments@.take(i as int), env),
                    expression_unresolved(old_arguments@[i as int], env));
                lemma_arguments_step(old_arguments@, env, i as int);
                assert(uc + arguments_unresolved(old_arguments@.take(i as int), env)
                    + expression_unresolved(old_arguments@[i as int], env)
                    =~= uc + arguments_unresolved(old_arguments@.take(i + 1), env));
                assert(s1.walked(self, &a1, ann)) by {
                    s1.lemma_walked_trans(&before, self, &a1, &before_ann, ann);
                }
                if expression_no_while_else(*old(expression)) && self.errors@.len() == s0.errors@.len() {
                    assert(before.errors@.len() == s0.errors@.len());
                    assert(expression_no_while_else(old_arguments@[i as int]));
                    before.lemma_expression_kept(&before_ann, ann, **called);
                    assert forall|j: int| 0 <= j < i implies expression_linked(#[trigger] arguments@[j], *ann, g) by {
                        before.lemma_expression_kept(&before_ann, ann, arguments@[j]);
                    }
                }
            }
            i += 1;
        }
        proof {
            lemma_arguments_all(old_arguments@, env);
        }
    }
}

impl AnalyzeResolution {
    /// Adding the frame `f` of a function found in the current frame keeps the
    /// analysis consistent with the arena.
    #[verifier::spinoff_prover]
    proof fn lemma_function_frame_added(&self, old_ann: &Annotations, new_ann: &Annotations, f: usize)
        requires
            self.inv(old_ann),
            self.is_open(),
            f == old_ann.frames@.len(),
            new_ann.frames@.len() == f + 1,
            new_ann.variables@ == old_ann.variables@,
            new_ann.uses@ == old_ann.uses@,
            new_ann.frames@[f as int].declared_variables@.len() == 0,
            new_ann.frames@[f as int].functions@.len() == 0,
            new_ann.frames@[f as int].closure matches Some(c) && c.bindings@.len() == 0,
            forall|g: int| 0 <= g < f && g != self.frames@.last() ==> #[trigger] new_ann.frames@[g] == old_ann.frames@[g],
            new_ann.frames@[self.frames@.last() as int].declared_variables@ == old_ann.frames@[self.frames@.last() as int].declared_variables@,
            new_ann.frames@[self.frames@.last() as int].closure == old_ann.frames@[self.frames@.last() as int].closure,
            new_ann.frames@[self.frames@.last() as int].functions@ == old_ann.frames@[self.frames@.last() as int].functions@.push(f),
        ensures
            self.inv(new_ann),
            arena_grows(old_ann, new_ann),
    {
        let cur = self.frames@.last();
        assert(cur < f);
        assert forall|g: int, k: int|
            0 <= g < new_ann.frames@.len() && 0 <= k < new_ann.frames@[g].declared_variables@.len() implies
                #[trigger] new_ann.frames@[g].declared_variables@[k] < new_ann.variables@.len() by {
            if g != f && g != cur {
                assert(new_ann.frames@[g] == old_ann.frames@[g]);
            }
        }
        assert forall|g: int, k: int|
            0 <= g < new_ann.frames@.len() && 0 <= k < new_ann.frames@[g].functions@.len() implies g
                < #[trigger] new_ann.frames@[g].functions@[k] < new_ann.frames@.len() by {
            if g != f && g != cur {
                assert(new_ann.frames@[g] == old_ann.frames@[g]);
            }
            if g == cur && k < old_ann.frames@[g].functions@.len() {
                assert(new_ann.frames@[g].functions@[k] == old_ann.frames@[g].functions@[k]);
            }
        }
        assert forall|g: int, k: int|
            0 <= g < new_ann.frames@.len() && new_ann.frames@[g].closure is Some && 0 <= k
                < new_ann.frames@[g].closure->Some_0.bindings@.len() implies
                #[trigger] new_ann.frames@[g].closure->Some_0.bindings@[k].variable < new_ann.variables@.len() by {
            if g == f {
                assert(new_ann.frames@[g].closure->Some_0.bindings@.len() == 0);
            } else if g == cur {
                assert(new_ann.frames@[g].closure == old_ann.frames@[g].closure);
                assert(old_ann.frames@[g].closure->Some_0.bindings@[k].variable < old_ann.variables@.len());
            } else {
                assert(new_ann.frames@[g] == old_ann.frames@[g]);
                assert(old_ann.frames@[g].closure->Some_0.bindings@[k].variable < old_ann.variables@.len());
            }
        }
        assert forall|k: int| 1 <= k < self.frames@.len() implies (#[trigger] new_ann.frames@[self.frames@[k] as int]).closure is Some by {
            let g = self.frames@[k] as int;
            if g != cur {
                assert(new_ann.frames@[g] == old_ann.frames@[g]);
            }
        }
    }
}

/// Statement `statement`, if it is a `let`, declares variable `v`: one that
/// exists and whose declaring frame is one of `frames`.
pub open spec fn let_declared(statement: Statement, v: usize, ann: &Annotations, frames: Seq<usize>) -> bool {
    statement is Let ==> v < ann.variables@.len() && frames.contains(ann.variables@[v as int].declared_in)
}

impl AnalyzeResolution {
    /// Declares the variable of a `let` statement in the current scope.
    fn find_declarations_in_statement(&mut self, ann: &mut Annotations, statement: &Statement) -> (r: Option<usize>)
        requires
            old(self).inv(old(ann)),
            old(self).is_open(),
        ensures
            final(self).inv(final(ann)),
            final(self).frames@ == old(self).frames@,
            final(self).scopes@.len() == old(self).scopes@.len(),
            forall|s: int| 0 <= s < old(self).scopes@.len() - 1 ==> #[trigger] final(self).scopes@[s] == old(self).scopes@[s],
            final(self).scopes@.last().used@ == old(self).scopes@.last().used@,
            final(self).errors@ == old(self).errors@,
            arena_grows(old(ann), final(ann)),
            (*statement is Let) == (r is Some),
            r matches Some(v) ==> {
                &&& v == old(ann).variables@.len()
                &&& v < final(ann).variables@.len()
                &&& final(self).scopes@.last().declared_variables@ == old(self).scopes@.last().declared_variables@.push(v)
                &&& final(ann).variables@[v as int].name == statement->Let_variable_name
                &&& final(ann).variables@[v as int].declared_in == old(self).frames@.last()
                &&& final(ann).frames@[old(self).frames@.last() as int].declared_variables@
                    == old(ann).frames@[old(self).frames@.last() as int].declared_variables@.push(v)
            },
            r is None ==> final(self).scopes@.last().declared_variables@ == old(self).scopes@.last().declared_variables@
                && *final(ann) == *old(ann),
    {
        match statement {
            Statement::Let { variable_name, .. } => {
                Some(self.declare_variable(ann, *variable_name))
            },
            _ => None,
        }
    }

    /// Declares the variables of the `let` statements of `block`, in order, in
    /// the current scope; gives, for each statement that is a `let`, the
    /// variable it declares (and 0 for the others).
    fn find_declarations_in_block(&mut self, ann: &mut Annotations, block: &Vec<Statement>) -> (declared: Vec<usize>)
        requires
            old(self).inv(old(ann)),
            old(self).is_open(),
            no_double_declaration(block@, old(self).current_scope_names(old(ann))),
        ensures
            final(self).inv(final(ann)),
            final(self).frames@ == old(self).frames@,
            final(self).scopes@.len() == old(self).scopes@.len(),
            forall|s: int| 0 <= s < old(self).scopes@.len() - 1 ==> #[trigger] final(self).scopes@[s] == old(self).scopes@[s],
            final(self).scopes@.last().used@ == old(self).scopes@.last().used@,
            old(self).scopes@.last().declared_variables@.is_prefix_of(final(self).scopes@.last().declared_variables@),
            forall|k: int| old(self).scopes@.last().declared_variables@.len() <= k < final(self).scopes@.last().declared_variables@.len()
                ==> final(ann).variables@[#[trigger] final(self).scopes@.last().declared_variables@[k] as int].declared_in == old(self).frames@.last(),
            final(self).errors@ == old(self).errors@,
            arena_grows(old(ann), final(ann)),
            declared@.len() == block@.len(),
            forall|i: int| 0 <= i < block@.len() ==> let_declared(#[trigger] block@[i], declared@[i], final(ann), old(self).frames@),
            final(self).current_scope_names(final(ann)) == old(self).current_scope_names(old(ann)) + let_names(block@),
            final(self).scope_declarations(final(ann)) == old(self).scope_declarations(old(ann)).drop_last().push(
                old(self).scope_declarations(old(ann)).last() + declared_lets(block@, declared@)),
            final(ann).frames@[old(self).frames@.last() as int].declared_variables@
                == old(ann).frames@[old(self).frames@.last() as int].declared_variables@
                + final(self).scopes@.last().declared_variables@.skip(old(self).scopes@.last().declared_variables@.len() as int),
    {
        let mut declared: Vec<usize> = Vec::new();
        let ghost start = old(self).scope_declarations(old(ann));
        proof {
            old(self).lemma_scope_declarations_len(old(ann));
            assert(block@.take(0) =~= Seq::<Statement>::empty());
            assert(self.current_scope_names(ann) =~= old(self).current_scope_names(old(ann)) + let_names(block@.take(0)));
            assert(start.last() + declared_lets(block@.take(0), declared@) =~= start.last());
            assert(start.drop_last().push(start.last()) =~= start);
            assert(old(ann).frames@[old(self).frames@.last() as int].declared_variables@
                + self.scopes@.last().declared_variables@.skip(old(self).scopes@.last().declared_variables@.len() as int)
                =~= old(ann).frames@[old(self).frames@.last() as int].declared_variables@);
        }
        let mut i: usize = 0;
        while i < block.len()
            invariant
                self.inv(ann),
                self.is_open(),
                self.frames@ == old(self).frames@,
                self.scopes@.len() == old(self).scopes@.len(),
                forall|s: int| 0 <= s < old(self).scopes@.len() - 1 ==> #[trigger] self.scopes@[s] == old(self).scopes@[s],
                self.scopes@.last().used@ == old(self).scopes@.last().used@,
                old(self).scopes@.last().declared_variables@.is_prefix_of(self.scopes@.last().declared_variables@),
                forall|k: int| old(self).scopes@.last().declared_variables@.len() <= k < self.scopes@.last().declared_variables@.len()
                    ==> ann.variables@[#[trigger] self.scopes@.last().declared_variables@[k] as int].declared_in == old(self).frames@.last(),
                self.errors@ == old(self).errors@,
                arena_grows(old(ann), ann),
                i <= block@.len(),
                declared@.len() == i,
                forall|j: int| 0 <= j < i ==> let_declared(#[trigger] block@[j], declared@[j], ann, old(self).frames@),
                self.current_scope_names(ann) == old(self).current_scope_names(old(ann)) + let_names(block@.take(i as int)),
                start == old(self).scope_declarations(old(ann)),
                self.scope_declarations(ann) == start.drop_last().push(start.last() + declared_lets(block@.take(i as int), declared@)),
                ann.frames@[old(self).frames@.last() as int].declared_variables@
                    == old(ann).frames@[old(self).frames@.last() as int].declared_variables@
                    + self.scopes@.last().declared_variables@.skip(old(self).scopes@.last().declared_variables@.len() as int),
            decreases block@.len() - i,
        {
            let ghost before_self = *self;
            let ghost before_ann = *ann;
            let ghost before_declared = declared@;
            let r = self.find_declarations_in_statement(ann, &block[i]);
            proof {
                let top = old(self).frames@.last() as int;
                let n0 = old(self).scopes@.last().declared_variables@.len() as int;
                if r is Some {
                    assert(self.scopes@.last().declared_variables@.skip(n0)
                        =~= before_self.scopes@.last().declared_variables@.skip(n0).push(r->Some_0));
                    assert(ann.frames@[top].declared_variables@ =~= old(ann).frames@[top].declared_variables@
                        + self.scopes@.last().declared_variables@.skip(n0));
                }
            }
            match r {
                Some(v) => declared.push(v),
                None => declared.push(0),
            }
            proof {
                assert forall|k: int| old(self).scopes@.last().declared_variables@.len() <= k < self.scopes@.last().declared_variables@.len()
                    implies ann.variables@[#[trigger] self.scopes@.last().declared_variables@[k] as int].declared_in == old(self).frames@.last() by {
                    if k < before_self.scopes@.last().declared_variables@.len() {
                        assert(self.scopes@.last().declared_variables@[k] == before_self.scopes@.last().declared_variables@[k]);
                        assert(before_ann.variables@[self.scopes@.last().declared_variables@[k] as int].declared_in == old(self).frames@.last());
                    }
                }
                assert(old(self).scopes@.last().declared_variables@.is_prefix_of(self.scopes@.last().declared_variables@));
                assert forall|j: int| 0 <= j <= i implies let_declared(#[trigger] block@[j], declared@[j], ann, old(self).frames@) by {
                    if j < i {
                        assert(declared@[j] == before_declared[j]);
                        assert(let_declared(block@[j], before_declared[j], &before_ann, old(self).frames@));
                        if block@[j] is Let {
                            assert(ann.variables@[declared@[j] as int].declared_in
                                == before_ann.variables@[declared@[j] as int].declared_in);
                        }
                    } else if block@[j] is Let {
                        assert(old(self).frames@.contains(old(self).frames@.last()));
                    }
                }
                let s_before = before_self.scopes@.last().declared_variables@;
                let s_after = self.scopes@.last().declared_variables@;
                assert(block@.take(i + 1).drop_last() =~= block@.take(i as int));
                assert(block@.take(i + 1).last() == block@[i as int]);
                assert forall|k: int| 0 <= k < s_before.len() implies
                    ann.variables@[#[trigger] s_before[k] as int].name == before_ann.variables@[s_before[k] as int].name by {
                    assert(s_before[k] < before_ann.variables@.len());
                }
                if block@[i as int] is Let {
                    assert(self.current_scope_names(ann) =~= before_self.current_scope_names(&before_ann).push(block@[i as int]->Let_variable_name));
                } else {
                    assert(self.current_scope_names(ann) =~= before_self.current_scope_names(&before_ann));
                }
                lemma_declared_lets_step(block@, declared@, i as int);
                lemma_declared_lets_prefix(block@.take(i as int), before_declared, declared@);
                if block@[i as int] is Let {
                    let v = declared@[i as int];
                    before_self.lemma_declare_extends(self, &before_ann, ann, v, block@[i as int]->Let_variable_name);
                    assert(start.last() + declared_lets(block@.take(i + 1), declared@)
                        =~= (start.last() + declared_lets(block@.take(i as int), before_declared)).push((v, block@[i as int]->Let_variable_name)));
                    assert(self.scope_declarations(ann) =~= start.drop_last().push(start.last() + declared_lets(block@.take(i + 1), declared@)));
                } else {
                    before_self.lemma_same_scopes_declarations(self, &before_ann, ann);
                }
            }
            i += 1;
        }
        proof {
            assert(block@.take(i as int) =~= block@);
        }
        declared
    }

    #[verifier::spinoff_prover]
    #[verifier::rlimit(100)]
    fn analyze_block(&mut self, ann: &mut Annotations, names: &IdentifierTable, block: &mut Vec<Statement>, declared: &Vec<usize>)
        requires
            old(self).inv(old(ann)),
            old(self).is_open(),
            declared@.len() == old(block)@.len(),
            forall|i: int| 0 <= i < old(block)@.len() ==> statement_resolvable(#[trigger] old(block)@[i], names@.len()),
            forall|i: int| 0 <= i < old(block)@.len() ==> let_declared(#[trigger] old(block)@[i], declared@[i], old(ann), old(self).frames@),
        ensures
            old(self).walked(final(self), old(ann), final(ann)),
            final(block)@.len() == old(block)@.len(),
            forall|i: int| 0 <= i < final(block)@.len() ==> statement_resolved(#[trigger] final(block)@[i], old(self).scope_declarations(old(ann))),
            forall|i: int| 0 <= i < old(block)@.len() ==> let_kept(#[trigger] old(block)@[i], final(block)@[i], declared@[i]),
            (forall|i: int| 0 <= i < old(block)@.len() ==> statement_no_while_else(#[trigger] old(block)@[i]))
                && final(self).errors@.len() == old(self).errors@.len()
                ==> forall|i: int| 0 <= i < final(block)@.len() ==> statement_linked(#[trigger] final(block)@[i], *final(ann), old(self).frames@.last()),
            reported(old(self).errors@, final(self).errors@, names@,
                statements_unresolved(old(block)@, scope_names(old(self).scope_declarations(old(ann))))),
        decreases *old(block), 0nat,
    {
        let ghost old_block = *block;
        let ghost d = self.scope_declarations(ann);
        let ghost g = self.frames@.last();
        let ghost env = scope_names(d);
        proof {
            lemma_statements_all(old_block@, env);
            lemma_reported_none(self.errors@, names@);
        }
        let mut i: usize = 0;
        while i < block.len()
            invariant
                i <= block@.len(),
                old(self).walked(self, old(ann), ann),
                old(self).inv(old(ann)),
                self.is_open(),
                old_block == *old(block),
                block@.len() == old_block@.len(),
                declared@.len() == old_block@.len(),
                forall|j: int| i <= j < block@.len() ==> block@[j] == old_block@[j],
                forall|j: int| 0 <= j < old_block@.len() ==> statement_resolvable(#[trigger] old_block@[j], names@.len()),
                forall|j: int| 0 <= j < old_block@.len() ==> let_declared(#[trigger] old_block@[j], declared@[j], old(ann), old(self).frames@),
                d == old(self).scope_declarations(old(ann)),
                forall|j: int| 0 <= j < i ==> statement_resolved(#[trigger] block@[j], d),
                forall|j: int| 0 <= j < i ==> let_kept(#[trigger] old_block@[j], block@[j], declared@[j]),
                g == old(self).frames@.last(),
                env == scope_names(d),
                reported(old(self).errors@, self.errors@, names@, statements_unresolved(old_block@.take(i as int), env)),
                (forall|j: int| 0 <= j < old_block@.len() ==> statement_no_while_else(#[trigger] old_block@[j]))
                    && self.errors@.len() == old(self).errors@.len()
                    ==> forall|j: int| 0 <= j < i ==> statement_linked(#[trigger] block@[j], *ann, g),
            decreases block@.len() - i,
        {
            let ghost before = *self;
            let ghost before_ann = *ann;
            proof {
                old(self).lemma_walked_declarations(&before, old(ann), &before_ann);
            }
            proof {
                assert(decreases_to!(old_block => old_block@));
                assert(decreases_to!(old_block@ => old_block@[i as int]));
                let st = old_block@[i as int];
                assert(let_declared(st, declared@[i as int], old(ann), old(self).frames@));
                if st is Let {
                    assert(ann.variables@[declared@[i as int] as int].declared_in == old(ann).variables@[declared@[i as int] as int].declared_in);
                }
            }
            self.analyze_statement(ann, names, &mut block[i], declared[i]);
            proof {
                lemma_reported_then(old(self).errors@, before.errors@, self.errors@, names@,
                    statements_unresolved(old_block@.take(i as int), env), statement_unresolved(old_block@[i as int], env));
                lemma_statements_step(old_block@, env, i as int);
                if (forall|j: int| 0 <= j < old_block@.len() ==> statement_no_while_else(#[trigger] old_block@[j]))
                    && self.errors@.len() == old(self).errors@.len() {
                    assert(before.errors@.len() == old(self).errors@.len());
                    assert(statement_no_while_else(old_block@[i as int]));
                    assert forall|j: int| 0 <= j < i implies statement_linked(#[trigger] block@[j], *ann, g) by {
                        before.lemma_statement_kept(&before_ann, ann, block@[j]);
                    }
                }
            }
            i += 1;
        }
        proof {
            lemma_statements_all(old_block@, env);
        }
    }

    /// Analyses `block` in a scope of its own.
    fn analyze_scoped_block(&mut self, ann: &mut Annotations, names: &IdentifierTable, block: &mut Vec<Statement>)
        requires
            old(self).inv(old(ann)),
            old(self).is_open(),
            block_resolvable(old(block)@, Seq::empty(), names@.len()),
        ensures
            old(self).walked(final(self), old(ann), final(ann)),
            final(self).scopes@ == old(self).scopes@,
            block_resolved(final(block)@, old(self).scope_declarations(old(ann)), Seq::empty()),
            (forall|i: int| 0 <= i < old(block)@.len() ==> statement_no_while_else(#[trigger] old(block)@[i]))
                && final(self).errors@.len() == old(self).errors@.len()
                ==> forall|i: int| 0 <= i < final(block)@.len() ==> statement_linked(#[trigger] final(block)@[i], *final(ann), old(self).frames@.last()),
            reported(old(self).errors@, final(self).errors@, names@,
                block_unresolved(old(block)@, scope_names(old(self).scope_declarations(old(ann))), Seq::empty())),
        decreases *old(block), 1nat,
    {
        let ghost d = self.scope_declarations(ann);
        let ghost old_block = *block;
        proof {
            lemma_block_unresolved(old_block@, scope_names(d), Seq::empty());
        }
        self.push_scope(ann);
        proof {
            assert(self.current_scope_names(ann) =~= Seq::<Identifier>::empty());
            old(self).lemma_pushed_scope(self, ann);
            assert(d.push(Seq::empty()).drop_last() =~= d);
        }
        let declared = self.find_declarations_in_block(ann, block);
        let ghost inner = self.scope_declarations(ann);
        self.analyze_block(ann, names, block, &declared);
        proof {
            lemma_declared_lets_names(old_block@, declared@);
            assert(inner == d.push(Seq::<Declaration>::empty() + declared_lets(old_block@, declared@))) by {
                assert(d.push(Seq::<Declaration>::empty()).drop_last() =~= d);
            }
            lemma_scope_names_push(d, Seq::<Declaration>::empty(), declared_lets(old_block@, declared@));
            assert(Seq::<Declaration>::empty().map_values(|x: Declaration| x.1) =~= Seq::<Identifier>::empty());
            assert(scope_names(inner) == scope_names(d).push(Seq::<Identifier>::empty() + let_names(old_block@)));
            lemma_declared_lets(old_block@, block@, declared@);
            assert(d.push(Seq::<Declaration>::empty() + let_declarations(block@)) =~= d.push(Seq::<Declaration>::empty()).drop_last().push(
                d.push(Seq::<Declaration>::empty()).last() + declared_lets(old_block@, declared@)));
        }
        self.pop_scope(ann);
        proof {
            assert(self.scopes@ =~= old(self).scopes@);
        }
    }

    /// Resolves an assignment target before its value is analysed; true when
    /// the target is a variable that was found, or is not a variable.
    fn analyze_lvalue_preparation(&mut self, ann: &mut Annotations, names: &IdentifierTable, lvalue: &mut Lvalue) -> (found: bool)
        requires
            old(self).inv(old(ann)),
            old(self).is_open(),
            lvalue_resolvable(*old(lvalue), names@.len()),
        ensures
            old(self).walked(final(self), old(ann), final(ann)),
            final(self).scopes@ == old(self).scopes@,
            found && *final(lvalue) is VariableLvalue ==> {
                let v = final(lvalue)->VariableLvalue_annotation;
                v < final(ann).variables@.len() && final(self).frames@.contains(final(ann).variables@[v as int].declared_in)
            },
            lvalue_resolved(*final(lvalue), old(self).scope_declarations(old(ann))),
            !found ==> final(self).errors@.len() > old(self).errors@.len(),
            lvalue_no_while_else(*old(lvalue)) && final(self).errors@.len() == old(self).errors@.len()
                ==> lvalue_expression_linked(*final(lvalue), *final(ann), old(self).frames@.last()),
            *old(lvalue) is VariableLvalue ==> {
                let name = old(lvalue)->VariableLvalue_name;
                if lookup(old(self).scope_declarations(old(ann)), name) is None {
                    &&& !found
                    &&& final(self).errors@.len() == old(self).errors@.len() + 1
                    &&& final(self).errors@.drop_last() == old(self).errors@
                    &&& final(self).errors@.last().message@ == "Variable not found: $"@ + names@[name.index as int] + "."@
                    &&& final(self).errors@.last().source_offset == 0
                } else {
                    &&& found
                    &&& final(self).errors@ == old(self).errors@
                    &&& final(lvalue)->VariableLvalue_annotation == lookup(old(self).scope_declarations(old(ann)), name)->Some_0
                }
            },
            reported(old(self).errors@, final(self).errors@, names@,
                lvalue_unresolved(*old(lvalue), scope_names(old(self).scope_declarations(old(ann))))),
        decreases *old(lvalue), 0nat,
    {
        proof {
            lemma_reported_none(self.errors@, names@);
            lemma_lvalue_unresolved(*lvalue, scope_names(self.scope_declarations(ann)));
        }
        match lvalue {
            Lvalue::VariableLvalue { name, annotation } => {
                proof {
                    self.lemma_found_in_scope(ann, *name);
                    self.lemma_lookup_here(ann, *name);
                    lemma_lookup_visible(self.scope_declarations(ann), *name);
                }
                match self.find_variable(ann, *name) {
                    Ok(variable) => {
                        *annotation = variable;
                        true
                    },
                    Err(()) => {
                        let message = not_found_message(names, *name, ".");
                        self.errors.push(AnalysisError { message, source_offset: 0 });
                        proof {
                            let u: Unresolved = (*name, 0, true);
                            lemma_reported_one(old(self).errors@, self.errors@.last(), names@, u);
                            assert(old(self).errors@.push(self.errors@.last()) =~= self.errors@);
                        }
                        false
                    },
                }
            },
            Lvalue::DotAccessLvalue { expression, .. } => {
                self.analyze_expression(ann, names, &mut **expression);
                true
            },
        }
    }

    /// Records the write of an assignment to a variable.
    fn analyze_lvalue_write(&mut self, ann: &mut Annotations, lvalue: &Lvalue)
        requires
            old(self).inv(old(ann)),
            old(self).is_open(),
            *lvalue is VariableLvalue ==> {
                let v = lvalue->VariableLvalue_annotation;
                v < old(ann).variables@.len() && old(self).frames@.contains(old(ann).variables@[v as int].declared_in)
            },
        ensures
            old(self).walked(final(self), old(ann), final(ann)),
            final(self).scopes@ == old(self).scopes@,
            final(self).errors@ == old(self).errors@,
            *lvalue is VariableLvalue ==> sees(*final(ann), old(self).frames@.last(), lvalue->VariableLvalue_annotation),
    {
        match lvalue {
            Lvalue::VariableLvalue { annotation, .. } => {
                self.write_variable(ann, *annotation);
            },
            Lvalue::DotAccessLvalue { .. } => {},
        }
    }

    /// Analyses a statement; a `let` statement declares `declared`.
    #[verifier::spinoff_prover]
    fn analyze_statement(&mut self, ann: &mut Annotations, names: &IdentifierTable, statement: &mut Statement, declared: usize)
        requires
            old(self).inv(old(ann)),
            old(self).is_open(),
            statement_resolvable(*old(statement), names@.len()),
            let_declared(*old(statement), declared, old(ann), old(self).frames@),
        ensures
            old(self).walked(final(self), old(ann), final(ann)),
            statement_resolved(*final(statement), old(self).scope_declarations(old(ann))),
            let_kept(*old(statement), *final(statement), declared),
            statement_no_while_else(*old(statement)) && final(self).errors@.len() == old(self).errors@.len()
                ==> statement_linked(*final(statement), *final(ann), old(self).frames@.last()),
            reported(old(self).errors@, final(self).errors@, names@,
                statement_unresolved(*old(statement), scope_names(old(self).scope_declarations(old(ann))))),
        decreases *old(statement), 1nat,
    {
        let ghost s0 = *self;
        let ghost a0 = *ann;
        let ghost env = scope_names(s0.scope_declarations(&a0));
        proof {
            lemma_reported_none(self.errors@, names@);
            lemma_statement_unresolved(*statement, env);
            if *old(statement) is Let {
                lemma_optional_unresolved(old(statement)->Let_default, env);
            }
            if *old(statement) is Return {
                lemma_optional_unresolved(old(statement)->Return_expression, env);
            }
            if *old(statement) is Assignment {
                lemma_lvalue_unresolved(*old(statement)->Assignment_lvalue, env);
            }
        }
        let ghost g = self.frames@.last();
        match statement {
            Statement::Use { name, annotation, .. } => {
                let u = ann.uses.len();
                ann.uses.push(Use::new(*name));
                *annotation = u;
                let last = self.scopes.len() - 1;
                self.scopes[last].used.push(u);
            },
            Statement::ExpressionStatement { expression } => {
                self.analyze_expression(ann, names, &mut **expression);
            },
            Statement::Print { expression } => {
                self.analyze_expression(ann, names, &mut **expression);
            },
            Statement::Return { expression } => {
                match expression {
                    Some(e) => {
                        self.analyze_expression(ann, names, &mut **e);
                    },
                    None => {},
                }
            },
            Statement::Let { annotation, default, .. } => {
                *annotation = declared;
                match default {
                    Some(e) => {
                        self.analyze_expression(ann, names, &mut **e);
                        let ghost s1 = *self;
                        let ghost a1 = *ann;
                        self.write_variable(ann, declared);
                        proof {
                            assert(self.errors@ == s1.errors@);
                            if statement_no_while_else(*old(statement)) && self.errors@.len() == s0.errors@.len() {
                                s1.lemma_expression_kept(&a1, ann, **e);
                            }
                        }
                    },
                    None => {},
                }
            },
            Statement::Assignment { lvalue, rvalue } => {
                let found = self.analyze_lvalue_preparation(ann, names, &mut **lvalue);
                let ghost s1 = *self;
                let ghost a1 = *ann;
                self.analyze_expression(ann, names, &mut **rvalue);
                proof {
                    s0.lemma_walked_declarations(&s1, &a0, &a1);
                }
                let ghost s2 = *self;
                let ghost a2 = *ann;
                if found {
                    self.analyze_lvalue_write(ann, &**lvalue);
                }
                proof {
                    assert(self.errors@ == s2.errors@);
                    lemma_reported_then(s0.errors@, s1.errors@, s2.errors@, names@,
                        lvalue_unresolved(*old(statement)->Assignment_lvalue, env),
                        expression_unresolved(*old(statement)->Assignment_rvalue, env));
                    if statement_no_while_else(*old(statement)) && self.errors@.len() == s0.errors@.len() {
                        assert(s1.errors@.len() == s0.errors@.len());
                        assert(s2.errors@.len() == s0.errors@.len());
                        s2.lemma_expression_kept(&a2, ann, **rvalue);
                        if (**lvalue) is DotAccessLvalue {
                            let ex = (**lvalue)->DotAccessLvalue_expression;
                            s1.lemma_expression_kept(&a1, &a2, *ex);
                            s2.lemma_expression_kept(&a2, ann, *ex);
                        }
                    }
                }
            },
            Statement::If { .. } => {
                self.analyze_if(ann, names, statement);
            },
            Statement::While { test, block, else_clause } => {
                self.analyze_expression(ann, names, &mut **test);
                let ghost s1 = *self;
                let ghost a1 = *ann;
                self.analyze_scoped_block(ann, names, block);
                let ghost s2 = *self;
                let ghost a2 = *ann;
                proof {
                    s0.lemma_walked_declarations(&s1, &a0, &a1);
                    s1.lemma_walked_declarations(&s2, &a1, &a2);
                    lemma_reported_then(s0.errors@, s1.errors@, s2.errors@, names@,
                        expression_unresolved(*old(statement)->While_test, env),
                        block_unresolved(old(statement)->While_block@, env, Seq::empty()));
                }
                match else_clause {
                    Some(e) => {
                        proof {
                            assert(decreases_to!(*old(statement) => old(statement)->While_else_clause));
                            assert(decreases_to!(old(statement)->While_else_clause => old(statement)->While_else_clause->Some_0));
                            assert(decreases_to!(old(statement)->While_else_clause->Some_0 => old(statement)->While_else_clause->Some_0.block));
                        }
                        self.analyze_scoped_block(ann, names, &mut e.block);
                        proof {
                            lemma_reported_then(s0.errors@, s2.errors@, self.errors@, names@,
                                expression_unresolved(*old(statement)->While_test, env)
                                    + block_unresolved(old(statement)->While_block@, env, Seq::empty()),
                                block_unresolved(old(statement)->While_else_clause->Some_0.block@, env, Seq::empty()));
                        }
                    },
                    None => {
                        proof {
                            assert(expression_unresolved(*old(statement)->While_test, env)
                                + block_unresolved(old(statement)->While_block@, env, Seq::empty()) + Seq::<Unresolved>::empty()
                                =~= expression_unresolved(*old(statement)->While_test, env)
                                + block_unresolved(old(statement)->While_block@, env, Seq::empty()));
                            if statement_no_while_else(*old(statement)) && self.errors@.len() == s0.errors@.len() {
                                assert(s1.errors@.len() == s0.errors@.len());
                                s1.lemma_expression_kept(&a1, ann, **test);
                            }
                        }
                    },
                }
            },
            Statement::Try { .. } => {
                self.analyze_try(ann, names, statement);
            },
            Statement::Throw { expression } => {
                self.analyze_expression(ann, names, &mut **expression);
            },
        }
    }

    /// Analyses an `if` statement: its test, then its blocks, each in a scope
    /// of its own.
    #[verifier::spinoff_prover]
    #[verifier::rlimit(100)]
    fn analyze_if(&mut self, ann: &mut Annotations, names: &IdentifierTable, statement: &mut Statement)
        requires
            old(self).inv(old(ann)),
            old(self).is_open(),
            *old(statement) is If,
            statement_resolvable(*old(statement), names@.len()),
        ensures
            old(self).walked(final(self), old(ann), final(ann)),
            final(self).scopes@ == old(self).scopes@,
            statement_resolved(*final(statement), old(self).scope_declarations(old(ann))),
            *final(statement) is If,
            statement_no_while_else(*old(statement)) && final(self).errors@.len() == old(self).errors@.len()
                ==> statement_linked(*final(statement), *final(ann), old(self).frames@.last()),
            reported(old(self).errors@, final(self).errors@, names@,
                statement_unresolved(*old(statement), scope_names(old(self).scope_declarations(old(ann))))),
        decreases *old(statement), 0nat,
    {
        let ghost s0 = *self;
        let ghost a0 = *ann;
        let ghost d = self.scope_declarations(ann);
        let ghost g = self.frames@.last();
        let ghost ok = statement_no_while_else(*old(statement));
        let ghost env = scope_names(d);
        proof {
            lemma_statement_unresolved(*statement, env);
        }
        let (test, block, else_if_clauses, else_clause) = match statement {
            Statement::If { test, block, else_if_clauses, else_clause } => (test, block, else_if_clauses, else_clause),
            _ => {
                return;
            },
        };
        self.analyze_expression(ann, names, &mut **test);
        let ghost s1 = *self;
        let ghost a1 = *ann;
        self.analyze_scoped_block(ann, names, block);
        let ghost s2 = *self;
        let ghost x = expression_unresolved(*old(statement)->If_test, env)
            + block_unresolved(old(statement)->If_block@, env, Seq::empty());
        proof {
            s0.lemma_walked_declarations(&s1, &a0, &a1);
            lemma_reported_then(s0.errors@, s1.errors@, s2.errors@, names@,
                expression_unresolved(*old(statement)->If_test, env), block_unresolved(old(statement)->If_block@, env, Seq::empty()));
            if ok && self.errors@.len() == s0.errors@.len() {
                assert(s1.errors@.len() == s0.errors@.len());
                s1.lemma_expression_kept(&a1, ann, **test);
            }
        }
        let ghost old_clauses = *else_if_clauses;
        proof {
            lemma_else_ifs_all(old_clauses@, env);
            assert(x + Seq::<Unresolved>::empty() =~= x);
        }
        let mut i: usize = 0;
        while i < else_if_clauses.len()
            invariant
                i <= else_if_clauses@.len(),
                old(self).walked(self, old(ann), ann),
                old(self).inv(old(ann)),
                self.scopes@ == old(self).scopes@,
                self.is_open(),
                *old(statement) is If,
                old_clauses == old(statement)->If_else_if_clauses,
                else_if_clauses@.len() == old_clauses@.len(),
                forall|j: int| i <= j < else_if_clauses@.len() ==> else_if_clauses@[j] == old_clauses@[j],
                forall|j: int| 0 <= j < old_clauses@.len() ==> else_if_resolvable(#[trigger] old_clauses@[j], names@.len()),
                d == old(self).scope_declarations(old(ann)),
                forall|j: int| 0 <= j < i ==> else_if_resolved(#[trigger] else_if_clauses@[j], d),
                g == old(self).frames@.last(),
                ok == statement_no_while_else(*old(statement)),
                s0 == *old(self),
                env == scope_names(d),
                x == expression_unresolved(*old(statement)->If_test, env)
                    + block_unresolved(old(statement)->If_block@, env, Seq::empty()),
                reported(s0.errors@, self.errors@, names@, x + else_ifs_unresolved(old_clauses@.take(i as int), env)),
                ok && self.errors@.len() == s0.errors@.len() ==> {
                    &&& expression_linked(**test, *ann, g)
                    &&& forall|j: int| 0 <= j < block@.len() ==> statement_linked(#[trigger] block@[j], *ann, g)
                    &&& forall|j: int| 0 <= j < i ==> else_if_linked(#[trigger] else_if_clauses@[j], *ann, g)
                },
            decreases else_if_clauses@.len() - i,
        {
            proof {
                let c = old_clauses@[i as int];
                assert(decreases_to!(*old(statement) => old(statement)->If_else_if_clauses));
                assert(decreases_to!(old_clauses => old_clauses@));
                assert(decreases_to!(old_clauses@ => c));
                assert(decreases_to!(c => c.test));
                assert(decreases_to!(c => c.block));
                assert(else_if_resolvable(c, names@.len()));
            }
            let ghost b0 = *self;
            let ghost b0_ann = *ann;
            proof {
                old(self).lemma_walked_declarations(&b0, old(ann), &b0_ann);
            }
            self.analyze_expression(ann, names, &mut *else_if_clauses[i].test);
            let ghost b1 = *self;
            let ghost b1_ann = *ann;
            proof {
                b0.lemma_walked_declarations(&b1, &b0_ann, &b1_ann);
            }
            self.analyze_scoped_block(ann, names, &mut else_if_clauses[i].block);
            proof {
                let c = old_clauses@[i as int];
                let u0 = x + else_ifs_unresolved(old_clauses@.take(i as int), env);
                lemma_reported_then(b0.errors@, b1.errors@, self.errors@, names@,
                    expression_unresolved(*c.test, env), block_unresolved(c.block@, env, Seq::empty()));
                lemma_reported_then(s0.errors@, b0.errors@, self.errors@, names@, u0,
                    expression_unresolved(*c.test, env) + block_unresolved(c.block@, env, Seq::empty()));
                lemma_else_ifs_step(old_clauses@, env, i as int);
                assert(u0 + (expression_unresolved(*c.test, env) + block_unresolved(c.block@, env, Seq::empty()))
                    =~= x + else_ifs_unresolved(old_clauses@.take(i + 1), env));
                if ok && self.errors@.len() == s0.errors@.len() {
                    assert(b0.errors@.len() == s0.errors@.len());
                    assert(b1.errors@.len() == s0.errors@.len());
                    assert(else_if_no_while_else(old_clauses@[i as int]));
                    b0.lemma_expression_kept(&b0_ann, ann, **test);
                    b0.lemma_block_kept(&b0_ann, ann, block@);
                    assert forall|j: int| 0 <= j < i implies else_if_linked(#[trigger] else_if_clauses@[j], *ann, g) by {
                        b0.lemma_else_if_kept(&b0_ann, ann, else_if_clauses@[j]);
                    }
                    b1.lemma_expression_kept(&b1_ann, ann, *else_if_clauses@[i as int].test);
                }
            }
            i += 1;
        }
        let ghost s3 = *self;
        let ghost a3 = *ann;
        let ghost y = x + else_ifs_unresolved(old_clauses@, env);
        proof {
            s0.lemma_walked_declarations(&s3, &a0, &a3);
            lemma_else_ifs_all(old_clauses@, env);
        }
        match else_clause {
            Some(e) => {
                proof {
                    assert(decreases_to!(*old(statement) => old(statement)->If_else_clause));
                    assert(decreases_to!(old(statement)->If_else_clause => old(statement)->If_else_clause->Some_0));
                    assert(decreases_to!(old(statement)->If_else_clause->Some_0 => old(statement)->If_else_clause->Some_0.block));
                }
                self.analyze_scoped_block(ann, names, &mut e.block);
                proof {
                    lemma_reported_then(s0.errors@, s3.errors@, self.errors@, names@, y,
                        block_unresolved(old(statement)->If_else_clause->Some_0.block@, env, Seq::empty()));
                    if ok && self.errors@.len() == s0.errors@.len() {
                        assert(s3.errors@.len() == s0.errors@.len());
                        s3.lemma_expression_kept(&a3, ann, **test);
                        s3.lemma_block_kept(&a3, ann, block@);
                        assert forall|j: int| 0 <= j < else_if_clauses@.len() implies else_if_linked(#[trigger] else_if_clauses@[j], *ann, g) by {
                            s3.lemma_else_if_kept(&a3, ann, else_if_clauses@[j]);
                        }
                    }
                }
            },
            None => {
                proof {
                    assert(y + Seq::<Unresolved>::empty() =~= y);
                }
            },
        }
    }

    /// Analyses a `try` statement: its blocks, each in a scope of its own, and
    /// its `catch` clauses.
    #[verifier::spinoff_prover]
    #[verifier::rlimit(100)]
    fn analyze_try(&mut self, ann: &mut Annotations, names: &IdentifierTable, statement: &mut Statement)
        requires
            old(self).inv(old(ann)),
            old(self).is_open(),
            *old(statement) is Try,
            statement_resolvable(*old(statement), names@.len()),
        ensures
            old(self).walked(final(self), old(ann), final(ann)),
            final(self).scopes@ == old(self).scopes@,
            statement_resolved(*final(statement), old(self).scope_declarations(old(ann))),
            *final(statement) is Try,
            statement_no_while_else(*old(statement)) && final(self).errors@.len() == old(self).errors@.len()
                ==> statement_linked(*final(statement), *final(ann), old(self).frames@.last()),
            reported(old(self).errors@, final(self).errors@, names@,
                statement_unresolved(*old(statement), scope_names(old(self).scope_declarations(old(ann))))),
        decreases *old(statement), 0nat,
    {
        let ghost s0 = *self;
        let ghost a0 = *ann;
        let ghost d = self.scope_declarations(ann);
        let ghost g = self.frames@.last();
        let ghost ok = statement_no_while_else(*old(statement));
        let ghost env = scope_names(d);
        proof {
            lemma_statement_unresolved(*statement, env);
        }
        let (block, catch_clauses, else_clause, finally_clause) = match statement {
            Statement::Try { block, catch_clauses, else_clause, finally_clause } => (block, catch_clauses, else_clause, finally_clause),
            _ => {
                return;
            },
        };
        self.analyze_scoped_block(ann, names, block);
        let ghost old_clauses = *catch_clauses;
        let ghost x = block_unresolved(old(statement)->Try_block@, env, Seq::empty());
        proof {
            lemma_catches_all(old_clauses@, env);
            assert(x + Seq::<Unresolved>::empty() =~= x);
        }
        let mut i: usize = 0;
        while i < catch_clauses.len()
            invariant
                i <= catch_clauses@.len(),
                old(self).walked(self, old(ann), ann),
                old(self).inv(old(ann)),
                self.scopes@ == old(self).scopes@,
                self.is_open(),
                *old(statement) is Try,
                old_clauses == old(statement)->Try_catch_clauses,
                catch_clauses@.len() == old_clauses@.len(),
                forall|j: int| i <= j < catch_clauses@.len() ==> catch_clauses@[j] == old_clauses@[j],
                forall|j: int| 0 <= j < old_clauses@.len() ==> catch_resolvable(#[trigger] old_clauses@[j], names@.len()),
                d == old(self).scope_declarations(old(ann)),
                forall|j: int| 0 <= j < i ==> catch_resolved(#[trigger] catch_clauses@[j], d),
                g == old(self).frames@.last(),
                ok == statement_no_while_else(*old(statement)),
                s0 == *old(self),
                env == scope_names(d),
                x == block_unresolved(old(statement)->Try_block@, env, Seq::empty()),
                reported(s0.errors@, self.errors@, names@, x + catches_unresolved(old_clauses@.take(i as int), env)),
                ok && self.errors@.len() == s0.errors@.len() ==> {
                    &&& forall|j: int| 0 <= j < block@.len() ==> statement_linked(#[trigger] block@[j], *ann, g)
                    &&& forall|j: int| 0 <= j < i ==> catch_linked(#[trigger] catch_clauses@[j], *ann, g)
                },
            decreases catch_clauses@.len() - i,
        {
            proof {
                let c = old_clauses@[i as int];
                assert(decreases_to!(*old(statement) => old(statement)->Try_catch_clauses));
                assert(decreases_to!(old_clauses => old_clauses@));
                assert(decreases_to!(old_clauses@ => c));
                assert(catch_resolvable(c, names@.len()));
            }
            let ghost b0 = *self;
            let ghost b0_ann = *ann;
            proof {
                old(self).lemma_walked_declarations(&b0, old(ann), &b0_ann);
            }
            self.analyze_catch(ann, names, &mut catch_clauses[i]);
            proof {
                let c = old_clauses@[i as int];
                let u0 = x + catches_unresolved(old_clauses@.take(i as int), env);
                lemma_reported_then(s0.errors@, b0.errors@, self.errors@, names@, u0, catch_unresolved(c, env));
                lemma_catches_step(old_clauses@, env, i as int);
                assert(u0 + catch_unresolved(c, env) =~= x + catches_unresolved(old_clauses@.take(i + 1), env));
                if ok && self.errors@.len() == s0.errors@.len() {
                    assert(b0.errors@.len() == s0.errors@.len());
                    assert(catch_no_while_else(old_clauses@[i as int]));
                    b0.lemma_block_kept(&b0_ann, ann, block@);
                    assert forall|j: int| 0 <= j < i implies catch_linked(#[trigger] catch_clauses@[j], *ann, g) by {
                        b0.lemma_catch_kept(&b0_ann, ann, catch_clauses@[j]);
                    }
                }
            }
            i += 1;
        }
        let ghost s2 = *self;
        let ghost a2 = *ann;
        let ghost y = x + catches_unresolved(old_clauses@, env);
        proof {
            s0.lemma_walked_declarations(&s2, &a0, &a2);
            lemma_catches_all(old_clauses@, env);
        }
        match else_clause {
            Some(e) => {
                proof {
                    assert(decreases_to!(*old(statement) => old(statement)->Try_else_clause));
                    assert(decreases_to!(old(statement)->Try_else_clause => old(statement)->Try_else_clause->Some_0));
                    assert(decreases_to!(old(statement)->Try_else_clause->Some_0 => old(statement)->Try_else_clause->Some_0.block));
                }
                self.analyze_scoped_block(ann, names, &mut e.block);
                proof {
                    lemma_reported_then(s0.errors@, s2.errors@, self.errors@, names@, y,
                        block_unresolved(old(statement)->Try_else_clause->Some_0.block@, env, Seq::empty()));
                    if ok && self.errors@.len() == s0.errors@.len() {
                        assert(s2.errors@.len() == s0.errors@.len());
                        s2.lemma_block_kept(&a2, ann, block@);
                        assert forall|j: int| 0 <= j < catch_clauses@.len() implies catch_linked(#[trigger] catch_clauses@[j], *ann, g) by {
                            s2.lemma_catch_kept(&a2, ann, catch_clauses@[j]);
                        }
                    }
                }
            },
            None => {
                proof {
                    assert(y + Seq::<Unresolved>::empty() =~= y);
                }
            },
        }
        let ghost z = y + match old(statement)->Try_else_clause {
            Some(e) => block_unresolved(e.block@, env, Seq::empty()),
            None => Seq::<Unresolved>::empty(),
        };
        let ghost s3 = *self;
        let ghost a3 = *ann;
        proof {
            s0.lemma_walked_declarations(&s3, &a0, &a3);
        }
        match finally_clause {
            Some(f) => {
                proof {
                    assert(decreases_to!(*old(statement) => old(statement)->Try_finally_clause));
                    assert(decreases_to!(old(statement)->Try_finally_clause => old(statement)->Try_finally_clause->Some_0));
                    assert(decreases_to!(old(statement)->Try_finally_clause->Some_0 => old(statement)->Try_finally_clause->Some_0.block));
                }
                self.analyze_scoped_block(ann, names, &mut f.block);
                proof {
                    lemma_reported_then(s0.errors@, s3.errors@, self.errors@, names@, z,
                        block_unresolved(old(statement)->Try_finally_clause->Some_0.block@, env, Seq::empty()));
                    if ok && self.errors@.len() == s0.errors@.len() {
                        assert(s3.errors@.len() == s0.errors@.len());
                        s3.lemma_block_kept(&a3, ann, block@);
                        assert forall|j: int| 0 <= j < catch_clauses@.len() implies catch_linked(#[trigger] catch_clauses@[j], *ann, g) by {
                            s3.lemma_catch_kept(&a3, ann, catch_clauses@[j]);
                        }
                        if (*else_clause) is Some {
                            s3.lemma_block_kept(&a3, ann, else_clause->Some_0.block@);
                        }
                    }
                }
            },
            None => {
                proof {
                    assert(z + Seq::<Unresolved>::empty() =~= z);
                }
            },
        }
    }

    /// A `catch` clause: its type, then its block in a scope that declares its
    /// variable.
    fn analyze_catch(&mut self, ann: &mut Annotations, names: &IdentifierTable, clause: &mut Catch)
        requires
            old(self).inv(old(ann)),
            old(self).is_open(),
            catch_resolvable(*old(clause), names@.len()),
        ensures
            old(self).walked(final(self), old(ann), final(ann)),
            final(self).scopes@ == old(self).scopes@,
            catch_resolved(*final(clause), old(self).scope_declarations(old(ann))),
            catch_no_while_else(*old(clause)) && final(self).errors@.len() == old(self).errors@.len()
                ==> catch_linked(*final(clause), *final(ann), old(self).frames@.last()),
            reported(old(self).errors@, final(self).errors@, names@,
                catch_unresolved(*old(clause), scope_names(old(self).scope_declarations(old(ann))))),
        decreases *old(clause), 0nat,
    {
        let ghost s0 = *self;
        let ghost a0 = *ann;
        let ghost d = self.scope_declarations(ann);
        let ghost old_block = clause.block;
        let ghost env = scope_names(d);
        proof {
            lemma_reported_none(self.errors@, names@);
            lemma_catch_unresolved(*clause, env);
            lemma_optional_unresolved(clause.type_, env);
            lemma_block_unresolved(clause.block@, env, seq![clause.variable_name]);
        }
        match &mut clause.type_ {
            Some(e) => {
                proof {
                    assert(decreases_to!(*old(clause) => old(clause).type_));
                    assert(decreases_to!(old(clause).type_ => old(clause).type_->Some_0));
                }
                self.analyze_expression(ann, names, &mut **e);
            },
            None => {},
        }
        let ghost entry_self = *self;
        let ghost a1 = *ann;
        self.push_scope(ann);
        let ghost pushed = *self;
        proof {
            s0.lemma_walked_declarations(&entry_self, &a0, &a1);
            entry_self.lemma_pushed_scope(&pushed, &a1);
        }
        let v = self.declare_variable(ann, clause.variable_name);
        clause.variable = v;
        let ghost a2 = *ann;
        proof {
            pushed.lemma_declare_extends(self, &a1, ann, v, clause.variable_name);
            assert(d.push(Seq::empty()).drop_last() =~= d);
            assert(Seq::<Declaration>::empty().push((v, clause.variable_name)) =~= seq![(clause.variable, clause.variable_name)]);
        }
        proof {
            assert(self.current_scope_names(ann) =~= seq![clause.variable_name]);
            assert(decreases_to!(*old(clause) => old(clause).block));
            assert(arena_grows(&a1, &a2)) by {
                assert forall|f: int| 0 <= f < a1.frames@.len() implies a1.frames@[f].declared_variables@.is_prefix_of(
                    #[trigger] a2.frames@[f].declared_variables@) by {
                    if f != self.frames@.last() {
                        assert(a2.frames@[f] == a1.frames@[f]);
                    }
                }
            }
        }
        let declared = self.find_declarations_in_block(ann, &clause.block);
        let ghost a3 = *ann;
        let ghost before_block = *self;
        self.analyze_block(ann, names, &mut clause.block, &declared);
        proof {
            let decl = seq![(clause.variable, clause.variable_name)];
            let dl = declared_lets(old_block@, declared@);
            assert(before_block.scope_declarations(&a3) == d.push(decl + dl)) by {
                assert(d.push(decl).drop_last() =~= d);
            }
            lemma_declared_lets_names(old_block@, declared@);
            lemma_scope_names_push(d, decl, dl);
            assert(decl.map_values(|x: Declaration| x.1) =~= seq![old(clause).variable_name]);
            lemma_reported_then(s0.errors@, entry_self.errors@, self.errors@, names@,
                optional_unresolved(old(clause).type_, env),
                statements_unresolved(old_block@, env.push(seq![old(clause).variable_name] + let_names(old_block@))));
            lemma_declared_lets(old_block@, clause.block@, declared@);
            assert(d.push(decl + let_declarations(clause.block@)) =~= d.push(decl).drop_last().push(
                d.push(decl).last() + declared_lets(old_block@, declared@)));
        }
        self.pop_scope(ann);
        proof {
            assert(self.scopes@ =~= entry_self.scopes@);
            lemma_arena_grows_trans(old(ann), &a1, &a2);
            lemma_arena_grows_trans(old(ann), &a2, &a3);
            lemma_arena_grows_trans(old(ann), &a3, ann);
            if catch_no_while_else(*old(clause)) && self.errors@.len() == s0.errors@.len() {
                assert(entry_self.errors@.len() == s0.errors@.len());
                lemma_arena_grows_trans(&a1, &a2, &a3);
                lemma_arena_grows_trans(&a1, &a3, ann);
                if clause.type_ is Some {
                    entry_self.lemma_expression_kept(&a1, ann, *clause.type_->Some_0);
                }
            }
        }
    }
}


impl AnalyzeResolution {
    /// The analysis is in no frame and no scope.
    pub closed spec fn is_idle(&self) -> bool {
        self.frames@.len() == 0 && self.scopes@.len() == 0
    }

    /// Opens the root frame of a program, `root.frame`, and its scope.
    fn open_root(&mut self, ann: &mut Annotations, root: &mut Root)
        requires
            old(self).is_idle(),
            old(ann).wf(),
            closures_chained(*old(ann)),
        ensures
            final(self).inv(final(ann)),
            final(self).is_open(),
            final(self).frames@ == seq![final(root).frame],
            final(self).scopes@.len() == 1,
            final(self).scopes@[0].declared_variables@.len() == 0,
            final(self).errors@ == old(self).errors@,
            final(root).frame == old(ann).frames@.len(),
            final(ann).frames@.len() == old(ann).frames@.len() + 1,
            final(ann).frames@[final(root).frame as int].closure is None,
            final(ann).frames@[final(root).frame as int].declared_variables@.len() == 0,
            arena_grows(old(ann), final(ann)),
            final(root).statements == old(root).statements,
    {
        let f = ann.frames.len();
        ann.frames.push(Frame::new());
        root.frame = f;
        proof {
            old(ann).lemma_add_frame_keeps_wf(ann, ann.frames@[f as int]);
            assert(ann.frames.len() == f + 1);
            assert forall|g: int| 0 <= g < old(ann).frames@.len() && !is_frame(None, g)
                implies #[trigger] ann.frames@[g] == old(ann).frames@[g] by {}
            lemma_chained_new_frame(*old(ann), *ann, None);
        }
        self.push_frame(ann, f);
        self.push_scope(ann);
    }

    /// Closes the root frame and its scope.
    fn close_root(&mut self, ann: &Annotations)
        requires
            old(self).inv(ann),
            old(self).frames@.len() == 1,
            old(self).scopes@.len() == 1,
        ensures
            final(self).inv(ann),
            final(self).is_idle(),
            final(self).errors@ == old(self).errors@,
    {
        self.pop_scope(ann);
        self.pop_frame(ann);
    }

    /// Resolves the names of a script. Its root frame is added to `ann` and
    /// becomes `root.frame`; the errors found are added to `self.errors`:
    /// one "Variable not found" error for each use of a variable that no
    /// enclosing block declares, and no other.
    pub fn analyze_root(&mut self, ann: &mut Annotations, names: &IdentifierTable, root: &mut Root)
        requires
            old(self).is_idle(),
            old(ann).wf(),
            closures_chained(*old(ann)),
            block_resolvable(old(root).statements@, Seq::empty(), names@.len()),
        ensures
            final(self).is_idle(),
            final(ann).wf(),
            old(self).error_list().is_prefix_of(final(self).error_list()),
            reported(old(self).error_list(), final(self).error_list(), names@,
                block_unresolved(old(root).statements@, Seq::empty(), Seq::empty())),
            final(root).frame == old(ann).frames@.len(),
            final(root).frame < final(ann).frames@.len(),
            final(root).statements@.len() == old(root).statements@.len(),
            arena_grows(old(ann), final(ann)),
            block_resolved(final(root).statements@, Seq::empty(), Seq::empty()),
            closures_chained(*final(ann)),
            (forall|i: int| 0 <= i < old(root).statements@.len() ==> statement_no_while_else(#[trigger] old(root).statements@[i]))
                && final(self).error_list().len() == old(self).error_list().len()
                ==> forall|i: int| 0 <= i < final(root).statements@.len()
                    ==> statement_linked(#[trigger] final(root).statements@[i], *final(ann), final(root).frame),
    {
        self.open_root(ann, root);
        let ghost old_statements = root.statements;
        proof {
            assert(self.current_scope_names(ann) =~= Seq::<Identifier>::empty());
            self.lemma_one_scope(ann);
            assert(declarations_of(self.scopes@[0].declared_variables@, variable_name(ann)) =~= Seq::<Declaration>::empty());
        }
        let ghost start = self.scope_declarations(ann);
        let declared = self.find_declarations_in_block(ann, &root.statements);
        let ghost mid = *self;
        let ghost mid_ann = *ann;
        self.analyze_block(ann, names, &mut root.statements, &declared);
        proof {
            let e = Seq::<Declaration>::empty();
            let dl = declared_lets(old_statements@, declared@);
            assert(start == seq![e]);
            assert(seq![e].drop_last() =~= Seq::<Seq<Declaration>>::empty());
            assert(mid.scope_declarations(&mid_ann) == Seq::<Seq<Declaration>>::empty().push(e + dl));
            lemma_scope_names_push(Seq::<Seq<Declaration>>::empty(), e, dl);
            lemma_declared_lets_names(old_statements@, declared@);
            assert(e.map_values(|x: Declaration| x.1) =~= Seq::<Identifier>::empty());
            assert(scope_names(Seq::<Seq<Declaration>>::empty()) =~= Seq::<Seq<Identifier>>::empty());
            lemma_block_unresolved(old_statements@, Seq::empty(), Seq::empty());
            assert(self.frames@ == mid.frames@);
            lemma_declared_lets(old_statements@, root.statements@, declared@);
            let e = Seq::<Declaration>::empty();
            assert(Seq::<Seq<Declaration>>::empty().push(e + let_declarations(root.statements@)) =~= seq![e].drop_last().push(
                seq![e].last() + declared_lets(old_statements@, declared@)));
        }
        self.close_root(ann);
    }
}

impl AnalyzeResolution {
    /// Resolves the names of a line of interactive input. The variables of
    /// `repl_state` are declared first, in the root scope, so that the line
    /// can use them; the variables that the line declares at its top level are
    /// then added to `repl_state`, in order.
    pub fn analyze_repl_root(&mut self, ann: &mut Annotations, names: &IdentifierTable, root: &mut Root, repl_state: &mut State)
        requires
            old(self).is_idle(),
            old(ann).wf(),
            closures_chained(*old(ann)),
            old(repl_state).wf(),
            block_resolvable(old(root).statements@, old(repl_state).names(), names@.len()),
        ensures
            final(self).is_idle(),
            final(ann).wf(),
            old(self).error_list().is_prefix_of(final(self).error_list()),
            reported(old(self).error_list(), final(self).error_list(), names@,
                block_unresolved(old(root).statements@, Seq::empty(), old(repl_state).names())),
            final(root).frame == old(ann).frames@.len(),
            final(root).frame < final(ann).frames@.len(),
            final(root).statements@.len() == old(root).statements@.len(),
            arena_grows(old(ann), final(ann)),
            final(repl_state).wf(),
            final(repl_state).names() == old(repl_state).names() + let_names(old(root).statements@),
            forall|n: Identifier| #[trigger] old(repl_state).names().contains(n) ==> final(repl_state).values()[n] == old(repl_state).values()[n],
            forall|n: Identifier| #[trigger] final(repl_state).names().contains(n) && !old(repl_state).names().contains(n)
                ==> final(repl_state).values()[n] == Value::Nothing,
            old(repl_state).names().len() <= final(ann).frames@[final(root).frame as int].declared_variables@.len(),
            forall|i: int| 0 <= i < old(repl_state).names().len() ==> final(ann).variables@[
                #[trigger] final(ann).frames@[final(root).frame as int].declared_variables@[i] as int].name
                == old(repl_state).names()[i],
            old(repl_state).names().len() + let_names(old(root).statements@).len()
                <= final(ann).frames@[final(root).frame as int].declared_variables@.len(),
            forall|i: int| 0 <= i < old(repl_state).names().len() + let_names(old(root).statements@).len() ==> final(ann).variables@[
                #[trigger] final(ann).frames@[final(root).frame as int].declared_variables@[i] as int].name
                == (old(repl_state).names() + let_names(old(root).statements@))[i],
            block_resolved(
                final(root).statements@,
                Seq::empty(),
                declarations_of(
                    final(ann).frames@[final(root).frame as int].declared_variables@.take(old(repl_state).names().len() as int),
                    variable_name(final(ann)),
                ),
            ),
            closures_chained(*final(ann)),
            (forall|i: int| 0 <= i < old(root).statements@.len() ==> statement_no_while_else(#[trigger] old(root).statements@[i]))
                && final(self).error_list().len() == old(self).error_list().len()
                ==> forall|i: int| 0 <= i < final(root).statements@.len()
                    ==> statement_linked(#[trigger] final(root).statements@[i], *final(ann), final(root).frame),
    {
        let ghost old_statements = root.statements;
        self.open_root(ann, root);
        let ghost state_names = repl_state.names();
        let ghost opened = *ann;
        let n = repl_state.len();
        let mut i: usize = 0;
        proof {
            assert(self.current_scope_names(ann) =~= state_names.take(0));
            assert(ann.frames@[root.frame as int].declared_variables@ =~= self.scopes@[0].declared_variables@);
        }
        while i < n
            invariant
                i <= n,
                n == state_names.len(),
                state_names == repl_state.names(),
                *repl_state == *old(repl_state),
                self.inv(ann),
                self.is_open(),
                self.frames@ == seq![root.frame],
                self.scopes@.len() == 1,
                self.errors@ == old(self).errors@,
                root.frame == old(ann).frames@.len(),
                ann.frames@.len() == old(ann).frames@.len() + 1,
                arena_grows(old(ann), ann),
                arena_grows(&opened, ann),
                self.current_scope_names(ann) == state_names.take(i as int),
                ann.frames@[root.frame as int].declared_variables@ == self.scopes@[0].declared_variables@,
                root.statements == old(root).statements,
            decreases n - i,
        {
            let ghost before_self = *self;
            let ghost before_ann = *ann;
            let name = repl_state.name_at(i);
            self.declare_variable(ann, name);
            proof {
                assert(state_names.take(i + 1) =~= state_names.take(i as int).push(name));
                let s_before = before_self.scopes@.last().declared_variables@;
                assert forall|k: int| 0 <= k < s_before.len() implies
                    ann.variables@[#[trigger] s_before[k] as int].name == before_ann.variables@[s_before[k] as int].name by {
                    assert(s_before[k] < before_ann.variables@.len());
                }
                assert(self.current_scope_names(ann) =~= before_self.current_scope_names(&before_ann).push(name));
                assert(arena_grows(&before_ann, ann)) by {
                    assert forall|f: int| 0 <= f < before_ann.frames@.len() implies before_ann.frames@[f].declared_variables@.is_prefix_of(
                        #[trigger] ann.frames@[f].declared_variables@) by {
                        if f != root.frame {
                            assert(ann.frames@[f] == before_ann.frames@[f]);
                        }
                    }
                }
                lemma_arena_grows_trans(old(ann), &before_ann, ann);
                lemma_arena_grows_trans(&opened, &before_ann, ann);
            }
            i += 1;
        }
        proof {
            assert(state_names.take(n as int) =~= state_names);
        }
        let ghost repl_declared = *ann;
        let ghost repl_self = *self;
        let ghost list0 = repl_declared.frames@[root.frame as int].declared_variables@;
        let ghost repl_decls = declarations_of(list0, variable_name(&repl_declared));
        proof {
            repl_self.lemma_one_scope(&repl_declared);
        }
        let declared = self.find_declarations_in_block(ann, &root.statements);
        let ghost after_find = *self;
        let ghost after_find_ann = *ann;
        self.analyze_block(ann, names, &mut root.statements, &declared);
        proof {
            let dl = declared_lets(old_statements@, declared@);
            assert(seq![repl_decls].drop_last() =~= Seq::<Seq<Declaration>>::empty());
            assert(after_find.scope_declarations(&after_find_ann) == Seq::<Seq<Declaration>>::empty().push(repl_decls + dl));
            lemma_scope_names_push(Seq::<Seq<Declaration>>::empty(), repl_decls, dl);
            lemma_declared_lets_names(old_statements@, declared@);
            assert(repl_self.current_scope_names(&repl_declared) == state_names);
            assert(list0 == repl_self.scopes@[0].declared_variables@);
            assert(repl_self.scopes@.last() == repl_self.scopes@[0]);
            assert(repl_decls.map_values(|x: Declaration| x.1) =~= state_names);
            assert(scope_names(Seq::<Seq<Declaration>>::empty()) =~= Seq::<Seq<Identifier>>::empty());
            lemma_block_unresolved(old_statements@, Seq::empty(), state_names);
            lemma_declared_lets(old_statements@, root.statements@, declared@);
            assert(Seq::<Seq<Declaration>>::empty().push(repl_decls + let_declarations(root.statements@)) =~= seq![repl_decls].drop_last().push(
                seq![repl_decls].last() + declared_lets(old_statements@, declared@)));
        }
        // The variables that the line declares at its top level are kept.
        let scope_len = self.scopes[0].declared_variables.len();
        let ghost lets = let_names(old(root).statements@);
        proof {
            assert(self.scopes@[0].declared_variables@ == after_find.scopes@[0].declared_variables@);
            assert(after_find.current_scope_names(&after_find_ann) == state_names + lets);
            assert(after_find.scopes@.last() == after_find.scopes@[0]);
            assert(after_find.current_scope_names(&after_find_ann).len() == after_find.scopes@[0].declared_variables@.len());
            assert(scope_len == state_names.len() + lets.len());
        }
        let mut k: usize = n;
        while k < scope_len
            invariant
                n <= k <= scope_len,
                n == state_names.len(),
                scope_len == self.scopes@[0].declared_variables@.len(),
                scope_len == state_names.len() + lets.len(),
                lets == let_names(old(root).statements@),
                no_double_declaration(old(root).statements@, state_names),
                self.inv(ann),
                self.scopes@.len() == 1,
                after_find.current_scope_names(&after_find_ann) == state_names + lets,
                self.scopes@[0].declared_variables@ == after_find.scopes@[0].declared_variables@,
                arena_grows(&after_find_ann, ann),
                after_find.inv(&after_find_ann),
                after_find.scopes@.len() == 1,
                repl_state.wf(),
                repl_state.names() == state_names + lets.take(k - n),
                forall|m: Identifier| #[trigger] state_names.contains(m) ==> repl_state.values()[m] == old(repl_state).values()[m],
                forall|m: Identifier| #[trigger] repl_state.names().contains(m) && !state_names.contains(m)
                    ==> repl_state.values()[m] == Value::Nothing,
                state_names == old(repl_state).names(),
            decreases scope_len - k,
        {
            let v = self.scopes[0].declared_variables[k];
            let name = ann.variables[v].name;
            proof {
                assert(v < after_find_ann.variables@.len());
                assert(name == (state_names + lets)[k as int]);
                assert(name == lets[k - n]);
                assert(!state_names.contains(lets[k - n]));
                assert(!lets.take(k - n).contains(lets[k - n]));
                assert(!repl_state.names().contains(name)) by {
                    if repl_state.names().contains(name) {
                        let j = choose|j: int| 0 <= j < repl_state.names().len() && repl_state.names()[j] == name;
                        if j < n {
                            assert(state_names[j] == name);
                        } else {
                            assert(lets.take(k - n)[j - n] == name);
                        }
                    }
                }
            }
            let ghost before_state = *repl_state;
            repl_state.declare_variable(name);
            proof {
                assert forall|m: Identifier| #[trigger] state_names.contains(m) implies repl_state.values()[m] == old(repl_state).values()[m] by {
                    assert(m != name);
                }
                assert forall|m: Identifier| #[trigger] repl_state.names().contains(m) && !state_names.contains(m)
                    implies repl_state.values()[m] == Value::Nothing by {
                    if m != name {
                        assert(before_state.names().contains(m)) by {
                            let j = choose|j: int| 0 <= j < repl_state.names().len() && repl_state.names()[j] == m;
                            assert(repl_state.names() == before_state.names().push(name));
                            assert(j < before_state.names().len());
                        }
                    }
                }
                assert(lets.take(k + 1 - n) =~= lets.take(k - n).push(name));
                assert(state_names + lets.take(k + 1 - n) =~= (state_names + lets.take(k - n)).push(name));
            }
            k += 1;
        }
        proof {
            assert(lets.take(k - n) =~= lets);
            assert(ann.frames@[root.frame as int].declared_variables@.len() >= n) by {
                assert(repl_declared.frames@[root.frame as int].declared_variables@.is_prefix_of(
                    ann.frames@[root.frame as int].declared_variables@));
            }
            assert forall|i: int| 0 <= i < n implies ann.variables@[
                #[trigger] ann.frames@[root.frame as int].declared_variables@[i] as int].name == state_names[i] by {
                let list0 = repl_declared.frames@[root.frame as int].declared_variables@;
                assert(list0.is_prefix_of(ann.frames@[root.frame as int].declared_variables@));
                assert(ann.frames@[root.frame as int].declared_variables@[i] == list0[i]);
                assert(repl_self.current_scope_names(&repl_declared) == state_names);
                assert(list0 == repl_self.scopes@[0].declared_variables@);
                assert(list0[i] < repl_declared.variables@.len());
                assert(repl_declared.variables@[list0[i] as int].name == state_names[i]);
            }
            let final_list = ann.frames@[root.frame as int].declared_variables@;
            assert(list0.len() == n) by {
                assert(repl_self.current_scope_names(&repl_declared).len() == n);
            }
            assert(list0.is_prefix_of(final_list));
            assert(final_list.take(n as int) =~= list0);
            assert forall|i: int| 0 <= i < list0.len() implies #[trigger] ann.variables@[list0[i] as int].name
                == repl_declared.variables@[list0[i] as int].name by {
                assert(list0[i] < repl_declared.variables@.len());
            }
            assert(declarations_of(final_list.take(n as int), variable_name(ann)) =~= repl_decls);
        }
        proof {
            let top = root.frame as int;
            let scope0 = after_find.scopes@[0].declared_variables@;
            let found = after_find_ann.frames@[top].declared_variables@;
            let final_list = ann.frames@[top].declared_variables@;
            assert(repl_self.scopes@.last() == repl_self.scopes@[0]);
            assert(after_find.scopes@.last() == after_find.scopes@[0]);
            assert(list0 == repl_self.scopes@[0].declared_variables@);
            assert(list0.is_prefix_of(scope0));
            assert(found =~= scope0);
            assert(found.is_prefix_of(final_list));
            assert forall|i: int| 0 <= i < n + lets.len() implies ann.variables@[#[trigger] final_list[i] as int].name
                == (state_names + lets)[i] by {
                assert(final_list[i] == scope0[i]);
                assert(scope0[i] < after_find_ann.variables@.len());
                assert(after_find.current_scope_names(&after_find_ann)[i] == after_find_ann.variables@[scope0[i] as int].name);
            }
        }
        self.close_root(ann);
    }
}


impl AnalyzeResolution {
    /// Analyses a function expression: its parameters' types and defaults in
    /// the enclosing scopes, then its body in a frame and a scope of its own
    /// that declares the parameters.
    #[verifier::spinoff_prover]
    #[verifier::rlimit(100)]
    fn analyze_function(&mut self, ann: &mut Annotations, names: &IdentifierTable, expression: &mut Expression)
        requires
            old(self).inv(old(ann)),
            old(self).is_open(),
            *old(expression) is Function,
            forall|j: int| 0 <= j < old(expression)->Function_parameters@.len()
                ==> parameter_resolvable(#[trigger] old(expression)->Function_parameters@[j], names@.len()),
            block_resolvable(old(expression)->Function_block@, parameter_names(old(expression)->Function_parameters@), names@.len()),
        ensures
            old(self).walked(final(self), old(ann), final(ann)),
            final(self).scopes@ == old(self).scopes@,
            expression_resolved(*final(expression), old(self).scope_declarations(old(ann))),
            expression_no_while_else(*old(expression)) && final(self).errors@.len() == old(self).errors@.len()
                ==> expression_linked(*final(expression), *final(ann), old(self).frames@.last()),
            reported(old(self).errors@, final(self).errors@, names@,
                expression_unresolved(*old(expression), scope_names(old(self).scope_declarations(old(ann))))),
        decreases *old(expression), 0nat,
    {
        let ghost d = self.scope_declarations(ann);
        let ghost env = scope_names(d);
        proof {
            lemma_expression_unresolved(*expression, env);
        }
        let (parameters, frame, block) = match expression {
            Expression::Function { parameters, frame, block } => (parameters, frame, block),
            _ => {
                return;
            },
        };
        let ghost old_block = *block;
        assert(old_block == old(expression)->Function_block);
        assert(block_resolvable(old_block@, parameter_names(old(expression)->Function_parameters@), names@.len()));
        proof {
            lemma_block_unresolved(old_block@, env, parameter_names(old(expression)->Function_parameters@));
        }
        let ghost entry_self = *self;
        let ghost entry_ann = *ann;
        let f = ann.frames.len();
        ann.frames.push(Frame::new_with_closure());
        let current = self.frames[self.frames.len() - 1];
        ann.frames[current].functions.push(f);
        *frame = f;
        proof {
            self.lemma_function_frame_added(&entry_ann, ann, f);
            assert(ann.frames@[current as int].functions@.last() == f);
            assert(ann.frames@[current as int].functions@.contains(f));
        }
        self.push_frame(ann, f);
        let ghost old_parameters = *parameters;
        proof {
            lemma_parameters_all(old_parameters@, env);
            lemma_reported_none(self.errors@, names@);
        }
        let mut i: usize = 0;
        while i < parameters.len()
            invariant
                i <= parameters@.len(),
                self.inv(ann),
                self.frames@ == entry_self.frames@.push(f),
                self.scopes@ == entry_self.scopes@,
                entry_self.errors@.is_prefix_of(self.errors@),
                arena_grows(&entry_ann, ann),
                entry_self.inv(&entry_ann),
                entry_self.is_open(),
                f == entry_ann.frames@.len(),
                *old(expression) is Function,
                old_parameters == old(expression)->Function_parameters,
                parameters@.len() == old_parameters@.len(),
                forall|j: int| i <= j < parameters@.len() ==> parameters@[j] == old_parameters@[j],
                forall|j: int| 0 <= j < parameters@.len() ==> (#[trigger] parameters@[j]).variable_name == old_parameters@[j].variable_name,
                forall|j: int| 0 <= j < old_parameters@.len() ==> parameter_resolvable(#[trigger] old_parameters@[j], names@.len()),
                d == entry_self.scope_declarations(&entry_ann),
                forall|j: int| 0 <= j < i ==> parameter_resolved(#[trigger] parameters@[j], d),
                env == scope_names(d),
                reported(entry_self.errors@, self.errors@, names@, parameters_unresolved(old_parameters@.take(i as int), env)),
                current == entry_self.frames@.last(),
                current < entry_ann.frames@.len(),
                ann.frames@[current as int].functions@.contains(f),
            decreases parameters@.len() - i,
        {
            let ghost s1 = *self;
            let ghost a1 = *ann;
            let ghost p = old_parameters@[i as int];
            proof {
                entry_self.lemma_same_scopes_declarations(&s1, &entry_ann, &a1);
                lemma_reported_none(s1.errors@, names@);
                lemma_optional_unresolved(p.type_, env);
                lemma_optional_unresolved(p.default, env);
            }
            match &mut parameters[i].type_ {
                Some(e) => {
                    proof {
                        let ghost p = old_parameters@[i as int];
                        assert(decreases_to!(*old(expression) => old(expression)->Function_parameters));
                        assert(decreases_to!(old_parameters => old_parameters@));
                        assert(decreases_to!(old_parameters@ => p));
                        assert(decreases_to!(p => p.type_));
                        assert(decreases_to!(p.type_ => p.type_->Some_0));
                    }
                    self.analyze_expression(ann, names, &mut **e);
                },
                None => {},
            }
            let ghost s2 = *self;
            let ghost a2 = *ann;
            proof {
                lemma_arena_grows_trans(&entry_ann, &a1, &a2);
                entry_self.lemma_same_scopes_declarations(&s2, &entry_ann, &a2);
                assert(reported(s1.errors@, s2.errors@, names@, optional_unresolved(p.type_, env)));
                lemma_reported_none(s2.errors@, names@);
            }
            match &mut parameters[i].default {
                Some(e) => {
                    proof {
                        let ghost p = old_parameters@[i as int];
                        assert(decreases_to!(*old(expression) => old(expression)->Function_parameters));
                        assert(decreases_to!(old_parameters => old_parameters@));
                        assert(decreases_to!(old_parameters@ => p));
                        assert(decreases_to!(p => p.default));
                        assert(decreases_to!(p.default => p.default->Some_0));
                    }
                    self.analyze_expression(ann, names, &mut **e);
                },
                None => {},
            }
            proof {
                lemma_arena_grows_trans(&entry_ann, &a2, ann);
                lemma_function_kept(a1, a2, current, f);
                lemma_function_kept(a2, *ann, current, f);
                assert(reported(s2.errors@, self.errors@, names@, optional_unresolved(p.default, env)));
                lemma_reported_then(s1.errors@, s2.errors@, self.errors@, names@,
                    optional_unresolved(p.type_, env), optional_unresolved(p.default, env));
                lemma_reported_then(entry_self.errors@, s1.errors@, self.errors@, names@,
                    parameters_unresolved(old_parameters@.take(i as int), env),
                    optional_unresolved(p.type_, env) + optional_unresolved(p.default, env));
                lemma_parameters_step(old_parameters@, env, i as int);
            }
            i += 1;
        }
        let ghost mid_self = *self;
        let ghost mid_ann = *ann;
        self.push_scope(ann);
        proof {
            entry_self.lemma_same_scopes_declarations(&mid_self, &entry_ann, &mid_ann);
            mid_self.lemma_pushed_scope(self, ann);
            assert(parameters@.take(0) =~= Seq::<FunctionParameter>::empty());
            assert(parameter_declarations(parameters@.take(0)) =~= Seq::<Declaration>::empty());
        }
        let mut i: usize = 0;
        while i < parameters.len()
            invariant
                self.inv(ann),
                self.is_open(),
                self.frames@ == entry_self.frames@.push(f),
                self.scopes@.len() == entry_self.scopes@.len() + 1,
                forall|s: int| 0 <= s < entry_self.scopes@.len() ==> #[trigger] self.scopes@[s] == entry_self.scopes@[s],
                self.scopes@.last().used@.len() == 0,
                i <= parameters@.len(),
                self.current_scope_names(ann) == parameter_names(parameters@.take(i as int)),
                forall|k: int| 0 <= k < self.scopes@.last().declared_variables@.len()
                    ==> ann.variables@[#[trigger] self.scopes@.last().declared_variables@[k] as int].declared_in == f,
                entry_self.errors@.is_prefix_of(self.errors@),
                arena_grows(&entry_ann, ann),
                entry_self.inv(&entry_ann),
                entry_self.is_open(),
                f == entry_ann.frames@.len(),
                *old(expression) is Function,
                old_parameters == old(expression)->Function_parameters,
                parameters@.len() == old_parameters@.len(),
                forall|j: int| 0 <= j < parameters@.len() ==> (#[trigger] parameters@[j]).variable_name == old_parameters@[j].variable_name,
                forall|j: int| 0 <= j < parameters@.len() ==> parameter_resolved(#[trigger] parameters@[j], d),
                self.scope_declarations(ann) == d.push(parameter_declarations(parameters@.take(i as int))),
                current == entry_self.frames@.last(),
                current < entry_ann.frames@.len(),
                ann.frames@[current as int].functions@.contains(f),
                forall|j: int| 0 <= j < i ==> (#[trigger] parameters@[j]).variable < ann.variables@.len(),
                self.errors@ == mid_self.errors@,
            decreases parameters@.len() - i,
        {
            let ghost before_ann = *ann;
            let ghost before_self = *self;
            let ghost before_parameters = parameters@;
            let v = self.declare_variable(ann, parameters[i].variable_name);
            parameters[i].variable = v;
            proof {
                lemma_function_kept(before_ann, *ann, current, f);
                lemma_arena_grows_trans(&entry_ann, &before_ann, ann);
                assert(parameters@.take(i + 1) =~= parameters@.take(i as int).push(parameters@[i as int]));
                assert(parameter_names(parameters@.take(i + 1)) =~= parameter_names(parameters@.take(i as int)).push(parameters@[i as int].variable_name));
                assert(self.current_scope_names(ann) =~= before_self.current_scope_names(&before_ann).push(parameters@[i as int].variable_name)) by {
                    assert forall|k: int| 0 <= k < before_self.scopes@.last().declared_variables@.len() implies
                        ann.variables@[#[trigger] before_self.scopes@.last().declared_variables@[k] as int].name
                            == before_ann.variables@[before_self.scopes@.last().declared_variables@[k] as int].name by {
                        assert(before_self.scopes@.last().declared_variables@[k] < before_ann.variables@.len());
                    }
                }
                assert forall|k: int| 0 <= k < self.scopes@.last().declared_variables@.len()
                    implies ann.variables@[#[trigger] self.scopes@.last().declared_variables@[k] as int].declared_in == f by {
                    if k < before_self.scopes@.last().declared_variables@.len() {
                        assert(self.scopes@.last().declared_variables@[k] == before_self.scopes@.last().declared_variables@[k]);
                        assert(before_self.scopes@.last().declared_variables@[k] < before_ann.variables@.len());
                    }
                }
                assert forall|j: int| 0 <= j < parameters@.len() implies parameter_resolved(#[trigger] parameters@[j], d) by {
                    assert(parameter_resolved(before_parameters[j], d));
                }
                let name = parameters@[i as int].variable_name;
                before_self.lemma_declare_extends(self, &before_ann, ann, v, name);
                assert(parameters@.take(i as int) =~= before_parameters.take(i as int));
                assert(parameter_declarations(parameters@.take(i + 1)) =~= parameter_declarations(parameters@.take(i as int)).push((v, name)));
                assert(d.push(parameter_declarations(parameters@.take(i as int))).drop_last() =~= d);
            }
            i += 1;
        }
        proof {
            assert(parameters@.take(i as int) =~= parameters@);
            assert(parameter_names(parameters@) =~= parameter_names(old_parameters@));
        }
        assert(*block == old_block);
        let ghost pd = parameter_declarations(parameters@);
        let ghost params_ann = *ann;
        let declared = self.find_declarations_in_block(ann, block);
        let ghost before_block = *self;
        let ghost before_block_ann = *ann;
        proof {
            assert(arena_grows(&params_ann, &before_block_ann));
            lemma_function_kept(params_ann, before_block_ann, current, f);
            assert(decreases_to!(*old(expression) => old(expression)->Function_block));
            assert(d.push(pd).drop_last() =~= d);
        }
        self.analyze_block(ann, names, block, &declared);
        proof {
            lemma_parameters_all(old_parameters@, env);
            lemma_parameter_declaration_names(parameters@);
            lemma_declared_lets_names(old_block@, declared@);
            assert(d.push(pd).drop_last() =~= d);
            assert(before_block.scope_declarations(&before_block_ann) == d.push(pd + declared_lets(old_block@, declared@)));
            lemma_scope_names_push(d, pd, declared_lets(old_block@, declared@));
            assert(scope_names(before_block.scope_declarations(&before_block_ann))
                == env.push(parameter_names(old_parameters@) + let_names(old_block@)));
            lemma_reported_then(entry_self.errors@, mid_self.errors@, self.errors@, names@,
                parameters_unresolved(old_parameters@, env), statements_unresolved(old_block@,
                    env.push(parameter_names(old_parameters@) + let_names(old_block@))));
            lemma_declared_lets(old_block@, block@, declared@);
            assert(d.push(pd + let_declarations(block@)) =~= d.push(pd).drop_last().push(d.push(pd).last() + declared_lets(old_block@, declared@)));
        }
        self.pop_scope(ann);
        proof {
            assert(self.scopes@ =~= entry_self.scopes@);
            assert forall|s: int, k: int|
                0 <= s < self.scopes@.len() && 0 <= k < self.scopes@[s].declared_variables@.len() implies
                    ann.variables@[self.scopes@[s].declared_variables@[k] as int].declared_in != self.frames@.last() by {
                let w = self.scopes@[s].declared_variables@[k];
                assert(w == entry_self.scopes@[s].declared_variables@[k]);
                assert(w < entry_ann.variables@.len());
                assert(entry_ann.variables@[w as int].declared_in < entry_ann.frames@.len());
            }
        }
        self.pop_frame(ann);
        proof {
            assert(self.frames@ =~= entry_self.frames@);
            if expression_no_while_else(*old(expression)) && self.errors@.len() == entry_self.errors@.len() {
                assert(forall|j: int| 0 <= j < old_block@.len() ==> statement_no_while_else(#[trigger] old_block@[j]));
                assert(before_block.errors@.len() == entry_self.errors@.len());
                lemma_function_kept(before_block_ann, *ann, current, f);
                assert forall|j: int| 0 <= j < parameters@.len() implies (#[trigger] parameters@[j]).variable < ann.variables@.len() by {
                    assert(parameters@[j].variable < before_block_ann.variables@.len());
                }
            }
            assert(forall|j: int| 0 <= j < parameters@.len() ==> parameter_resolved(#[trigger] parameters@[j], d));
            assert(block_resolved(block@, d, pd));
            assert(pd == parameter_declarations(parameters@));
        }
    }
}

} // verus!
