//! Functions: their compiled definitions, and the closures made of them.

use vstd::prelude::*;
use std::rc::Rc;
use crate::lang::identifier::Identifier;
use crate::lang::value::Value;
use crate::vm::bytecode::code::Code;

verus! {

/// Where a parameter is stored in the function's frame.
pub enum FunctionParameterStorage {
    LocalFunctionParameterStorage(usize),
    SharedLocalFunctionParameterStorage(usize),
}

pub struct FunctionParameterDefinition {
    pub name: Identifier,
    pub storage: FunctionParameterStorage,
}

/// How a closure captures a variable: from which slot of the creating frame
/// to which slot of the closure.
pub enum FunctionBindingDefinition {
    LocalToStaticBoundBinding(usize, usize),
    SharedLocalToSharedBoundBinding(usize, usize),
    StaticBoundToStaticBoundBinding(usize, usize),
    SharedBoundToSharedBoundBinding(usize, usize),
}

/// The binding stores a static copy in the closure.
pub open spec fn is_static_binding(binding: FunctionBindingDefinition) -> bool {
    binding is LocalToStaticBoundBinding || binding is StaticBoundToStaticBoundBinding
}

/// How many of the first `n` bindings store a static copy.
pub open spec fn count_static(bindings: Seq<FunctionBindingDefinition>, n: int) -> nat
    decreases n,
{
    if n <= 0 {
        0
    } else {
        count_static(bindings, n - 1) + if is_static_binding(bindings[n - 1]) {
            1nat
        } else {
            0nat
        }
    }
}

/// At most `n` of the first `n` bindings store a static copy.
pub proof fn lemma_count_static_bound(bindings: Seq<FunctionBindingDefinition>, n: int)
    requires
        0 <= n,
    ensures
        count_static(bindings, n) <= n,
    decreases n,
{
    if n > 0 {
        lemma_count_static_bound(bindings, n - 1);
    }
}

pub struct FunctionDefinition {
    pub parameters: Vec<FunctionParameterDefinition>,
    pub bindings: Vec<FunctionBindingDefinition>,
    pub code: Box<Code>,
    pub n_static_bound_variables: usize,
}

impl FunctionDefinition {
    /// A definition, counting its bindings that store a static copy.
    pub fn new(code: Box<Code>, parameters: Vec<FunctionParameterDefinition>, bindings: Vec<FunctionBindingDefinition>) -> (d: FunctionDefinition)
        ensures
            d.parameters@ == parameters@,
            d.bindings@ == bindings@,
            d.code == code,
            d.n_static_bound_variables == count_static(bindings@, bindings@.len() as int),
            d.n_static_bound_variables <= d.bindings@.len(),
    {
        let mut n: usize = 0;
        let mut i: usize = 0;
        while i < bindings.len()
            invariant
                i <= bindings@.len(),
                n == count_static(bindings@, i as int),
            decreases bindings@.len() - i,
        {
            proof {
                lemma_count_static_bound(bindings@, i as int);
            }
            match bindings[i] {
                FunctionBindingDefinition::LocalToStaticBoundBinding(..)
                | FunctionBindingDefinition::StaticBoundToStaticBoundBinding(..) => {
                    n += 1;
                },
                _ => {},
            }
            i += 1;
        }
        proof {
            lemma_count_static_bound(bindings@, bindings@.len() as int);
        }
        FunctionDefinition { parameters, bindings, code, n_static_bound_variables: n }
    }
}

/// A function value: a definition and the variables its closure captured,
/// all nothing until the closure is filled in.
pub struct Function {
    pub definition: Rc<FunctionDefinition>,
    pub static_bound_variables: Vec<Value>,
    pub shared_bound_variables: Vec<Rc<Value>>,
}

impl Function {
    pub fn new(definition: Rc<FunctionDefinition>) -> (f: Function)
        requires
            definition.n_static_bound_variables <= definition.bindings@.len(),
        ensures
            f.definition == definition,
            f.static_bound_variables@.len() == definition.n_static_bound_variables,
            forall|i: int| 0 <= i < f.static_bound_variables@.len() ==> #[trigger] f.static_bound_variables@[i] is Nothing,
            f.shared_bound_variables@.len() == definition.bindings@.len() - definition.n_static_bound_variables,
            forall|i: int| 0 <= i < f.shared_bound_variables@.len() ==> *#[trigger] f.shared_bound_variables@[i] is Nothing,
    {
        let n_bindings = definition.bindings.len();
        let n_static = definition.n_static_bound_variables;
        let n_shared = n_bindings - n_static;
        let mut static_bound_variables: Vec<Value> = Vec::new();
        let mut i: usize = 0;
        while i < n_static
            invariant
                i <= n_static,
                static_bound_variables@.len() == i,
                forall|j: int| 0 <= j < i ==> #[trigger] static_bound_variables@[j] is Nothing,
            decreases n_static - i,
        {
            static_bound_variables.push(Value::Nothing);
            i += 1;
        }
        let mut shared_bound_variables: Vec<Rc<Value>> = Vec::new();
        let mut i: usize = 0;
        while i < n_shared
            invariant
                i <= n_shared,
                shared_bound_variables@.len() == i,
                forall|j: int| 0 <= j < i ==> *#[trigger] shared_bound_variables@[j] is Nothing,
            decreases n_shared - i,
        {
            shared_bound_variables.push(Rc::new(Value::Nothing));
            i += 1;
        }
        Function { definition, static_bound_variables, shared_bound_variables }
    }
}

} // verus!
