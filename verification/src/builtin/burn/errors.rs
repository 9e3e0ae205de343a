//! The errors that the language throws.

use vstd::prelude::*;
use vstd::string::*;
use crate::lang::value::Value;
use crate::lang::special::{StaticSpecial, StaticSpecialDef, TypeTest, RcSpecial};
use crate::lang::identifier::IdentifierTable;
use crate::lang::module::Module;
use crate::builtin::burn::implicit::names_type;

verus! {

/// `value` is a type error.
pub open spec fn is_type_error_value(value: Value) -> bool {
    value matches Value::RcSpecial(r) && *r is TypeError
}

/// `value` is an argument error.
pub open spec fn is_argument_error_value(value: Value) -> bool {
    value matches Value::RcSpecial(r) && *r is ArgumentError
}

/// `TypeError`: the type of the errors thrown when an operation is given a
/// value of the wrong type.
pub fn type_error() -> (def: StaticSpecialDef)
    ensures
        def.repr@ == "TypeError"@,
        def.type_test == TypeTest::TypeError,
{
    StaticSpecialDef { repr: "TypeError", type_test: TypeTest::TypeError }
}

pub fn is_type_error(value: &Value) -> (r: bool)
    ensures
        r == is_type_error_value(*value),
{
    match value {
        Value::RcSpecial(r) => match **r {
            RcSpecial::TypeError { .. } => true,
            _ => false,
        },
        _ => false,
    }
}

/// A type error that says `message`.
pub fn create_type_error(message: std::string::String) -> (error: Value)
    ensures
        error matches Value::RcSpecial(r) && *r matches RcSpecial::TypeError { message: m } && m@ == message@,
{
    Value::RcSpecial(Box::new(RcSpecial::TypeError { message: crate::lang::string::String::new(message) }))
}

/// `ArgumentError`: the type of the errors thrown when a function is given
/// arguments it cannot take.
pub fn argument_error() -> (def: StaticSpecialDef)
    ensures
        def.repr@ == "ArgumentError"@,
        def.type_test == TypeTest::ArgumentError,
{
    StaticSpecialDef { repr: "ArgumentError", type_test: TypeTest::ArgumentError }
}

pub fn is_argument_error(value: &Value) -> (r: bool)
    ensures
        r == is_argument_error_value(*value),
{
    match value {
        Value::RcSpecial(r) => match **r {
            RcSpecial::ArgumentError { .. } => true,
            _ => false,
        },
        _ => false,
    }
}

/// The module of the errors, locked: `TypeError` and `ArgumentError`, each
/// naming its type.
pub fn create_module(names: &mut IdentifierTable) -> (m: Module)
    requires
        old(names).wf(),
    ensures
        final(names).wf(),
        m.is_locked(),
        old(names)@.is_prefix_of(final(names)@),
        names_type(m, final(names)@, "TypeError"@, TypeTest::TypeError),
        names_type(m, final(names)@, "ArgumentError"@, TypeTest::ArgumentError),
{
    proof {
        reveal_strlit("TypeError");
        reveal_strlit("ArgumentError");
    }
    let mut errors = Module::new();
    let t = errors.add(names, "TypeError", Value::StaticSpecial(StaticSpecial::new(type_error())));
    let ghost n1 = names@;
    let a = errors.add(names, "ArgumentError", Value::StaticSpecial(StaticSpecial::new(argument_error())));
    errors.lock();
    proof {
        let all = names@;
        assert(n1.is_prefix_of(all));
        assert(all[t.index as int] == "TypeError"@);
        assert(all[a.index as int] == "ArgumentError"@);
        assert("TypeError"@[0] == 'T' && "ArgumentError"@[0] == 'A');
        assert(t != a);
        assert(errors.content(t) is Some);
        assert(errors.content(a) is Some);
    }
    errors
}

} // verus!
