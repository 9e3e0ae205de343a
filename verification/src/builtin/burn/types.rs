//! The types of the `burn.types` module.

use vstd::prelude::*;
use vstd::string::*;
use crate::lang::value::Value;
use crate::lang::special::{StaticSpecial, StaticSpecialDef, TypeTest, Special};
use crate::lang::identifier::IdentifierTable;
use crate::lang::module::Module;
use crate::builtin::burn::implicit::names_type;

verus! {

/// `value` can be thrown: it is an error.
pub open spec fn is_throwable_value(value: Value) -> bool {
    value is RcSpecial
}

pub fn throwable() -> (def: StaticSpecialDef)
    ensures
        def.repr@ == "Throwable"@,
        def.type_test == TypeTest::Throwable,
{
    StaticSpecialDef { repr: "Throwable", type_test: TypeTest::Throwable }
}

pub fn is_throwable(value: &Value) -> (r: bool)
    ensures
        r == is_throwable_value(*value),
{
    match value {
        Value::RcSpecial(r) => r.is_throwable(),
        _ => false,
    }
}

/// The module of the types, locked: `Throwable`, naming its type.
pub fn create_module(names: &mut IdentifierTable) -> (m: Module)
    requires
        old(names).wf(),
    ensures
        final(names).wf(),
        m.is_locked(),
        old(names)@.is_prefix_of(final(names)@),
        names_type(m, final(names)@, "Throwable"@, TypeTest::Throwable),
{
    let mut types = Module::new();
    let t = types.add(names, "Throwable", Value::StaticSpecial(StaticSpecial::new(throwable())));
    types.lock();
    proof {
        assert(types.content(t) is Some);
    }
    types
}

} // verus!
