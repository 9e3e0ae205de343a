//! The types that every program can name without importing them.

use vstd::prelude::*;
use vstd::string::*;
use crate::lang::value::Value;
use crate::lang::special::{StaticSpecial, StaticSpecialDef, TypeTest};
use crate::lang::identifier::{Identifier, IdentifierTable};
use crate::lang::module::Module;

verus! {

pub open spec fn is_boolean_value(value: Value) -> bool {
    value is Boolean
}

pub open spec fn is_integer_value(value: Value) -> bool {
    value is Integer
}

pub open spec fn is_float_value(value: Value) -> bool {
    value is Float
}

pub open spec fn is_number_value(value: Value) -> bool {
    value is Integer || value is Float
}

pub open spec fn is_string_value(value: Value) -> bool {
    value is String
}

/// `value` can be used as a type: a union or intersection of types, or a
/// special that is a type.
pub open spec fn is_type_value(value: Value) -> bool {
    match value {
        Value::TypeUnion(..) => true,
        Value::TypeIntersection(..) => true,
        Value::StaticSpecial(s) => s.definition().type_test != TypeTest::NotAType,
        _ => false,
    }
}

pub fn boolean() -> (def: StaticSpecialDef)
    ensures
        def.repr@ == "Boolean"@,
        def.type_test == TypeTest::Boolean,
{
    StaticSpecialDef { repr: "Boolean", type_test: TypeTest::Boolean }
}

pub fn is_boolean(value: &Value) -> (r: bool)
    ensures
        r == is_boolean_value(*value),
{
    match value {
        Value::Boolean(..) => true,
        _ => false,
    }
}

pub fn integer() -> (def: StaticSpecialDef)
    ensures
        def.repr@ == "Integer"@,
        def.type_test == TypeTest::Integer,
{
    StaticSpecialDef { repr: "Integer", type_test: TypeTest::Integer }
}

pub fn is_integer(value: &Value) -> (r: bool)
    ensures
        r == is_integer_value(*value),
{
    match value {
        Value::Integer(..) => true,
        _ => false,
    }
}

pub fn float() -> (def: StaticSpecialDef)
    ensures
        def.repr@ == "Float"@,
        def.type_test == TypeTest::Float,
{
    StaticSpecialDef { repr: "Float", type_test: TypeTest::Float }
}

pub fn is_float(value: &Value) -> (r: bool)
    ensures
        r == is_float_value(*value),
{
    match value {
        Value::Float(..) => true,
        _ => false,
    }
}

pub fn number() -> (def: StaticSpecialDef)
    ensures
        def.repr@ == "Number"@,
        def.type_test == TypeTest::Number,
{
    StaticSpecialDef { repr: "Number", type_test: TypeTest::Number }
}

pub fn is_number(value: &Value) -> (r: bool)
    ensures
        r == is_number_value(*value),
{
    match value {
        Value::Integer(..) | Value::Float(..) => true,
        _ => false,
    }
}

pub fn string() -> (def: StaticSpecialDef)
    ensures
        def.repr@ == "String"@,
        def.type_test == TypeTest::String,
{
    StaticSpecialDef { repr: "String", type_test: TypeTest::String }
}

pub fn is_string(value: &Value) -> (r: bool)
    ensures
        r == is_string_value(*value),
{
    match value {
        Value::String(..) => true,
        _ => false,
    }
}

pub fn type_() -> (def: StaticSpecialDef)
    ensures
        def.repr@ == "Type"@,
        def.type_test == TypeTest::Type,
{
    StaticSpecialDef { repr: "Type", type_test: TypeTest::Type }
}

pub fn is_type(value: &Value) -> (r: bool)
    ensures
        r == is_type_value(*value),
{
    match value {
        Value::TypeUnion(..) => true,
        Value::TypeIntersection(..) => true,
        Value::StaticSpecial(special) => special.is_type(),
        Value::RcSpecial(r) => {
            use_special_is_type(&**r)
        },
        _ => false,
    }
}

fn use_special_is_type(special: &crate::lang::special::RcSpecial) -> (r: bool)
    ensures
        !r,
{
    crate::lang::special::Special::is_type(special)
}

/// `m` names, under the identifier of `text` in `names`, the type whose test is
/// `test`.
pub open spec fn names_type(m: Module, names: Seq<Seq<char>>, text: Seq<char>, test: TypeTest) -> bool {
    exists|id: Identifier| {
        &&& id.index < names.len()
        &&& names[id.index as int] == text
        &&& (#[trigger] m.content(id)) matches Some(Value::StaticSpecial(s)) && s.definition().repr@ == text
            && s.definition().type_test == test
    }
}

/// What a module names stays named as the identifier table grows and the
/// module changes only under other names.
pub proof fn lemma_names_type_kept(m1: Module, m2: Module, n1: Seq<Seq<char>>, n2: Seq<Seq<char>>, text: Seq<char>, test: TypeTest)
    requires
        names_type(m1, n1, text, test),
        n1.is_prefix_of(n2),
        forall|n: Identifier| #[trigger] m2.content(n) != m1.content(n) ==> n.index < n2.len() && n2[n.index as int] != text,
    ensures
        names_type(m2, n2, text, test),
{
    let id = choose|id: Identifier| {
        &&& id.index < n1.len()
        &&& n1[id.index as int] == text
        &&& (#[trigger] m1.content(id)) matches Some(Value::StaticSpecial(s)) && s.definition().repr@ == text
            && s.definition().type_test == test
    };
    assert(n2[id.index as int] == text);
    assert(m2.content(id) == m1.content(id));
}

/// Adds `Boolean`, `Integer`, `Float`, `Number`, `String` and `Type` to
/// `module`, each naming its type.
pub fn add_types(module: &mut Module, names: &mut IdentifierTable)
    requires
        !old(module).is_locked(),
        old(names).wf(),
    ensures
        final(names).wf(),
        old(names)@.is_prefix_of(final(names)@),
        !final(module).is_locked(),
        forall|n: Identifier| final(module).module(n) == old(module).module(n),
        names_type(*final(module), final(names)@, "Boolean"@, TypeTest::Boolean),
        names_type(*final(module), final(names)@, "Integer"@, TypeTest::Integer),
        names_type(*final(module), final(names)@, "Float"@, TypeTest::Float),
        names_type(*final(module), final(names)@, "Number"@, TypeTest::Number),
        names_type(*final(module), final(names)@, "String"@, TypeTest::String),
        names_type(*final(module), final(names)@, "Type"@, TypeTest::Type),
{
    proof {
        reveal_strlit("Boolean");
        reveal_strlit("Integer");
        reveal_strlit("Float");
        reveal_strlit("Number");
        reveal_strlit("String");
        reveal_strlit("Type");
    }
    let b = module.add(names, "Boolean", Value::StaticSpecial(StaticSpecial::new(boolean())));
    let ghost n1 = names@;
    let i = module.add(names, "Integer", Value::StaticSpecial(StaticSpecial::new(integer())));
    let ghost n2 = names@;
    let f = module.add(names, "Float", Value::StaticSpecial(StaticSpecial::new(float())));
    let ghost n3 = names@;
    let n = module.add(names, "Number", Value::StaticSpecial(StaticSpecial::new(number())));
    let ghost n4 = names@;
    let s = module.add(names, "String", Value::StaticSpecial(StaticSpecial::new(string())));
    let ghost n5 = names@;
    let t = module.add(names, "Type", Value::StaticSpecial(StaticSpecial::new(type_())));
    proof {
        let all = names@;
        assert(n1.is_prefix_of(n2) && n2.is_prefix_of(n3) && n3.is_prefix_of(n4) && n4.is_prefix_of(n5) && n5.is_prefix_of(all));
        assert(all[b.index as int] == "Boolean"@);
        assert(all[i.index as int] == "Integer"@);
        assert(all[f.index as int] == "Float"@);
        assert(all[n.index as int] == "Number"@);
        assert(all[s.index as int] == "String"@);
        assert(all[t.index as int] == "Type"@);
        assert("Boolean"@[0] == 'B' && "Integer"@[0] == 'I' && "Float"@[0] == 'F' && "Number"@[0] == 'N'
            && "String"@[0] == 'S' && "Type"@[0] == 'T');
        assert(b != i && b != f && b != n && b != s && b != t);
        assert(i != f && i != n && i != s && i != t);
        assert(f != n && f != s && f != t);
        assert(n != s && n != t && s != t);
        assert(module.content(b) is Some);
        assert(module.content(i) is Some);
        assert(module.content(f) is Some);
        assert(module.content(n) is Some);
        assert(module.content(s) is Some);
        assert(module.content(t) is Some);
    }
}

/// The module of the implicit names, locked: `Boolean`, `Integer`, `Float`,
/// `Number`, `String` and `Type`, each naming its type.
pub fn create_module(names: &mut IdentifierTable) -> (m: Module)
    requires
        old(names).wf(),
    ensures
        final(names).wf(),
        m.is_locked(),
        old(names)@.is_prefix_of(final(names)@),
        names_type(m, final(names)@, "Boolean"@, TypeTest::Boolean),
        names_type(m, final(names)@, "Integer"@, TypeTest::Integer),
        names_type(m, final(names)@, "Float"@, TypeTest::Float),
        names_type(m, final(names)@, "Number"@, TypeTest::Number),
        names_type(m, final(names)@, "String"@, TypeTest::String),
        names_type(m, final(names)@, "Type"@, TypeTest::Type),
{
    let mut implicit = Module::new();
    add_types(&mut implicit, names);
    let ghost before = implicit;
    implicit.lock();
    proof {
        let all = names@;
        lemma_names_type_kept(before, implicit, all, all, "Boolean"@, TypeTest::Boolean);
        lemma_names_type_kept(before, implicit, all, all, "Integer"@, TypeTest::Integer);
        lemma_names_type_kept(before, implicit, all, all, "Float"@, TypeTest::Float);
        lemma_names_type_kept(before, implicit, all, all, "Number"@, TypeTest::Number);
        lemma_names_type_kept(before, implicit, all, all, "String"@, TypeTest::String);
        lemma_names_type_kept(before, implicit, all, all, "Type"@, TypeTest::Type);
    }
    implicit
}

} // verus!
