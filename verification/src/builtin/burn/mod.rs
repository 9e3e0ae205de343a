//! The built-in types and errors of the `burn` module.

pub mod errors;
pub mod implicit;
pub mod types;

use vstd::prelude::*;
use crate::lang::identifier::{Identifier, IdentifierTable};
use crate::lang::module::Module;
use crate::lang::value::Value;
use crate::lang::special::{StaticSpecial, TypeTest};
use crate::builtin::burn::implicit::{names_type, lemma_names_type_kept};

verus! {

/// `m` nests, under the identifier of `text` in `names`, a module of which
/// `holds` is true.
pub open spec fn nests(m: Module, names: Seq<Seq<char>>, text: Seq<char>, holds: spec_fn(Module) -> bool) -> bool {
    exists|id: Identifier| {
        &&& id.index < names.len()
        &&& names[id.index as int] == text
        &&& (#[trigger] m.module(id)) matches Some(sub) && holds(sub)
    }
}

/// The module of the types: locked, `Throwable` naming its type.
pub open spec fn is_types_module(m: Module, names: Seq<Seq<char>>) -> bool {
    &&& m.is_locked()
    &&& names_type(m, names, "Throwable"@, TypeTest::Throwable)
}

/// The module of the errors: locked, `TypeError` and `ArgumentError` naming
/// their types.
pub open spec fn is_errors_module(m: Module, names: Seq<Seq<char>>) -> bool {
    &&& m.is_locked()
    &&& names_type(m, names, "TypeError"@, TypeTest::TypeError)
    &&& names_type(m, names, "ArgumentError"@, TypeTest::ArgumentError)
}

/// The module of the names every program sees: locked, `Boolean`,
/// `Integer`, `Float`, `Number`, `String`, `Type`, `ArgumentError` and
/// `TypeError` naming their types.
pub open spec fn is_implicit_module(m: Module, names: Seq<Seq<char>>) -> bool {
    &&& m.is_locked()
    &&& names_type(m, names, "Boolean"@, TypeTest::Boolean)
    &&& names_type(m, names, "Integer"@, TypeTest::Integer)
    &&& names_type(m, names, "Float"@, TypeTest::Float)
    &&& names_type(m, names, "Number"@, TypeTest::Number)
    &&& names_type(m, names, "String"@, TypeTest::String)
    &&& names_type(m, names, "Type"@, TypeTest::Type)
    &&& names_type(m, names, "ArgumentError"@, TypeTest::ArgumentError)
    &&& names_type(m, names, "TypeError"@, TypeTest::TypeError)
}

/// The `burn` module, locked: it nests the modules `types`, `errors` and
/// `implicit`; `implicit` holds the implicit types and the two errors.
pub fn create_module(names: &mut IdentifierTable) -> (m: Module)
    requires
        old(names).wf(),
    ensures
        final(names).wf(),
        m.is_locked(),
        nests(m, final(names)@, "types"@, |sub: Module| is_types_module(sub, final(names)@)),
        nests(m, final(names)@, "errors"@, |sub: Module| is_errors_module(sub, final(names)@)),
        nests(m, final(names)@, "implicit"@, |sub: Module| is_implicit_module(sub, final(names)@)),
{
    proof {
        reveal_strlit("types");
        reveal_strlit("errors");
        reveal_strlit("implicit");
        reveal_strlit("Boolean");
        reveal_strlit("Integer");
        reveal_strlit("Float");
        reveal_strlit("Number");
        reveal_strlit("String");
        reveal_strlit("Type");
        reveal_strlit("ArgumentError");
        reveal_strlit("TypeError");
    }
    let ghost n0 = names@;
    let types = types::create_module(names);
    let ghost nt = names@;
    let errors = errors::create_module(names);
    let ghost ne = names@;
    let mut implicit = Module::new();
    implicit::add_types(&mut implicit, names);
    let ghost m0 = implicit;
    let ghost na = names@;
    let a = implicit.add(names, "ArgumentError", Value::StaticSpecial(StaticSpecial::new(errors::argument_error())));
    let ghost m1 = implicit;
    let ghost nb = names@;
    let e = implicit.add(names, "TypeError", Value::StaticSpecial(StaticSpecial::new(errors::type_error())));
    let ghost m2 = implicit;
    implicit.lock();
    let ghost imp = implicit;
    let ghost ni = names@;
    let mut burn = Module::new();
    let t = burn.add_module(names, "types", types);
    let ghost n1 = names@;
    let r = burn.add_module(names, "errors", errors);
    let ghost n2 = names@;
    let i = burn.add_module(names, "implicit", implicit);
    burn.lock();
    proof {
        let all = names@;
        assert(nt.is_prefix_of(ne) && ne.is_prefix_of(na) && na.is_prefix_of(nb) && nb.is_prefix_of(ni));
        assert(ni.is_prefix_of(n1) && n1.is_prefix_of(n2) && n2.is_prefix_of(all));
        assert(all[t.index as int] == "types"@);
        assert(all[r.index as int] == "errors"@);
        assert(all[i.index as int] == "implicit"@);
        assert("types"@[0] == 't' && "errors"@[0] == 'e' && "implicit"@[0] == 'i');
        assert(t != r && t != i && r != i);
        lemma_names_type_kept(types, types, nt, all, "Throwable"@, TypeTest::Throwable);
        lemma_names_type_kept(errors, errors, ne, all, "TypeError"@, TypeTest::TypeError);
        lemma_names_type_kept(errors, errors, ne, all, "ArgumentError"@, TypeTest::ArgumentError);
        assert(nb[a.index as int] == "ArgumentError"@);
        assert(ni[e.index as int] == "TypeError"@);
        assert(all[a.index as int] == "ArgumentError"@ && a.index < all.len());
        assert(all[e.index as int] == "TypeError"@ && e.index < all.len());
        assert forall|n: Identifier| #[trigger] imp.content(n) != m0.content(n) implies n == a || n == e by {
            if n != a && n != e {
                assert(imp.content(n) == m2.content(n));
                assert(m2.content(n) == m1.content(n));
                assert(m1.content(n) == m0.content(n));
            }
        }
        assert forall|n: Identifier| #[trigger] imp.content(n) != m1.content(n) implies n == e by {
            if n != e {
                assert(imp.content(n) == m2.content(n));
                assert(m2.content(n) == m1.content(n));
            }
        }
        assert(na.is_prefix_of(all)) by {
            assert forall|k: int| 0 <= k < na.len() implies all[k] == na[k] by {
                assert(nb[k] == na[k]);
                assert(ni[k] == nb[k]);
                assert(n1[k] == ni[k]);
                assert(n2[k] == n1[k]);
            }
            assert(na =~= all.subrange(0, na.len() as int));
        }
        assert("ArgumentError"@.len() == 13 && "TypeError"@.len() == 9);
        assert("Boolean"@.len() == 7 && "Integer"@.len() == 7 && "Float"@.len() == 5);
        assert("Number"@.len() == 6 && "String"@.len() == 6 && "Type"@.len() == 4);
        lemma_names_type_kept(m0, imp, na, all, "Boolean"@, TypeTest::Boolean);
        lemma_names_type_kept(m0, imp, na, all, "Integer"@, TypeTest::Integer);
        lemma_names_type_kept(m0, imp, na, all, "Float"@, TypeTest::Float);
        lemma_names_type_kept(m0, imp, na, all, "Number"@, TypeTest::Number);
        lemma_names_type_kept(m0, imp, na, all, "String"@, TypeTest::String);
        lemma_names_type_kept(m0, imp, na, all, "Type"@, TypeTest::Type);
        assert(m1.content(a) is Some);
        lemma_names_type_kept(m1, imp, nb, all, "ArgumentError"@, TypeTest::ArgumentError);
        assert(m2.content(e) is Some);
        lemma_names_type_kept(m2, imp, ni, all, "TypeError"@, TypeTest::TypeError);
        assert(is_types_module(types, all));
        assert(is_errors_module(errors, all));
        assert(is_implicit_module(imp, all));
        assert(burn.module(t) == Some(types));
        assert(burn.module(r) == Some(errors));
        assert(burn.module(i) == Some(imp));
    }
    burn
}

} // verus!
