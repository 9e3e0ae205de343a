//! Modules: named values, and named modules nested in them; a module can be
//! locked, after which nothing more is added to it.

use vstd::prelude::*;
use crate::lang::identifier::{Identifier, IdentifierTable};
use crate::lang::value::Value;

verus! {

/// The value last given to `name` in `entries`, if any.
pub open spec fn entry_of<T>(entries: Seq<(Identifier, T)>, name: Identifier) -> Option<T>
    decreases entries.len(),
{
    if entries.len() == 0 {
        None
    } else if entries.last().0 == name {
        Some(entries.last().1)
    } else {
        entry_of(entries.drop_last(), name)
    }
}

/// A module. Its contents name values (a nested module is named there too,
/// by its position among the nested modules).
pub struct Module {
    contents: Vec<(Identifier, Value)>,
    modules: Vec<(Identifier, Module)>,
    locked: bool,
}

impl Module {
    /// What `name` names in the module.
    pub closed spec fn content(&self, name: Identifier) -> Option<Value> {
        entry_of(self.contents@, name)
    }

    /// The module nested under `name`.
    pub closed spec fn module(&self, name: Identifier) -> Option<Module> {
        entry_of(self.modules@, name)
    }

    pub closed spec fn is_locked(&self) -> bool {
        self.locked
    }

    /// An empty, unlocked module.
    pub fn new() -> (m: Module)
        ensures
            forall|n: Identifier| m.content(n) is None && m.module(n) is None,
            !m.is_locked(),
    {
        Module { contents: Vec::new(), modules: Vec::new(), locked: false }
    }

    /// Nests `module` under `name`, which then names it in the contents.
    pub fn add_module_with_id(&mut self, name: Identifier, module: Module)
        requires
            !old(self).is_locked(),
        ensures
            !final(self).is_locked(),
            final(self).module(name) == Some(module),
            final(self).content(name) matches Some(Value::Module(_)),
            forall|n: Identifier| n != name ==> final(self).module(n) == old(self).module(n)
                && final(self).content(n) == old(self).content(n),
    {
        let position = self.modules.len();
        self.modules.push((name, module));
        self.contents.push((name, Value::Module(position)));
        proof {
            assert(self.modules@.drop_last() =~= old(self).modules@);
            assert(self.contents@.drop_last() =~= old(self).contents@);
        }
    }

    /// As `add_module_with_id`, with the name given by its text.
    pub fn add_module(&mut self, names: &mut IdentifierTable, name: &str, module: Module) -> (id: Identifier)
        requires
            !old(self).is_locked(),
            old(names).wf(),
        ensures
            final(names).wf(),
            final(names).has(id),
            final(names)@[id.index as int] == name@,
            old(names)@.is_prefix_of(final(names)@),
            !final(self).is_locked(),
            final(self).module(id) == Some(module),
            final(self).content(id) matches Some(Value::Module(_)),
            forall|n: Identifier| n != id ==> final(self).module(n) == old(self).module(n)
                && final(self).content(n) == old(self).content(n),
    {
        let id = names.find_or_create(name);
        self.add_module_with_id(id, module);
        id
    }

    /// Names `value` `name`, in place of what `name` named.
    pub fn add_with_id(&mut self, name: Identifier, value: Value)
        requires
            !old(self).is_locked(),
        ensures
            !final(self).is_locked(),
            final(self).content(name) == Some(value),
            forall|n: Identifier| n != name ==> final(self).content(n) == old(self).content(n),
            forall|n: Identifier| final(self).module(n) == old(self).module(n),
    {
        self.contents.push((name, value));
        proof {
            assert(self.contents@.drop_last() =~= old(self).contents@);
        }
    }

    /// As `add_with_id`, with the name given by its text.
    pub fn add(&mut self, names: &mut IdentifierTable, name: &str, value: Value) -> (id: Identifier)
        requires
            !old(self).is_locked(),
            old(names).wf(),
        ensures
            final(names).wf(),
            final(names).has(id),
            final(names)@[id.index as int] == name@,
            old(names)@.is_prefix_of(final(names)@),
            !final(self).is_locked(),
            final(self).content(id) == Some(value),
            forall|n: Identifier| n != id ==> final(self).content(n) == old(self).content(n),
            forall|n: Identifier| final(self).module(n) == old(self).module(n),
    {
        let id = names.find_or_create(name);
        self.add_with_id(id, value);
        id
    }

    /// Whether `name` names something in the module.
    pub fn has_id(&self, name: Identifier) -> (r: bool)
        ensures
            r == self.content(name) is Some,
    {
        let mut k = self.contents.len();
        proof {
            assert(self.contents@.take(k as int) =~= self.contents@);
        }
        while k > 0
            invariant
                k <= self.contents@.len(),
                entry_of(self.contents@, name) == entry_of(self.contents@.take(k as int), name),
            decreases k,
        {
            let ghost prefix = self.contents@.take(k as int);
            assert(prefix.drop_last() =~= self.contents@.take(k - 1));
            if self.contents[k - 1].0 == name {
                return true;
            }
            k -= 1;
        }
        false
    }

    /// As `has_id`, with the name given by its text.
    pub fn has(&self, names: &mut IdentifierTable, name: &str) -> (r: bool)
        requires
            old(names).wf(),
        ensures
            final(names).wf(),
            exists|id: Identifier| final(names).has(id) && final(names)@[id.index as int] == name@
                && r == self.content(id) is Some,
    {
        let id = names.find_or_create(name);
        self.has_id(id)
    }

    /// Locks the module: nothing more is added to it.
    pub fn lock(&mut self)
        requires
            !old(self).is_locked(),
        ensures
            final(self).is_locked(),
            forall|n: Identifier| final(self).content(n) == old(self).content(n) && final(self).module(n) == old(self).module(n),
    {
        self.locked = true;
    }

    /// What `identifier` names, or, when it names nothing, the value thrown
    /// for that (nothing).
    pub fn find_id(&self, identifier: Identifier) -> (r: Result<Value, Value>)
        ensures
            match self.content(identifier) {
                Some(v) => r == Ok::<Value, Value>(v),
                None => r == Err::<Value, Value>(Value::Nothing),
            },
    {
        let mut k = self.contents.len();
        proof {
            assert(self.contents@.take(k as int) =~= self.contents@);
        }
        while k > 0
            invariant
                k <= self.contents@.len(),
                entry_of(self.contents@, identifier) == entry_of(self.contents@.take(k as int), identifier),
            decreases k,
        {
            let ghost prefix = self.contents@.take(k as int);
            assert(prefix.drop_last() =~= self.contents@.take(k - 1));
            if self.contents[k - 1].0 == identifier {
                return Ok(self.contents[k - 1].1.copy());
            }
            k -= 1;
        }
        Err(Value::Nothing)
    }

    /// What `name` names, which it must.
    pub fn get_id(&self, name: Identifier) -> (v: Value)
        requires
            self.content(name) is Some,
        ensures
            self.content(name) == Some(v),
    {
        match self.find_id(name) {
            Ok(v) => v,
            Err(e) => e,
        }
    }

    /// As `get_id`, with the name given by its text.
    pub fn get(&self, names: &mut IdentifierTable, name: &str) -> (v: Option<Value>)
        requires
            old(names).wf(),
        ensures
            final(names).wf(),
            exists|id: Identifier| final(names).has(id) && final(names)@[id.index as int] == name@
                && v == self.content(id),
    {
        let id = names.find_or_create(name);
        match self.find_id(id) {
            Ok(v) => Some(v),
            Err(_) => None,
        }
    }

    /// The module nested under `name`, which there must be.
    pub fn get_module_id(&self, name: Identifier) -> (m: &Module)
        requires
            self.module(name) is Some,
        ensures
            self.module(name) == Some(*m),
    {
        let mut k = self.modules.len();
        proof {
            assert(self.modules@.take(k as int) =~= self.modules@);
        }
        while k > 0
            invariant
                k <= self.modules@.len(),
                entry_of(self.modules@, name) == entry_of(self.modules@.take(k as int), name),
                entry_of(self.modules@, name) is Some,
            decreases k,
        {
            let ghost prefix = self.modules@.take(k as int);
            assert(prefix.drop_last() =~= self.modules@.take(k - 1));
            if self.modules[k - 1].0 == name {
                return &self.modules[k - 1].1;
            }
            k -= 1;
        }
        proof {
            assert(self.modules@.take(0).len() == 0);
        }
        &self.modules[0].1
    }
}

} // verus!
