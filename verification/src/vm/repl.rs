//! What an interactive session keeps from one line of input to the next.

use vstd::prelude::*;
use std::rc::Rc;
use crate::lang::identifier::Identifier;
use crate::lang::value::Value;

verus! {

/// The variables declared so far in an interactive session, with their
/// values, in the order they were declared; no name occurs twice.
pub struct State {
    variables: Vec<(Identifier, Rc<Value>)>,
}

impl State {
    /// The names of the variables, in the order they were declared.
    pub closed spec fn names(&self) -> Seq<Identifier> {
        self.variables@.map_values(|e: (Identifier, Rc<Value>)| e.0)
    }

    /// The value of each variable.
    pub closed spec fn values(&self) -> Map<Identifier, Value> {
        Map::new(
            |n: Identifier| self.names().contains(n),
            |n: Identifier| *self.variables@[self.names().index_of(n)].1,
        )
    }

    /// No name occurs twice.
    pub closed spec fn wf(&self) -> bool {
        self.names().no_duplicates()
    }

    /// An empty state.
    pub fn new() -> (state: State)
        ensures
            state.wf(),
            state.names() == Seq::<Identifier>::empty(),
    {
        let state = State { variables: Vec::new() };
        proof {
            assert(state.names() =~= Seq::<Identifier>::empty());
        }
        state
    }

    /// The number of variables.
    pub fn len(&self) -> (n: usize)
        ensures
            n == self.names().len(),
    {
        self.variables.len()
    }

    /// The cell of the variable named `name`, shared, if there is one.
    pub fn find(&self, name: Identifier) -> (cell: Option<Rc<Value>>)
        requires
            self.wf(),
        ensures
            cell is Some <==> self.names().contains(name),
            cell matches Some(c) ==> *c == self.values()[name],
    {
        let mut i: usize = 0;
        while i < self.variables.len()
            invariant
                i <= self.variables@.len(),
                self.wf(),
                forall|j: int| 0 <= j < i ==> self.names()[j] != name,
            decreases self.variables@.len() - i,
        {
            if self.variables[i].0 == name {
                proof {
                    assert(self.names()[i as int] == name);
                    self.names().index_of_first_ensures(name);
                    assert(self.names().contains(name));
                }
                return Some(Rc::clone(&self.variables[i].1));
            }
            i += 1;
        }
        proof {
            if self.names().contains(name) {
                let j = choose|j: int| 0 <= j < self.names().len() && self.names()[j] == name;
                assert(self.names()[j] != name);
            }
        }
        None
    }

    /// The value of variable `i`, shared.
    pub fn value_at(&self, i: usize) -> (value: Rc<Value>)
        requires
            self.wf(),
            i < self.names().len(),
        ensures
            *value == self.values()[self.names()[i as int]],
    {
        proof {
            assert(self.names().contains(self.names()[i as int]));
            self.names().index_of_first_ensures(self.names()[i as int]);
        }
        Rc::clone(&self.variables[i].1)
    }

    /// The name of variable `i`.
    pub fn name_at(&self, i: usize) -> (name: Identifier)
        requires
            i < self.names().len(),
        ensures
            name == self.names()[i as int],
    {
        self.variables[i].0
    }

    /// Declares the variable `name`, whose value is nothing; a variable of
    /// that name that was already declared is reset to nothing.
    pub fn declare_variable(&mut self, name: Identifier)
        requires
            old(self).wf(),
        ensures
            final(self).wf(),
            old(self).names().contains(name) ==> final(self).names() == old(self).names(),
            !old(self).names().contains(name) ==> final(self).names() == old(self).names().push(name),
            final(self).values() == old(self).values().insert(name, Value::Nothing),
    {
        let ghost old_names = self.names();
        let mut i: usize = 0;
        while i < self.variables.len()
            invariant
                i <= self.variables@.len(),
                *self == *old(self),
                self.wf(),
                old_names == self.names(),
                forall|j: int| 0 <= j < i ==> self.variables@[j].0 != name,
            decreases self.variables@.len() - i,
        {
            if self.variables[i].0 == name {
                self.variables.set(i, (name, Rc::new(Value::Nothing)));
                proof {
                    assert(self.names() =~= old_names);
                    assert(old_names[i as int] == name);
                    assert(old_names.contains(name));
                    assert forall|n: Identifier| #[trigger] self.values().contains_key(n) implies
                        self.values()[n] == old(self).values().insert(name, Value::Nothing)[n] by {
                        let k = self.names().index_of(n);
                        assert(0 <= k < old_names.len() && old_names[k] == n);
                        if n == name {
                            assert(k == i);
                        } else {
                            assert(k != i);
                            assert(old(self).names().index_of(n) == k);
                        }
                    }
                    assert(self.values() =~= old(self).values().insert(name, Value::Nothing));
                }
                return;
            }
            i += 1;
        }
        proof {
            assert(!old_names.contains(name));
        }
        self.variables.push((name, Rc::new(Value::Nothing)));
        proof {
            assert(self.names() =~= old_names.push(name));
            assert(self.names()[old_names.len() as int] == name);
            assert(self.names().no_duplicates()) by {
                assert forall|a: int, b: int| 0 <= a < self.names().len() && 0 <= b < self.names().len() && a != b
                    implies self.names()[a] != self.names()[b] by {
                    if a < old_names.len() && b < old_names.len() {
                        assert(old_names[a] != old_names[b]);
                    } else if a < old_names.len() {
                        assert(old_names[a] == self.names()[a]);
                    } else {
                        assert(old_names[b] == self.names()[b]);
                    }
                }
            }
            assert forall|n: Identifier| #[trigger] self.values().contains_key(n) implies
                self.values()[n] == old(self).values().insert(name, Value::Nothing)[n] by {
                let k = self.names().index_of(n);
                assert(0 <= k < self.names().len() && self.names()[k] == n);
                if n == name {
                    assert(k == old_names.len());
                } else {
                    assert(k < old_names.len());
                    assert(old_names[k] == n);
                    assert(old(self).names().index_of(n) == k);
                }
            }
            assert forall|n: Identifier| self.values().contains_key(n) <==> #[trigger] old(self).values().insert(name, Value::Nothing).contains_key(n) by {
                if old_names.contains(n) {
                    let j = choose|j: int| 0 <= j < old_names.len() && old_names[j] == n;
                    assert(self.names()[j] == n);
                }
                if self.names().contains(n) && n != name {
                    let j = choose|j: int| 0 <= j < self.names().len() && self.names()[j] == n;
                    assert(j < old_names.len());
                    assert(old_names[j] == n);
                }
            }
            assert(self.values() =~= old(self).values().insert(name, Value::Nothing));
        }
    }
}

} // verus!
