//! Interned names. Each distinct name is stored once in an `IdentifierTable`,
//! and an `Identifier` is its position there, so that two identifiers are
//! equal exactly when they name the same text.

use vstd::prelude::*;
use vstd::string::*;

verus! {

/// A name, interned in an `IdentifierTable`.
#[derive(Clone, Copy, Debug, PartialEq, Eq, Structural, Hash)]
pub struct Identifier {
    pub index: usize,
}

impl Identifier {
    /// The text of this identifier in `table`, where it is interned.
    pub fn get_value<'a>(&self, table: &'a IdentifierTable) -> (value: &'a str)
        requires
            table.has(*self),
        ensures
            value@ == table@[self.index as int],
    {
        table.get_value(*self)
    }
}

/// The table of all interned names: no name occurs twice.
pub struct IdentifierTable {
    values: Vec<String>,
}

impl View for IdentifierTable {
    type V = Seq<Seq<char>>;

    closed spec fn view(&self) -> Seq<Seq<char>> {
        self.values@.map_values(|s: String| s@)
    }
}

/// No name occurs twice in `names`.
pub open spec fn all_distinct(names: Seq<Seq<char>>) -> bool {
    forall|i: int, j: int| 0 <= i < j < names.len() ==> names[i] != names[j]
}

impl IdentifierTable {
    /// The table is well formed: no name occurs twice.
    pub open spec fn wf(&self) -> bool {
        all_distinct(self@)
    }

    /// `id` names an entry of the table.
    pub open spec fn has(&self, id: Identifier) -> bool {
        id.index < self@.len()
    }

    /// An empty table.
    pub fn new() -> (table: IdentifierTable)
        ensures
            table.wf(),
            table@ == Seq::<Seq<char>>::empty(),
    {
        let table = IdentifierTable { values: Vec::new() };
        proof {
            assert(table@ =~= Seq::<Seq<char>>::empty());
        }
        table
    }

    /// The identifier of `value`: the one already interned for that text, or
    /// a new one appended to the table.
    pub fn find_or_create(&mut self, value: &str) -> (id: Identifier)
        requires
            old(self).wf(),
        ensures
            final(self).wf(),
            final(self).has(id),
            final(self)@[id.index as int] == value@,
            old(self)@.contains(value@) ==> final(self)@ == old(self)@,
            !old(self)@.contains(value@) ==> final(self)@ == old(self)@.push(value@),
    {
        let wanted = String::from_str(value);
        let mut i: usize = 0;
        while i < self.values.len()
            invariant
                0 <= i <= self.values.len(),
                self@ == old(self)@,
                self.wf(),
                wanted@ == value@,
                forall|k: int| 0 <= k < i ==> self@[k] != value@,
            decreases self.values.len() - i,
        {
            if self.values[i] == wanted {
                proof {
                    assert(self@[i as int] == value@);
                }
                return Identifier { index: i };
            }
            i += 1;
        }
        proof {
            assert(!self@.contains(value@));
        }
        self.values.push(wanted);
        proof {
            assert(self@ =~= old(self)@.push(value@));
        }
        Identifier { index: i }
    }

    /// The text of `id`.
    pub fn get_value(&self, id: Identifier) -> (value: &str)
        requires
            self.has(id),
        ensures
            value@ == self@[id.index as int],
    {
        self.values[id.index].as_str()
    }

    /// The number of interned names.
    pub fn len(&self) -> (n: usize)
        ensures
            n == self@.len(),
    {
        self.values.len()
    }
}

/// Interning is faithful: in a well-formed table, two identifiers whose texts
/// are equal are the same identifier.
pub proof fn lemma_same_text_same_identifier(table: &IdentifierTable, a: Identifier, b: Identifier)
    requires
        table.wf(),
        table.has(a),
        table.has(b),
        table@[a.index as int] == table@[b.index as int],
    ensures
        a == b,
{
    if a.index < b.index {
        assert(table@[a.index as int] != table@[b.index as int]);
    } else if b.index < a.index {
        assert(table@[b.index as int] != table@[a.index as int]);
    }
}

} // verus!
