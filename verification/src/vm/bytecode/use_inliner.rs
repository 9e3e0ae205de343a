//! Where the result of a `use` statement is needed: the instructions to
//! patch once the imported value is known.

use vstd::prelude::*;
use crate::lang::identifier::Identifier;

verus! {

pub struct UseInliner {
    pub path: Vec<Identifier>,
    /// The instructions to patch: (index of the code, offset in it).
    pub usages: Vec<(usize, usize)>,
}

impl UseInliner {
    pub fn new(path: Vec<Identifier>) -> (r: UseInliner)
        ensures
            r.path@ == path@,
            r.usages@.len() == 0,
    {
        UseInliner { path, usages: Vec::new() }
    }

    /// Records that instruction `offset` of code `code` loads the used name.
    pub fn add_name_opcode(&mut self, code: usize, offset: usize)
        ensures
            final(self).path@ == old(self).path@,
            final(self).usages@ == old(self).usages@.push((code, offset)),
    {
        self.usages.push((code, offset));
    }
}

} // verus!
