//! The cache of imported modules.

use vstd::prelude::*;
use crate::lang::identifier::Identifier;
use crate::lang::value::Value;

verus! {

/// An import: its path, until it is loaded, then its value.
pub enum ImportCacheEntry {
    NotLoaded(Vec<Identifier>),
    Loaded(Value),
}

impl ImportCacheEntry {
    pub fn is_loaded(&self) -> (r: bool)
        ensures
            r == (*self is Loaded),
    {
        match self {
            ImportCacheEntry::NotLoaded(..) => false,
            ImportCacheEntry::Loaded(..) => true,
        }
    }
}

/// The imports a machine has asked for: the number given to each recorded
/// path, and the entry of each import, by number.
pub struct ImportCache {
    ids_by_path: Vec<(Vec<Identifier>, usize)>,
    entries: Vec<ImportCacheEntry>,
}

/// The number recorded for path `path` among `ids`, if any.
pub open spec fn recorded_id(ids: Seq<(Seq<Identifier>, usize)>, path: Seq<Identifier>) -> Option<usize>
    decreases ids.len(),
{
    if ids.len() == 0 {
        None
    } else if ids[0].0 == path {
        Some(ids[0].1)
    } else {
        recorded_id(ids.drop_first(), path)
    }
}

impl ImportCache {
    /// The recorded paths with their numbers.
    pub closed spec fn ids(&self) -> Seq<(Seq<Identifier>, usize)> {
        self.ids_by_path@.map_values(|p: (Vec<Identifier>, usize)| (p.0@, p.1))
    }

    /// The entries, by number.
    pub closed spec fn entries(&self) -> Seq<ImportCacheEntry> {
        self.entries@
    }

    /// Every recorded number is that of an entry.
    pub open spec fn well_formed(&self) -> bool {
        forall|k: int| 0 <= k < self.ids().len() ==> (#[trigger] self.ids()[k]).1 < self.entries().len()
    }

    /// An empty cache.
    pub fn new() -> (cache: ImportCache)
        ensures
            cache.well_formed(),
            cache.ids() == Seq::<(Seq<Identifier>, usize)>::empty(),
            cache.entries() == Seq::<ImportCacheEntry>::empty(),
    {
        let cache = ImportCache { ids_by_path: Vec::new(), entries: Vec::new() };
        assert(cache.ids() =~= Seq::<(Seq<Identifier>, usize)>::empty());
        cache
    }

    /// The number of the import of `path`, and whether it is loaded. A path
    /// with no recorded number gets a new entry, not loaded, whose number is
    /// returned; the number is not recorded for the path.
    pub fn find_import(&mut self, path: Vec<Identifier>) -> (r: (usize, bool))
        requires
            old(self).well_formed(),
        ensures
            final(self).well_formed(),
            final(self).ids() == old(self).ids(),
            match recorded_id(old(self).ids(), path@) {
                Some(id) => {
                    &&& r == (id, old(self).entries()[id as int] is Loaded)
                    &&& final(self).entries() == old(self).entries()
                },
                None => {
                    &&& r == (old(self).entries().len() as usize, false)
                    &&& final(self).entries() == old(self).entries().push(ImportCacheEntry::NotLoaded(path))
                },
            },
    {
        match self.recorded(&path) {
            Some(id) => {
                proof {
                    lemma_recorded_id_is_recorded(self.ids(), path@);
                }
                let loaded = self.entries[id].is_loaded();
                (id, loaded)
            },
            None => {
                let id = self.entries.len();
                self.entries.push(ImportCacheEntry::NotLoaded(path));
                (id, false)
            },
        }
    }

    /// The number recorded for `path`.
    fn recorded(&self, path: &Vec<Identifier>) -> (r: Option<usize>)
        ensures
            r == recorded_id(self.ids(), path@),
    {
        let mut k: usize = 0;
        assert(self.ids().skip(0) =~= self.ids());
        while k < self.ids_by_path.len()
            invariant
                0 <= k <= self.ids_by_path@.len(),
                recorded_id(self.ids(), path@) == recorded_id(self.ids().skip(k as int), path@),
            decreases self.ids_by_path@.len() - k,
        {
            let ghost rest = self.ids().skip(k as int);
            assert(rest.drop_first() =~= self.ids().skip(k + 1));
            assert(rest[0] == (self.ids_by_path@[k as int].0@, self.ids_by_path@[k as int].1));
            if same_path(&self.ids_by_path[k].0, path) {
                return Some(self.ids_by_path[k].1);
            }
            k = k + 1;
        }
        assert(self.ids().skip(k as int).len() == 0);
        None
    }

    /// The entry of import `id`.
    pub fn entry(&self, id: usize) -> (e: &ImportCacheEntry)
        requires
            id < self.entries().len(),
        ensures
            *e == self.entries()[id as int],
    {
        &self.entries[id]
    }

    /// Records that import `id` is loaded with value `value`.
    pub fn set_loaded(&mut self, id: usize, value: Value)
        requires
            old(self).well_formed(),
            id < old(self).entries().len(),
        ensures
            final(self).well_formed(),
            final(self).ids() == old(self).ids(),
            final(self).entries() == old(self).entries().update(id as int, ImportCacheEntry::Loaded(value)),
    {
        self.entries.set(id, ImportCacheEntry::Loaded(value));
        assert(self.ids() == old(self).ids());
        assert(self.entries().len() == old(self).entries().len());
    }
}

/// A number recorded for a path is one of the recorded numbers.
proof fn lemma_recorded_id_is_recorded(ids: Seq<(Seq<Identifier>, usize)>, path: Seq<Identifier>)
    ensures
        recorded_id(ids, path) matches Some(id) ==> exists|k: int| 0 <= k < ids.len() && (#[trigger] ids[k]).1 == id,
    decreases ids.len(),
{
    if ids.len() > 0 && ids[0].0 != path {
        lemma_recorded_id_is_recorded(ids.drop_first(), path);
        if let Some(id) = recorded_id(ids, path) {
            let k = choose|k: int| 0 <= k < ids.drop_first().len() && (#[trigger] ids.drop_first()[k]).1 == id;
            assert(ids[k + 1].1 == id);
        }
    }
}

/// Whether paths `a` and `b` name the same identifiers in the same order.
fn same_path(a: &Vec<Identifier>, b: &Vec<Identifier>) -> (r: bool)
    ensures
        r == (a@ == b@),
{
    if a.len() != b.len() {
        return false;
    }
    let mut k: usize = 0;
    while k < a.len()
        invariant
            a@.len() == b@.len(),
            0 <= k <= a@.len(),
            forall|j: int| 0 <= j < k ==> a@[j] == b@[j],
        decreases a@.len() - k,
    {
        if a[k].index != b[k].index {
            return false;
        }
        k = k + 1;
    }
    assert(a@ =~= b@);
    true
}

} // verus!
