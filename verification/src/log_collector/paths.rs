//! The table of watched paths: for each path that the collector knows,
//! the descriptor of the file behind it.

use vstd::prelude::*;
use vstd::string::*;
use crate::assoc::{
    assoc_insert, assoc_map, distinct_keys, lemma_assoc_insert, lemma_assoc_map_dom,
    lemma_assoc_map_index,
};
use crate::log_collector::watcher::Descriptor;
use crate::text::str_eq;

verus! {

/// The pairs that a vector of paths and descriptors holds.
spec fn pairs_of(v: Seq<(String, Descriptor)>) -> Seq<(Seq<char>, Descriptor)> {
    Seq::new(v.len(), |i: int| (v[i].0@, v[i].1))
}

/// A map from paths to descriptors.
#[derive(Debug)]
pub struct PathTable {
    entries: Vec<(String, Descriptor)>,
}

impl View for PathTable {
    type V = Map<Seq<char>, Descriptor>;

    closed spec fn view(&self) -> Map<Seq<char>, Descriptor> {
        assoc_map(pairs_of(self.entries@))
    }
}

impl PathTable {
    #[verifier::type_invariant]
    spec fn inv(&self) -> bool {
        distinct_keys(pairs_of(self.entries@))
    }

    /// The empty table.
    pub fn new() -> (r: PathTable)
        ensures
            r@ == Map::<Seq<char>, Descriptor>::empty(),
    {
        PathTable { entries: Vec::new() }
    }

    fn position(&self, path: &str) -> (r: Option<usize>)
        ensures
            match r {
                Some(i) => i < self.entries@.len() && pairs_of(self.entries@)[i as int].0 == path@,
                None => forall|j: int|
                    0 <= j < self.entries@.len() ==> pairs_of(self.entries@)[j].0 != path@,
            },
    {
        let mut i: usize = 0;
        while i < self.entries.len()
            invariant
                i <= self.entries@.len(),
                forall|j: int| 0 <= j < i ==> pairs_of(self.entries@)[j].0 != path@,
            decreases self.entries@.len() - i,
        {
            if str_eq(self.entries[i].0.as_str(), path) {
                return Some(i);
            }
            i += 1;
        }
        None
    }

    /// The descriptor behind `path`, if the path is known.
    pub fn get(&self, path: &str) -> (r: Option<Descriptor>)
        ensures
            r is Some <==> self@.dom().contains(path@),
            r matches Some(descriptor) ==> descriptor == self@[path@],
    {
        proof {
            use_type_invariant(self);
            lemma_assoc_map_dom(pairs_of(self.entries@), path@);
        }
        match self.position(path) {
            Some(i) => {
                proof {
                    lemma_assoc_map_index(pairs_of(self.entries@), i as int);
                }
                Some(self.entries[i].1)
            },
            None => None,
        }
    }

    /// Whether `path` is known.
    pub fn contains_key(&self, path: &str) -> (r: bool)
        ensures
            r == self@.dom().contains(path@),
    {
        self.get(path).is_some()
    }

    /// Puts `descriptor` behind `path`.
    pub fn insert(&mut self, path: String, descriptor: Descriptor)
        ensures
            final(self)@ == old(self)@.insert(path@, descriptor),
    {
        proof {
            use_type_invariant(&*self);
            lemma_assoc_insert(pairs_of(self.entries@), path@, descriptor);
        }
        let ghost before = pairs_of(self.entries@);
        let found = self.position(path.as_str());
        let mut entries: Vec<(String, Descriptor)> = Vec::new();
        core::mem::swap(&mut entries, &mut self.entries);
        match found {
            Some(i) => {
                entries.set(i, (path, descriptor));
            },
            None => {
                entries.push((path, descriptor));
            },
        }
        assert(pairs_of(entries@) =~= assoc_insert(before, path@, descriptor));
        *self = PathTable { entries };
    }
}

} // verus!
