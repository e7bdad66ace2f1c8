//! Label maps: the metadata that travels with a log line.

use vstd::prelude::*;
use crate::assoc::{
    assoc_insert, assoc_map, assoc_remove, distinct_keys, lemma_assoc_insert, lemma_assoc_map_dom,
    lemma_assoc_map_index, lemma_assoc_remove,
};
use crate::text::str_eq;

verus! {

/// A label as specifications see it: its name, then its value.
pub type Label = (Seq<char>, Seq<char>);

/// The labels that a vector of pairs of strings holds.
pub open spec fn labels_of(v: Seq<(String, String)>) -> Seq<Label> {
    Seq::new(v.len(), |i: int| (v[i].0@, v[i].1@))
}

/// The labels that remain when pairs are put into a map one after the
/// other: a later pair replaces an earlier one of the same name.
pub open spec fn collect_labels(pairs: Seq<Label>) -> Seq<Label>
    decreases pairs.len(),
{
    if pairs.len() == 0 {
        Seq::empty()
    } else {
        assoc_insert(collect_labels(pairs.drop_last()), pairs.last().0, pairs.last().1)
    }
}

/// What remains of pairs has distinct names, and stands for the same map
/// as the pairs.
pub proof fn lemma_collect_labels(pairs: Seq<Label>)
    ensures
        distinct_keys(collect_labels(pairs)),
        assoc_map(collect_labels(pairs)) == assoc_map(pairs),
    decreases pairs.len(),
{
    if pairs.len() > 0 {
        lemma_collect_labels(pairs.drop_last());
        lemma_assoc_insert(collect_labels(pairs.drop_last()), pairs.last().0, pairs.last().1);
    }
}

/// A map from label names to label values.
#[derive(Debug)]
pub struct Metadata {
    entries: Vec<(String, String)>,
}

impl Metadata {
    /// The labels, in the order in which their names first came in.
    pub closed spec fn entries(&self) -> Seq<Label> {
        labels_of(self.entries@)
    }

    #[verifier::type_invariant]
    spec fn inv(&self) -> bool {
        distinct_keys(self.entries())
    }

    /// The empty map.
    pub fn new() -> (r: Metadata)
        ensures
            r.entries() == Seq::<Label>::empty(),
            r@ == Map::<Seq<char>, Seq<char>>::empty(),
    {
        let r = Metadata { entries: Vec::new() };
        assert(r.entries() =~= Seq::<Label>::empty());
        r
    }

    /// States what every value of the type satisfies: no name occurs twice.
    pub fn distinct(&self)
        ensures
            distinct_keys(self.entries()),
    {
        proof {
            use_type_invariant(self);
        }
    }

    /// The number of labels.
    pub fn len(&self) -> (n: usize)
        ensures
            n == self.entries().len(),
    {
        self.entries.len()
    }

    fn position(&self, key: &str) -> (r: Option<usize>)
        ensures
            match r {
                Some(i) => i < self.entries().len() && self.entries()[i as int].0 == key@,
                None => forall|j: int| 0 <= j < self.entries().len() ==> self.entries()[j].0 != key@,
            },
    {
        let mut i: usize = 0;
        while i < self.entries.len()
            invariant
                i <= self.entries@.len(),
                forall|j: int| 0 <= j < i ==> self.entries()[j].0 != key@,
            decreases self.entries@.len() - i,
        {
            if str_eq(self.entries[i].0.as_str(), key) {
                return Some(i);
            }
            i += 1;
        }
        None
    }

    /// The value under `key`, if the map has one.
    pub fn get(&self, key: &str) -> (r: Option<&String>)
        ensures
            r is Some <==> self@.dom().contains(key@),
            r matches Some(v) ==> v@ == self@[key@],
    {
        proof {
            use_type_invariant(self);
            lemma_assoc_map_dom(self.entries(), key@);
        }
        match self.position(key) {
            Some(i) => {
                proof {
                    lemma_assoc_map_index(self.entries(), i as int);
                }
                Some(&self.entries[i].1)
            },
            None => None,
        }
    }
}

impl Metadata {
    /// Gives `key` the value `value`, and hands back the value it had.
    pub fn insert(&mut self, key: String, value: String) -> (r: Option<String>)
        ensures
            final(self).entries() == assoc_insert(old(self).entries(), key@, value@),
            final(self)@ == old(self)@.insert(key@, value@),
            r is Some <==> old(self)@.dom().contains(key@),
            r matches Some(v) ==> v@ == old(self)@[key@],
    {
        proof {
            use_type_invariant(&*self);
            lemma_assoc_map_dom(self.entries(), key@);
            lemma_assoc_insert(self.entries(), key@, value@);
        }
        let ghost before = self.entries();
        match self.position(key.as_str()) {
            Some(i) => {
                proof {
                    lemma_assoc_map_index(self.entries(), i as int);
                }
                let previous = self.entries[i].1.clone();
                let mut entries = Vec::new();
                core::mem::swap(&mut entries, &mut self.entries);
                entries.set(i, (key, value));
                assert(labels_of(entries@) =~= assoc_insert(before, key@, value@));
                *self = Metadata { entries };
                Some(previous)
            },
            None => {
                let mut entries = Vec::new();
                core::mem::swap(&mut entries, &mut self.entries);
                entries.push((key, value));
                assert(labels_of(entries@) =~= assoc_insert(before, key@, value@));
                *self = Metadata { entries };
                None
            },
        }
    }
}

impl Metadata {
    /// Takes `key` out of the map, and hands back the value it had.
    pub fn remove(&mut self, key: &str) -> (r: Option<String>)
        ensures
            final(self).entries() == assoc_remove(old(self).entries(), key@),
            final(self)@ == old(self)@.remove(key@),
            r is Some <==> old(self)@.dom().contains(key@),
            r matches Some(v) ==> v@ == old(self)@[key@],
    {
        proof {
            use_type_invariant(&*self);
            lemma_assoc_map_dom(self.entries(), key@);
            lemma_assoc_remove(self.entries(), key@);
        }
        let ghost before = self.entries();
        match self.position(key) {
            Some(i) => {
                proof {
                    lemma_assoc_map_index(self.entries(), i as int);
                }
                let mut entries = Vec::new();
                core::mem::swap(&mut entries, &mut self.entries);
                let taken = entries.remove(i);
                assert(labels_of(entries@) =~= assoc_remove(before, key@));
                *self = Metadata { entries };
                Some(taken.1)
            },
            None => None,
        }
    }

    /// The map that holds the pairs, put in one after the other.
    pub fn from_pairs(pairs: &Vec<(String, String)>) -> (r: Metadata)
        ensures
            r.entries() == collect_labels(labels_of(pairs@)),
    {
        let mut r = Metadata::new();
        let mut i: usize = 0;
        while i < pairs.len()
            invariant
                i <= pairs@.len(),
                r.entries() == collect_labels(labels_of(pairs@).take(i as int)),
            decreases pairs@.len() - i,
        {
            proof {
                let s = labels_of(pairs@).take(i as int + 1);
                assert(s.drop_last() =~= labels_of(pairs@).take(i as int));
                assert(s.last() == labels_of(pairs@)[i as int]);
            }
            r.insert(pairs[i].0.clone(), pairs[i].1.clone());
            i += 1;
        }
        assert(labels_of(pairs@).take(i as int) =~= labels_of(pairs@));
        r
    }

    /// The labels as pairs of strings, in their order.
    pub fn to_vec(&self) -> (r: Vec<(String, String)>)
        ensures
            labels_of(r@) == self.entries(),
    {
        let mut out: Vec<(String, String)> = Vec::new();
        let mut i: usize = 0;
        while i < self.entries.len()
            invariant
                i <= self.entries@.len(),
                out@.len() == i,
                forall|j: int|
                    0 <= j < i ==> (#[trigger] out@[j]).0@ == self.entries@[j].0@ && out@[j].1@
                        == self.entries@[j].1@,
            decreases self.entries@.len() - i,
        {
            let name = self.entries[i].0.clone();
            let value = self.entries[i].1.clone();
            out.push((name, value));
            i += 1;
        }
        assert(labels_of(out@) =~= self.entries());
        out
    }

    /// The label at position `i`, name first, if there are that many.
    pub fn label(&self, i: usize) -> (r: Option<(&String, &String)>)
        ensures
            r is Some <==> i < self.entries().len(),
            r matches Some(l) ==> (l.0@, l.1@) == self.entries()[i as int],
    {
        if i < self.entries.len() {
            Some((&self.entries[i].0, &self.entries[i].1))
        } else {
            None
        }
    }

    /// Whether every label of `self` is a label of `other`.
    fn included_in(&self, other: &Metadata) -> (r: bool)
        ensures
            r <==> forall|k: Seq<char>| #[trigger]
                self@.dom().contains(k) ==> other@.dom().contains(k) && other@[k] == self@[k],
    {
        proof {
            use_type_invariant(self);
        }
        let mut i: usize = 0;
        while i < self.entries.len()
            invariant
                i <= self.entries().len(),
                self.entries().len() == self.entries@.len(),
                distinct_keys(self.entries()),
                forall|j: int|
                    0 <= j < i ==> other@.dom().contains(#[trigger] self.entries()[j].0)
                        && other@[self.entries()[j].0] == self.entries()[j].1,
            decreases self.entries().len() - i,
        {
            proof {
                lemma_assoc_map_index(self.entries(), i as int);
            }
            let found = match other.get(self.entries[i].0.as_str()) {
                Some(v) => str_eq(v.as_str(), self.entries[i].1.as_str()),
                None => false,
            };
            if !found {
                assert(self@.dom().contains(self.entries()[i as int].0));
                return false;
            }
            i += 1;
        }
        proof {
            assert forall|k: Seq<char>| #[trigger] self@.dom().contains(k) implies other@.dom().contains(k)
                && other@[k] == self@[k] by {
                lemma_assoc_map_dom(self.entries(), k);
                let j = choose|j: int| 0 <= j < self.entries().len() && self.entries()[j].0 == k;
                lemma_assoc_map_index(self.entries(), j);
            }
        }
        true
    }
}

impl Clone for Metadata {
    fn clone(&self) -> (r: Metadata)
        ensures
            r.entries() == self.entries(),
            r@ == self@,
    {
        proof {
            use_type_invariant(self);
        }
        let entries = self.to_vec();
        Metadata { entries }
    }
}

impl PartialEq for Metadata {
    /// Two maps are equal when they hold the same values under the same
    /// names, in whatever order the labels came in.
    fn eq(&self, other: &Metadata) -> (r: bool) {
        let r = self.included_in(other) && other.included_in(self);
        proof {
            if r {
                assert(self@ =~= other@);
            }
        }
        r
    }
}

impl vstd::std_specs::cmp::PartialEqSpecImpl for Metadata {
    open spec fn obeys_eq_spec() -> bool {
        true
    }

    open spec fn eq_spec(&self, other: &Metadata) -> bool {
        self@ == other@
    }
}

impl View for Metadata {
    type V = Map<Seq<char>, Seq<char>>;

    open spec fn view(&self) -> Map<Seq<char>, Seq<char>> {
        assoc_map(self.entries())
    }
}

} // verus!
