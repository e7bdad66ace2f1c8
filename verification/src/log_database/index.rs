//! The inverted index: for each label, the shards whose metadata carries it.

use vstd::prelude::*;
use vstd::string::*;
use crate::assoc::{
    assoc_insert, assoc_map, distinct_keys, lemma_assoc_insert, lemma_assoc_map_dom,
    lemma_assoc_map_index,
};
use crate::metadata::Label;
use crate::text::{str_eq, strings_view};

verus! {

/// The index as specifications see it: from a label to the fingerprints of
/// its shards, in the order in which the label first met each of them.
pub type IndexMap = Map<Label, Seq<Seq<char>>>;

/// The index after the shard `fingerprint` has been recorded under `label`.
pub open spec fn index_add(index: IndexMap, label: Label, fingerprint: Seq<char>) -> IndexMap {
    if !index.dom().contains(label) {
        index.insert(label, seq![fingerprint])
    } else if index[label].contains(fingerprint) {
        index
    } else {
        index.insert(label, index[label].push(fingerprint))
    }
}

/// The index after the shard `fingerprint` has been recorded under each of
/// `labels`.
pub open spec fn index_add_all(index: IndexMap, labels: Seq<Label>, fingerprint: Seq<char>) -> IndexMap
    decreases labels.len(),
{
    if labels.len() == 0 {
        index
    } else {
        index_add(index_add_all(index, labels.drop_last(), fingerprint), labels.last(), fingerprint)
    }
}

/// One label of the index with its shards.
#[derive(Debug)]
struct Posting {
    name: String,
    value: String,
    shards: Vec<String>,
}

/// The pairs that a vector of postings holds.
spec fn postings_of(v: Seq<Posting>) -> Seq<(Label, Seq<Seq<char>>)> {
    Seq::new(v.len(), |i: int| ((v[i].name@, v[i].value@), strings_view(v[i].shards@)))
}

/// The position of the posting of a label, if there is one.
fn find_posting(postings: &Vec<Posting>, name: &str, value: &str) -> (r: Option<usize>)
    ensures
        match r {
            Some(i) => i < postings@.len() && postings_of(postings@)[i as int].0 == (name@, value@),
            None => forall|j: int|
                0 <= j < postings@.len() ==> postings_of(postings@)[j].0 != (name@, value@),
        },
{
    let mut i: usize = 0;
    while i < postings.len()
        invariant
            i <= postings@.len(),
            forall|j: int| 0 <= j < i ==> postings_of(postings@)[j].0 != (name@, value@),
        decreases postings@.len() - i,
    {
        if str_eq(postings[i].name.as_str(), name) && str_eq(postings[i].value.as_str(), value) {
            return Some(i);
        }
        i += 1;
    }
    None
}

/// The inverted index.
#[derive(Debug)]
pub struct Index {
    postings: Vec<Posting>,
}

impl View for Index {
    type V = IndexMap;

    closed spec fn view(&self) -> IndexMap {
        assoc_map(postings_of(self.postings@))
    }
}

impl Index {
    #[verifier::type_invariant]
    spec fn inv(&self) -> bool {
        distinct_keys(postings_of(self.postings@))
    }

    /// The empty index.
    pub fn new() -> (r: Index)
        ensures
            r@ == IndexMap::empty(),
    {
        Index { postings: Vec::new() }
    }

    /// The shards recorded under the label, if it has any.
    pub fn get(&self, name: &str, value: &str) -> (r: Option<&Vec<String>>)
        ensures
            r is Some <==> self@.dom().contains((name@, value@)),
            r matches Some(shards) ==> strings_view(shards@) == self@[(name@, value@)],
    {
        proof {
            use_type_invariant(self);
            lemma_assoc_map_dom(postings_of(self.postings@), (name@, value@));
        }
        match find_posting(&self.postings, name, value) {
            Some(i) => {
                proof {
                    lemma_assoc_map_index(postings_of(self.postings@), i as int);
                }
                Some(&self.postings[i].shards)
            },
            None => None,
        }
    }

    /// Records the shard `fingerprint` under the label, unless it is there.
    pub fn add(&mut self, name: &str, value: &str, fingerprint: &str)
        ensures
            final(self)@ == index_add(old(self)@, (name@, value@), fingerprint@),
    {
        proof {
            use_type_invariant(&*self);
            lemma_assoc_map_dom(postings_of(self.postings@), (name@, value@));
        }
        let ghost before = postings_of(self.postings@);
        let ghost label = (name@, value@);
        let mut postings: Vec<Posting> = Vec::new();
        core::mem::swap(&mut postings, &mut self.postings);
        match find_posting(&postings, name, value) {
            Some(i) => {
                proof {
                    lemma_assoc_map_index(before, i as int);
                }
                let mut posting = postings.remove(i);
                if !contains_string(&posting.shards, fingerprint) {
                    posting.shards.push(fingerprint.to_owned());
                }
                let ghost shards = strings_view(posting.shards@);
                postings.insert(i, posting);
                proof {
                    assert(shards =~= if before[i as int].1.contains(fingerprint@) {
                        before[i as int].1
                    } else {
                        before[i as int].1.push(fingerprint@)
                    });
                    assert(postings_of(postings@) =~= assoc_insert(before, label, shards));
                    lemma_assoc_insert(before, label, shards);
                    if before[i as int].1.contains(fingerprint@) {
                        assert(assoc_map(before).insert(label, shards) =~= assoc_map(before));
                    }
                }
            },
            None => {
                let mut shards: Vec<String> = Vec::new();
                shards.push(fingerprint.to_owned());
                postings.push(Posting { name: name.to_owned(), value: value.to_owned(), shards });
                proof {
                    assert(strings_view(shards@) =~= seq![fingerprint@]);
                    assert(postings_of(postings@) =~= assoc_insert(before, label, seq![fingerprint@]));
                    lemma_assoc_insert(before, label, seq![fingerprint@]);
                }
            },
        }
        *self = Index { postings };
    }
}

/// Whether one of the strings holds the characters of `s`.
pub fn contains_string(v: &Vec<String>, s: &str) -> (r: bool)
    ensures
        r == strings_view(v@).contains(s@),
{
    let mut i: usize = 0;
    while i < v.len()
        invariant
            i <= v@.len(),
            forall|j: int| 0 <= j < i ==> strings_view(v@)[j] != s@,
        decreases v@.len() - i,
    {
        if str_eq(v[i].as_str(), s) {
            assert(strings_view(v@)[i as int] == s@);
            return true;
        }
        i += 1;
    }
    false
}

} // verus!
