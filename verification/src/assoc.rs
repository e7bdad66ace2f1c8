//! Sequences of pairs read as maps: the model of the small tables that the
//! library keeps in vectors.

use vstd::prelude::*;

verus! {

/// No two pairs of the sequence have the same key.
pub open spec fn distinct_keys<K, V>(s: Seq<(K, V)>) -> bool {
    forall|i: int, j: int| 0 <= i < j < s.len() ==> s[i].0 != s[j].0
}

/// The map that a sequence of pairs stands for. Where a key occurs more
/// than once, the last occurrence decides.
pub open spec fn assoc_map<K, V>(s: Seq<(K, V)>) -> Map<K, V>
    decreases s.len(),
{
    if s.len() == 0 {
        Map::empty()
    } else {
        assoc_map(s.drop_last()).insert(s.last().0, s.last().1)
    }
}

/// A key is in the map of a sequence exactly when some pair carries it.
pub proof fn lemma_assoc_map_dom<K, V>(s: Seq<(K, V)>, k: K)
    ensures
        assoc_map(s).dom().contains(k) <==> exists|i: int| 0 <= i < s.len() && s[i].0 == k,
        assoc_map(s).dom().finite(),
    decreases s.len(),
{
    if s.len() > 0 {
        lemma_assoc_map_dom(s.drop_last(), k);
        if assoc_map(s).dom().contains(k) {
            if s.last().0 == k {
                assert(s[s.len() - 1].0 == k);
            } else {
                let i = choose|i: int| 0 <= i < s.drop_last().len() && s.drop_last()[i].0 == k;
                assert(s[i].0 == k);
            }
        }
        if exists|i: int| 0 <= i < s.len() && s[i].0 == k {
            let i = choose|i: int| 0 <= i < s.len() && s[i].0 == k;
            if i < s.len() - 1 {
                assert(s.drop_last()[i].0 == k);
            }
        }
    }
}

/// With distinct keys, each pair of the sequence is what the map holds
/// under its key.
pub proof fn lemma_assoc_map_index<K, V>(s: Seq<(K, V)>, i: int)
    requires
        distinct_keys(s),
        0 <= i < s.len(),
    ensures
        assoc_map(s).dom().contains(s[i].0),
        assoc_map(s)[s[i].0] == s[i].1,
    decreases s.len(),
{
    if i < s.len() - 1 {
        assert(s.drop_last()[i] == s[i]);
        lemma_assoc_map_index(s.drop_last(), i);
    }
}

/// The pairs after `name` has been given `value`: the pair that carried
/// the key is replaced where it stood, and a new key goes to the end.
pub open spec fn assoc_insert<K, V>(s: Seq<(K, V)>, name: K, value: V) -> Seq<(K, V)> {
    if exists|i: int| 0 <= i < s.len() && s[i].0 == name {
        let i = choose|i: int| 0 <= i < s.len() && s[i].0 == name;
        s.update(i, (name, value))
    } else {
        s.push((name, value))
    }
}

/// The pairs without the one that carries `name`.
pub open spec fn assoc_remove<K, V>(s: Seq<(K, V)>, name: K) -> Seq<(K, V)> {
    if exists|i: int| 0 <= i < s.len() && s[i].0 == name {
        let i = choose|i: int| 0 <= i < s.len() && s[i].0 == name;
        s.remove(i)
    } else {
        s
    }
}

/// Giving a key a value keeps the keys distinct and is `insert` on the map.
pub proof fn lemma_assoc_insert<K, V>(s: Seq<(K, V)>, name: K, value: V)
    requires
        distinct_keys(s),
    ensures
        distinct_keys(assoc_insert(s, name, value)),
        assoc_map(assoc_insert(s, name, value)) == assoc_map(s).insert(name, value),
{
    let t = assoc_insert(s, name, value);
    let m = assoc_map(s).insert(name, value);
    if exists|i: int| 0 <= i < s.len() && s[i].0 == name {
        let i = choose|i: int| 0 <= i < s.len() && s[i].0 == name;
        assert(distinct_keys(t)) by {
            assert forall|a: int, b: int| 0 <= a < b < t.len() implies t[a].0 != t[b].0 by {
                assert(t[a].0 == s[a].0);
                assert(t[b].0 == s[b].0);
            }
        }
    } else {
        assert(distinct_keys(t));
    }
    assert forall|k: K| assoc_map(t).dom().contains(k) <==> m.dom().contains(k) by {
        lemma_assoc_map_dom(t, k);
        lemma_assoc_map_dom(s, k);
        if exists|i: int| 0 <= i < t.len() && t[i].0 == k {
            let i = choose|i: int| 0 <= i < t.len() && t[i].0 == k;
            if k != name {
                assert(i < s.len() && s[i].0 == k);
            }
        }
        if exists|i: int| 0 <= i < s.len() && s[i].0 == k {
            let i = choose|i: int| 0 <= i < s.len() && s[i].0 == k;
            assert(t[i].0 == k);
        }
        if k == name {
            if exists|i: int| 0 <= i < s.len() && s[i].0 == name {
                let i = choose|i: int| 0 <= i < s.len() && s[i].0 == name;
                assert(t[i].0 == name);
            } else {
                assert(t[t.len() - 1].0 == name);
            }
        }
    }
    assert forall|k: K| assoc_map(t).dom().contains(k) implies assoc_map(t)[k] == m[k] by {
        lemma_assoc_map_dom(t, k);
        let i = choose|i: int| 0 <= i < t.len() && t[i].0 == k;
        lemma_assoc_map_index(t, i);
        if k != name {
            assert(i < s.len() && s[i] == t[i]);
            lemma_assoc_map_index(s, i);
        } else {
            assert(t[i].1 == value) by {
                if exists|j: int| 0 <= j < s.len() && s[j].0 == name {
                    let j = choose|j: int| 0 <= j < s.len() && s[j].0 == name;
                    assert(t[j].0 == name);
                    assert(i == j);
                } else {
                    assert(i == t.len() - 1);
                }
            }
        }
    }
    assert(assoc_map(t) =~= m);
}

/// Taking a key out keeps the keys distinct and is `remove` on the map.
pub proof fn lemma_assoc_remove<K, V>(s: Seq<(K, V)>, name: K)
    requires
        distinct_keys(s),
    ensures
        distinct_keys(assoc_remove(s, name)),
        assoc_map(assoc_remove(s, name)) == assoc_map(s).remove(name),
{
    let t = assoc_remove(s, name);
    let m = assoc_map(s).remove(name);
    assert forall|k: K| assoc_map(t).dom().contains(k) <==> m.dom().contains(k) by {
        lemma_assoc_map_dom(t, k);
        lemma_assoc_map_dom(s, k);
        if exists|i: int| 0 <= i < s.len() && s[i].0 == name {
            let r = choose|i: int| 0 <= i < s.len() && s[i].0 == name;
            if exists|i: int| 0 <= i < t.len() && t[i].0 == k {
                let i = choose|i: int| 0 <= i < t.len() && t[i].0 == k;
                if i < r {
                    assert(s[i].0 == k);
                } else {
                    assert(s[i + 1].0 == k);
                }
            }
            if k != name && exists|i: int| 0 <= i < s.len() && s[i].0 == k {
                let i = choose|i: int| 0 <= i < s.len() && s[i].0 == k;
                if i < r {
                    assert(t[i].0 == k);
                } else {
                    assert(t[i - 1].0 == k);
                }
            }
        }
    }
    assert forall|k: K| assoc_map(t).dom().contains(k) implies assoc_map(t)[k] == m[k] by {
        lemma_assoc_map_dom(t, k);
        let i = choose|i: int| 0 <= i < t.len() && t[i].0 == k;
        lemma_assoc_map_index(t, i);
        if exists|j: int| 0 <= j < s.len() && s[j].0 == name {
            let r = choose|j: int| 0 <= j < s.len() && s[j].0 == name;
            if i < r {
                lemma_assoc_map_index(s, i);
            } else {
                lemma_assoc_map_index(s, i + 1);
            }
        } else {
            lemma_assoc_map_index(s, i);
        }
    }
    assert(assoc_map(t) =~= m);
}

} // verus!
