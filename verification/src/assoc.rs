//! Association lists: sequences of key/value pairs with distinct keys, read
//! as maps.
use vstd::prelude::*;

verus! {

/// No key occurs twice.
pub open spec fn keys_unique<K, V>(s: Seq<(K, V)>) -> bool {
    forall|i: int, j: int|
        0 <= i < s.len() && 0 <= j < s.len() && i != j ==> (#[trigger] s[i]).0 != (
        #[trigger] s[j]).0
}

/// Some pair has key `k`.
pub open spec fn assoc_has<K, V>(s: Seq<(K, V)>, k: K) -> bool {
    exists|i: int| 0 <= i < s.len() && (#[trigger] s[i]).0 == k
}

/// A position of key `k`.
pub open spec fn assoc_pos<K, V>(s: Seq<(K, V)>, k: K) -> int {
    choose|i: int| 0 <= i < s.len() && (#[trigger] s[i]).0 == k
}

/// The map from each key to the value paired with it.
pub open spec fn assoc_map<K, V>(s: Seq<(K, V)>) -> Map<K, V> {
    Map::new(|k: K| assoc_has(s, k), |k: K| s[assoc_pos(s, k)].1)
}

/// The keys, in order.
pub open spec fn assoc_keys<K, V>(s: Seq<(K, V)>) -> Seq<K> {
    s.map_values(|p: (K, V)| p.0)
}

pub proof fn lemma_assoc_index<K, V>(s: Seq<(K, V)>, i: int)
    requires
        keys_unique(s),
        0 <= i < s.len(),
    ensures
        assoc_has(s, s[i].0),
        assoc_pos(s, s[i].0) == i,
        assoc_map(s).contains_key(s[i].0),
        assoc_map(s)[s[i].0] == s[i].1,
{
    let k = s[i].0;
    assert(assoc_has(s, k));
    let p = assoc_pos(s, k);
    assert(s[p].0 == k);
}

/// A key absent from the list is absent from the map, and the other way.
pub proof fn lemma_assoc_has<K, V>(s: Seq<(K, V)>, k: K)
    ensures
        assoc_map(s).contains_key(k) == assoc_has(s, k),
        assoc_has(s, k) == assoc_keys(s).contains(k),
{
    if assoc_has(s, k) {
        let p = assoc_pos(s, k);
        assert(assoc_keys(s)[p] == k);
    }
    if assoc_keys(s).contains(k) {
        let p = choose|p: int| 0 <= p < assoc_keys(s).len() && assoc_keys(s)[p] == k;
        assert(s[p].0 == k);
    }
}

/// Inserting a pair of a new key at any position adds that key.
pub proof fn lemma_assoc_insert<K, V>(s: Seq<(K, V)>, p: int, kv: (K, V))
    requires
        keys_unique(s),
        !assoc_has(s, kv.0),
        0 <= p <= s.len(),
    ensures
        keys_unique(s.insert(p, kv)),
        assoc_map(s.insert(p, kv)) == assoc_map(s).insert(kv.0, kv.1),
{
    let t = s.insert(p, kv);
    assert forall|i: int| 0 <= i < t.len() implies (#[trigger] t[i]) == (if i < p {
        s[i]
    } else if i == p {
        kv
    } else {
        s[i - 1]
    }) by {}
    assert forall|i: int, j: int|
        0 <= i < t.len() && 0 <= j < t.len() && i != j implies (#[trigger] t[i]).0 != (
        #[trigger] t[j]).0 by {
        if i != p && j != p {
        } else if i == p {
            let oj = if j < p {
                j
            } else {
                j - 1
            };
            assert(t[j] == s[oj]);
        } else {
            let oi = if i < p {
                i
            } else {
                i - 1
            };
            assert(t[i] == s[oi]);
        }
    }
    assert forall|k: K| assoc_has(t, k) <==> assoc_has(s, k) || k == kv.0 by {
        if assoc_has(s, k) {
            let q = assoc_pos(s, k);
            if q < p {
                assert(t[q] == s[q]);
            } else {
                assert(t[q + 1] == s[q]);
            }
        }
        if k == kv.0 {
            assert(t[p] == kv);
        }
        if assoc_has(t, k) {
            let q = assoc_pos(t, k);
            if q < p {
                assert(t[q] == s[q]);
            } else if q > p {
                assert(t[q] == s[q - 1]);
            }
        }
    }
    assert forall|k: K| assoc_has(t, k) implies t[assoc_pos(t, k)].1 == (if k == kv.0 {
        kv.1
    } else {
        s[assoc_pos(s, k)].1
    }) by {
        let q = assoc_pos(t, k);
        lemma_assoc_index(t, q);
        if q < p {
            lemma_assoc_index(s, q);
        } else if q > p {
            lemma_assoc_index(s, q - 1);
        }
    }
    assert(assoc_map(t) =~= assoc_map(s).insert(kv.0, kv.1));
}

/// Taking out the pair at `i` removes its key.
pub proof fn lemma_assoc_remove<K, V>(s: Seq<(K, V)>, i: int)
    requires
        keys_unique(s),
        0 <= i < s.len(),
    ensures
        keys_unique(s.remove(i)),
        assoc_map(s.remove(i)) == assoc_map(s).remove(s[i].0),
{
    let t = s.remove(i);
    let key = s[i].0;
    assert forall|x: int| 0 <= x < t.len() implies (#[trigger] t[x]) == (if x < i {
        s[x]
    } else {
        s[x + 1]
    }) by {}
    assert forall|k: K| assoc_has(t, k) <==> assoc_has(s, k) && k != key by {
        if assoc_has(s, k) && k != key {
            let q = assoc_pos(s, k);
            if q < i {
                assert(t[q] == s[q]);
            } else {
                assert(t[q - 1] == s[q]);
            }
        }
        if assoc_has(t, k) {
            let q = assoc_pos(t, k);
            let oq = if q < i {
                q
            } else {
                q + 1
            };
            assert(t[q] == s[oq]);
        }
    }
    assert forall|k: K| assoc_has(t, k) implies t[assoc_pos(t, k)].1 == s[assoc_pos(s, k)].1 by {
        let q = assoc_pos(t, k);
        lemma_assoc_index(t, q);
        let oq = if q < i {
            q
        } else {
            q + 1
        };
        lemma_assoc_index(s, oq);
    }
    assert(assoc_map(t) =~= assoc_map(s).remove(key));
}

/// Writing position `i` with a pair of the same key sets that key.
pub proof fn lemma_assoc_update<K, V>(s: Seq<(K, V)>, i: int, kv: (K, V))
    requires
        keys_unique(s),
        0 <= i < s.len(),
        s[i].0 == kv.0,
    ensures
        keys_unique(s.update(i, kv)),
        assoc_map(s.update(i, kv)) == assoc_map(s).insert(kv.0, kv.1),
        assoc_keys(s.update(i, kv)) == assoc_keys(s),
{
    let t = s.update(i, kv);
    assert forall|k: K| assoc_has(t, k) <==> assoc_has(s, k) by {
        if assoc_has(s, k) {
            let q = assoc_pos(s, k);
            assert(t[q].0 == s[q].0);
        }
        if assoc_has(t, k) {
            let q = assoc_pos(t, k);
            assert(t[q].0 == s[q].0);
        }
    }
    assert forall|k: K| assoc_has(t, k) implies t[assoc_pos(t, k)].1 == (if k == kv.0 {
        kv.1
    } else {
        s[assoc_pos(s, k)].1
    }) by {
        let q = assoc_pos(t, k);
        assert(t[q].0 == s[q].0);
        lemma_assoc_index(t, q);
        if k != kv.0 {
            lemma_assoc_index(s, q);
        } else {
            assert(t[i].0 == kv.0);
            lemma_assoc_index(t, i);
        }
    }
    assert(assoc_map(t) =~= assoc_map(s).insert(kv.0, kv.1));
    assert(assoc_keys(t) =~= assoc_keys(s));
}

/// A map read from distinct keys has as many keys as the list has pairs.
pub proof fn lemma_assoc_len<K, V>(s: Seq<(K, V)>)
    requires
        keys_unique(s),
    ensures
        assoc_map(s).dom().len() == s.len(),
        assoc_map(s).dom().finite(),
{
    let ks = assoc_keys(s);
    assert forall|k: K| ks.contains(k) <==> assoc_map(s).contains_key(k) by {
        lemma_assoc_has(s, k);
    }
    assert(ks.to_set() =~= assoc_map(s).dom());
    assert(ks.no_duplicates()) by {
        assert forall|i: int, j: int| 0 <= i < ks.len() && 0 <= j < ks.len() && i != j implies ks[i]
            != ks[j] by {
            assert(ks[i] == s[i].0);
            assert(ks[j] == s[j].0);
        }
    }
    ks.unique_seq_to_set();
}

} // verus!
