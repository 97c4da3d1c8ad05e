//! Association lists: sequences of `(key, value)` pairs read as finite maps.
//!
//! Several records of the profiler are keyed tables (samples by thread and
//! stack, thread names by thread id, counts by key).  They are stored as
//! vectors of pairs whose keys are pairwise distinct; the spec functions here
//! give such a vector its meaning as a `Map`.

use vstd::prelude::*;

verus! {

/// No key occurs twice.
pub open spec fn keys_unique<K, V>(s: Seq<(K, V)>) -> bool {
    forall|i: int, j: int|
        0 <= i < s.len() && 0 <= j < s.len() && i != j ==> #[trigger] s[i].0 != #[trigger] s[j].0
}

/// The map an association list denotes (a later pair wins over an earlier one).
pub open spec fn assoc_map<K, V>(s: Seq<(K, V)>) -> Map<K, V>
    decreases s.len(),
{
    if s.len() == 0 {
        Map::empty()
    } else {
        assoc_map(s.drop_last()).insert(s.last().0, s.last().1)
    }
}

/// The value stored under `k`, if any.
pub open spec fn lookup<K, V>(m: Map<K, V>, k: K) -> Option<V> {
    if m.contains_key(k) {
        Some(m[k])
    } else {
        None
    }
}

/// The domain of the map is the set of keys in the list, and with distinct
/// keys every pair is found in the map.
pub proof fn lemma_assoc_map<K, V>(s: Seq<(K, V)>)
    ensures
        forall|k: K|
            #[trigger] assoc_map(s).contains_key(k) <==> exists|i: int|
                0 <= i < s.len() && #[trigger] s[i].0 == k,
        assoc_map(s).dom().finite(),
        keys_unique(s) ==> forall|i: int|
            0 <= i < s.len() ==> #[trigger] assoc_map(s)[s[i].0] == s[i].1,
    decreases s.len(),
{
    if s.len() > 0 {
        let t = s.drop_last();
        lemma_assoc_map(t);
        assert forall|k: K| #[trigger] assoc_map(s).contains_key(k) <==> exists|i: int|
            0 <= i < s.len() && #[trigger] s[i].0 == k by {
            if assoc_map(s).contains_key(k) && k != s.last().0 {
                let i = choose|i: int| 0 <= i < t.len() && #[trigger] t[i].0 == k;
                assert(s[i].0 == k);
            }
            if exists|i: int| 0 <= i < s.len() && #[trigger] s[i].0 == k {
                let i = choose|i: int| 0 <= i < s.len() && #[trigger] s[i].0 == k;
                if i < s.len() - 1 {
                    assert(t[i].0 == k);
                }
            }
        }
        if keys_unique(s) {
            assert(keys_unique(t)) by {
                assert forall|i: int, j: int|
                    0 <= i < t.len() && 0 <= j < t.len() && i != j implies #[trigger] t[i].0
                    != #[trigger] t[j].0 by {
                    assert(s[i].0 != s[j].0);
                }
            }
            assert forall|i: int| 0 <= i < s.len() implies #[trigger] assoc_map(s)[s[i].0]
                == s[i].1 by {
                if i < s.len() - 1 {
                    assert(t[i] == s[i]);
                    assert(s[i].0 != s[s.len() - 1].0);
                }
            }
        }
    }
}

/// Appending a pair inserts it.
pub proof fn lemma_assoc_push<K, V>(s: Seq<(K, V)>, k: K, v: V)
    ensures
        assoc_map(s.push((k, v))) == assoc_map(s).insert(k, v),
{
    assert(s.push((k, v)).drop_last() =~= s);
}

/// The first `i + 1` pairs denote the first `i` pairs with pair `i` inserted.
pub proof fn lemma_assoc_take<K, V>(s: Seq<(K, V)>, i: int)
    requires
        0 <= i < s.len(),
    ensures
        assoc_map(s.take(i + 1)) == assoc_map(s.take(i)).insert(s[i].0, s[i].1),
{
    assert(s.take(i + 1).drop_last() =~= s.take(i));
}

/// Replacing the value of pair `i` in a list with distinct keys updates the map.
pub proof fn lemma_assoc_update<K, V>(s: Seq<(K, V)>, i: int, v: V)
    requires
        keys_unique(s),
        0 <= i < s.len(),
    ensures
        keys_unique(s.update(i, (s[i].0, v))),
        assoc_map(s.update(i, (s[i].0, v))) == assoc_map(s).insert(s[i].0, v),
{
    let u = s.update(i, (s[i].0, v));
    assert(keys_unique(u)) by {
        assert forall|a: int, b: int|
            0 <= a < u.len() && 0 <= b < u.len() && a != b implies #[trigger] u[a].0
            != #[trigger] u[b].0 by {
            assert(u[a].0 == s[a].0);
            assert(u[b].0 == s[b].0);
            assert(s[a].0 != s[b].0);
        }
    }
    lemma_assoc_map(s);
    lemma_assoc_map(u);
    let m = assoc_map(s).insert(s[i].0, v);
    assert forall|k: K| #[trigger] assoc_map(u).contains_key(k) <==> m.contains_key(k) by {
        if assoc_map(u).contains_key(k) {
            let j = choose|j: int| 0 <= j < u.len() && #[trigger] u[j].0 == k;
            assert(s[j].0 == k);
        }
        if m.contains_key(k) && k != s[i].0 {
            let j = choose|j: int| 0 <= j < s.len() && #[trigger] s[j].0 == k;
            assert(u[j].0 == k);
        }
        if k == s[i].0 {
            assert(u[i].0 == k);
        }
    }
    assert forall|k: K| #[trigger] assoc_map(u).contains_key(k) implies assoc_map(u)[k] == m[k] by {
        let j = choose|j: int| 0 <= j < u.len() && #[trigger] u[j].0 == k;
        assert(assoc_map(u)[u[j].0] == u[j].1);
        if j != i {
            assert(s[j].0 == k);
            assert(assoc_map(s)[s[j].0] == s[j].1);
            assert(s[j].0 != s[i].0);
        }
    }
    assert(assoc_map(u) =~= m);
}

/// A key that occurs nowhere in the list is not in its map.
pub proof fn lemma_assoc_absent<K, V>(s: Seq<(K, V)>, k: K)
    requires
        forall|i: int| 0 <= i < s.len() ==> #[trigger] s[i].0 != k,
    ensures
        !assoc_map(s).contains_key(k),
{
    lemma_assoc_map(s);
}

/// Pushing a fresh key keeps the keys distinct.
pub proof fn lemma_unique_push<K, V>(s: Seq<(K, V)>, k: K, v: V)
    requires
        keys_unique(s),
        forall|i: int| 0 <= i < s.len() ==> #[trigger] s[i].0 != k,
    ensures
        keys_unique(s.push((k, v))),
{
    let t = s.push((k, v));
    assert forall|a: int, b: int|
        0 <= a < t.len() && 0 <= b < t.len() && a != b implies #[trigger] t[a].0
        != #[trigger] t[b].0 by {
        if a < s.len() && b < s.len() {
            assert(t[a] == s[a] && t[b] == s[b]);
        } else if a < s.len() {
            assert(t[a] == s[a]);
        } else {
            assert(t[b] == s[b]);
        }
    }
}

} // verus!
