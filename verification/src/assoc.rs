//! Sequence-backed sets and association lists.
//!
//! The lookup index stores each of its sub-indices in a plain vector:
//! duplicate-free element vectors stand for sets, and vectors of pairs with
//! duplicate-free keys stand for maps. The spec functions here give those
//! vectors their mathematical meaning, and the lemmas relate the vector
//! operations to the corresponding `Set` and `Map` operations.

use vstd::prelude::*;

verus! {

/// No element occurs twice.
pub open spec fn seq_no_dup<T>(s: Seq<T>) -> bool {
    forall|i: int, j: int| 0 <= i < j < s.len() ==> s[i] != s[j]
}

/// No key occurs twice among the pairs.
pub open spec fn assoc_unique<K, V>(s: Seq<(K, V)>) -> bool {
    forall|i: int, j: int| 0 <= i < j < s.len() ==> (#[trigger] s[i]).0 != (#[trigger] s[j]).0
}

/// Some pair carries the key `k`.
pub open spec fn assoc_has_key<K, V>(s: Seq<(K, V)>, k: K) -> bool {
    exists|i: int| 0 <= i < s.len() && (#[trigger] s[i]).0 == k
}

/// The value beside the key `k`; meaningful only under `assoc_unique`.
pub open spec fn assoc_at<K, V>(s: Seq<(K, V)>, k: K) -> V {
    s[choose|i: int| 0 <= i < s.len() && (#[trigger] s[i]).0 == k].1
}

/// The map that a key-unique pair sequence stands for.
pub open spec fn assoc_map<K, V>(s: Seq<(K, V)>) -> Map<K, V> {
    Map::new(|k: K| assoc_has_key(s, k), |k: K| assoc_at(s, k))
}

/// Under key uniqueness, the pair at any index determines the map at its key.
pub proof fn lemma_assoc_at<K, V>(s: Seq<(K, V)>, i: int)
    requires
        assoc_unique(s),
        0 <= i < s.len(),
    ensures
        assoc_has_key(s, s[i].0),
        assoc_at(s, s[i].0) == s[i].1,
{
    assert(0 <= i < s.len() && s[i].0 == s[i].0);
    let j = choose|j: int| 0 <= j < s.len() && (#[trigger] s[j]).0 == s[i].0;
    if i != j {
        assert(s[i].0 != s[j].0);
    }
}

/// Appending a fresh key adds one entry to the map.
pub proof fn lemma_assoc_push<K, V>(s: Seq<(K, V)>, k: K, v: V)
    requires
        assoc_unique(s),
        !assoc_has_key(s, k),
    ensures
        assoc_unique(s.push((k, v))),
        assoc_map(s.push((k, v))) == assoc_map(s).insert(k, v),
{
    let t = s.push((k, v));
    assert forall|i: int, j: int| 0 <= i < j < t.len() implies (#[trigger] t[i]).0 != (
    #[trigger] t[j]).0 by {
        if j < s.len() {
            assert(s[i].0 != s[j].0);
        } else {
            assert(t[j] == (k, v));
            if t[i].0 == k {
                assert(0 <= i < s.len() && s[i].0 == k);
            }
        }
    }
    assert forall|k2: K| #[trigger]
        assoc_map(t).contains_key(k2) <==> assoc_map(s).insert(k, v).contains_key(k2) by {
        if k2 == k {
            assert(t[s.len() as int].0 == k);
        } else {
            if assoc_has_key(t, k2) {
                let i = choose|i: int| 0 <= i < t.len() && (#[trigger] t[i]).0 == k2;
                assert(i < s.len() && s[i].0 == k2);
            }
            if assoc_has_key(s, k2) {
                let i = choose|i: int| 0 <= i < s.len() && (#[trigger] s[i]).0 == k2;
                assert(t[i].0 == k2);
            }
        }
    }
    assert forall|k2: K|
        assoc_map(t).contains_key(k2) && assoc_map(s).insert(k, v).contains_key(
            k2,
        ) implies #[trigger] assoc_map(t)[k2] == assoc_map(s).insert(k, v)[k2] by {
        if k2 == k {
            lemma_assoc_at(t, s.len() as int);
        } else {
            let i = choose|i: int| 0 <= i < s.len() && (#[trigger] s[i]).0 == k2;
            lemma_assoc_at(s, i);
            assert(t[i].0 == k2);
            lemma_assoc_at(t, i);
        }
    }
    assert(assoc_map(t) =~= assoc_map(s).insert(k, v));
}

/// Removing the pair at an index removes exactly its key from the map.
pub proof fn lemma_assoc_remove<K, V>(s: Seq<(K, V)>, i: int)
    requires
        assoc_unique(s),
        0 <= i < s.len(),
    ensures
        assoc_unique(s.remove(i)),
        assoc_map(s.remove(i)) == assoc_map(s).remove(s[i].0),
{
    let t = s.remove(i);
    let k = s[i].0;
    assert forall|a: int, b: int| 0 <= a < b < t.len() implies (#[trigger] t[a]).0 != (
    #[trigger] t[b]).0 by {
        let a0: int = if a < i {
            a
        } else {
            a + 1
        };
        let b0: int = if b < i {
            b
        } else {
            b + 1
        };
        assert(t[a] == s[a0] && t[b] == s[b0]);
        assert(s[a0].0 != s[b0].0);
    }
    assert forall|k2: K| #[trigger]
        assoc_map(t).contains_key(k2) <==> assoc_map(s).remove(k).contains_key(k2) by {
        if assoc_has_key(t, k2) {
            let a = choose|a: int| 0 <= a < t.len() && (#[trigger] t[a]).0 == k2;
            let a0: int = if a < i {
                a
            } else {
                a + 1
            };
            assert(t[a] == s[a0]);
            assert(s[a0].0 == k2);
            if k2 == k {
                assert(s[a0].0 == s[i].0 && a0 != i);
                assert(false);
            }
        }
        if k2 != k && assoc_has_key(s, k2) {
            let a0 = choose|a0: int| 0 <= a0 < s.len() && (#[trigger] s[a0]).0 == k2;
            let a: int = if a0 < i {
                a0
            } else {
                a0 - 1
            };
            assert(a0 != i);
            assert(t[a] == s[a0]);
        }
    }
    assert forall|k2: K|
        assoc_map(t).contains_key(k2) && assoc_map(s).remove(k).contains_key(
            k2,
        ) implies #[trigger] assoc_map(t)[k2] == assoc_map(s).remove(k)[k2] by {
        let a = choose|a: int| 0 <= a < t.len() && (#[trigger] t[a]).0 == k2;
        let a0: int = if a < i {
            a
        } else {
            a + 1
        };
        assert(t[a] == s[a0]);
        lemma_assoc_at(t, a);
        lemma_assoc_at(s, a0);
    }
    assert(assoc_map(t) =~= assoc_map(s).remove(k));
}

/// Replacing the value at an index updates exactly its key in the map.
pub proof fn lemma_assoc_update<K, V>(s: Seq<(K, V)>, i: int, v: V)
    requires
        assoc_unique(s),
        0 <= i < s.len(),
    ensures
        assoc_unique(s.update(i, (s[i].0, v))),
        assoc_map(s.update(i, (s[i].0, v))) == assoc_map(s).insert(s[i].0, v),
{
    let t = s.update(i, (s[i].0, v));
    let k = s[i].0;
    assert forall|a: int, b: int| 0 <= a < b < t.len() implies (#[trigger] t[a]).0 != (
    #[trigger] t[b]).0 by {
        assert(t[a].0 == s[a].0 && t[b].0 == s[b].0);
        assert(s[a].0 != s[b].0);
    }
    assert forall|k2: K| #[trigger]
        assoc_map(t).contains_key(k2) <==> assoc_map(s).insert(k, v).contains_key(k2) by {
        if assoc_has_key(t, k2) {
            let a = choose|a: int| 0 <= a < t.len() && (#[trigger] t[a]).0 == k2;
            assert(s[a].0 == k2);
        }
        if assoc_has_key(s, k2) {
            let a = choose|a: int| 0 <= a < s.len() && (#[trigger] s[a]).0 == k2;
            assert(t[a].0 == k2);
        }
    }
    assert forall|k2: K|
        assoc_map(t).contains_key(k2) && assoc_map(s).insert(k, v).contains_key(
            k2,
        ) implies #[trigger] assoc_map(t)[k2] == assoc_map(s).insert(k, v)[k2] by {
        if k2 == k {
            lemma_assoc_at(t, i);
        } else {
            let a = choose|a: int| 0 <= a < s.len() && (#[trigger] s[a]).0 == k2;
            assert(a != i);
            lemma_assoc_at(s, a);
            assert(t[a].0 == k2);
            lemma_assoc_at(t, a);
        }
    }
    assert(assoc_map(t) =~= assoc_map(s).insert(k, v));
}

/// Replacing the value at an index keeps the keys and changes exactly the
/// value at that key.
pub proof fn lemma_assoc_set_value<K, V>(s: Seq<(K, V)>, i: int, v: V)
    requires
        assoc_unique(s),
        0 <= i < s.len(),
    ensures
        assoc_unique(s.update(i, (s[i].0, v))),
        forall|k: K| #[trigger]
            assoc_has_key(s.update(i, (s[i].0, v)), k) <==> assoc_has_key(s, k),
        assoc_at(s.update(i, (s[i].0, v)), s[i].0) == v,
        forall|k: K|
            k != s[i].0 && assoc_has_key(s, k) ==> #[trigger] assoc_at(s.update(i, (s[i].0, v)), k)
                == assoc_at(s, k),
{
    let t = s.update(i, (s[i].0, v));
    assert forall|a: int, b: int| 0 <= a < b < t.len() implies (#[trigger] t[a]).0 != (
    #[trigger] t[b]).0 by {
        assert(t[a].0 == s[a].0 && t[b].0 == s[b].0);
        assert(s[a].0 != s[b].0);
    }
    assert forall|k: K| #[trigger] assoc_has_key(t, k) <==> assoc_has_key(s, k) by {
        if assoc_has_key(t, k) {
            let a = choose|a: int| 0 <= a < t.len() && (#[trigger] t[a]).0 == k;
            assert(s[a].0 == k);
        }
        if assoc_has_key(s, k) {
            let a = choose|a: int| 0 <= a < s.len() && (#[trigger] s[a]).0 == k;
            assert(t[a].0 == k);
        }
    }
    lemma_assoc_at(t, i);
    assert forall|k: K|
        k != s[i].0 && assoc_has_key(s, k) implies #[trigger] assoc_at(t, k) == assoc_at(
        s,
        k,
    ) by {
        let a = choose|a: int| 0 <= a < s.len() && (#[trigger] s[a]).0 == k;
        assert(a != i);
        lemma_assoc_at(s, a);
        assert(t[a].0 == k);
        lemma_assoc_at(t, a);
    }
}

/// Membership in a pushed sequence.
pub proof fn lemma_push_contains<T>(s: Seq<T>, x: T)
    ensures
        forall|y: T| #[trigger] s.push(x).contains(y) <==> s.contains(y) || y == x,
{
    assert forall|y: T| #[trigger] s.push(x).contains(y) <==> s.contains(y) || y == x by {
        if s.push(x).contains(y) {
            let i = choose|i: int| 0 <= i < s.push(x).len() && s.push(x)[i] == y;
            if i < s.len() {
                assert(s[i] == y);
            }
        }
        if s.contains(y) {
            let i = choose|i: int| 0 <= i < s.len() && s[i] == y;
            assert(s.push(x)[i] == y);
        }
        if y == x {
            assert(s.push(x)[s.len() as int] == y);
        }
    }
}

/// Membership after removing one index of a duplicate-free sequence.
pub proof fn lemma_remove_contains<T>(s: Seq<T>, i: int)
    requires
        seq_no_dup(s),
        0 <= i < s.len(),
    ensures
        forall|y: T| #[trigger] s.remove(i).contains(y) <==> s.contains(y) && y != s[i],
{
    lemma_to_set_remove(s, i);
    assert forall|y: T| #[trigger] s.remove(i).contains(y) <==> s.contains(y) && y != s[i] by {
        lemma_to_set_contains(s.remove(i), y);
        lemma_to_set_contains(s, y);
        assert(s.remove(i).to_set().contains(y) <==> s.to_set().remove(s[i]).contains(y));
    }
}

/// Pushing an element inserts it into the set the sequence stands for.
pub proof fn lemma_to_set_push<T>(s: Seq<T>, x: T)
    ensures
        s.push(x).to_set() == s.to_set().insert(x),
{
    let t = s.push(x);
    assert forall|y: T| #[trigger] t.to_set().contains(y) <==> s.to_set().insert(x).contains(
        y,
    ) by {
        if t.contains(y) {
            let i = choose|i: int| 0 <= i < t.len() && t[i] == y;
            if i < s.len() {
                assert(s[i] == y);
            }
        }
        if s.contains(y) {
            let i = choose|i: int| 0 <= i < s.len() && s[i] == y;
            assert(t[i] == y);
        }
        if y == x {
            assert(t[s.len() as int] == y);
        }
    }
    assert(t.to_set() =~= s.to_set().insert(x));
}

/// Under no-duplicates, removing an index removes exactly that element
/// from the set, and keeps the sequence duplicate-free.
pub proof fn lemma_to_set_remove<T>(s: Seq<T>, i: int)
    requires
        seq_no_dup(s),
        0 <= i < s.len(),
    ensures
        seq_no_dup(s.remove(i)),
        s.remove(i).to_set() == s.to_set().remove(s[i]),
{
    let t = s.remove(i);
    let x = s[i];
    assert forall|a: int, b: int| 0 <= a < b < t.len() implies t[a] != t[b] by {
        let a0: int = if a < i {
            a
        } else {
            a + 1
        };
        let b0: int = if b < i {
            b
        } else {
            b + 1
        };
        assert(t[a] == s[a0] && t[b] == s[b0]);
    }
    assert forall|y: T| #[trigger] t.to_set().contains(y) <==> s.to_set().remove(x).contains(
        y,
    ) by {
        if t.contains(y) {
            let a = choose|a: int| 0 <= a < t.len() && t[a] == y;
            let a0: int = if a < i {
                a
            } else {
                a + 1
            };
            assert(t[a] == s[a0]);
            if y == x {
                assert(s[a0] == s[i] && a0 != i);
                assert(false);
            }
        }
        if y != x && s.contains(y) {
            let a0 = choose|a0: int| 0 <= a0 < s.len() && s[a0] == y;
            let a: int = if a0 < i {
                a0
            } else {
                a0 - 1
            };
            assert(a0 != i);
            assert(t[a] == s[a0]);
        }
    }
    assert(t.to_set() =~= s.to_set().remove(x));
}

/// An element of the set the sequence stands for occurs at some index.
pub proof fn lemma_to_set_contains<T>(s: Seq<T>, x: T)
    ensures
        s.to_set().contains(x) <==> s.contains(x),
{
}

} // verus!
