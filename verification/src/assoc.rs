//! Finite maps kept as sequences of `(key, value)` entries with distinct
//! keys. Entry order carries meaning where a type says so (first-write
//! order of a journal frame, sorted order of a read set).

use vstd::prelude::*;

use crate::state::StateKey;

verus! {

/// No two entries share a key.
pub open spec fn keys_unique<K, V>(s: Seq<(K, V)>) -> bool {
    forall|i: int, j: int|
        0 <= i < s.len() && 0 <= j < s.len() && i != j ==> #[trigger] s[i].0 != #[trigger] s[j].0
}

/// Some entry has key `k`.
pub open spec fn has_key<K, V>(s: Seq<(K, V)>, k: K) -> bool {
    exists|i: int| 0 <= i < s.len() && #[trigger] s[i].0 == k
}

/// The position of the entry with key `k`, where there is one.
pub open spec fn index_of<K, V>(s: Seq<(K, V)>, k: K) -> int {
    choose|i: int| 0 <= i < s.len() && #[trigger] s[i].0 == k
}

/// The value stored under `k`, or `None`.
pub open spec fn lookup<K, V>(s: Seq<(K, V)>, k: K) -> Option<V> {
    if has_key(s, k) {
        Some(s[index_of(s, k)].1)
    } else {
        None
    }
}

/// Replaces the value under `k` in place, or appends a new entry.
pub open spec fn assoc_set<K, V>(s: Seq<(K, V)>, k: K, v: V) -> Seq<(K, V)> {
    if has_key(s, k) {
        s.update(index_of(s, k), (k, v))
    } else {
        s.push((k, v))
    }
}

pub proof fn lemma_lookup_at<K, V>(s: Seq<(K, V)>, i: int)
    requires
        keys_unique(s),
        0 <= i < s.len(),
    ensures
        has_key(s, s[i].0),
        index_of(s, s[i].0) == i,
        lookup(s, s[i].0) == Some(s[i].1),
{
    assert(has_key(s, s[i].0));
    let j = index_of(s, s[i].0);
    assert(s[j].0 == s[i].0);
}

pub proof fn lemma_lookup_absent<K, V>(s: Seq<(K, V)>, k: K)
    requires
        forall|i: int| 0 <= i < s.len() ==> s[i].0 != k,
    ensures
        !has_key(s, k),
        lookup(s, k) == None::<V>,
{
}

/// `assoc_set` keeps keys distinct, stores the new value, and leaves every
/// other key as it was.
pub proof fn lemma_assoc_set<K, V>(s: Seq<(K, V)>, k: K, v: V)
    requires
        keys_unique(s),
    ensures
        keys_unique(assoc_set(s, k, v)),
        lookup(assoc_set(s, k, v), k) == Some(v),
        forall|k2: K| k2 != k ==> lookup(assoc_set(s, k, v), k2) == lookup(s, k2),
        has_key(s, k) ==> assoc_set(s, k, v).len() == s.len(),
        !has_key(s, k) ==> assoc_set(s, k, v).len() == s.len() + 1,
{
    let t = assoc_set(s, k, v);
    if has_key(s, k) {
        let i = index_of(s, k);
        assert forall|a: int, b: int|
            0 <= a < t.len() && 0 <= b < t.len() && a != b implies #[trigger] t[a].0
            != #[trigger] t[b].0 by {
            if a != i && b != i {
                assert(s[a].0 != s[b].0);
            } else if a == i {
                assert(s[b].0 != s[i].0);
            } else {
                assert(s[a].0 != s[i].0);
            }
        }
        lemma_lookup_at(t, i);
        assert forall|k2: K| k2 != k implies lookup(t, k2) == lookup(s, k2) by {
            if has_key(s, k2) {
                let j = index_of(s, k2);
                lemma_lookup_at(s, j);
                lemma_lookup_at(t, j);
            } else {
                assert forall|j: int| 0 <= j < t.len() implies t[j].0 != k2 by {
                    if j != i {
                        assert(s[j].0 != k2);
                    }
                }
            }
        }
    } else {
        let n = s.len() as int;
        assert forall|a: int, b: int|
            0 <= a < t.len() && 0 <= b < t.len() && a != b implies #[trigger] t[a].0
            != #[trigger] t[b].0 by {
            if a != n && b != n {
                assert(s[a].0 != s[b].0);
            } else if a == n {
                assert(s[b].0 != k);
            } else {
                assert(s[a].0 != k);
            }
        }
        lemma_lookup_at(t, n);
        assert forall|k2: K| k2 != k implies lookup(t, k2) == lookup(s, k2) by {
            if has_key(s, k2) {
                let j = index_of(s, k2);
                lemma_lookup_at(s, j);
                lemma_lookup_at(t, j);
            } else {
                assert forall|j: int| 0 <= j < t.len() implies t[j].0 != k2 by {
                    if j != n {
                        assert(s[j].0 != k2);
                    }
                }
            }
        }
    }
}

/// The keys of the entries, in entry order.
pub open spec fn keys_of<K, V>(s: Seq<(K, V)>) -> Seq<K> {
    s.map_values(|e: (K, V)| e.0)
}

/// `assoc_set` keeps the keys where they are, or appends the new one.
pub proof fn lemma_assoc_set_keys<K, V>(s: Seq<(K, V)>, k: K, v: V)
    ensures
        keys_of(assoc_set(s, k, v)) == if has_key(s, k) {
            keys_of(s)
        } else {
            keys_of(s).push(k)
        },
{
    if has_key(s, k) {
        let i = index_of(s, k);
        assert(keys_of(assoc_set(s, k, v)) =~= keys_of(s));
    } else {
        assert(keys_of(assoc_set(s, k, v)) =~= keys_of(s).push(k));
    }
}

/// Setting a key twice is setting it once, to the second value.
pub proof fn lemma_assoc_set_twice<K, V>(s: Seq<(K, V)>, k: K, a: V, b: V)
    requires
        keys_unique(s),
    ensures
        assoc_set(assoc_set(s, k, a), k, b) == assoc_set(s, k, b),
{
    let s1 = assoc_set(s, k, a);
    lemma_assoc_set(s, k, a);
    if has_key(s, k) {
        let i = index_of(s, k);
        assert(s1[i].0 == k);
        lemma_lookup_at(s1, i);
        assert(assoc_set(s1, k, b) =~= assoc_set(s, k, b));
    } else {
        let n = s.len() as int;
        assert(s1[n].0 == k);
        lemma_lookup_at(s1, n);
        assert(assoc_set(s1, k, b) =~= assoc_set(s, k, b));
    }
}

/// Lookups after inserting an entry with a new key at position `i`.
pub proof fn lemma_insert_lookup<K, V>(s: Seq<(K, V)>, i: int, k: K, v: V)
    requires
        keys_unique(s.insert(i, (k, v))),
        keys_unique(s),
        0 <= i <= s.len(),
    ensures
        lookup(s.insert(i, (k, v)), k) == Some(v),
        forall|k2: K| k2 != k ==> lookup(s.insert(i, (k, v)), k2) == lookup(s, k2),
        !has_key(s, k),
{
    let t = s.insert(i, (k, v));
    lemma_lookup_at(t, i);
    assert forall|j: int| 0 <= j < s.len() implies s[j].0 != k by {
        if j < i {
            assert(t[j] == s[j]);
        } else {
            assert(t[j + 1] == s[j]);
        }
    }
    assert forall|k2: K| k2 != k implies lookup(t, k2) == lookup(s, k2) by {
        if has_key(s, k2) {
            let j = index_of(s, k2);
            lemma_lookup_at(s, j);
            if j < i {
                assert(t[j] == s[j]);
                lemma_lookup_at(t, j);
            } else {
                assert(t[j + 1] == s[j]);
                lemma_lookup_at(t, j + 1);
            }
        } else {
            assert forall|j: int| 0 <= j < t.len() implies t[j].0 != k2 by {
                if j < i {
                    assert(t[j] == s[j]);
                } else if j > i {
                    assert(t[j] == s[j - 1]);
                }
            }
        }
    }
}

/// The position of the entry whose key holds the same bytes as `key`.
pub fn find_key<V>(entries: &Vec<(StateKey, V)>, key: &StateKey) -> (r: Option<usize>)
    ensures
        match r {
            Some(i) => i < entries@.len() && entries@[i as int].0@ == key@,
            None => forall|i: int| 0 <= i < entries@.len() ==> (#[trigger] entries@[i]).0@ != key@,
        },
{
    let mut i: usize = 0;
    while i < entries.len()
        invariant
            i <= entries@.len(),
            forall|j: int| 0 <= j < i ==> (#[trigger] entries@[j]).0@ != key@,
        decreases entries@.len() - i,
    {
        if entries[i].0.same_as(key) {
            return Some(i);
        }
        i = i + 1;
    }
    None
}

} // verus!
