//! Lexicographic order on byte strings, the order in which keys of a
//! read set are kept.

use vstd::prelude::*;

verus! {

/// `a` sorts strictly before `b`: byte by byte, a shorter proper prefix first.
pub open spec fn lex_lt(a: Seq<u8>, b: Seq<u8>) -> bool
    decreases a.len(),
{
    if a.len() == 0 {
        b.len() > 0
    } else if b.len() == 0 {
        false
    } else if a[0] < b[0] {
        true
    } else if a[0] > b[0] {
        false
    } else {
        lex_lt(a.drop_first(), b.drop_first())
    }
}

pub proof fn lemma_lex_irreflexive(a: Seq<u8>)
    ensures
        !lex_lt(a, a),
    decreases a.len(),
{
    if a.len() > 0 {
        lemma_lex_irreflexive(a.drop_first());
    }
}

pub proof fn lemma_lex_asymmetric(a: Seq<u8>, b: Seq<u8>)
    ensures
        !(lex_lt(a, b) && lex_lt(b, a)),
    decreases a.len(),
{
    if a.len() > 0 && b.len() > 0 && a[0] == b[0] {
        lemma_lex_asymmetric(a.drop_first(), b.drop_first());
    }
}

pub proof fn lemma_lex_transitive(a: Seq<u8>, b: Seq<u8>, c: Seq<u8>)
    requires
        lex_lt(a, b),
        lex_lt(b, c),
    ensures
        lex_lt(a, c),
    decreases a.len(),
{
    if a.len() > 0 && b.len() > 0 && c.len() > 0 && a[0] == b[0] && b[0] == c[0] {
        lemma_lex_transitive(a.drop_first(), b.drop_first(), c.drop_first());
    }
}

pub proof fn lemma_lex_total(a: Seq<u8>, b: Seq<u8>)
    ensures
        a == b || lex_lt(a, b) || lex_lt(b, a),
    decreases a.len(),
{
    if a.len() > 0 && b.len() > 0 && a[0] == b[0] {
        lemma_lex_total(a.drop_first(), b.drop_first());
        if a.drop_first() == b.drop_first() {
            assert(a =~= seq![a[0]] + a.drop_first());
            assert(b =~= seq![b[0]] + b.drop_first());
        }
    } else if a.len() == 0 && b.len() == 0 {
        assert(a =~= b);
    }
}

/// The outcome of comparing two byte strings.
#[derive(Clone, Copy, Debug, PartialEq, Eq, Structural)]
pub enum KeyOrder {
    Less,
    Equal,
    Greater,
}

/// Compares two byte strings lexicographically.
pub fn compare_bytes(a: &[u8], b: &[u8]) -> (r: KeyOrder)
    ensures
        match r {
            KeyOrder::Less => lex_lt(a@, b@),
            KeyOrder::Equal => a@ == b@,
            KeyOrder::Greater => lex_lt(b@, a@),
        },
{
    let mut i: usize = 0;
    assert(a@.skip(0) =~= a@);
    assert(b@.skip(0) =~= b@);
    while i < a.len() && i < b.len()
        invariant
            i <= a@.len(),
            i <= b@.len(),
            a@.take(i as int) == b@.take(i as int),
            lex_lt(a@, b@) == lex_lt(a@.skip(i as int), b@.skip(i as int)),
            lex_lt(b@, a@) == lex_lt(b@.skip(i as int), a@.skip(i as int)),
        decreases a@.len() - i,
    {
        let x = a[i];
        let y = b[i];
        assert(a@.skip(i as int)[0] == x);
        assert(b@.skip(i as int)[0] == y);
        if x < y {
            return KeyOrder::Less;
        }
        if x > y {
            return KeyOrder::Greater;
        }
        assert(a@.skip(i as int).drop_first() =~= a@.skip(i + 1));
        assert(b@.skip(i as int).drop_first() =~= b@.skip(i + 1));
        assert(a@.take(i + 1) =~= a@.take(i as int).push(x));
        assert(b@.take(i + 1) =~= b@.take(i as int).push(y));
        i = i + 1;
    }
    if i < b.len() {
        assert(a@.skip(i as int).len() == 0);
        KeyOrder::Less
    } else if i < a.len() {
        assert(b@.skip(i as int).len() == 0);
        KeyOrder::Greater
    } else {
        assert(a@ =~= a@.take(i as int));
        assert(b@ =~= b@.take(i as int));
        KeyOrder::Equal
    }
}

/// Keys strictly increase along the sequence.
pub open spec fn sorted_keys<V>(s: Seq<(Seq<u8>, V)>) -> bool {
    forall|i: int, j: int| 0 <= i < j < s.len() ==> lex_lt(#[trigger] s[i].0, #[trigger] s[j].0)
}

/// Inserts `(k, v)` at its sorted place unless `k` is already present.
pub open spec fn sorted_insert<V>(s: Seq<(Seq<u8>, V)>, k: Seq<u8>, v: V) -> Seq<(Seq<u8>, V)>
    decreases s.len(),
{
    if s.len() == 0 {
        seq![(k, v)]
    } else if s[0].0 == k {
        s
    } else if lex_lt(k, s[0].0) {
        seq![(k, v)] + s
    } else {
        seq![s[0]] + sorted_insert(s.drop_first(), k, v)
    }
}

/// `sorted_insert` either keeps the sequence or inserts at the first
/// position whose key does not sort before `k`.
pub proof fn lemma_sorted_insert_shape<V>(s: Seq<(Seq<u8>, V)>, k: Seq<u8>, v: V) -> (i: int)
    ensures
        0 <= i <= s.len(),
        forall|j: int| 0 <= j < i ==> lex_lt(#[trigger] s[j].0, k),
        i < s.len() ==> !lex_lt(s[i].0, k),
        sorted_insert(s, k, v) == if i < s.len() && s[i].0 == k {
            s
        } else {
            s.insert(i, (k, v))
        },
    decreases s.len(),
{
    if s.len() == 0 {
        assert(seq![(k, v)] =~= s.insert(0, (k, v)));
        0
    } else if s[0].0 == k {
        lemma_lex_irreflexive(k);
        0
    } else if lex_lt(k, s[0].0) {
        lemma_lex_asymmetric(k, s[0].0);
        assert(seq![(k, v)] + s =~= s.insert(0, (k, v)));
        0
    } else {
        lemma_lex_total(k, s[0].0);
        let t = s.drop_first();
        let i0 = lemma_sorted_insert_shape(t, k, v);
        assert forall|j: int| 0 <= j < i0 + 1 implies lex_lt(#[trigger] s[j].0, k) by {
            if j > 0 {
                assert(s[j] == t[j - 1]);
            }
        }
        if i0 < t.len() && t[i0].0 == k {
            assert(seq![s[0]] + t =~= s);
        } else {
            assert(seq![s[0]] + t.insert(i0, (k, v)) =~= s.insert(i0 + 1, (k, v)));
        }
        i0 + 1
    }
}

/// Inserting a new key at its sorted place keeps the keys sorted.
pub proof fn lemma_sorted_insert_at<V>(s: Seq<(Seq<u8>, V)>, k: Seq<u8>, v: V, i: int)
    requires
        sorted_keys(s),
        0 <= i <= s.len(),
        forall|j: int| 0 <= j < i ==> lex_lt(#[trigger] s[j].0, k),
        i < s.len() ==> !lex_lt(s[i].0, k) && s[i].0 != k,
    ensures
        sorted_keys(s.insert(i, (k, v))),
{
    let t = s.insert(i, (k, v));
    if i < s.len() {
        lemma_lex_total(k, s[i].0);
    }
    assert forall|a: int, b: int| 0 <= a < b < t.len() implies lex_lt(
        #[trigger] t[a].0,
        #[trigger] t[b].0,
    ) by {
        if b < i {
            assert(t[a] == s[a] && t[b] == s[b]);
        } else if b == i {
            assert(t[a] == s[a]);
        } else if a == i {
            assert(t[b] == s[b - 1]);
            if b - 1 > i {
                lemma_lex_transitive(k, s[i].0, s[b - 1].0);
            }
        } else if a < i {
            assert(t[a] == s[a] && t[b] == s[b - 1]);
            if i < s.len() {
                lemma_lex_transitive(s[a].0, k, s[i].0);
                if b - 1 > i {
                    lemma_lex_transitive(s[a].0, s[i].0, s[b - 1].0);
                }
            }
        } else {
            assert(t[a] == s[a - 1] && t[b] == s[b - 1]);
        }
    }
}

/// Sorted keys are distinct.
pub proof fn lemma_sorted_unique<V>(s: Seq<(Seq<u8>, V)>)
    requires
        sorted_keys(s),
    ensures
        crate::assoc::keys_unique(s),
{
    assert forall|i: int, j: int|
        0 <= i < s.len() && 0 <= j < s.len() && i != j implies #[trigger] s[i].0
        != #[trigger] s[j].0 by {
        if i < j {
            assert(lex_lt(s[i].0, s[j].0));
            lemma_lex_irreflexive(s[i].0);
        } else {
            assert(lex_lt(s[j].0, s[i].0));
            lemma_lex_irreflexive(s[j].0);
        }
    }
}

/// What `sorted_insert` does to lookups.
pub proof fn lemma_sorted_insert_lookup<V>(s: Seq<(Seq<u8>, V)>, k: Seq<u8>, v: V)
    requires
        sorted_keys(s),
    ensures
        sorted_keys(sorted_insert(s, k, v)),
        crate::assoc::has_key(s, k) ==> sorted_insert(s, k, v) == s,
        !crate::assoc::has_key(s, k) ==> crate::assoc::lookup(sorted_insert(s, k, v), k) == Some(v),
        forall|k2: Seq<u8>|
            k2 != k ==> #[trigger] crate::assoc::lookup(sorted_insert(s, k, v), k2)
                == crate::assoc::lookup(s, k2),
{
    let i = lemma_sorted_insert_shape(s, k, v);
    lemma_sorted_unique(s);
    if i < s.len() && s[i].0 == k {
    } else {
        if crate::assoc::has_key(s, k) {
            let j = crate::assoc::index_of(s, k);
            if j < i {
                assert(lex_lt(s[j].0, k));
                lemma_lex_irreflexive(k);
            } else if j > i {
                assert(lex_lt(s[i].0, s[j].0));
                lemma_lex_total(s[i].0, k);
            }
        }
        lemma_sorted_insert_at(s, k, v, i);
        lemma_sorted_unique(s.insert(i, (k, v)));
        crate::assoc::lemma_insert_lookup(s, i, k, v);
    }
}

} // verus!
