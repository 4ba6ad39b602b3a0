//! The running instances of an aggregate type, by identity: a command for
//! an identity goes to its running instance, or starts one that is then
//! kept; a shutdown forgets it.

use vstd::prelude::*;

use crate::assoc::{
    assoc_set, has_key, keys_unique, lemma_assoc_set, lemma_lookup_absent, lemma_lookup_at, lookup,
};
use crate::text::same_text;

verus! {

/// The instances that run, each under its identity. An instance is
/// whatever handle the caller reaches a running instance by.
pub struct InstanceRegistry<A> {
    entries: Vec<(String, A)>,
}

pub open spec fn registry_view<A>(e: Seq<(String, A)>) -> Seq<(Seq<char>, A)> {
    e.map_values(|x: (String, A)| (x.0@, x.1))
}

/// Where a command for an identity goes.
pub enum Route<A> {
    /// To the instance that already runs.
    Running(A),
    /// To a new instance, to be started first.
    Start,
}

impl<A> View for InstanceRegistry<A> {
    type V = Seq<(Seq<char>, A)>;

    closed spec fn view(&self) -> Seq<(Seq<char>, A)> {
        registry_view(self.entries@)
    }
}

impl<A> InstanceRegistry<A> {
    #[verifier::type_invariant]
    spec fn one_instance_per_identity(&self) -> bool {
        keys_unique(self@)
    }

    /// No instance runs.
    pub fn new() -> (r: Self)
        ensures
            r@.len() == 0,
    {
        let r = InstanceRegistry { entries: Vec::new() };
        assert(r@ =~= Seq::<(Seq<char>, A)>::empty());
        r
    }

    fn position(entries: &Vec<(String, A)>, identity: &str) -> (r: Option<usize>)
        ensures
            match r {
                Some(i) => i < entries@.len() && entries@[i as int].0@ == identity@,
                None => forall|i: int|
                    0 <= i < entries@.len() ==> (#[trigger] entries@[i]).0@ != identity@,
            },
    {
        let mut i: usize = 0;
        while i < entries.len()
            invariant
                i <= entries@.len(),
                forall|j: int| 0 <= j < i ==> (#[trigger] entries@[j]).0@ != identity@,
            decreases entries@.len() - i,
        {
            if same_text(entries[i].0.as_str(), identity) {
                return Some(i);
            }
            i = i + 1;
        }
        None
    }

    /// The instance running under `identity`, if any.
    pub fn get(&self, identity: &str) -> (r: Option<&A>)
        ensures
            match r {
                Some(a) => lookup(self@, identity@) == Some(*a),
                None => lookup(self@, identity@) is None,
            },
    {
        proof {
            use_type_invariant(self);
        }
        match Self::position(&self.entries, identity) {
            Some(i) => {
                proof {
                    lemma_lookup_at(self@, i as int);
                }
                Some(&self.entries[i].1)
            },
            None => {
                proof {
                    lemma_lookup_absent(self@, identity@);
                }
                None
            },
        }
    }

    /// Keeps `instance` under `identity`, in place of any instance kept
    /// there before.
    pub fn insert(&mut self, identity: String, instance: A)
        ensures
            final(self)@ == assoc_set(old(self)@, identity@, instance),
    {
        proof {
            use_type_invariant(&*self);
            lemma_assoc_set(self@, identity@, instance);
        }
        let ghost before = self@;
        let mut entries: Vec<(String, A)> = Vec::new();
        std::mem::swap(&mut entries, &mut self.entries);
        match Self::position(&entries, identity.as_str()) {
            Some(i) => {
                proof {
                    lemma_lookup_at(before, i as int);
                }
                let _ = entries.remove(i);
                entries.insert(i, (identity, instance));
            },
            None => {
                proof {
                    lemma_lookup_absent(before, identity@);
                }
                entries.push((identity, instance));
            },
        }
        assert(registry_view(entries@) =~= assoc_set(before, identity@, instance));
        self.entries = entries;
    }

    /// Forgets the instance kept under `identity` and returns it.
    pub fn remove(&mut self, identity: &str) -> (r: Option<A>)
        ensures
            r == lookup(old(self)@, identity@),
            !has_key(final(self)@, identity@),
            forall|other: Seq<char>|
                other != identity@ ==> #[trigger] lookup(final(self)@, other) == lookup(
                    old(self)@,
                    other,
                ),
    {
        proof {
            use_type_invariant(&*self);
        }
        let ghost before = self@;
        let mut entries: Vec<(String, A)> = Vec::new();
        std::mem::swap(&mut entries, &mut self.entries);
        let r = match Self::position(&entries, identity) {
            Some(i) => {
                proof {
                    lemma_lookup_at(before, i as int);
                }
                let (_, instance) = entries.remove(i);
                let ghost after = registry_view(entries@);
                assert(after =~= before.remove(i as int));
                proof {
                    assert forall|a: int, b: int|
                        0 <= a < after.len() && 0 <= b < after.len() && a != b implies #[trigger] after[a].0
                        != #[trigger] after[b].0 by {
                        let a0 = if a < i { a } else { a + 1 };
                        let b0 = if b < i { b } else { b + 1 };
                        assert(after[a] == before[a0]);
                        assert(after[b] == before[b0]);
                    }
                    assert forall|j: int| 0 <= j < after.len() implies after[j].0 != identity@ by {
                        let j0 = if j < i { j } else { j + 1 };
                        assert(after[j] == before[j0]);
                    }
                    lemma_lookup_absent(after, identity@);
                    assert forall|other: Seq<char>| other != identity@ implies #[trigger] lookup(
                        after,
                        other,
                    ) == lookup(before, other) by {
                        if has_key(before, other) {
                            let j = crate::assoc::index_of(before, other);
                            lemma_lookup_at(before, j);
                            let j1 = if j < i { j } else { j - 1 };
                            assert(after[j1] == before[j]);
                            lemma_lookup_at(after, j1);
                        } else {
                            assert forall|j: int| 0 <= j < after.len() implies after[j].0 != other by {
                                let j0 = if j < i { j } else { j + 1 };
                                assert(after[j] == before[j0]);
                            }
                            lemma_lookup_absent(after, other);
                        }
                    }
                }
                Some(instance)
            },
            None => {
                proof {
                    lemma_lookup_absent(before, identity@);
                }
                None
            },
        };
        self.entries = entries;
        r
    }

    /// Where a command for `identity` goes: to a copy of the handle of the
    /// instance that runs under it, or to a new instance.
    pub fn route(&self, identity: &str) -> (r: Route<A>) where A: Clone
        ensures
            match r {
                Route::Running(a) => lookup(self@, identity@) matches Some(kept) && cloned(kept, a),
                Route::Start => lookup(self@, identity@) is None,
            },
    {
        match self.get(identity) {
            Some(a) => Route::Running(a.clone()),
            None => Route::Start,
        }
    }

    /// Records the outcome of starting an instance for `identity`: a
    /// started instance is kept (a copy of its handle), a failure changes
    /// nothing. The outcome is handed back.
    pub fn started<E>(&mut self, identity: String, outcome: Result<A, E>) -> (r: Result<A, E>) where
        A: Clone,

        ensures
            r == outcome,
            match outcome {
                Ok(a) => lookup(final(self)@, identity@) matches Some(kept) && cloned(a, kept)
                    && forall|other: Seq<char>|
                    other != identity@ ==> #[trigger] lookup(final(self)@, other) == lookup(
                        old(self)@,
                        other,
                    ),
                Err(_) => final(self)@ == old(self)@,
            },
    {
        proof {
            use_type_invariant(&*self);
        }
        match outcome {
            Ok(a) => {
                let kept = a.clone();
                proof {
                    lemma_assoc_set(self@, identity@, kept);
                }
                self.insert(identity, kept);
                Ok(a)
            },
            Err(e) => Err(e),
        }
    }
}

} // verus!
