//! The subscriptions of an application: for each stream, the subscribers
//! that receive its events, in the order they subscribed.

use vstd::prelude::*;

use crate::assoc::{assoc_set, keys_unique, lemma_assoc_set, lemma_lookup_absent, lemma_lookup_at, lookup};
use crate::text::same_text;

verus! {

/// The subscribers of each stream. A subscriber is whatever the caller
/// delivers events to.
pub struct Subscribers<S> {
    entries: Vec<(String, Vec<S>)>,
}

pub open spec fn entries_view<S>(e: Seq<(String, Vec<S>)>) -> Seq<(Seq<char>, Seq<S>)> {
    e.map_values(|x: (String, Vec<S>)| (x.0@, x.1@))
}

impl<S> View for Subscribers<S> {
    type V = Seq<(Seq<char>, Seq<S>)>;

    closed spec fn view(&self) -> Seq<(Seq<char>, Seq<S>)> {
        entries_view(self.entries@)
    }
}

impl<S> Subscribers<S> {
    #[verifier::type_invariant]
    spec fn one_entry_per_stream(&self) -> bool {
        keys_unique(self@)
    }

    /// The subscribers of `stream`, in subscription order.
    pub open spec fn subscribers_of(self, stream: Seq<char>) -> Seq<S> {
        match lookup(self@, stream) {
            Some(subs) => subs,
            None => Seq::empty(),
        }
    }

    /// No stream has a subscriber.
    pub fn new() -> (r: Self)
        ensures
            r@.len() == 0,
    {
        let r = Subscribers { entries: Vec::new() };
        assert(r@ =~= Seq::<(Seq<char>, Seq<S>)>::empty());
        r
    }

    fn position(entries: &Vec<(String, Vec<S>)>, stream: &str) -> (r: Option<usize>)
        ensures
            match r {
                Some(i) => i < entries@.len() && entries@[i as int].0@ == stream@,
                None => forall|i: int|
                    0 <= i < entries@.len() ==> (#[trigger] entries@[i]).0@ != stream@,
            },
    {
        let mut i: usize = 0;
        while i < entries.len()
            invariant
                i <= entries@.len(),
                forall|j: int| 0 <= j < i ==> (#[trigger] entries@[j]).0@ != stream@,
            decreases entries@.len() - i,
        {
            if same_text(entries[i].0.as_str(), stream) {
                return Some(i);
            }
            i = i + 1;
        }
        None
    }

    /// Adds `sub` after the subscribers `stream` already has; a stream
    /// without subscribers gets its first one.
    pub fn add_sub(&mut self, stream: &str, sub: S)
        ensures
            final(self)@ == assoc_set(
                old(self)@,
                stream@,
                old(self).subscribers_of(stream@).push(sub),
            ),
            final(self).subscribers_of(stream@) == old(self).subscribers_of(stream@).push(sub),
            forall|other: Seq<char>|
                other != stream@ ==> #[trigger] final(self).subscribers_of(other) == old(
                    self,
                ).subscribers_of(other),
    {
        proof {
            use_type_invariant(&*self);
        }
        let ghost before = self@;
        let ghost subs = self.subscribers_of(stream@).push(sub);
        proof {
            lemma_assoc_set(before, stream@, subs);
        }
        let mut entries: Vec<(String, Vec<S>)> = Vec::new();
        std::mem::swap(&mut entries, &mut self.entries);
        match Self::position(&entries, stream) {
            Some(i) => {
                proof {
                    lemma_lookup_at(before, i as int);
                }
                let (name, mut list) = entries.remove(i);
                list.push(sub);
                entries.insert(i, (name, list));
                assert(entries_view(entries@) =~= assoc_set(before, stream@, subs));
            },
            None => {
                proof {
                    lemma_lookup_absent(before, stream@);
                }
                let mut list: Vec<S> = Vec::new();
                list.push(sub);
                entries.push((stream.to_owned(), list));
                assert(entries_view(entries@) =~= assoc_set(before, stream@, subs));
            },
        }
        self.entries = entries;
    }

    /// The subscribers of `stream`, if it has any entry.
    pub fn get(&self, stream: &str) -> (r: Option<&Vec<S>>)
        ensures
            match r {
                Some(v) => lookup(self@, stream@) == Some(v@),
                None => lookup(self@, stream@) is None,
            },
    {
        proof {
            use_type_invariant(self);
        }
        match Self::position(&self.entries, stream) {
            Some(i) => {
                proof {
                    lemma_lookup_at(self@, i as int);
                }
                Some(&self.entries[i].1)
            },
            None => {
                proof {
                    lemma_lookup_absent(self@, stream@);
                }
                None
            },
        }
    }
}

} // verus!
