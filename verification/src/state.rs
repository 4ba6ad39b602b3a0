//! A small, domain-neutral state model: opaque bytes, revisions,
//! observations and mutations.

use std::sync::Arc;
use vstd::prelude::*;
use vstd::string::StringSliceAdditionalSpecFns;

use crate::assoc::{has_key, keys_unique, lemma_lookup_absent, lemma_lookup_at, lookup};
use crate::order::{
    compare_bytes, lemma_lex_asymmetric, lemma_lex_irreflexive, lemma_sorted_insert_at,
    lemma_sorted_insert_lookup, lemma_sorted_insert_shape, lemma_sorted_unique, lex_lt,
    sorted_insert, sorted_keys, KeyOrder,
};

verus! {

/// Copies bytes into a new shared buffer (`Arc::<[u8]>::from(&[u8])`).
#[verifier::external_body]
fn share_slice(bytes: &[u8]) -> (r: Arc<[u8]>)
    ensures
        (*r)@ == bytes@,
{
    Arc::from(bytes)
}

/// Moves a vector into a shared buffer (`Arc::<[u8]>::from(Vec<u8>)`).
#[verifier::external_body]
fn share_vec(bytes: Vec<u8>) -> (r: Arc<[u8]>)
    ensures
        (*r)@ == bytes@,
{
    Arc::from(bytes)
}

/// Another handle on the same shared buffer (`Arc::clone`).
#[verifier::external_body]
fn share_again(bytes: &Arc<[u8]>) -> (r: Arc<[u8]>)
    ensures
        (*r)@ == (**bytes)@,
{
    Arc::clone(bytes)
}

/// An opaque, cheaply shareable key into state.
#[derive(Debug, PartialEq, Eq, Hash, PartialOrd, Ord)]
pub struct StateKey(Arc<[u8]>);

impl View for StateKey {
    type V = Seq<u8>;

    closed spec fn view(&self) -> Seq<u8> {
        (*self.0)@
    }
}

impl StateKey {
    /// Creates a key by copying the supplied bytes.
    pub fn new(bytes: &[u8]) -> (r: Self)
        ensures
            r@ == bytes@,
    {
        StateKey(share_slice(bytes))
    }

    /// Creates a key from an existing shared byte buffer without copying it.
    pub fn from_arc(bytes: Arc<[u8]>) -> (r: Self)
        ensures
            r@ == (*bytes)@,
    {
        StateKey(bytes)
    }

    /// Returns the opaque key bytes.
    pub fn as_bytes(&self) -> (r: &[u8])
        ensures
            r@ == self@,
    {
        &*self.0
    }

    /// Returns the shared byte buffer.
    pub fn into_arc(self) -> (r: Arc<[u8]>)
        ensures
            (*r)@ == self@,
    {
        self.0
    }

    /// Whether two keys hold the same bytes.
    pub fn same_as(&self, other: &StateKey) -> (r: bool)
        ensures
            r == (self@ == other@),
    {
        match compare_bytes(self.as_bytes(), other.as_bytes()) {
            KeyOrder::Equal => true,
            _ => {
                proof {
                    crate::order::lemma_lex_irreflexive(self@);
                }
                false
            },
        }
    }
}

impl Clone for StateKey {
    fn clone(&self) -> (r: Self)
        ensures
            r@ == self@,
    {
        StateKey(share_again(&self.0))
    }
}

impl From<&[u8]> for StateKey {
    fn from(bytes: &[u8]) -> (r: Self)
        ensures
            r@ == bytes@,
    {
        StateKey::new(bytes)
    }
}

impl vstd::std_specs::convert::FromSpecImpl<&[u8]> for StateKey {
    open spec fn obeys_from_spec() -> bool {
        false
    }

    open spec fn from_spec(v: &[u8]) -> StateKey {
        choose|k: StateKey| k@ == v@
    }
}

impl From<&str> for StateKey {
    fn from(text: &str) -> (r: Self)
        ensures
            r@ == text.spec_bytes(),
    {
        StateKey::new(text.as_bytes())
    }
}

impl vstd::std_specs::convert::FromSpecImpl<&str> for StateKey {
    open spec fn obeys_from_spec() -> bool {
        false
    }

    open spec fn from_spec(v: &str) -> StateKey {
        choose|k: StateKey| k@ == v.spec_bytes()
    }
}

impl From<Vec<u8>> for StateKey {
    fn from(bytes: Vec<u8>) -> (r: Self)
        ensures
            r@ == bytes@,
    {
        StateKey(share_vec(bytes))
    }
}

impl vstd::std_specs::convert::FromSpecImpl<Vec<u8>> for StateKey {
    open spec fn obeys_from_spec() -> bool {
        false
    }

    open spec fn from_spec(v: Vec<u8>) -> StateKey {
        choose|k: StateKey| k@ == v@
    }
}

impl From<Arc<[u8]>> for StateKey {
    fn from(bytes: Arc<[u8]>) -> (r: Self)
        ensures
            r@ == (*bytes)@,
    {
        StateKey::from_arc(bytes)
    }
}

impl vstd::std_specs::convert::FromSpecImpl<Arc<[u8]>> for StateKey {
    open spec fn obeys_from_spec() -> bool {
        false
    }

    open spec fn from_spec(v: Arc<[u8]>) -> StateKey {
        choose|k: StateKey| k@ == (*v)@
    }
}

/// Opaque, immutable, and cheaply shareable state data.
#[derive(Debug, PartialEq, Eq, Hash)]
pub struct StateValue(Arc<[u8]>);

impl View for StateValue {
    type V = Seq<u8>;

    closed spec fn view(&self) -> Seq<u8> {
        (*self.0)@
    }
}

impl StateValue {
    /// Creates a value by copying the supplied bytes.
    pub fn new(bytes: &[u8]) -> (r: Self)
        ensures
            r@ == bytes@,
    {
        StateValue(share_slice(bytes))
    }

    /// Creates a value from an existing shared byte buffer without copying it.
    pub fn from_arc(bytes: Arc<[u8]>) -> (r: Self)
        ensures
            r@ == (*bytes)@,
    {
        StateValue(bytes)
    }

    /// Returns the opaque value bytes.
    pub fn as_bytes(&self) -> (r: &[u8])
        ensures
            r@ == self@,
    {
        &*self.0
    }

    /// Returns the shared byte buffer.
    pub fn into_arc(self) -> (r: Arc<[u8]>)
        ensures
            (*r)@ == self@,
    {
        self.0
    }

    /// Whether two values hold the same bytes.
    pub fn same_as(&self, other: &StateValue) -> (r: bool)
        ensures
            r == (self@ == other@),
    {
        match compare_bytes(self.as_bytes(), other.as_bytes()) {
            KeyOrder::Equal => true,
            _ => {
                proof {
                    crate::order::lemma_lex_irreflexive(self@);
                }
                false
            },
        }
    }
}

impl Clone for StateValue {
    fn clone(&self) -> (r: Self)
        ensures
            r@ == self@,
    {
        StateValue(share_again(&self.0))
    }
}

impl From<&[u8]> for StateValue {
    fn from(bytes: &[u8]) -> (r: Self)
        ensures
            r@ == bytes@,
    {
        StateValue::new(bytes)
    }
}

impl vstd::std_specs::convert::FromSpecImpl<&[u8]> for StateValue {
    open spec fn obeys_from_spec() -> bool {
        false
    }

    open spec fn from_spec(v: &[u8]) -> StateValue {
        choose|k: StateValue| k@ == v@
    }
}

impl From<&str> for StateValue {
    fn from(text: &str) -> (r: Self)
        ensures
            r@ == text.spec_bytes(),
    {
        StateValue::new(text.as_bytes())
    }
}

impl vstd::std_specs::convert::FromSpecImpl<&str> for StateValue {
    open spec fn obeys_from_spec() -> bool {
        false
    }

    open spec fn from_spec(v: &str) -> StateValue {
        choose|k: StateValue| k@ == v.spec_bytes()
    }
}

impl From<Vec<u8>> for StateValue {
    fn from(bytes: Vec<u8>) -> (r: Self)
        ensures
            r@ == bytes@,
    {
        StateValue(share_vec(bytes))
    }
}

impl vstd::std_specs::convert::FromSpecImpl<Vec<u8>> for StateValue {
    open spec fn obeys_from_spec() -> bool {
        false
    }

    open spec fn from_spec(v: Vec<u8>) -> StateValue {
        choose|k: StateValue| k@ == v@
    }
}

impl From<Arc<[u8]>> for StateValue {
    fn from(bytes: Arc<[u8]>) -> (r: Self)
        ensures
            r@ == (*bytes)@,
    {
        StateValue::from_arc(bytes)
    }
}

impl vstd::std_specs::convert::FromSpecImpl<Arc<[u8]>> for StateValue {
    open spec fn obeys_from_spec() -> bool {
        false
    }

    open spec fn from_spec(v: Arc<[u8]>) -> StateValue {
        choose|k: StateValue| k@ == (*v)@
    }
}

/// A concurrency token associated with a state cell.
///
/// A revision is not a domain version: adapters may map their own versions
/// to revisions, but the core gives it no further meaning.
#[derive(Clone, Copy, Debug, PartialEq, Eq, Structural, Hash, PartialOrd, Ord)]
pub struct Revision(u64);

impl View for Revision {
    type V = u64;

    closed spec fn view(&self) -> u64 {
        self.0
    }
}

impl Revision {
    /// Creates a revision from its raw token.
    pub fn new(value: u64) -> (r: Self)
        ensures
            r@ == value,
    {
        Revision(value)
    }

    /// The initial revision of a key that has never been written.
    pub fn zero() -> (r: Self)
        ensures
            r@ == 0,
    {
        Revision(0)
    }

    /// Returns the raw revision token.
    pub fn value(self) -> (v: u64)
        ensures
            v == self@,
    {
        self.0
    }

    /// Returns the next revision, or `None` if the token is exhausted.
    pub fn checked_next(self) -> (r: Option<Self>)
        ensures
            match r {
                Some(n) => self@ < u64::MAX && n@ == self@ + 1,
                None => self@ == u64::MAX,
            },
    {
        match self.0.checked_add(1) {
            Some(value) => Some(Revision(value)),
            None => None,
        }
    }
}

impl Default for Revision {
    /// The revision of a key that was never written.
    fn default() -> (r: Self)
        ensures
            r@ == 0,
    {
        Revision(0)
    }
}

impl From<u64> for Revision {
    fn from(value: u64) -> (r: Self)
        ensures
            r@ == value,
    {
        Revision::new(value)
    }
}

impl vstd::std_specs::convert::FromSpecImpl<u64> for Revision {
    open spec fn obeys_from_spec() -> bool {
        false
    }

    open spec fn from_spec(v: u64) -> Revision {
        choose|r: Revision| r@ == v
    }
}

impl From<Revision> for u64 {
    fn from(revision: Revision) -> (r: Self)
        ensures
            r == revision@,
    {
        revision.value()
    }
}

impl vstd::std_specs::convert::FromSpecImpl<Revision> for u64 {
    open spec fn obeys_from_spec() -> bool {
        false
    }

    open spec fn from_spec(v: Revision) -> u64 {
        v@
    }
}

/// The bytes of an optional value.
pub open spec fn value_view(v: Option<StateValue>) -> Option<Seq<u8>> {
    match v {
        Some(x) => Some(x@),
        None => None,
    }
}

/// Another handle on an optional value.
pub fn copy_value(v: &Option<StateValue>) -> (r: Option<StateValue>)
    ensures
        value_view(r) == value_view(*v),
{
    match v {
        Some(x) => Some(x.clone()),
        None => None,
    }
}

/// Whether two optional values are both absent or hold the same bytes.
pub fn same_value(a: &Option<StateValue>, b: &Option<StateValue>) -> (r: bool)
    ensures
        r == (value_view(*a) == value_view(*b)),
{
    match (a, b) {
        (Some(x), Some(y)) => x.same_as(y),
        (None, None) => true,
        _ => false,
    }
}

/// The mathematical content of a state cell.
pub struct CellView {
    pub revision: u64,
    pub value: Option<Seq<u8>>,
}

/// The value and concurrency token observed for one key.
#[derive(Debug, PartialEq, Eq)]
pub struct StateCell {
    /// The concurrency token observed with this cell.
    pub revision: Revision,
    /// The opaque value, or `None` when the key is absent.
    pub value: Option<StateValue>,
}

impl View for StateCell {
    type V = CellView;

    open spec fn view(&self) -> CellView {
        CellView { revision: self.revision@, value: value_view(self.value) }
    }
}

impl StateCell {
    /// Creates a cell. An absent cell still has a meaningful revision.
    pub fn new(revision: Revision, value: Option<StateValue>) -> (r: Self)
        ensures
            r@ == (CellView { revision: revision@, value: value_view(value) }),
    {
        StateCell { revision, value }
    }

    /// Creates an absent cell at `revision`.
    pub fn absent(revision: Revision) -> (r: Self)
        ensures
            r@ == (CellView { revision: revision@, value: None }),
    {
        StateCell::new(revision, None)
    }

    /// Creates a present cell at `revision`.
    pub fn present(revision: Revision, value: StateValue) -> (r: Self)
        ensures
            r@ == (CellView { revision: revision@, value: Some(value@) }),
    {
        StateCell::new(revision, Some(value))
    }

    /// Returns whether this cell contains a value.
    pub fn is_present(&self) -> (r: bool)
        ensures
            r == self@.value is Some,
    {
        self.value.is_some()
    }
}

impl Clone for StateCell {
    fn clone(&self) -> (r: Self)
        ensures
            r@ == self@,
    {
        StateCell { revision: self.revision, value: copy_value(&self.value) }
    }
}

/// A synchronous read-only view of state.
pub trait StateView {
    /// The error returned when a read cannot be completed.
    type Error;

    /// Reads one key and returns its value and revision.
    fn read(&self, key: &StateKey) -> Result<StateCell, Self::Error>;
}

/// A revision observed while executing against a state view.
#[derive(Debug, PartialEq, Eq)]
pub struct Observation {
    /// The key whose revision was observed.
    pub key: StateKey,
    /// The revision returned by the state view.
    pub revision: Revision,
}

impl Clone for Observation {
    fn clone(&self) -> (r: Self)
        ensures
            r.key@ == self.key@,
            r.revision == self.revision,
    {
        Observation { key: self.key.clone(), revision: self.revision }
    }
}

impl Observation {
    /// Creates an observation for a key and its revision.
    pub fn new(key: StateKey, revision: Revision) -> (r: Self)
        ensures
            r.key@ == key@,
            r.revision@ == revision@,
    {
        Observation { key, revision }
    }
}

/// The mathematical content of a mutation.
pub struct MutationView {
    pub key: Seq<u8>,
    pub expected_revision: u64,
    pub before: Option<Seq<u8>>,
    pub after: Option<Seq<u8>>,
}

/// A single compare-and-swap state change.
#[derive(Debug, PartialEq, Eq)]
pub struct Mutation {
    /// The key to change.
    pub key: StateKey,
    /// The revision the mutation was produced against.
    pub expected_revision: Revision,
    /// The value expected at `expected_revision`.
    pub before: Option<StateValue>,
    /// The value to publish, or `None` to delete the cell.
    pub after: Option<StateValue>,
}

impl View for Mutation {
    type V = MutationView;

    open spec fn view(&self) -> MutationView {
        MutationView {
            key: self.key@,
            expected_revision: self.expected_revision@,
            before: value_view(self.before),
            after: value_view(self.after),
        }
    }
}

impl Mutation {
    /// Creates an explicit state change from `before` to `after`.
    pub fn new(
        key: StateKey,
        expected_revision: Revision,
        before: Option<StateValue>,
        after: Option<StateValue>,
    ) -> (r: Self)
        ensures
            r@ == (MutationView {
                key: key@,
                expected_revision: expected_revision@,
                before: value_view(before),
                after: value_view(after),
            }),
    {
        Mutation { key, expected_revision, before, after }
    }

    /// Creates a mutation for a previously absent key.
    pub fn create(key: StateKey, expected_revision: Revision, value: StateValue) -> (r: Self)
        ensures
            r@ == (MutationView {
                key: key@,
                expected_revision: expected_revision@,
                before: None,
                after: Some(value@),
            }),
    {
        Mutation::new(key, expected_revision, None, Some(value))
    }

    /// Creates a mutation that replaces an existing value.
    pub fn update(
        key: StateKey,
        expected_revision: Revision,
        before: StateValue,
        after: StateValue,
    ) -> (r: Self)
        ensures
            r@ == (MutationView {
                key: key@,
                expected_revision: expected_revision@,
                before: Some(before@),
                after: Some(after@),
            }),
    {
        Mutation::new(key, expected_revision, Some(before), Some(after))
    }

    /// Creates a mutation that removes an existing value.
    pub fn delete(key: StateKey, expected_revision: Revision, before: StateValue) -> (r: Self)
        ensures
            r@ == (MutationView {
                key: key@,
                expected_revision: expected_revision@,
                before: Some(before@),
                after: None,
            }),
    {
        Mutation::new(key, expected_revision, Some(before), None)
    }
}

impl Clone for Mutation {
    fn clone(&self) -> (r: Self)
        ensures
            r@ == self@,
    {
        Mutation {
            key: self.key.clone(),
            expected_revision: self.expected_revision,
            before: copy_value(&self.before),
            after: copy_value(&self.after),
        }
    }
}

/// Deterministic set of key revisions observed during execution, kept in
/// ascending key order.
#[derive(Debug, PartialEq, Eq)]
pub struct ReadSet {
    entries: Vec<(StateKey, Revision)>,
}

impl View for ReadSet {
    type V = Seq<(Seq<u8>, u64)>;

    closed spec fn view(&self) -> Seq<(Seq<u8>, u64)> {
        self.entries@.map_values(|e: (StateKey, Revision)| (e.0@, e.1@))
    }
}

impl ReadSet {
    #[verifier::type_invariant]
    pub(crate) closed spec fn ascending(&self) -> bool {
        sorted_keys(self@)
    }

    /// Creates an empty read set.
    pub fn new() -> (r: Self)
        ensures
            r@ == Seq::<(Seq<u8>, u64)>::empty(),
            sorted_keys(r@),
    {
        let r = ReadSet { entries: Vec::new() };
        assert(r@ =~= Seq::<(Seq<u8>, u64)>::empty());
        r
    }

    /// Returns the number of recorded keys.
    pub fn len(&self) -> (r: usize)
        ensures
            r == self@.len(),
            sorted_keys(self@),
    {
        proof {
            use_type_invariant(self);
        }
        self.entries.len()
    }

    /// Returns whether no key was recorded.
    pub fn is_empty(&self) -> (r: bool)
        ensures
            r == (self@.len() == 0),
    {
        self.entries.len() == 0
    }

    /// Returns the key at position `i` in ascending order.
    pub fn key_at(&self, i: usize) -> (r: &StateKey)
        requires
            i < self@.len(),
        ensures
            r@ == self@[i as int].0,
    {
        &self.entries[i].0
    }

    /// Returns the revision recorded for the key at position `i`.
    pub fn revision_at(&self, i: usize) -> (r: Revision)
        requires
            i < self@.len(),
        ensures
            r@ == self@[i as int].1,
    {
        self.entries[i].1
    }

    /// Returns the revision recorded for `key`.
    pub fn get(&self, key: &StateKey) -> (r: Option<Revision>)
        ensures
            match r {
                Some(x) => lookup(self@, key@) == Some(x@),
                None => lookup(self@, key@) is None,
            },
    {
        proof {
            use_type_invariant(self);
            lemma_sorted_unique(self@);
        }
        let mut i: usize = 0;
        while i < self.entries.len()
            invariant
                i <= self@.len(),
                self@.len() == self.entries@.len(),
                keys_unique(self@),
                forall|j: int| 0 <= j < i ==> self@[j].0 != key@,
            decreases self@.len() - i,
        {
            if self.entries[i].0.same_as(key) {
                proof {
                    lemma_lookup_at(self@, i as int);
                }
                return Some(self.entries[i].1);
            }
            i = i + 1;
        }
        proof {
            lemma_lookup_absent(self@, key@);
        }
        None
    }

    /// Records `revision` for `key` unless `key` is already present.
    pub fn insert_if_absent(&mut self, key: StateKey, revision: Revision)
        ensures
            final(self)@ == sorted_insert(old(self)@, key@, revision@),
            sorted_keys(old(self)@),
            sorted_keys(final(self)@),
            has_key(old(self)@, key@) ==> final(self)@ == old(self)@,
            lookup(final(self)@, key@) == (match lookup(old(self)@, key@) {
                Some(r) => Some(r),
                None => Some(revision@),
            }),
            forall|k2: Seq<u8>|
                k2 != key@ ==> #[trigger] lookup(final(self)@, k2) == lookup(old(self)@, k2),
    {
        proof {
            use_type_invariant(&*self);
            lemma_sorted_insert_lookup(self@, key@, revision@);
            lemma_sorted_unique(self@);
            if has_key(self@, key@) {
                let i = crate::assoc::index_of(self@, key@);
                lemma_lookup_at(self@, i);
            } else {
                lemma_lookup_absent(self@, key@);
            }
        }
        proof {
            use_type_invariant(&*self);
        }
        let ghost s = self@;
        let mut i: usize = 0;
        let mut at: KeyOrder = KeyOrder::Greater;
        while i < self.entries.len()
            invariant
                i <= s.len(),
                s == self@,
                s.len() == self.entries@.len(),
                forall|j: int| 0 <= j < i ==> lex_lt(#[trigger] s[j].0, key@),
            ensures
                i <= s.len(),
                forall|j: int| 0 <= j < i ==> lex_lt(#[trigger] s[j].0, key@),
                i < s.len() ==> match at {
                    KeyOrder::Less => false,
                    KeyOrder::Equal => s[i as int].0 == key@,
                    KeyOrder::Greater => lex_lt(key@, s[i as int].0),
                },
            decreases s.len() - i,
        {
            at = compare_bytes(self.entries[i].0.as_bytes(), key.as_bytes());
            match at {
                KeyOrder::Less => {},
                _ => break,
            }
            i = i + 1;
        }
        proof {
            let p = lemma_sorted_insert_shape(s, key@, revision@);
            if i < s.len() {
                lemma_lex_asymmetric(s[i as int].0, key@);
            }
            if p < i {
                assert(lex_lt(s[p].0, key@));
            }
            if i < p {
                assert(lex_lt(s[i as int].0, key@));
            }
            assert(p == i);
        }
        if i < self.entries.len() {
            match at {
                KeyOrder::Equal => {
                    return;
                },
                _ => {},
            }
        }
        proof {
            if i < s.len() {
                lemma_lex_irreflexive(key@);
                lemma_lex_asymmetric(s[i as int].0, key@);
            }
            lemma_sorted_insert_at(s, key@, revision@, i as int);
        }
        let mut entries: Vec<(StateKey, Revision)> = Vec::new();
        std::mem::swap(&mut entries, &mut self.entries);
        entries.insert(i, (key, revision));
        assert(entries@.map_values(|e: (StateKey, Revision)| (e.0@, e.1@)) =~= s.insert(
            i as int,
            (key@, revision@),
        ));
        self.entries = entries;
    }

    /// Returns the recorded keys in ascending order.
    pub fn keys(&self) -> (r: Vec<StateKey>)
        ensures
            r@.len() == self@.len(),
            forall|i: int| 0 <= i < r@.len() ==> #[trigger] r@[i]@ == self@[i].0,
    {
        let mut out: Vec<StateKey> = Vec::new();
        let mut i: usize = 0;
        while i < self.entries.len()
            invariant
                i <= self@.len(),
                self@.len() == self.entries@.len(),
                out@.len() == i,
                forall|j: int| 0 <= j < i ==> #[trigger] out@[j]@ == self@[j].0,
            decreases self@.len() - i,
        {
            out.push(self.entries[i].0.clone());
            i = i + 1;
        }
        out
    }
}

impl Default for ReadSet {
    fn default() -> (r: Self)
        ensures
            r@ == Seq::<(Seq<u8>, u64)>::empty(),
    {
        ReadSet::new()
    }
}

impl Clone for ReadSet {
    fn clone(&self) -> (r: Self)
        ensures
            r@ == self@,
            sorted_keys(r@),
    {
        proof {
            use_type_invariant(self);
        }
        let mut out: Vec<(StateKey, Revision)> = Vec::new();
        let mut i: usize = 0;
        while i < self.entries.len()
            invariant
                i <= self@.len(),
                self@.len() == self.entries@.len(),
                out@.len() == i,
                forall|j: int|
                    0 <= j < i ==> (#[trigger] out@[j]).0@ == self@[j].0 && out@[j].1@ == self@[j].1,
            decreases self@.len() - i,
        {
            out.push((self.entries[i].0.clone(), self.entries[i].1));
            i = i + 1;
        }
        let r = ReadSet { entries: out };
        assert(r@ =~= self@);
        r
    }
}

/// The views of a sequence of mutations.
pub open spec fn mutations_view(m: Seq<Mutation>) -> Seq<MutationView> {
    m.map_values(|x: Mutation| x@)
}

/// The mathematical content of a transition batch.
pub struct BatchView {
    pub reads: Seq<(Seq<u8>, u64)>,
    pub mutations: Seq<MutationView>,
}

/// The domain-neutral result of deterministic state execution.
#[derive(Debug, PartialEq, Eq)]
pub struct TransitionBatch {
    /// Revisions observed while producing this batch.
    pub reads: ReadSet,
    /// Canonical state changes, in execution order.
    pub mutations: Vec<Mutation>,
}

impl View for TransitionBatch {
    type V = BatchView;

    open spec fn view(&self) -> BatchView {
        BatchView { reads: self.reads@, mutations: mutations_view(self.mutations@) }
    }
}

impl TransitionBatch {
    /// Creates a transition batch from its read set and mutations.
    pub fn new(reads: ReadSet, mutations: Vec<Mutation>) -> (r: Self)
        ensures
            r@ == (BatchView { reads: reads@, mutations: mutations_view(mutations@) }),
            sorted_keys(r@.reads),
    {
        proof {
            use_type_invariant(&reads);
        }
        TransitionBatch { reads, mutations }
    }

    /// Creates an empty transition batch.
    pub fn empty() -> (r: Self)
        ensures
            r@.reads.len() == 0,
            r@.mutations.len() == 0,
    {
        TransitionBatch { reads: ReadSet::new(), mutations: Vec::new() }
    }

    /// Records the first revision observed for a key.
    pub fn record_observation(&mut self, observation: Observation)
        ensures
            final(self)@.reads == sorted_insert(
                old(self)@.reads,
                observation.key@,
                observation.revision@,
            ),
            final(self)@.mutations == old(self)@.mutations,
            sorted_keys(final(self)@.reads),
            has_key(old(self)@.reads, observation.key@) ==> final(self)@.reads == old(self)@.reads,
            lookup(final(self)@.reads, observation.key@) == (match lookup(
                old(self)@.reads,
                observation.key@,
            ) {
                Some(r) => Some(r),
                None => Some(observation.revision@),
            }),
            forall|k2: Seq<u8>|
                k2 != observation.key@ ==> #[trigger] lookup(final(self)@.reads, k2) == lookup(
                    old(self)@.reads,
                    k2,
                ),
    {
        self.reads.insert_if_absent(observation.key, observation.revision);
    }

    /// Adds a mutation to the end of the batch.
    pub fn push_mutation(&mut self, mutation: Mutation)
        ensures
            final(self)@.reads == old(self)@.reads,
            final(self)@.mutations == old(self)@.mutations.push(mutation@),
    {
        self.mutations.push(mutation);
        assert(mutations_view(self.mutations@) =~= mutations_view(old(self).mutations@).push(
            mutation@,
        ));
    }
}

/// A copy of each mutation, in order.
fn clone_mutations(ms: &Vec<Mutation>) -> (r: Vec<Mutation>)
    ensures
        mutations_view(r@) == mutations_view(ms@),
{
    let mut out: Vec<Mutation> = Vec::new();
    let mut i: usize = 0;
    while i < ms.len()
        invariant
            i <= ms@.len(),
            out@.len() == i,
            forall|j: int| 0 <= j < i ==> (#[trigger] out@[j])@ == ms@[j]@,
        decreases ms@.len() - i,
    {
        out.push(ms[i].clone());
        i = i + 1;
    }
    assert(mutations_view(out@) =~= mutations_view(ms@));
    out
}

impl Clone for TransitionBatch {
    fn clone(&self) -> (r: Self)
        ensures
            r@ == self@,
    {
        TransitionBatch { reads: self.reads.clone(), mutations: clone_mutations(&self.mutations) }
    }
}

impl Default for TransitionBatch {
    fn default() -> (r: Self)
        ensures
            r@.reads.len() == 0,
            r@.mutations.len() == 0,
    {
        TransitionBatch::empty()
    }
}

} // verus!
