//! Storage contracts for applying deterministic state transitions.

use vstd::prelude::*;

use crate::assoc::{
    assoc_set, find_key, has_key, keys_unique, lemma_assoc_set, lemma_lookup_absent,
    lemma_lookup_at, lookup,
};
use crate::order::sorted_keys;
use crate::state::{
    copy_value, mutations_view, same_value, Mutation, value_view, BatchView, CellView, MutationView, Revision, StateCell,
    StateKey, StateValue, StateView, TransitionBatch,
};

verus! {

/// The mathematical content of a storage error.
pub enum StorageErrorView {
    Conflict { key: Seq<u8>, expected: u64, actual: u64 },
    ValueMismatch { key: Seq<u8>, expected: Option<Seq<u8>>, actual: Option<Seq<u8>> },
    RevisionExhausted { key: Seq<u8>, revision: u64 },
    LockPoisoned,
}

/// A failed compare-and-swap validation.
#[derive(Clone, Debug, PartialEq, Eq)]
pub enum StorageError {
    /// The observed revision is no longer the revision required by a read or mutation.
    Conflict { key: StateKey, expected: Revision, actual: Revision },
    /// A mutation's value does not match the value at its expected revision.
    ValueMismatch { key: StateKey, expected: Option<StateValue>, actual: Option<StateValue> },
    /// A key cannot advance beyond the maximum representable revision.
    RevisionExhausted { key: StateKey, revision: Revision },
    /// The storage lock was poisoned by a panic while another operation held it.
    LockPoisoned,
}

impl View for StorageError {
    type V = StorageErrorView;

    open spec fn view(&self) -> StorageErrorView {
        match self {
            StorageError::Conflict { key, expected, actual } => StorageErrorView::Conflict {
                key: key@,
                expected: expected@,
                actual: actual@,
            },
            StorageError::ValueMismatch { key, expected, actual } => StorageErrorView::ValueMismatch {
                key: key@,
                expected: value_view(*expected),
                actual: value_view(*actual),
            },
            StorageError::RevisionExhausted { key, revision } => StorageErrorView::RevisionExhausted {
                key: key@,
                revision: revision@,
            },
            StorageError::LockPoisoned => StorageErrorView::LockPoisoned,
        }
    }
}

/// One mutation successfully published by a commit.
#[derive(Debug, PartialEq, Eq)]
pub struct AppliedMutation {
    pub key: StateKey,
    pub cell: StateCell,
}

/// The deterministic result of applying a transition batch.
#[derive(Debug, PartialEq, Eq)]
pub struct AppliedBatch {
    pub mutations: Vec<AppliedMutation>,
}

impl Clone for AppliedMutation {
    fn clone(&self) -> (r: Self)
        ensures
            r.key@ == self.key@,
            r.cell@ == self.cell@,
    {
        AppliedMutation { key: self.key.clone(), cell: self.cell.clone() }
    }
}

impl Clone for AppliedBatch {
    fn clone(&self) -> (r: Self)
        ensures
            r@ == self@,
    {
        let mut out: Vec<AppliedMutation> = Vec::new();
        let mut i: usize = 0;
        while i < self.mutations.len()
            invariant
                i <= self.mutations@.len(),
                out@.len() == i,
                forall|j: int|
                    0 <= j < i ==> (#[trigger] out@[j]).key@ == self.mutations@[j].key@
                        && out@[j].cell@ == self.mutations@[j].cell@,
            decreases self.mutations@.len() - i,
        {
            out.push(self.mutations[i].clone());
            i = i + 1;
        }
        let r = AppliedBatch { mutations: out };
        assert(r@ =~= self@);
        r
    }
}

impl Default for AppliedBatch {
    fn default() -> (r: Self)
        ensures
            r@.len() == 0,
    {
        let r = AppliedBatch { mutations: Vec::new() };
        assert(r@ =~= Seq::<(Seq<u8>, CellView)>::empty());
        r
    }
}

impl View for AppliedBatch {
    type V = Seq<(Seq<u8>, CellView)>;

    open spec fn view(&self) -> Seq<(Seq<u8>, CellView)> {
        self.mutations@.map_values(|m: AppliedMutation| (m.key@, m.cell@))
    }
}

/// The cell stored for `k`, or an absent cell at revision zero.
pub open spec fn stored_cell(cells: Seq<(Seq<u8>, CellView)>, k: Seq<u8>) -> CellView {
    match lookup(cells, k) {
        Some(c) => c,
        None => CellView { revision: 0, value: None },
    }
}

/// The cell for `k` as a batch in progress sees it: its own earlier
/// mutations first, then canonical state.
pub open spec fn visible_cell(
    cells: Seq<(Seq<u8>, CellView)>,
    overlay: Seq<(Seq<u8>, CellView)>,
    k: Seq<u8>,
) -> CellView {
    match lookup(overlay, k) {
        Some(c) => c,
        None => stored_cell(cells, k),
    }
}

/// The first read of the batch, in key order, whose revision no longer matches.
pub open spec fn first_conflict(
    cells: Seq<(Seq<u8>, CellView)>,
    reads: Seq<(Seq<u8>, u64)>,
) -> Option<StorageErrorView>
    decreases reads.len(),
{
    if reads.len() == 0 {
        None
    } else {
        match first_conflict(cells, reads.drop_last()) {
            Some(e) => Some(e),
            None => {
                let k = reads.last().0;
                let r = reads.last().1;
                let a = stored_cell(cells, k).revision;
                if a != r {
                    Some(StorageErrorView::Conflict { key: k, expected: r, actual: a })
                } else {
                    None
                }
            },
        }
    }
}

/// Validates one mutation against the batch-local overlay and, if it
/// holds, publishes its cell there.
pub open spec fn mutation_step(
    cells: Seq<(Seq<u8>, CellView)>,
    overlay: Seq<(Seq<u8>, CellView)>,
    m: MutationView,
) -> Result<(Seq<(Seq<u8>, CellView)>, CellView), StorageErrorView> {
    let cur = visible_cell(cells, overlay, m.key);
    if cur.revision != m.expected_revision {
        Err(
            StorageErrorView::Conflict {
                key: m.key,
                expected: m.expected_revision,
                actual: cur.revision,
            },
        )
    } else if cur.value != m.before {
        Err(StorageErrorView::ValueMismatch { key: m.key, expected: m.before, actual: cur.value })
    } else if cur.revision == u64::MAX {
        Err(StorageErrorView::RevisionExhausted { key: m.key, revision: cur.revision })
    } else {
        let c = CellView { revision: (cur.revision + 1) as u64, value: m.after };
        Ok((assoc_set(overlay, m.key, c), c))
    }
}

/// Runs the mutations in order: the overlay of published cells and the
/// applied cells, or the first failure.
pub open spec fn run_mutations(
    cells: Seq<(Seq<u8>, CellView)>,
    muts: Seq<MutationView>,
) -> Result<(Seq<(Seq<u8>, CellView)>, Seq<(Seq<u8>, CellView)>), StorageErrorView>
    decreases muts.len(),
{
    if muts.len() == 0 {
        Ok((Seq::empty(), Seq::empty()))
    } else {
        match run_mutations(cells, muts.drop_last()) {
            Err(e) => Err(e),
            Ok(r) => match mutation_step(cells, r.0, muts.last()) {
                Err(e) => Err(e),
                Ok(s) => Ok((s.0, r.1.push((muts.last().key, s.1)))),
            },
        }
    }
}

/// Canonical state with every overlay cell published.
pub open spec fn extend_cells(
    cells: Seq<(Seq<u8>, CellView)>,
    overlay: Seq<(Seq<u8>, CellView)>,
) -> Seq<(Seq<u8>, CellView)>
    decreases overlay.len(),
{
    if overlay.len() == 0 {
        cells
    } else {
        assoc_set(extend_cells(cells, overlay.drop_last()), overlay.last().0, overlay.last().1)
    }
}

/// The outcome of applying a batch: the new canonical state and the
/// applied cells, or the first failed validation with state untouched.
pub open spec fn apply_outcome(
    cells: Seq<(Seq<u8>, CellView)>,
    batch: BatchView,
) -> Result<(Seq<(Seq<u8>, CellView)>, Seq<(Seq<u8>, CellView)>), StorageErrorView> {
    match first_conflict(cells, batch.reads) {
        Some(e) => Err(e),
        None => match run_mutations(cells, batch.mutations) {
            Err(e) => Err(e),
            Ok(r) => Ok((extend_cells(cells, r.0), r.1)),
        },
    }
}

/// A conflict among the first reads is the batch's first conflict.
pub proof fn lemma_conflict_prefix(
    cells: Seq<(Seq<u8>, CellView)>,
    reads: Seq<(Seq<u8>, u64)>,
    i: int,
)
    requires
        0 <= i <= reads.len(),
        first_conflict(cells, reads.take(i)) is Some,
    ensures
        first_conflict(cells, reads) == first_conflict(cells, reads.take(i)),
    decreases reads.len() - i,
{
    if i == reads.len() {
        assert(reads.take(i) =~= reads);
    } else {
        assert(reads.take(i + 1).drop_last() =~= reads.take(i));
        lemma_conflict_prefix(cells, reads, i + 1);
    }
}

/// A failure among the first mutations is the batch's failure.
pub proof fn lemma_run_failure_prefix(
    cells: Seq<(Seq<u8>, CellView)>,
    muts: Seq<MutationView>,
    i: int,
)
    requires
        0 <= i <= muts.len(),
        run_mutations(cells, muts.take(i)) is Err,
    ensures
        run_mutations(cells, muts) == run_mutations(cells, muts.take(i)),
    decreases muts.len() - i,
{
    if i == muts.len() {
        assert(muts.take(i) =~= muts);
    } else {
        assert(muts.take(i + 1).drop_last() =~= muts.take(i));
        lemma_run_failure_prefix(cells, muts, i + 1);
    }
}

/// A failing mutation after a successful prefix fails the whole batch.
pub proof fn lemma_step_failure(
    cells: Seq<(Seq<u8>, CellView)>,
    muts: Seq<MutationView>,
    j: int,
    ov: Seq<(Seq<u8>, CellView)>,
    ap: Seq<(Seq<u8>, CellView)>,
)
    requires
        0 <= j < muts.len(),
        run_mutations(cells, muts.take(j)) == Ok::<
            (Seq<(Seq<u8>, CellView)>, Seq<(Seq<u8>, CellView)>),
            StorageErrorView,
        >((ov, ap)),
        mutation_step(cells, ov, muts[j]) is Err,
    ensures
        run_mutations(cells, muts) == Err::<
            (Seq<(Seq<u8>, CellView)>, Seq<(Seq<u8>, CellView)>),
            StorageErrorView,
        >(mutation_step(cells, ov, muts[j])->Err_0),
{
    assert(muts.take(j + 1).drop_last() =~= muts.take(j));
    assert(muts.take(j + 1).last() == muts[j]);
    lemma_run_failure_prefix(cells, muts, j + 1);
}

/// The overlay of a successful run has distinct keys.
pub proof fn lemma_run_unique(cells: Seq<(Seq<u8>, CellView)>, muts: Seq<MutationView>)
    requires
        run_mutations(cells, muts) is Ok,
    ensures
        keys_unique(run_mutations(cells, muts)->Ok_0.0),
        run_mutations(cells, muts)->Ok_0.1.len() == muts.len(),
    decreases muts.len(),
{
    if muts.len() > 0 {
        lemma_run_unique(cells, muts.drop_last());
        let r = run_mutations(cells, muts.drop_last())->Ok_0;
        let m = muts.last();
        let cur = visible_cell(cells, r.0, m.key);
        lemma_assoc_set(r.0, m.key, CellView { revision: (cur.revision + 1) as u64, value: m.after });
    }
}

/// Publishing an overlay keeps keys distinct.
pub proof fn lemma_extend_unique(cells: Seq<(Seq<u8>, CellView)>, overlay: Seq<(Seq<u8>, CellView)>)
    requires
        keys_unique(cells),
    ensures
        keys_unique(extend_cells(cells, overlay)),
    decreases overlay.len(),
{
    if overlay.len() > 0 {
        lemma_extend_unique(cells, overlay.drop_last());
        lemma_assoc_set(extend_cells(cells, overlay.drop_last()), overlay.last().0, overlay.last().1);
    }
}

/// Reads that all match stored revisions raise no conflict.
pub proof fn lemma_no_conflict(cells: Seq<(Seq<u8>, CellView)>, reads: Seq<(Seq<u8>, u64)>)
    requires
        forall|i: int| 0 <= i < reads.len() ==> stored_cell(cells, #[trigger] reads[i].0).revision == reads[i].1,
    ensures
        first_conflict(cells, reads) is None,
    decreases reads.len(),
{
    if reads.len() > 0 {
        let init = reads.drop_last();
        assert forall|i: int| 0 <= i < init.len() implies stored_cell(cells, #[trigger] init[i].0).revision
            == init[i].1 by {
            assert(init[i] == reads[i]);
        }
        lemma_no_conflict(cells, init);
        assert(stored_cell(cells, reads[reads.len() - 1].0).revision == reads[reads.len() - 1].1);
    }
}

/// Validating reads only ever reports a revision conflict.
pub proof fn lemma_conflict_kind(cells: Seq<(Seq<u8>, CellView)>, reads: Seq<(Seq<u8>, u64)>)
    ensures
        first_conflict(cells, reads) is None || first_conflict(cells, reads) matches Some(
            StorageErrorView::Conflict { .. },
        ),
    decreases reads.len(),
{
    if reads.len() > 0 {
        lemma_conflict_kind(cells, reads.drop_last());
    }
}

/// A read whose revision no longer matches makes the batch conflict.
pub proof fn lemma_some_conflict(cells: Seq<(Seq<u8>, CellView)>, reads: Seq<(Seq<u8>, u64)>, i: int)
    requires
        0 <= i < reads.len(),
        stored_cell(cells, reads[i].0).revision != reads[i].1,
    ensures
        first_conflict(cells, reads) matches Some(StorageErrorView::Conflict { .. }),
    decreases reads.len(),
{
    let init = reads.drop_last();
    lemma_conflict_kind(cells, init);
    if i < reads.len() - 1 {
        assert(init[i] == reads[i]);
        lemma_some_conflict(cells, init, i);
    }
}

/// Publishing an overlay: overlay cells win, other keys keep their cells.
pub proof fn lemma_extend_lookup(
    cells: Seq<(Seq<u8>, CellView)>,
    overlay: Seq<(Seq<u8>, CellView)>,
    k: Seq<u8>,
)
    requires
        keys_unique(cells),
        keys_unique(overlay),
    ensures
        lookup(extend_cells(cells, overlay), k) == match lookup(overlay, k) {
            Some(c) => Some(c),
            None => lookup(cells, k),
        },
    decreases overlay.len(),
{
    if overlay.len() > 0 {
        let init = overlay.drop_last();
        let last = overlay.last();
        assert forall|a: int, b: int|
            0 <= a < init.len() && 0 <= b < init.len() && a != b implies #[trigger] init[a].0
            != #[trigger] init[b].0 by {
            assert(overlay[a].0 != overlay[b].0);
        }
        lemma_extend_lookup(cells, init, k);
        lemma_extend_unique(cells, init);
        lemma_assoc_set(extend_cells(cells, init), last.0, last.1);
        assert forall|j: int| 0 <= j < init.len() implies init[j].0 != last.0 by {
            assert(overlay[j].0 != overlay[overlay.len() - 1].0);
        }
        lemma_lookup_absent(init, last.0);
        assert(overlay =~= assoc_set(init, last.0, last.1));
        lemma_assoc_set(init, last.0, last.1);
    }
}

/// The views of stored `(key, cell)` entries.
pub open spec fn cells_view(c: Seq<(StateKey, StateCell)>) -> Seq<(Seq<u8>, CellView)> {
    c.map_values(|e: (StateKey, StateCell)| (e.0@, e.1@))
}

fn cell_at(
    cells: &Vec<(StateKey, StateCell)>,
    overlay: &Vec<(StateKey, StateCell)>,
    key: &StateKey,
) -> (r: StateCell)
    requires
        keys_unique(cells_view(cells@)),
        keys_unique(cells_view(overlay@)),
    ensures
        r@ == visible_cell(cells_view(cells@), cells_view(overlay@), key@),
{
    match find_key(overlay, key) {
        Some(at) => {
            proof {
                lemma_lookup_at(cells_view(overlay@), at as int);
            }
            return overlay[at].1.clone();
        },
        None => {
            proof {
                lemma_lookup_absent(cells_view(overlay@), key@);
            }
        },
    }
    match find_key(cells, key) {
        Some(at) => {
            proof {
                lemma_lookup_at(cells_view(cells@), at as int);
            }
            cells[at].1.clone()
        },
        None => {
            proof {
                lemma_lookup_absent(cells_view(cells@), key@);
            }
            StateCell::absent(Revision::zero())
        },
    }
}

fn ensure_revision(key: &StateKey, expected: Revision, actual: Revision) -> (r: Result<
    (),
    StorageError,
>)
    ensures
        match r {
            Ok(()) => expected@ == actual@,
            Err(e) => expected@ != actual@ && e@ == (StorageErrorView::Conflict {
                key: key@,
                expected: expected@,
                actual: actual@,
            }),
        },
{
    if expected.value() == actual.value() {
        Ok(())
    } else {
        Err(StorageError::Conflict { key: key.clone(), expected, actual })
    }
}

/// Validates one mutation against canonical state and the batch-local
/// overlay; returns the cell it publishes.
fn validate_mutation(
    cells: &Vec<(StateKey, StateCell)>,
    overlay: &Vec<(StateKey, StateCell)>,
    mutation: &Mutation,
) -> (r: Result<StateCell, StorageError>)
    requires
        keys_unique(cells_view(cells@)),
        keys_unique(cells_view(overlay@)),
    ensures
        match mutation_step(cells_view(cells@), cells_view(overlay@), mutation@) {
            Ok(s) => r matches Ok(c) && c@ == s.1 && s.0 == assoc_set(
                cells_view(overlay@),
                mutation@.key,
                c@,
            ),
            Err(e) => r matches Err(x) && x@ == e,
        },
{
    let current = cell_at(cells, overlay, &mutation.key);
    ensure_revision(&mutation.key, mutation.expected_revision, current.revision)?;
    if !same_value(&current.value, &mutation.before) {
        return Err(
            StorageError::ValueMismatch {
                key: mutation.key.clone(),
                expected: copy_value(&mutation.before),
                actual: copy_value(&current.value),
            },
        );
    }
    let revision = match current.revision.checked_next() {
        Some(next) => next,
        None => {
            return Err(
                StorageError::RevisionExhausted { key: mutation.key.clone(), revision: current.revision },
            );
        },
    };
    Ok(StateCell::new(revision, copy_value(&mutation.after)))
}

/// A storage implementation that validates and commits a whole transition batch.
pub trait VersionedStorage: StateView {
    /// Applies all mutations, or leaves canonical state untouched on failure.
    fn apply(&mut self, batch: &TransitionBatch) -> Result<AppliedBatch, Self::Error>;
}

/// An in-memory state store that applies batches atomically.
///
/// Only the cell stored for each key is meaningful; the order of entries
/// in the view is not.
#[derive(Debug)]
pub struct MemoryStorage {
    cells: Vec<(StateKey, StateCell)>,
}

impl View for MemoryStorage {
    type V = Seq<(Seq<u8>, CellView)>;

    closed spec fn view(&self) -> Seq<(Seq<u8>, CellView)> {
        cells_view(self.cells@)
    }
}

impl MemoryStorage {
    #[verifier::type_invariant]
    spec fn distinct_keys(&self) -> bool {
        keys_unique(self@)
    }

    /// Creates an empty store: every key is absent at revision zero.
    pub fn new() -> (r: Self)
        ensures
            r@.len() == 0,
    {
        MemoryStorage { cells: Vec::new() }
    }

    /// Places a cell directly, without validation, as when loading state
    /// that was persisted earlier.
    pub fn restore_cell(&mut self, key: StateKey, cell: StateCell)
        ensures
            final(self)@ == assoc_set(old(self)@, key@, cell@),
    {
        proof {
            use_type_invariant(&*self);
            lemma_assoc_set(self@, key@, cell@);
        }
        let ghost before = self@;
        let mut cells: Vec<(StateKey, StateCell)> = Vec::new();
        std::mem::swap(&mut cells, &mut self.cells);
        match find_key(&cells, &key) {
            Some(at) => {
                proof {
                    lemma_lookup_at(before, at as int);
                }
                cells.set(at, (key, cell));
            },
            None => {
                proof {
                    lemma_lookup_absent(before, key@);
                }
                cells.push((key, cell));
            },
        }
        assert(cells_view(cells@) =~= assoc_set(before, key@, cell@));
        self.cells = cells;
    }

    /// Returns the current state for a key.
    pub fn read(&self, key: &StateKey) -> (r: Result<StateCell, StorageError>)
        ensures
            r matches Ok(c) && c@ == stored_cell(self@, key@),
            keys_unique(self@),
    {
        proof {
            use_type_invariant(self);
        }
        let none: Vec<(StateKey, StateCell)> = Vec::new();
        assert(cells_view(none@) =~= Seq::<(Seq<u8>, CellView)>::empty());
        Ok(cell_at(&self.cells, &none, key))
    }

    /// Applies a transition batch atomically: every read and mutation is
    /// validated before any cell changes.
    pub fn apply(&mut self, batch: &TransitionBatch) -> (r: Result<AppliedBatch, StorageError>)
        ensures
            match apply_outcome(old(self)@, batch@) {
                Ok(res) => r matches Ok(b) && b@ == res.1 && final(self)@ == res.0,
                Err(e) => r matches Err(x) && x@ == e && final(self)@ == old(self)@,
            },
            keys_unique(old(self)@),
            keys_unique(final(self)@),
            sorted_keys(batch@.reads),
    {
        proof {
            use_type_invariant(&*self);
            use_type_invariant(&batch.reads);
        }
        let ghost cells0 = self@;
        let ghost reads = batch@.reads;
        let ghost muts = batch@.mutations;
        let mut overlay: Vec<(StateKey, StateCell)> = Vec::new();
        assert(cells_view(overlay@) =~= Seq::<(Seq<u8>, CellView)>::empty());
        let n = batch.reads.len();
        let mut i: usize = 0;
        assert(reads.take(0) =~= Seq::<(Seq<u8>, u64)>::empty());
        while i < n
            invariant
                i <= n,
                n == reads.len(),
                reads == batch.reads@,
                sorted_keys(reads),
                cells0 == self@,
                cells0 == cells_view(self.cells@),
                keys_unique(cells0),
                cells_view(overlay@) == Seq::<(Seq<u8>, CellView)>::empty(),
                first_conflict(cells0, reads.take(i as int)) is None,
            decreases n - i,
        {
            let key = batch.reads.key_at(i);
            let expected = batch.reads.revision_at(i);
            let current = cell_at(&self.cells, &overlay, key);
            assert(reads.take(i + 1).drop_last() =~= reads.take(i as int));
            assert(reads.take(i + 1).last() == reads[i as int]);
            match ensure_revision(key, expected, current.revision) {
                Ok(()) => {},
                Err(e) => {
                    proof {
                        lemma_conflict_prefix(cells0, reads, i + 1);
                    }
                    return Err(e);
                },
            }
            i = i + 1;
        }
        assert(reads.take(n as int) =~= reads);
        let count = batch.mutations.len();
        let mut applied: Vec<AppliedMutation> = Vec::new();
        let mut j: usize = 0;
        assert(muts.take(0) =~= Seq::<MutationView>::empty());
        assert(applied@.map_values(|m: AppliedMutation| (m.key@, m.cell@)) =~= Seq::<
            (Seq<u8>, CellView),
        >::empty());
        while j < count
            invariant
                j <= count,
                count == muts.len(),
                muts == mutations_view(batch.mutations@),
                cells0 == self@,
                cells0 == cells_view(self.cells@),
                keys_unique(cells0),
                first_conflict(cells0, reads) is None,
                reads == batch@.reads,
                sorted_keys(reads),
                muts == batch@.mutations,
                keys_unique(cells_view(overlay@)),
                run_mutations(cells0, muts.take(j as int)) == Ok::<
                    (Seq<(Seq<u8>, CellView)>, Seq<(Seq<u8>, CellView)>),
                    StorageErrorView,
                >((cells_view(overlay@), applied@.map_values(|m: AppliedMutation| (m.key@, m.cell@)))),
            decreases count - j,
        {
            let mutation = &batch.mutations[j];
            assert(muts[j as int] == mutation@);
            assert(muts.take(j + 1).drop_last() =~= muts.take(j as int));
            assert(muts.take(j + 1).last() == muts[j as int]);
            let ghost ov0 = cells_view(overlay@);
            let cell = match validate_mutation(&self.cells, &overlay, mutation) {
                Ok(c) => c,
                Err(e) => {
                    proof {
                        lemma_step_failure(
                            cells0,
                            muts,
                            j as int,
                            ov0,
                            applied@.map_values(|m: AppliedMutation| (m.key@, m.cell@)),
                        );
                    }
                    return Err(e);
                },
            };
            let ghost ov = cells_view(overlay@);
            proof {
                lemma_assoc_set(ov, mutation.key@, cell@);
            }
            match find_key(&overlay, &mutation.key) {
                Some(at) => {
                    proof {
                        lemma_lookup_at(ov, at as int);
                    }
                    overlay.set(at, (mutation.key.clone(), cell.clone()));
                },
                None => {
                    proof {
                        lemma_lookup_absent(ov, mutation.key@);
                    }
                    overlay.push((mutation.key.clone(), cell.clone()));
                },
            }
            assert(cells_view(overlay@) =~= assoc_set(ov, mutation.key@, cell@));
            let ghost ap = applied@.map_values(|m: AppliedMutation| (m.key@, m.cell@));
            applied.push(AppliedMutation { key: mutation.key.clone(), cell });
            assert(applied@.map_values(|m: AppliedMutation| (m.key@, m.cell@)) =~= ap.push(
                (mutation.key@, cell@),
            ));
            j = j + 1;
        }
        assert(muts.take(count as int) =~= muts);
        let ghost ov = cells_view(overlay@);
        let mut cells: Vec<(StateKey, StateCell)> = Vec::new();
        std::mem::swap(&mut cells, &mut self.cells);
        let mut t: usize = 0;
        assert(ov.take(0) =~= Seq::<(Seq<u8>, CellView)>::empty());
        while t < overlay.len()
            invariant
                t <= ov.len(),
                ov == cells_view(overlay@),
                keys_unique(cells0),
                keys_unique(cells_view(cells@)),
                cells_view(cells@) == extend_cells(cells0, ov.take(t as int)),
            decreases ov.len() - t,
        {
            let ghost acc = cells_view(cells@);
            assert(ov.take(t + 1).drop_last() =~= ov.take(t as int));
            assert(ov.take(t + 1).last() == ov[t as int]);
            let key = &overlay[t].0;
            let cell = &overlay[t].1;
            proof {
                lemma_assoc_set(acc, key@, cell@);
            }
            match find_key(&cells, key) {
                Some(at) => {
                    proof {
                        lemma_lookup_at(acc, at as int);
                    }
                    cells.set(at, (key.clone(), cell.clone()));
                },
                None => {
                    proof {
                        lemma_lookup_absent(acc, key@);
                    }
                    cells.push((key.clone(), cell.clone()));
                },
            }
            assert(cells_view(cells@) =~= assoc_set(acc, key@, cell@));
            t = t + 1;
        }
        assert(ov.take(ov.len() as int) =~= ov);
        self.cells = cells;
        Ok(AppliedBatch { mutations: applied })
    }
}

impl Default for MemoryStorage {
    fn default() -> (r: Self)
        ensures
            r@.len() == 0,
    {
        MemoryStorage::new()
    }
}

impl VersionedStorage for MemoryStorage {
    fn apply(&mut self, batch: &TransitionBatch) -> (r: Result<AppliedBatch, StorageError>)
        ensures
            match apply_outcome(old(self)@, batch@) {
                Ok(res) => r matches Ok(b) && b@ == res.1 && final(self)@ == res.0,
                Err(e) => r matches Err(x) && x@ == e && final(self)@ == old(self)@,
            },
    {
        MemoryStorage::apply(self, batch)
    }
}

impl StateView for MemoryStorage {
    type Error = StorageError;

    fn read(&self, key: &StateKey) -> (r: Result<StateCell, StorageError>)
        ensures
            r matches Ok(c) && c@ == stored_cell(self@, key@),
    {
        MemoryStorage::read(self, key)
    }
}

/// A journal can read through a borrowed store; once the journal is done
/// with it, the same store takes the journal's batch.
impl StateView for &MemoryStorage {
    type Error = StorageError;

    fn read(&self, key: &StateKey) -> (r: Result<StateCell, StorageError>)
        ensures
            r matches Ok(c) && c@ == stored_cell((**self)@, key@),
    {
        MemoryStorage::read(*self, key)
    }
}

} // verus!
