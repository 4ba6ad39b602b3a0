//! Properties that relate the journal to the store it reads from.

use vstd::prelude::*;

use crate::assoc::{
    has_key, index_of, keys_unique, lemma_assoc_set, lemma_lookup_absent, lemma_lookup_at, lookup,
};
use crate::journal::{
    base_answers, lemma_mutations_of, mutations_of, pending_in, reads_from_base, JournalView,
};
use crate::order::lemma_sorted_unique;
use crate::state::{CellView, MutationView};
use crate::storage::{
    MemoryStorage,
    apply_outcome, extend_cells, lemma_extend_lookup, lemma_no_conflict, lemma_run_unique,
    lemma_run_failure_prefix, lemma_some_conflict, mutation_step, run_mutations, stored_cell,
    visible_cell, StorageErrorView,
};

verus! {

/// The cells a batch of mutations publishes when every check passes: one
/// cell per mutation, at the next revision, holding the new value.
pub open spec fn published(muts: Seq<MutationView>) -> Seq<(Seq<u8>, CellView)> {
    muts.map_values(
        |m: MutationView|
            (m.key, CellView { revision: (m.expected_revision + 1) as u64, value: m.after }),
    )
}

/// Mutations on distinct keys, each matching the stored cell and below the
/// last revision, all pass and publish their cells.
pub proof fn lemma_run_fresh(cells: Seq<(Seq<u8>, CellView)>, muts: Seq<MutationView>)
    requires
        forall|a: int, b: int|
            0 <= a < muts.len() && 0 <= b < muts.len() && a != b ==> #[trigger] muts[a].key
                != #[trigger] muts[b].key,
        forall|i: int|
            0 <= i < muts.len() ==> stored_cell(cells, #[trigger] muts[i].key) == (CellView {
                revision: muts[i].expected_revision,
                value: muts[i].before,
            }),
        forall|i: int| 0 <= i < muts.len() ==> #[trigger] muts[i].expected_revision < u64::MAX,
    ensures
        run_mutations(cells, muts) == Ok::<
            (Seq<(Seq<u8>, CellView)>, Seq<(Seq<u8>, CellView)>),
            StorageErrorView,
        >((published(muts), published(muts))),
    decreases muts.len(),
{
    if muts.len() > 0 {
        let init = muts.drop_last();
        let n = muts.len() - 1;
        let m = muts[n];
        assert forall|a: int, b: int|
            0 <= a < init.len() && 0 <= b < init.len() && a != b implies #[trigger] init[a].key
            != #[trigger] init[b].key by {
            assert(muts[a].key != muts[b].key);
        }
        assert forall|i: int| 0 <= i < init.len() implies stored_cell(cells, #[trigger] init[i].key)
            == (CellView { revision: init[i].expected_revision, value: init[i].before }) by {
            assert(init[i] == muts[i]);
        }
        assert forall|i: int| 0 <= i < init.len() implies #[trigger] init[i].expected_revision
            < u64::MAX by {
            assert(init[i] == muts[i]);
        }
        lemma_run_fresh(cells, init);
        let p = published(init);
        assert forall|j: int| 0 <= j < p.len() implies p[j].0 != m.key by {
            assert(muts[j].key != muts[n].key);
        }
        lemma_lookup_absent(p, m.key);
        assert(stored_cell(cells, muts[n].key) == (CellView {
            revision: muts[n].expected_revision,
            value: muts[n].before,
        }));
        assert(muts[n].expected_revision < u64::MAX);
        let c = CellView { revision: (m.expected_revision + 1) as u64, value: m.after };
        assert(muts.last() == m);
        assert(crate::assoc::assoc_set(p, m.key, c) == p.push((m.key, c)));
        assert(mutation_step(cells, p, m) == Ok::<
            (Seq<(Seq<u8>, CellView)>, CellView),
            StorageErrorView,
        >((p.push((m.key, c)), c)));
        assert(published(muts) =~= p.push((m.key, c)));
    } else {
        assert(published(muts) =~= Seq::empty());
    }
}

/// Optimistic concurrency succeeds on a store that did not change: a
/// journal's final batch, applied to a store whose cells still are the
/// ones the journal read, passes every check (unless a written key is at
/// the last revision) and publishes one cell per mutation, at the next
/// revision with the written value, leaving every other key as it was.
pub proof fn law_fresh_batch_applies(j: JournalView, cells: Seq<(Seq<u8>, CellView)>)
    requires
        j.wf(),
        j.frames.len() == 1,
        keys_unique(cells),
        forall|k: Seq<u8>|
            #[trigger] has_key(j.canonical, k) ==> Some(stored_cell(cells, k)) == lookup(
                j.canonical,
                k,
            ),
        forall|i: int|
            0 <= i < mutations_of(j.frames[0].writes).len() ==> #[trigger] mutations_of(
                j.frames[0].writes,
            )[i].expected_revision < u64::MAX,
    ensures
        ({
            let muts = mutations_of(j.frames[0].writes);
            &&& j.batch() == Ok::<crate::state::BatchView, crate::journal::CheckpointError>(
                crate::state::BatchView { reads: j.observations, mutations: muts },
            )
            &&& apply_outcome(cells, j.batch()->Ok_0) == Ok::<
                (Seq<(Seq<u8>, CellView)>, Seq<(Seq<u8>, CellView)>),
                StorageErrorView,
            >((extend_cells(cells, published(muts)), published(muts)))
            &&& forall|k: Seq<u8>| #[trigger]
                stored_cell(extend_cells(cells, published(muts)), k) == match lookup(
                    published(muts),
                    k,
                ) {
                    Some(c) => c,
                    None => stored_cell(cells, k),
                }
        }),
{
    let ws = j.frames[0].writes;
    let muts = mutations_of(ws);
    let obs = j.observations;
    lemma_sorted_unique(obs);
    assert forall|i: int| 0 <= i < obs.len() implies stored_cell(cells, #[trigger] obs[i].0).revision
        == obs[i].1 by {
        lemma_lookup_at(obs, i);
        assert(lookup(obs, obs[i].0) == match lookup(j.canonical, obs[i].0) {
            Some(c) => Some(c.revision),
            None => None::<u64>,
        });
        assert(has_key(j.canonical, obs[i].0));
    }
    lemma_no_conflict(cells, obs);
    assert(keys_unique(ws));
    lemma_mutations_of(ws);
    assert forall|i: int| 0 <= i < muts.len() implies stored_cell(cells, #[trigger] muts[i].key) == (
    CellView { revision: muts[i].expected_revision, value: muts[i].before }) by {
        let m = muts[i];
        assert(lookup(ws, m.key) is Some);
        let idx = index_of(ws, m.key);
        lemma_lookup_at(ws, idx);
        assert(j.anchored(0, ws[idx]));
        assert(j.frames.take(0) =~= Seq::empty());
        assert(pending_in(j.frames.take(0), m.key) is None);
        assert(has_key(j.canonical, m.key));
    }
    lemma_run_fresh(cells, muts);
    let p = published(muts);
    assert forall|a: int, b: int|
        0 <= a < p.len() && 0 <= b < p.len() && a != b implies #[trigger] p[a].0
        != #[trigger] p[b].0 by {
        assert(muts[a].key != muts[b].key);
    }
    assert forall|k: Seq<u8>| #[trigger]
        stored_cell(extend_cells(cells, p), k) == match lookup(p, k) {
            Some(c) => c,
            None => stored_cell(cells, k),
        } by {
        lemma_extend_lookup(cells, p, k);
    }
}

/// A stale read is refused: if the store moved a key the journal read, the
/// journal's batch fails with a revision conflict (and, by the contract of
/// `MemoryStorage::apply`, changes nothing).
pub proof fn law_stale_read_refused(j: JournalView, cells: Seq<(Seq<u8>, CellView)>, k: Seq<u8>)
    requires
        j.wf(),
        j.frames.len() == 1,
        lookup(j.observations, k) is Some,
        stored_cell(cells, k).revision != lookup(j.observations, k)->Some_0,
    ensures
        apply_outcome(cells, j.batch()->Ok_0) matches Err(StorageErrorView::Conflict { .. }),
{
    let obs = j.observations;
    let i = index_of(obs, k);
    lemma_sorted_unique(obs);
    lemma_lookup_at(obs, i);
    lemma_some_conflict(cells, obs, i);
}


/// The cell last published for `k` among `applied`, if any.
pub open spec fn latest(applied: Seq<(Seq<u8>, CellView)>, k: Seq<u8>) -> Option<CellView>
    decreases applied.len(),
{
    if applied.len() == 0 {
        None
    } else if applied.last().0 == k {
        Some(applied.last().1)
    } else {
        latest(applied.drop_last(), k)
    }
}

/// A successful run publishes, per mutation in order, its key at the
/// revision after the expected one with the new value; the overlay holds
/// the last of them per key.
pub proof fn lemma_run_publishes(cells: Seq<(Seq<u8>, CellView)>, muts: Seq<MutationView>)
    requires
        run_mutations(cells, muts) is Ok,
    ensures
        ({
            let r = run_mutations(cells, muts)->Ok_0;
            &&& r.1.len() == muts.len()
            &&& forall|i: int|
                0 <= i < muts.len() ==> #[trigger] r.1[i] == (
                    muts[i].key,
                    CellView {
                        revision: (muts[i].expected_revision + 1) as u64,
                        value: muts[i].after,
                    },
                )
            &&& forall|i: int| 0 <= i < muts.len() ==> #[trigger] muts[i].expected_revision < u64::MAX
            &&& forall|k: Seq<u8>| #[trigger] lookup(r.0, k) == latest(r.1, k)
        }),
    decreases muts.len(),
{
    if muts.len() > 0 {
        let init = muts.drop_last();
        lemma_run_publishes(cells, init);
        lemma_run_unique(cells, init);
        let r = run_mutations(cells, init)->Ok_0;
        let m = muts.last();
        let c = mutation_step(cells, r.0, m)->Ok_0.1;
        lemma_assoc_set(r.0, m.key, c);
        let r2 = run_mutations(cells, muts)->Ok_0;
        assert(r2.1 == r.1.push((m.key, c)));
        assert(r2.1.drop_last() =~= r.1);
        assert forall|i: int| 0 <= i < muts.len() implies #[trigger] r2.1[i] == (
            muts[i].key,
            CellView { revision: (muts[i].expected_revision + 1) as u64, value: muts[i].after },
        ) by {
            if i < init.len() {
                assert(init[i] == muts[i]);
                assert(r2.1[i] == r.1[i]);
            }
        }
        assert forall|i: int| 0 <= i < muts.len() implies #[trigger] muts[i].expected_revision
            < u64::MAX by {
            if i < init.len() {
                assert(init[i] == muts[i]);
            }
        }
        assert forall|k: Seq<u8>| #[trigger] lookup(r2.0, k) == latest(r2.1, k) by {
            assert(r2.1.last() == (m.key, c));
            if k != m.key {
                assert(lookup(r.0, k) == latest(r.1, k));
            }
        }
    }
}

/// What a successful `apply` publishes: one cell per mutation, in order,
/// at the revision after the one it expected and with its new value; and
/// afterwards each key holds the last cell published for it, every other
/// key keeping its cell.
pub proof fn law_apply_publishes(cells: Seq<(Seq<u8>, CellView)>, batch: crate::state::BatchView)
    requires
        keys_unique(cells),
        apply_outcome(cells, batch) is Ok,
    ensures
        ({
            let (after, applied) = apply_outcome(cells, batch)->Ok_0;
            &&& applied.len() == batch.mutations.len()
            &&& forall|i: int|
                0 <= i < batch.mutations.len() ==> #[trigger] applied[i] == (
                    batch.mutations[i].key,
                    CellView {
                        revision: (batch.mutations[i].expected_revision + 1) as u64,
                        value: batch.mutations[i].after,
                    },
                )
            &&& forall|k: Seq<u8>| #[trigger]
                stored_cell(after, k) == match latest(applied, k) {
                    Some(c) => c,
                    None => stored_cell(cells, k),
                }
        }),
{
    lemma_run_publishes(cells, batch.mutations);
    lemma_run_unique(cells, batch.mutations);
    let r = run_mutations(cells, batch.mutations)->Ok_0;
    assert forall|k: Seq<u8>| #[trigger]
        stored_cell(extend_cells(cells, r.0), k) == match latest(r.1, k) {
            Some(c) => c,
            None => stored_cell(cells, k),
        } by {
        lemma_extend_lookup(cells, r.0, k);
    }
}


/// A journal reading from a `MemoryStorage` holds, for every key it read,
/// exactly the cell the store holds for it.
pub proof fn law_journal_reads_match_store(j: JournalView, store: MemoryStorage)
    requires
        j.wf(),
        reads_from_base(j, store),
    ensures
        forall|k: Seq<u8>|
            #[trigger] has_key(j.canonical, k) ==> Some(stored_cell(store@, k)) == lookup(
                j.canonical,
                k,
            ),
{
    assert forall|k: Seq<u8>| #[trigger] has_key(j.canonical, k) implies Some(
        stored_cell(store@, k),
    ) == lookup(j.canonical, k) by {
        let i = index_of(j.canonical, k);
        lemma_lookup_at(j.canonical, i);
        assert(base_answers(store, j.canonical[i]));
    }
}

/// A journal's batch applies to the store it read from when the store did
/// not move since: for a journal over a `MemoryStorage` whose reads all
/// came from that store, with every checkpoint closed and no written key
/// at the last revision, applying the batch to the store succeeds and
/// publishes one cell per mutation at the next revision.
pub proof fn law_journal_batch_applies(j: JournalView, store: MemoryStorage)
    requires
        j.wf(),
        j.frames.len() == 1,
        keys_unique(store@),
        reads_from_base(j, store),
        forall|i: int|
            0 <= i < mutations_of(j.frames[0].writes).len() ==> #[trigger] mutations_of(
                j.frames[0].writes,
            )[i].expected_revision < u64::MAX,
    ensures
        apply_outcome(store@, j.batch()->Ok_0) == Ok::<
            (Seq<(Seq<u8>, CellView)>, Seq<(Seq<u8>, CellView)>),
            StorageErrorView,
        >(
            (
                extend_cells(store@, published(mutations_of(j.frames[0].writes))),
                published(mutations_of(j.frames[0].writes)),
            ),
        ),
{
    law_journal_reads_match_store(j, store);
    law_fresh_batch_applies(j, store@);
}

/// The same for a journal that reads through a borrowed store: once the
/// journal is done and the borrow ends, its batch applies to that very
/// store, provided the store did not move in between.
pub proof fn law_journal_batch_applies_to_borrowed_store(j: JournalView, store: &MemoryStorage)
    requires
        j.wf(),
        j.frames.len() == 1,
        keys_unique(store@),
        reads_from_base(j, store),
        forall|i: int|
            0 <= i < mutations_of(j.frames[0].writes).len() ==> #[trigger] mutations_of(
                j.frames[0].writes,
            )[i].expected_revision < u64::MAX,
    ensures
        apply_outcome(store@, j.batch()->Ok_0) == Ok::<
            (Seq<(Seq<u8>, CellView)>, Seq<(Seq<u8>, CellView)>),
            StorageErrorView,
        >(
            (
                extend_cells(store@, published(mutations_of(j.frames[0].writes))),
                published(mutations_of(j.frames[0].writes)),
            ),
        ),
{
    assert forall|k: Seq<u8>| #[trigger] has_key(j.canonical, k) implies Some(
        stored_cell(store@, k),
    ) == lookup(j.canonical, k) by {
        let i = index_of(j.canonical, k);
        lemma_lookup_at(j.canonical, i);
        assert(base_answers(store, j.canonical[i]));
    }
    law_fresh_batch_applies(j, store@);
}

/// The cell the `i`-th mutation of `muts` sees: what the earlier mutations
/// of the batch published for its key, or else the stored cell.
pub open spec fn seen_by(cells: Seq<(Seq<u8>, CellView)>, muts: Seq<MutationView>, i: int) -> CellView {
    visible_cell(cells, run_mutations(cells, muts.take(i))->Ok_0.0, muts[i].key)
}

/// Compare-and-swap on revisions: when the reads pass and the earlier
/// mutations pass, a mutation that expects another revision than the one
/// its key has makes the whole batch fail with that conflict, and
/// nothing is published.
pub proof fn law_stale_mutation_conflicts(
    cells: Seq<(Seq<u8>, CellView)>,
    batch: crate::state::BatchView,
    i: int,
)
    requires
        0 <= i < batch.mutations.len(),
        first_conflict_free(cells, batch),
        run_mutations(cells, batch.mutations.take(i)) is Ok,
        seen_by(cells, batch.mutations, i).revision != batch.mutations[i].expected_revision,
    ensures
        apply_outcome(cells, batch) == Err::<
            (Seq<(Seq<u8>, CellView)>, Seq<(Seq<u8>, CellView)>),
            StorageErrorView,
        >(
            StorageErrorView::Conflict {
                key: batch.mutations[i].key,
                expected: batch.mutations[i].expected_revision,
                actual: seen_by(cells, batch.mutations, i).revision,
            },
        ),
{
    let muts = batch.mutations;
    let t = muts.take(i + 1);
    assert(t.drop_last() =~= muts.take(i));
    assert(t.last() == muts[i]);
    lemma_run_failure_prefix(cells, muts, i + 1);
}

/// Whether the batch's reads all still hold.
pub open spec fn first_conflict_free(cells: Seq<(Seq<u8>, CellView)>, batch: crate::state::BatchView) -> bool {
    crate::storage::first_conflict(cells, batch.reads) is None
}

/// A batch that applies had every mutation expect exactly the revision of
/// the cell it saw, and each publishes its key one revision later, so a
/// key's revision never goes back.
pub proof fn law_applied_mutations_matched(
    cells: Seq<(Seq<u8>, CellView)>,
    batch: crate::state::BatchView,
)
    requires
        apply_outcome(cells, batch) is Ok,
    ensures
        forall|i: int|
            0 <= i < batch.mutations.len() ==> run_mutations(cells, batch.mutations.take(i)) is Ok
                && #[trigger] seen_by(cells, batch.mutations, i).revision
                == batch.mutations[i].expected_revision
                && seen_by(cells, batch.mutations, i).revision < u64::MAX,
{
    let muts = batch.mutations;
    assert forall|i: int| 0 <= i < muts.len() implies run_mutations(cells, muts.take(i)) is Ok
        && #[trigger] seen_by(cells, muts, i).revision == muts[i].expected_revision
        && seen_by(cells, muts, i).revision < u64::MAX by {
        if run_mutations(cells, muts.take(i)) is Err {
            lemma_run_failure_prefix(cells, muts, i);
        } else if seen_by(cells, muts, i).revision != muts[i].expected_revision {
            law_stale_mutation_conflicts(cells, batch, i);
        } else {
            let t = muts.take(i + 1);
            assert(t.drop_last() =~= muts.take(i));
            assert(t.last() == muts[i]);
            if seen_by(cells, muts, i).revision == u64::MAX {
                lemma_run_failure_prefix(cells, muts, i + 1);
            }
        }
    }
}

} // verus!
