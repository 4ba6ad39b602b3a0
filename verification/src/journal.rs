//! Transactional state overlays with nested commit and revert semantics.
//!
//! A [`Journal`] keeps tentative writes in checkpoint-local frames while
//! sharing immutable values with the base [`StateView`]. Reads from the base
//! view are retained as observations for the lifetime of the transaction,
//! including reads made inside a reverted checkpoint.

use vstd::prelude::*;

use crate::assoc::{
    assoc_set, has_key, index_of, keys_of, keys_unique, lemma_assoc_set, lemma_assoc_set_keys,
    lemma_assoc_set_twice, lemma_lookup_absent, lemma_lookup_at, lookup,
};
use crate::order::{lemma_sorted_insert_lookup, sorted_insert, sorted_keys};
use crate::assoc::find_key;
use crate::state::{
    mutations_view, copy_value, value_view, BatchView, CellView, Mutation, MutationView, ReadSet, Revision,
    StateCell, StateKey, StateValue, StateView, TransitionBatch,
};

verus! {

/// The mathematical content of a tentative write.
pub struct PendingView {
    /// The revision of the value the write replaces.
    pub expected_revision: u64,
    /// The value the write replaces.
    pub before: Option<Seq<u8>>,
    /// The value the write publishes (`None` deletes).
    pub after: Option<Seq<u8>>,
}

/// The mathematical content of one frame of the journal: the root frame,
/// or the frame of an open checkpoint.
pub struct FrameView {
    pub checkpoint_id: Option<u64>,
    /// Writes in the order of their first write in this frame.
    pub writes: Seq<(Seq<u8>, PendingView)>,
}

/// The mathematical content of a checkpoint token.
pub struct CheckpointView {
    pub journal_id: u128,
    pub id: u64,
    pub closed: bool,
}

/// Errors caused by closing a checkpoint out of order or on the wrong journal.
#[derive(Clone, Copy, Debug, PartialEq, Eq, Structural)]
pub enum CheckpointError {
    /// The token belongs to another journal.
    ForeignCheckpoint,
    /// The token is not the currently active (top) checkpoint.
    NotTopCheckpoint,
    /// The checkpoint was already committed or reverted.
    AlreadyClosed,
}

/// The mathematical content of a journal.
pub struct JournalView {
    pub journal_id: u128,
    pub next_checkpoint_id: u64,
    /// Frames from the root (index 0) to the active checkpoint (last).
    pub frames: Seq<FrameView>,
    /// The first revision read from the base view for each key, in key order.
    pub observations: Seq<(Seq<u8>, u64)>,
    /// The cells read from the base view, in the order they were read.
    pub canonical: Seq<(Seq<u8>, CellView)>,
}

/// The tentative write for `k` in the topmost frame that has one.
pub open spec fn pending_in(frames: Seq<FrameView>, k: Seq<u8>) -> Option<PendingView>
    decreases frames.len(),
{
    if frames.len() == 0 {
        None
    } else {
        match lookup(frames.last().writes, k) {
            Some(w) => Some(w),
            None => pending_in(frames.drop_last(), k),
        }
    }
}

/// Merges a committed child's writes into its parent, in the child's
/// write order: a key the parent already wrote keeps the parent's expected
/// revision and before-value and takes the child's after-value; a new key
/// is appended with the child's write.
pub open spec fn merge_writes(
    parent: Seq<(Seq<u8>, PendingView)>,
    child: Seq<(Seq<u8>, PendingView)>,
) -> Seq<(Seq<u8>, PendingView)>
    decreases child.len(),
{
    if child.len() == 0 {
        parent
    } else {
        let p = merge_writes(parent, child.drop_last());
        let k = child.last().0;
        let w = child.last().1;
        match lookup(p, k) {
            Some(pw) => assoc_set(p, k, PendingView { after: w.after, ..pw }),
            None => p.push((k, w)),
        }
    }
}

/// The mutations of a frame's writes, in write order, leaving out writes
/// that put back the value they replaced.
pub open spec fn mutations_of(writes: Seq<(Seq<u8>, PendingView)>) -> Seq<MutationView>
    decreases writes.len(),
{
    if writes.len() == 0 {
        Seq::empty()
    } else {
        let m = mutations_of(writes.drop_last());
        let k = writes.last().0;
        let w = writes.last().1;
        if w.before == w.after {
            m
        } else {
            m.push(
                MutationView {
                    key: k,
                    expected_revision: w.expected_revision,
                    before: w.before,
                    after: w.after,
                },
            )
        }
    }
}

impl JournalView {
    /// The journal's invariant.
    pub open spec fn wf(self) -> bool {
        &&& self.frames.len() >= 1
        &&& self.frames[0].checkpoint_id is None
        &&& forall|i: int|
            1 <= i < self.frames.len() ==> (#[trigger] self.frames[i]).checkpoint_id is Some
                && self.frames[i].checkpoint_id->0 < self.next_checkpoint_id
        &&& forall|i: int, j: int|
            1 <= i < j < self.frames.len() ==> (#[trigger] self.frames[i]).checkpoint_id->0
                < (#[trigger] self.frames[j]).checkpoint_id->0
        &&& forall|i: int| 0 <= i < self.frames.len() ==> keys_unique(#[trigger] self.frames[i].writes)
        &&& sorted_keys(self.observations)
        &&& keys_unique(self.canonical)
        &&& forall|k: Seq<u8>| #[trigger] lookup(self.observations, k) == match lookup(self.canonical, k) {
            Some(c) => Some(c.revision),
            None => None::<u64>,
        }
        &&& forall|i: int, j: int|
            0 <= i < self.frames.len() && 0 <= j < self.frames[i].writes.len() ==> self.anchored(
                i,
                #[trigger] self.frames[i].writes[j],
            )
    }

    /// A write in frame `i` replaces what a read in frame `i` saw before it:
    /// the tentative value of a lower frame, or else the canonical cell.
    pub open spec fn anchored(self, i: int, e: (Seq<u8>, PendingView)) -> bool {
        match pending_in(self.frames.take(i), e.0) {
            Some(b) => e.1.expected_revision == b.expected_revision && e.1.before == b.after,
            None => lookup(self.canonical, e.0) == Some(
                CellView { revision: e.1.expected_revision, value: e.1.before },
            ),
        }
    }

    /// What a read of `k` returns without consulting the base view, if it can.
    pub open spec fn overlay_cell(self, k: Seq<u8>) -> Option<CellView> {
        match pending_in(self.frames, k) {
            Some(w) => Some(CellView { revision: w.expected_revision, value: w.after }),
            None => lookup(self.canonical, k),
        }
    }

    /// The journal after the base view answered a read of `k` with `c`.
    pub open spec fn with_base_read(self, k: Seq<u8>, c: CellView) -> JournalView {
        JournalView {
            canonical: self.canonical.push((k, c)),
            observations: sorted_insert(self.observations, k, c.revision),
            ..self
        }
    }

    /// The journal after a read of `k`, where `c` is what the base view
    /// answers if it is consulted.
    pub open spec fn settle(self, k: Seq<u8>, c: CellView) -> JournalView {
        if self.overlay_cell(k) is Some {
            self
        } else {
            self.with_base_read(k, c)
        }
    }

    /// The cell a read of `k` returns, where `c` is what the base view
    /// answers if it is consulted.
    pub open spec fn seen(self, k: Seq<u8>, c: CellView) -> CellView {
        match self.overlay_cell(k) {
            Some(x) => x,
            None => c,
        }
    }

    /// Records `v` for `k` in the top frame, where `current` is what a read
    /// of `k` returned just before.
    pub open spec fn with_write(self, k: Seq<u8>, v: Option<Seq<u8>>, current: CellView) -> JournalView {
        let n = self.frames.len() - 1;
        let top = self.frames[n];
        let w = match lookup(top.writes, k) {
            Some(old) => PendingView { after: v, ..old },
            None => PendingView {
                expected_revision: current.revision,
                before: current.value,
                after: v,
            },
        };
        JournalView {
            frames: self.frames.update(n, FrameView { writes: assoc_set(top.writes, k, w), ..top }),
            ..self
        }
    }

    /// The journal after writing `v` for `k`, where `c` is what the base
    /// view answers if it is consulted.
    pub open spec fn write_outcome(self, k: Seq<u8>, v: Option<Seq<u8>>, c: CellView) -> JournalView {
        self.settle(k, c).with_write(k, v, self.seen(k, c))
    }

    /// What a write of `v` for `key` did, going from `self` to `after` with
    /// result `r`, over the base view `base`: the key's current cell came
    /// from the overlay or, failing that, from the base view's `read`, whose
    /// error is the write's error.
    pub open spec fn write_done<S: StateView>(
        self,
        after: JournalView,
        key: StateKey,
        v: Option<Seq<u8>>,
        base: S,
        r: Result<(), S::Error>,
    ) -> bool {
        match r {
            Ok(()) => exists|cell: StateCell|
                #![trigger self.write_outcome(key@, v, cell@)]
                after == self.write_outcome(key@, v, cell@) && (self.overlay_cell(key@) is None
                    ==> call_ensures(S::read, (&base, &key), Ok::<StateCell, S::Error>(cell))),
            Err(e) => after == self && self.overlay_cell(key@) is None && call_ensures(
                S::read,
                (&base, &key),
                Err::<StateCell, S::Error>(e),
            ),
        }
    }

    /// The journal after opening a checkpoint.
    pub open spec fn opened(self) -> JournalView {
        JournalView {
            next_checkpoint_id: (self.next_checkpoint_id + 1) as u64,
            frames: self.frames.push(
                FrameView { checkpoint_id: Some(self.next_checkpoint_id), writes: Seq::empty() },
            ),
            ..self
        }
    }

    /// Why closing `cp` is refused, checked in this order; `None` if it is not.
    pub open spec fn close_error(self, cp: CheckpointView) -> Option<CheckpointError> {
        if cp.journal_id != self.journal_id {
            Some(CheckpointError::ForeignCheckpoint)
        } else if cp.closed {
            Some(CheckpointError::AlreadyClosed)
        } else if self.frames.len() == 0 || self.frames.last().checkpoint_id != Some(cp.id) {
            Some(CheckpointError::NotTopCheckpoint)
        } else {
            None
        }
    }

    /// The journal after reverting its top checkpoint.
    pub open spec fn reverted(self) -> JournalView {
        JournalView { frames: self.frames.drop_last(), ..self }
    }

    /// The journal after committing its top checkpoint into its parent.
    pub open spec fn committed(self) -> JournalView {
        let n = self.frames.len();
        let parent = self.frames[n - 2];
        let child = self.frames[n - 1];
        JournalView {
            frames: self.frames.drop_last().update(
                n - 2,
                FrameView { writes: merge_writes(parent.writes, child.writes), ..parent },
            ),
            ..self
        }
    }

    /// The final batch, refused while a checkpoint is open.
    pub open spec fn batch(self) -> Result<BatchView, CheckpointError> {
        if self.frames.len() != 1 {
            Err(CheckpointError::NotTopCheckpoint)
        } else {
            Ok(
                BatchView {
                    reads: self.observations,
                    mutations: mutations_of(self.frames[0].writes),
                },
            )
        }
    }
}

/// Looking past a frame without a write for `k` changes nothing.
pub proof fn lemma_pending_take(frames: Seq<FrameView>, i: int, k: Seq<u8>)
    requires
        0 <= i < frames.len(),
        lookup(frames[i].writes, k) is None,
    ensures
        pending_in(frames.take(i + 1), k) == pending_in(frames.take(i), k),
{
    assert(frames.take(i + 1).drop_last() =~= frames.take(i));
    assert(frames.take(i + 1).last() == frames[i]);
}

/// A key written in some frame has a tentative write.
pub proof fn lemma_pending_has(frames: Seq<FrameView>, i: int, j: int)
    requires
        0 <= i < frames.len(),
        0 <= j < frames[i].writes.len(),
        keys_unique(frames[i].writes),
    ensures
        pending_in(frames, frames[i].writes[j].0) is Some,
    decreases frames.len(),
{
    let k = frames[i].writes[j].0;
    if lookup(frames.last().writes, k) is None {
        if i == frames.len() - 1 {
            lemma_lookup_at(frames[i].writes, j);
        } else {
            assert(frames.drop_last()[i] == frames[i]);
            lemma_pending_has(frames.drop_last(), i, j);
        }
    }
}

/// No frame writes `k` when no tentative write for `k` is visible.
pub proof fn lemma_pending_none(frames: Seq<FrameView>, k: Seq<u8>)
    requires
        pending_in(frames, k) is None,
        forall|i: int| 0 <= i < frames.len() ==> keys_unique(#[trigger] frames[i].writes),
    ensures
        forall|i: int, j: int|
            0 <= i < frames.len() && 0 <= j < frames[i].writes.len() ==> #[trigger] frames[i].writes[j].0
                != k,
{
    assert forall|i: int, j: int|
        0 <= i < frames.len() && 0 <= j < frames[i].writes.len() implies #[trigger] frames[i].writes[j].0
        != k by {
        lemma_pending_has(frames, i, j);
    }
}

/// What `merge_writes` stores for each key.
pub proof fn lemma_merge(parent: Seq<(Seq<u8>, PendingView)>, child: Seq<(Seq<u8>, PendingView)>)
    requires
        keys_unique(parent),
        keys_unique(child),
    ensures
        keys_unique(merge_writes(parent, child)),
        forall|k: Seq<u8>| #[trigger]
            lookup(merge_writes(parent, child), k) == match lookup(child, k) {
                Some(cw) => match lookup(parent, k) {
                    Some(pw) => Some(PendingView { after: cw.after, ..pw }),
                    None => Some(cw),
                },
                None => lookup(parent, k),
            },
    decreases child.len(),
{
    if child.len() > 0 {
        let init = child.drop_last();
        let k = child.last().0;
        let w = child.last().1;
        assert(keys_unique(init));
        lemma_merge(parent, init);
        let p = merge_writes(parent, init);
        assert forall|j: int| 0 <= j < init.len() implies init[j].0 != k by {
            assert(child[j] == init[j]);
            assert(child[child.len() - 1].0 == k);
        }
        lemma_lookup_absent(init, k);
        assert(child =~= assoc_set(init, k, w));
        lemma_assoc_set(init, k, w);
        let m = merge_writes(parent, child);
        match lookup(p, k) {
            Some(pw) => {
                lemma_assoc_set(p, k, PendingView { after: w.after, ..pw });
            },
            None => {
                assert(!has_key(p, k));
                assert(p.push((k, w)) == assoc_set(p, k, w));
                lemma_assoc_set(p, k, w);
            },
        }
        assert forall|k2: Seq<u8>| #[trigger]
            lookup(m, k2) == match lookup(child, k2) {
                Some(cw) => match lookup(parent, k2) {
                    Some(pw) => Some(PendingView { after: cw.after, ..pw }),
                    None => Some(cw),
                },
                None => lookup(parent, k2),
            } by {
            if k2 == k {
                assert(lookup(init, k) is None);
                assert(lookup(p, k) == lookup(parent, k));
            } else {
                assert(lookup(child, k2) == lookup(init, k2));
                assert(lookup(m, k2) == lookup(p, k2));
            }
        }
    }
}

/// A read answered by the base view keeps the invariant, caches the
/// answer and records its revision.
pub proof fn lemma_base_read(j: JournalView, k: Seq<u8>, c: CellView)
    requires
        j.wf(),
        j.overlay_cell(k) is None,
    ensures
        j.with_base_read(k, c).wf(),
        j.with_base_read(k, c).overlay_cell(k) == Some(c),
        forall|k2: Seq<u8>| k2 != k ==> #[trigger] j.with_base_read(k, c).overlay_cell(k2) == j.overlay_cell(k2),
        lookup(j.observations, k) is None,
        lookup(j.with_base_read(k, c).observations, k) == Some(c.revision),
        forall|k2: Seq<u8>| k2 != k ==> #[trigger] lookup(j.with_base_read(k, c).observations, k2) == lookup(j.observations, k2),
{
    let j2 = j.with_base_read(k, c);
    assert(lookup(j.canonical, k) is None);
    assert(!has_key(j.canonical, k));
    assert(j.canonical.push((k, c)) == assoc_set(j.canonical, k, c));
    lemma_assoc_set(j.canonical, k, c);
    assert(lookup(j.observations, k) is None);
    lemma_sorted_insert_lookup(j.observations, k, c.revision);
    lemma_pending_none(j.frames, k);
    assert forall|k2: Seq<u8>| #[trigger] lookup(j2.observations, k2) == match lookup(j2.canonical, k2) {
        Some(cc) => Some(cc.revision),
        None => None::<u64>,
    } by {
        if k2 != k {
            assert(lookup(j.observations, k2) == match lookup(j.canonical, k2) {
                Some(cc) => Some(cc.revision),
                None => None::<u64>,
            });
        }
    }
    assert forall|a: int, b: int|
        0 <= a < j2.frames.len() && 0 <= b < j2.frames[a].writes.len() implies j2.anchored(
        a,
        #[trigger] j2.frames[a].writes[b],
    ) by {
        assert(j.anchored(a, j.frames[a].writes[b]));
        assert(j.frames[a].writes[b].0 != k);
    }
    assert forall|k2: Seq<u8>| k2 != k implies #[trigger] j2.overlay_cell(k2) == j.overlay_cell(k2) by {}
}

/// Recording a write in the top frame keeps the invariant, makes the
/// written value visible under the revision the read saw, and changes
/// nothing else.
pub proof fn lemma_write(j: JournalView, k: Seq<u8>, v: Option<Seq<u8>>, cur: CellView)
    requires
        j.wf(),
        j.overlay_cell(k) == Some(cur),
    ensures
        j.with_write(k, v, cur).wf(),
        j.with_write(k, v, cur).overlay_cell(k) == Some(CellView { revision: cur.revision, value: v }),
        forall|k2: Seq<u8>| k2 != k ==> #[trigger] j.with_write(k, v, cur).overlay_cell(k2) == j.overlay_cell(k2),
        j.with_write(k, v, cur).frames.len() == j.frames.len(),
        j.with_write(k, v, cur).frames.drop_last() == j.frames.drop_last(),
{
    let n = j.frames.len() - 1;
    let top = j.frames[n];
    let w = match lookup(top.writes, k) {
        Some(old) => PendingView { after: v, ..old },
        None => PendingView { expected_revision: cur.revision, before: cur.value, after: v },
    };
    let top2 = FrameView { writes: assoc_set(top.writes, k, w), ..top };
    let j2 = j.with_write(k, v, cur);
    assert(j2.frames == j.frames.update(n, top2));
    assert(keys_unique(top.writes));
    lemma_assoc_set(top.writes, k, w);
    assert(j.frames.drop_last() =~= j.frames.take(n));
    assert(j2.frames.drop_last() =~= j.frames.drop_last());
    if lookup(top.writes, k) is None {
        assert(pending_in(j.frames, k) == pending_in(j.frames.take(n), k));
    } else {
        assert(pending_in(j.frames, k) == lookup(top.writes, k));
    }
    assert forall|a: int| 0 <= a < j2.frames.len() implies keys_unique(#[trigger] j2.frames[a].writes) by {
        if a != n {
            assert(j2.frames[a] == j.frames[a]);
        }
    }
    assert forall|a: int, b: int|
        0 <= a < j2.frames.len() && 0 <= b < j2.frames[a].writes.len() implies j2.anchored(
        a,
        #[trigger] j2.frames[a].writes[b],
    ) by {
        assert(j2.frames.take(a) =~= j.frames.take(a));
        if a < n {
            assert(j2.frames[a] == j.frames[a]);
            assert(j.anchored(a, j.frames[a].writes[b]));
        } else {
            let e = j2.frames[a].writes[b];
            if e.0 == k {
                match lookup(top.writes, k) {
                    Some(old) => {
                        let idx = index_of(top.writes, k);
                        lemma_lookup_at(top.writes, idx);
                        assert(j.anchored(n, top.writes[idx]));
                        lemma_lookup_at(top2.writes, b);
                    },
                    None => {
                        lemma_lookup_at(top2.writes, b);
                    },
                }
            } else {
                lemma_lookup_at(top2.writes, b);
                let idx = index_of(top.writes, e.0);
                if has_key(top.writes, e.0) {
                    lemma_lookup_at(top.writes, idx);
                    assert(j.anchored(n, top.writes[idx]));
                } else {
                    lemma_lookup_absent(top.writes, e.0);
                }
            }
        }
    }
    assert forall|k2: Seq<u8>| k2 != k implies #[trigger] j2.overlay_cell(k2) == j.overlay_cell(k2) by {
        assert(j2.frames.last() == top2);
        assert(j.frames.last() == top);
    }
    assert(j2.frames.last() == top2);
}

/// Opening a checkpoint keeps the invariant and every visible value.
pub proof fn lemma_open(j: JournalView)
    requires
        j.wf(),
        j.next_checkpoint_id < u64::MAX,
    ensures
        j.opened().wf(),
        forall|k: Seq<u8>| #[trigger] j.opened().overlay_cell(k) == j.overlay_cell(k),
{
    let j2 = j.opened();
    let n = j.frames.len();
    assert(j2.frames.drop_last() =~= j.frames);
    assert forall|a: int| 0 <= a < j2.frames.len() implies keys_unique(#[trigger] j2.frames[a].writes) by {
        if a < n {
            assert(j2.frames[a] == j.frames[a]);
        }
    }
    assert forall|a: int, b: int|
        0 <= a < j2.frames.len() && 0 <= b < j2.frames[a].writes.len() implies j2.anchored(
        a,
        #[trigger] j2.frames[a].writes[b],
    ) by {
        assert(j2.frames.take(a) =~= j.frames.take(a));
        assert(j2.frames[a] == j.frames[a]);
        assert(j.anchored(a, j.frames[a].writes[b]));
    }
    assert forall|k: Seq<u8>| #[trigger] j2.overlay_cell(k) == j.overlay_cell(k) by {
        lemma_lookup_absent(j2.frames.last().writes, k);
    }
    assert forall|i: int| 1 <= i < j2.frames.len() implies (#[trigger] j2.frames[i]).checkpoint_id
        is Some && j2.frames[i].checkpoint_id->0 < j2.next_checkpoint_id by {
        if i < n {
            assert(j2.frames[i] == j.frames[i]);
        }
    }
    assert forall|a: int, b: int|
        1 <= a < b < j2.frames.len() implies (#[trigger] j2.frames[a]).checkpoint_id->0
        < (#[trigger] j2.frames[b]).checkpoint_id->0 by {
        assert(j2.frames[a] == j.frames[a]);
        if b < n {
            assert(j2.frames[b] == j.frames[b]);
        }
    }
}

/// Reverting the top checkpoint keeps the invariant.
pub proof fn lemma_revert(j: JournalView)
    requires
        j.wf(),
        j.frames.len() >= 2,
    ensures
        j.reverted().wf(),
{
    let j2 = j.reverted();
    assert forall|a: int| 0 <= a < j2.frames.len() implies keys_unique(#[trigger] j2.frames[a].writes) by {
        assert(j2.frames[a] == j.frames[a]);
    }
    assert forall|a: int, b: int|
        0 <= a < j2.frames.len() && 0 <= b < j2.frames[a].writes.len() implies j2.anchored(
        a,
        #[trigger] j2.frames[a].writes[b],
    ) by {
        assert(j2.frames.take(a) =~= j.frames.take(a));
        assert(j2.frames[a] == j.frames[a]);
        assert(j.anchored(a, j.frames[a].writes[b]));
    }
}

/// Committing the top checkpoint keeps the invariant and every visible
/// value: reads see the same cells before and after the commit.
pub proof fn lemma_commit(j: JournalView)
    requires
        j.wf(),
        j.frames.len() >= 2,
    ensures
        j.committed().wf(),
        forall|k: Seq<u8>| #[trigger] j.committed().overlay_cell(k) == j.overlay_cell(k),
{
    let n = j.frames.len();
    let p = n - 2;
    let parent = j.frames[p];
    let child = j.frames[n - 1];
    let merged = merge_writes(parent.writes, child.writes);
    let j2 = j.committed();
    assert(keys_unique(parent.writes));
    assert(keys_unique(child.writes));
    lemma_merge(parent.writes, child.writes);
    assert(j2.frames.len() == n - 1);
    assert(j2.frames[p].writes == merged);
    assert(j.frames.take(n - 1).last() == parent);
    assert(j.frames.take(n - 1).drop_last() =~= j.frames.take(p));
    assert forall|a: int| 0 <= a < j2.frames.len() implies keys_unique(#[trigger] j2.frames[a].writes) by {
        if a < p {
            assert(j2.frames[a] == j.frames[a]);
        }
    }
    assert forall|a: int, b: int|
        0 <= a < j2.frames.len() && 0 <= b < j2.frames[a].writes.len() implies j2.anchored(
        a,
        #[trigger] j2.frames[a].writes[b],
    ) by {
        assert(j2.frames.take(a) =~= j.frames.take(a));
        if a < p {
            assert(j2.frames[a] == j.frames[a]);
            assert(j.anchored(a, j.frames[a].writes[b]));
        } else {
            let e = merged[b];
            let k = e.0;
            lemma_lookup_at(merged, b);
            if has_key(parent.writes, k) {
                let pi = index_of(parent.writes, k);
                lemma_lookup_at(parent.writes, pi);
                assert(j.anchored(p, parent.writes[pi]));
            } else {
                lemma_lookup_absent(parent.writes, k);
                let ci = index_of(child.writes, k);
                lemma_lookup_at(child.writes, ci);
                assert(j.anchored(n - 1, child.writes[ci]));
                lemma_pending_take(j.frames, p, k);
            }
        }
    }
    assert(j2.frames.drop_last() =~= j.frames.take(p));
    assert(j.frames.drop_last().drop_last() =~= j.frames.take(p));
    assert(j.frames.drop_last().last() == parent);
    assert forall|k: Seq<u8>| #[trigger] j2.overlay_cell(k) == j.overlay_cell(k) by {
        assert(j2.frames.last() == j2.frames[p]);
        assert(pending_in(j2.frames, k) == match lookup(merged, k) {
            Some(w) => Some(w),
            None => pending_in(j.frames.take(p), k),
        });
        assert(pending_in(j.frames.drop_last(), k) == match lookup(parent.writes, k) {
            Some(w) => Some(w),
            None => pending_in(j.frames.take(p), k),
        });
        assert(pending_in(j.frames, k) == match lookup(child.writes, k) {
            Some(w) => Some(w),
            None => pending_in(j.frames.drop_last(), k),
        });
        if has_key(child.writes, k) {
            let ci = index_of(child.writes, k);
            lemma_lookup_at(child.writes, ci);
            assert(j.anchored(n - 1, child.writes[ci]));
            if has_key(parent.writes, k) {
                let pi = index_of(parent.writes, k);
                lemma_lookup_at(parent.writes, pi);
            } else {
                lemma_lookup_absent(parent.writes, k);
            }
        } else {
            lemma_lookup_absent(child.writes, k);
        }
    }
}

/// Each mutation of a frame comes from the frame's write for its key,
/// changes the value, and no two mutations share a key.
pub proof fn lemma_mutations_of(ws: Seq<(Seq<u8>, PendingView)>)
    requires
        keys_unique(ws),
    ensures
        forall|i: int|
            0 <= i < mutations_of(ws).len() ==> {
                let m = #[trigger] mutations_of(ws)[i];
                &&& lookup(ws, m.key) == Some(
                    PendingView { expected_revision: m.expected_revision, before: m.before, after: m.after },
                )
                &&& m.before != m.after
            },
        forall|a: int, b: int|
            0 <= a < mutations_of(ws).len() && 0 <= b < mutations_of(ws).len() && a != b
                ==> #[trigger] mutations_of(ws)[a].key != #[trigger] mutations_of(ws)[b].key,
        mutations_of(ws).len() <= ws.len(),
    decreases ws.len(),
{
    if ws.len() > 0 {
        let init = ws.drop_last();
        let k = ws.last().0;
        let w = ws.last().1;
        assert forall|a: int, b: int|
            0 <= a < init.len() && 0 <= b < init.len() && a != b implies #[trigger] init[a].0
            != #[trigger] init[b].0 by {
            assert(ws[a].0 != ws[b].0);
        }
        lemma_mutations_of(init);
        assert forall|j: int| 0 <= j < init.len() implies init[j].0 != k by {
            assert(ws[j].0 != ws[ws.len() - 1].0);
        }
        lemma_lookup_absent(init, k);
        assert(ws =~= assoc_set(init, k, w));
        lemma_assoc_set(init, k, w);
        let m = mutations_of(init);
        assert forall|i: int| 0 <= i < m.len() implies m[i].key != k by {
            assert(lookup(init, m[i].key) is Some);
        }
    }
}

/// Read-your-writes: after writing `v` for `k`, a read of `k` returns `v`
/// at the revision the write replaced, and reads of every other key return
/// what they returned before.
pub proof fn law_read_your_writes(j: JournalView, k: Seq<u8>, v: Option<Seq<u8>>, c: CellView)
    requires
        j.wf(),
    ensures
        j.write_outcome(k, v, c).wf(),
        j.write_outcome(k, v, c).overlay_cell(k) == Some(
            CellView { revision: j.seen(k, c).revision, value: v },
        ),
        forall|k2: Seq<u8>|
            k2 != k ==> #[trigger] j.write_outcome(k, v, c).overlay_cell(k2) == j.overlay_cell(k2),
{
    let s = j.settle(k, c);
    if j.overlay_cell(k) is None {
        lemma_base_read(j, k, c);
    }
    lemma_write(s, k, v, j.seen(k, c));
}

/// Reads are never forgotten: a read or a write keeps every revision
/// already observed, and commit and revert leave observations untouched.
pub proof fn law_observations_kept(j: JournalView, k: Seq<u8>, v: Option<Seq<u8>>, c: CellView)
    requires
        j.wf(),
    ensures
        forall|k2: Seq<u8>|
            lookup(j.observations, k2) is Some ==> #[trigger] lookup(
                j.write_outcome(k, v, c).observations,
                k2,
            ) == lookup(j.observations, k2),
        forall|k2: Seq<u8>|
            lookup(j.observations, k2) is Some ==> #[trigger] lookup(j.settle(k, c).observations, k2)
                == lookup(j.observations, k2),
        j.committed().observations == j.observations,
        j.reverted().observations == j.observations,
{
    if j.overlay_cell(k) is None {
        lemma_base_read(j, k, c);
    }
}

/// Revert discards what the checkpoint wrote: a write in the top
/// checkpoint leaves the frames after a revert exactly as a revert without
/// the write would (the read it made stays observed).
pub proof fn law_revert_discards_write(j: JournalView, k: Seq<u8>, v: Option<Seq<u8>>, c: CellView)
    requires
        j.wf(),
        j.frames.len() >= 2,
    ensures
        j.write_outcome(k, v, c).reverted().frames == j.reverted().frames,
        j.write_outcome(k, v, c).reverted().observations == j.settle(k, c).observations,
{
    let s = j.settle(k, c);
    if j.overlay_cell(k) is None {
        lemma_base_read(j, k, c);
    }
    lemma_write(s, k, v, j.seen(k, c));
}

/// The keys of `child` that `parent` does not hold, in the child's order.
pub open spec fn fresh_keys(
    parent: Seq<(Seq<u8>, PendingView)>,
    child: Seq<(Seq<u8>, PendingView)>,
) -> Seq<Seq<u8>>
    decreases child.len(),
{
    if child.len() == 0 {
        Seq::empty()
    } else {
        let r = fresh_keys(parent, child.drop_last());
        if has_key(parent, child.last().0) {
            r
        } else {
            r.push(child.last().0)
        }
    }
}

/// A write keeps the keys of the active checkpoint in the order of their
/// first write: rewriting a key leaves every key where it was, and a new
/// key comes last.
pub proof fn law_write_order(j: JournalView, k: Seq<u8>, v: Option<Seq<u8>>, c: CellView)
    requires
        j.wf(),
    ensures
        ({
            let top = j.frames.last().writes;
            keys_of(j.write_outcome(k, v, c).frames.last().writes) == if has_key(top, k) {
                keys_of(top)
            } else {
                keys_of(top).push(k)
            }
        }),
{
    let s = j.settle(k, c);
    assert(s.frames == j.frames);
    let n = j.frames.len() - 1;
    let top = j.frames[n];
    let w = match lookup(top.writes, k) {
        Some(old) => PendingView { after: v, ..old },
        None => PendingView {
            expected_revision: j.seen(k, c).revision,
            before: j.seen(k, c).value,
            after: v,
        },
    };
    lemma_assoc_set_keys(top.writes, k, w);
}

/// Merging a committed child into its parent keeps the parent's keys where
/// they were and appends the child's new keys in the child's order; so a
/// batch lists its mutations in the order of their first write, whichever
/// checkpoint made it.
pub proof fn law_merge_order(parent: Seq<(Seq<u8>, PendingView)>, child: Seq<(Seq<u8>, PendingView)>)
    requires
        keys_unique(child),
    ensures
        keys_of(merge_writes(parent, child)) == keys_of(parent) + fresh_keys(parent, child),
    decreases child.len(),
{
    if child.len() == 0 {
        assert(keys_of(parent) + fresh_keys(parent, child) =~= keys_of(parent));
    } else {
        let init = child.drop_last();
        assert forall|a: int, b: int|
            0 <= a < init.len() && 0 <= b < init.len() && a != b implies #[trigger] init[a].0
            != #[trigger] init[b].0 by {
            assert(child[a].0 != child[b].0);
        }
        law_merge_order(parent, init);
        let p = merge_writes(parent, init);
        let k = child.last().0;
        let w = child.last().1;
        lemma_merge_has(parent, init, k);
        assert forall|i: int| 0 <= i < init.len() implies init[i].0 != k by {
            assert(child[i].0 != child[child.len() - 1].0);
        }
        match lookup(p, k) {
            Some(pw) => {
                lemma_assoc_set_keys(p, k, PendingView { after: w.after, ..pw });
            },
            None => {
                lemma_assoc_set_keys(p, k, w);
                assert(!has_key(p, k));
                assert(keys_of(p.push((k, w))) =~= keys_of(p).push(k));
            },
        }
        assert(keys_of(parent) + fresh_keys(parent, child) =~= if has_key(parent, k) {
            keys_of(parent) + fresh_keys(parent, init)
        } else {
            (keys_of(parent) + fresh_keys(parent, init)).push(k)
        });
    }
}

/// A key is in a merge exactly when the parent or the child holds it.
pub proof fn lemma_merge_has(
    parent: Seq<(Seq<u8>, PendingView)>,
    child: Seq<(Seq<u8>, PendingView)>,
    k: Seq<u8>,
)
    ensures
        has_key(merge_writes(parent, child), k) <==> (has_key(parent, k) || has_key(child, k)),
    decreases child.len(),
{
    if child.len() > 0 {
        let init = child.drop_last();
        lemma_merge_has(parent, init, k);
        let p = merge_writes(parent, init);
        let k2 = child.last().0;
        let w = child.last().1;
        let q = merge_writes(parent, child);
        if has_key(child, k) {
            let i = choose|i: int| 0 <= i < child.len() && #[trigger] child[i].0 == k;
            if i < child.len() - 1 {
                assert(init[i].0 == k);
            }
        }
        if has_key(init, k) {
            let i = choose|i: int| 0 <= i < init.len() && #[trigger] init[i].0 == k;
            assert(child[i].0 == k);
        }
        match lookup(p, k2) {
            Some(pw) => {
                let v2 = PendingView { after: w.after, ..pw };
                assert(q == assoc_set(p, k2, v2));
                if has_key(p, k) {
                    let i = index_of(p, k);
                    assert(q[i].0 == k);
                }
                if has_key(q, k) {
                    let i = index_of(q, k);
                    if i != index_of(p, k2) {
                        assert(p[i].0 == k);
                    }
                }
            },
            None => {
                assert(q == p.push((k2, w)));
                if has_key(p, k) {
                    let i = index_of(p, k);
                    assert(q[i].0 == k);
                }
                if has_key(q, k) {
                    let i = index_of(q, k);
                    if i < p.len() {
                        assert(p[i].0 == k);
                    }
                }
                assert(q[p.len() as int].0 == k2);
            },
        }
    }
}

/// A tentative write below frame `i` carries the revision that the base
/// view gave for its key.
pub proof fn lemma_pending_revision(j: JournalView, i: int, k: Seq<u8>)
    requires
        j.wf(),
        0 <= i <= j.frames.len(),
    ensures
        pending_in(j.frames.take(i), k) matches Some(w) ==> lookup(j.canonical, k) matches Some(c)
            && c.revision == w.expected_revision,
    decreases i,
{
    if i > 0 {
        let f = j.frames.take(i);
        assert(f.drop_last() =~= j.frames.take(i - 1));
        assert(f.last() == j.frames[i - 1]);
        lemma_pending_revision(j, i - 1, k);
        let ws = j.frames[i - 1].writes;
        if has_key(ws, k) {
            let p = index_of(ws, k);
            lemma_lookup_at(ws, p);
            assert(j.anchored(i - 1, ws[p]));
        }
    }
}

/// Whatever a read returns without the base view carries the revision that
/// the base view first gave for the key, and that revision is observed.
pub proof fn law_overlay_revision_observed(j: JournalView, k: Seq<u8>)
    requires
        j.wf(),
    ensures
        j.overlay_cell(k) matches Some(c) ==> lookup(j.observations, k) == Some(c.revision),
{
    lemma_pending_revision(j, j.frames.len() as int, k);
    assert(j.frames.take(j.frames.len() as int) =~= j.frames);
}

/// Read-your-writes with the first revision: after writing `v` for `k`, a
/// read of `k` returns `v` at the revision first observed for `k`, which is
/// then observed.
pub proof fn law_read_your_writes_revision(
    j: JournalView,
    k: Seq<u8>,
    v: Option<Seq<u8>>,
    c: CellView,
)
    requires
        j.wf(),
    ensures
        ({
            let after = j.write_outcome(k, v, c);
            &&& lookup(after.observations, k) is Some
            &&& after.overlay_cell(k) == Some(
                CellView { revision: lookup(after.observations, k)->0, value: v },
            )
        }),
{
    law_read_your_writes(j, k, v, c);
    law_overlay_revision_observed(j.write_outcome(k, v, c), k);
}

/// Every key that any open frame has written is observed: a journal never
/// holds a tentative write for a key it did not read from the base view.
pub proof fn law_written_keys_observed(j: JournalView)
    requires
        j.wf(),
    ensures
        forall|i: int, p: int|
            0 <= i < j.frames.len() && 0 <= p < j.frames[i].writes.len() ==> lookup(
                j.observations,
                (#[trigger] j.frames[i].writes[p]).0,
            ) is Some,
{
    assert forall|i: int, p: int|
        0 <= i < j.frames.len() && 0 <= p < j.frames[i].writes.len() implies lookup(
        j.observations,
        (#[trigger] j.frames[i].writes[p]).0,
    ) is Some by {
        lemma_pending_has(j.frames, i, p);
        law_overlay_revision_observed(j, j.frames[i].writes[p].0);
    }
}

/// Consecutive writes of a key coalesce: writing `v1` and then `v2` leaves
/// the journal exactly as writing `v2` alone, with the first write's
/// revision, before-value and place.
pub proof fn law_writes_coalesce(
    j: JournalView,
    k: Seq<u8>,
    v1: Option<Seq<u8>>,
    v2: Option<Seq<u8>>,
    c1: CellView,
    c2: CellView,
)
    requires
        j.wf(),
    ensures
        j.write_outcome(k, v1, c1).write_outcome(k, v2, c2) == j.write_outcome(k, v2, c1),
{
    let s = j.settle(k, c1);
    let cur = j.seen(k, c1);
    if j.overlay_cell(k) is None {
        lemma_base_read(j, k, c1);
    }
    law_read_your_writes(j, k, v1, c1);
    let j1 = j.write_outcome(k, v1, c1);
    let n = s.frames.len() - 1;
    let top = s.frames[n];
    assert(keys_unique(top.writes));
    let x = match lookup(top.writes, k) {
        Some(old) => old,
        None => PendingView { expected_revision: cur.revision, before: cur.value, after: v1 },
    };
    let w1 = PendingView { after: v1, ..x };
    let w2 = PendingView { after: v2, ..x };
    assert(j1 == s.with_write(k, v1, cur));
    lemma_assoc_set(top.writes, k, w1);
    assert(j1.frames[n].writes == assoc_set(top.writes, k, w1));
    assert(lookup(j1.frames[n].writes, k) == Some(w1));
    assert(j1.overlay_cell(k) is Some);
    assert(j1.settle(k, c2) == j1);
    lemma_assoc_set_twice(top.writes, k, w1, w2);
    assert(j1.write_outcome(k, v2, c2).frames =~= s.with_write(k, v2, cur).frames);
}

/// The final batch lists a mutation for every key of the root frame whose
/// value changed, in the order of the keys' first writes.
pub proof fn law_batch_complete(ws: Seq<(Seq<u8>, PendingView)>)
    requires
        keys_unique(ws),
    ensures
        forall|p: int|
            0 <= p < ws.len() && (#[trigger] ws[p]).1.before != ws[p].1.after ==> exists|i: int|
                0 <= i < mutations_of(ws).len() && #[trigger] mutations_of(ws)[i] == (MutationView {
                    key: ws[p].0,
                    expected_revision: ws[p].1.expected_revision,
                    before: ws[p].1.before,
                    after: ws[p].1.after,
                }),
        forall|a: int, b: int|
            0 <= a < b < mutations_of(ws).len() ==> index_of(ws, #[trigger] mutations_of(ws)[a].key)
                < index_of(ws, #[trigger] mutations_of(ws)[b].key),
        forall|i: int|
            0 <= i < mutations_of(ws).len() ==> 0 <= index_of(ws, #[trigger] mutations_of(ws)[i].key)
                < ws.len() && has_key(ws, mutations_of(ws)[i].key),
    decreases ws.len(),
{
    if ws.len() > 0 {
        let init = ws.drop_last();
        let last = ws.len() - 1;
        let k = ws.last().0;
        assert forall|a: int, b: int|
            0 <= a < init.len() && 0 <= b < init.len() && a != b implies #[trigger] init[a].0
            != #[trigger] init[b].0 by {
            assert(ws[a].0 != ws[b].0);
        }
        law_batch_complete(init);
        let m = mutations_of(init);
        let mm = mutations_of(ws);
        // positions in `init` are positions in `ws`
        assert forall|i: int| 0 <= i < m.len() implies index_of(ws, #[trigger] m[i].key) == index_of(
            init,
            m[i].key,
        ) && index_of(init, m[i].key) < last by {
            let q = index_of(init, m[i].key);
            assert(init[q].0 == m[i].key);
            assert(ws[q] == init[q]);
            lemma_lookup_at(ws, q);
        }
        lemma_lookup_at(ws, last);
        assert forall|p: int|
            0 <= p < ws.len() && (#[trigger] ws[p]).1.before != ws[p].1.after implies exists|i: int|
            0 <= i < mm.len() && #[trigger] mm[i] == (MutationView {
                key: ws[p].0,
                expected_revision: ws[p].1.expected_revision,
                before: ws[p].1.before,
                after: ws[p].1.after,
            }) by {
            if p < last {
                assert(init[p] == ws[p]);
                let i = choose|i: int|
                    0 <= i < m.len() && #[trigger] m[i] == (MutationView {
                        key: init[p].0,
                        expected_revision: init[p].1.expected_revision,
                        before: init[p].1.before,
                        after: init[p].1.after,
                    });
                assert(mm[i] == m[i]);
            } else {
                assert(mm[m.len() as int] == (MutationView {
                    key: ws[p].0,
                    expected_revision: ws[p].1.expected_revision,
                    before: ws[p].1.before,
                    after: ws[p].1.after,
                }));
            }
        }
        assert forall|i: int| 0 <= i < mm.len() implies 0 <= index_of(ws, #[trigger] mm[i].key)
            < ws.len() && has_key(ws, mm[i].key) by {
            if i < m.len() {
                assert(mm[i] == m[i]);
            }
        }
        assert forall|a: int, b: int| 0 <= a < b < mm.len() implies index_of(
            ws,
            #[trigger] mm[a].key,
        ) < index_of(ws, #[trigger] mm[b].key) by {
            assert(mm[a] == m[a]);
            if b < m.len() {
                assert(mm[b] == m[b]);
            }
        }
    }
}

/// Opening a checkpoint puts the new token on top: every token the journal
/// issued before is then refused as not on top, the new one is accepted,
/// and no batch can be built until it is closed.
pub proof fn law_open_supersedes(j: JournalView, cp: CheckpointView)
    requires
        j.wf(),
        j.next_checkpoint_id < u64::MAX,
        cp.journal_id == j.journal_id,
        !cp.closed,
        cp.id < j.next_checkpoint_id,
    ensures
        j.opened().close_error(cp) == Some(CheckpointError::NotTopCheckpoint),
        j.opened().close_error(
            CheckpointView { journal_id: j.journal_id, id: j.next_checkpoint_id, closed: false },
        ) is None,
        j.opened().batch() == Err::<BatchView, CheckpointError>(CheckpointError::NotTopCheckpoint),
        j.opened().observations == j.observations,
        forall|k: Seq<u8>| #[trigger] j.opened().overlay_cell(k) == j.overlay_cell(k),
{
    lemma_open(j);
}

/// Operations above frame `m` leave the frames below it alone: a read, a
/// write in a frame at or above `m`, opening a checkpoint, and committing
/// or reverting a checkpoint above `m` keep `frames.take(m)`, keep every
/// canonical read, and keep at least `m + 1` frames.
pub proof fn law_lower_frames_kept(j: JournalView, m: int, k: Seq<u8>, v: Option<Seq<u8>>, c: CellView)
    requires
        j.wf(),
        0 <= m < j.frames.len(),
    ensures
        j.settle(k, c).frames == j.frames,
        j.canonical.is_prefix_of(j.settle(k, c).canonical),
        j.write_outcome(k, v, c).frames.len() == j.frames.len(),
        j.write_outcome(k, v, c).frames.take(m) == j.frames.take(m),
        j.canonical.is_prefix_of(j.write_outcome(k, v, c).canonical),
        j.opened().frames.take(m) == j.frames.take(m),
        j.opened().canonical == j.canonical,
        j.frames.len() >= m + 2 ==> j.committed().frames.take(m) == j.frames.take(m)
            && j.committed().frames.len() == j.frames.len() - 1 && j.committed().canonical
            == j.canonical,
        j.frames.len() >= m + 2 ==> j.reverted().frames.take(m) == j.frames.take(m)
            && j.reverted().frames.len() == j.frames.len() - 1 && j.reverted().canonical
            == j.canonical,
{
    let s = j.settle(k, c);
    assert(j.canonical.is_prefix_of(s.canonical)) by {
        if j.overlay_cell(k) is None {
            assert(j.canonical =~= s.canonical.subrange(0, j.canonical.len() as int));
        } else {
            assert(j.canonical =~= s.canonical.subrange(0, j.canonical.len() as int));
        }
    }
    assert(j.write_outcome(k, v, c).frames.take(m) =~= j.frames.take(m));
    assert(j.opened().frames.take(m) =~= j.frames.take(m));
    if j.frames.len() >= m + 2 {
        assert(j.committed().frames.take(m) =~= j.frames.take(m));
        assert(j.reverted().frames.take(m) =~= j.frames.take(m));
    }
}

/// Reverting a checkpoint restores the frames it was opened over: if the
/// frames below the checkpoint's frame are those of `before`, the journal
/// at the moment the checkpoint was opened, then the revert gives back
/// exactly `before`'s frames; together with `law_lower_frames_kept` this
/// holds however many reads, writes and inner checkpoints came between.
pub proof fn law_revert_restores(before: JournalView, j: JournalView)
    requires
        j.frames.len() == before.frames.len() + 1,
        j.frames.take(before.frames.len() as int) == before.frames,
        before.canonical.is_prefix_of(j.canonical),
        keys_unique(j.canonical),
    ensures
        j.reverted().frames == before.frames,
        forall|k: Seq<u8>|
            before.overlay_cell(k) is Some ==> #[trigger] j.reverted().overlay_cell(k)
                == before.overlay_cell(k),
{
    assert(j.reverted().frames =~= j.frames.take(before.frames.len() as int));
    assert forall|k: Seq<u8>| before.overlay_cell(k) is Some implies #[trigger] j.reverted().overlay_cell(
        k,
    ) == before.overlay_cell(k) by {
        if pending_in(before.frames, k) is None {
            let bc = before.canonical;
            let i = index_of(bc, k);
            assert(bc[i] == j.canonical[i]);
            lemma_lookup_at(j.canonical, i);
        }
    }
}

/// The journal observes exactly what it read from the base view: every
/// observed key carries the revision of the cell the base view answered
/// for it.
pub proof fn law_observations_are_base_reads<S: StateView>(j: JournalView, base: S)
    requires
        j.wf(),
        reads_from_base(j, base),
    ensures
        forall|k: Seq<u8>|
            #[trigger] lookup(j.observations, k) is Some ==> exists|c: CellView|
                c.revision == lookup(j.observations, k)->0 && base_answers(base, (k, c)),
{
    assert forall|k: Seq<u8>| #[trigger] lookup(j.observations, k) is Some implies exists|c: CellView|
        c.revision == lookup(j.observations, k)->0 && base_answers(base, (k, c)) by {
        let i = index_of(j.canonical, k);
        lemma_lookup_at(j.canonical, i);
        assert(base_answers(base, j.canonical[i]));
    }
}

/// Committing the top checkpoint changes no read and no observation; the
/// parent is then on top and holds the child's writes, so reverting the
/// parent discards them too.
pub proof fn law_commit_keeps_reads(j: JournalView)
    requires
        j.wf(),
        j.frames.len() >= 2,
    ensures
        j.committed().wf(),
        forall|k: Seq<u8>| #[trigger] j.committed().overlay_cell(k) == j.overlay_cell(k),
        j.committed().observations == j.observations,
        j.committed().canonical == j.canonical,
        j.committed().frames.len() == j.frames.len() - 1,
        j.committed().frames.last().checkpoint_id == j.frames[j.frames.len() - 2].checkpoint_id,
        j.frames.len() >= 3 ==> j.committed().reverted().frames == j.frames.take(
            j.frames.len() - 2,
        ),
{
    lemma_commit(j);
    if j.frames.len() >= 3 {
        assert(j.committed().reverted().frames =~= j.frames.take(j.frames.len() - 2));
    }
}

/// Opening a checkpoint and reverting it restores the overlay.
pub proof fn law_checkpoint_then_revert(j: JournalView)
    requires
        j.wf(),
    ensures
        j.opened().reverted().frames == j.frames,
        j.opened().reverted().observations == j.observations,
        j.opened().reverted().canonical == j.canonical,
{
    assert(j.opened().reverted().frames =~= j.frames);
}

/// The final batch holds one mutation per key that ends with a different
/// value than it had: repeated writes coalesce, writing back the first
/// value emits nothing, and each mutation expects the revision and value
/// the journal read for its key.
pub proof fn law_batch_shape(j: JournalView)
    requires
        j.wf(),
        j.frames.len() == 1,
    ensures
        ({
            let muts = mutations_of(j.frames[0].writes);
            &&& forall|a: int, b: int|
                0 <= a < muts.len() && 0 <= b < muts.len() && a != b ==> #[trigger] muts[a].key
                    != #[trigger] muts[b].key
            &&& forall|i: int|
                0 <= i < muts.len() ==> {
                    &&& #[trigger] muts[i].before != muts[i].after
                    &&& lookup(j.canonical, muts[i].key) == Some(
                        CellView { revision: muts[i].expected_revision, value: muts[i].before },
                    )
                    &&& lookup(j.observations, muts[i].key) == Some(muts[i].expected_revision)
                    &&& lookup(j.frames[0].writes, muts[i].key)->Some_0.after == muts[i].after
                }
        }),
{
    let ws = j.frames[0].writes;
    let muts = mutations_of(ws);
    assert(keys_unique(ws));
    lemma_mutations_of(ws);
    assert forall|i: int| 0 <= i < muts.len() implies {
        &&& #[trigger] muts[i].before != muts[i].after
        &&& lookup(j.canonical, muts[i].key) == Some(
            CellView { revision: muts[i].expected_revision, value: muts[i].before },
        )
        &&& lookup(j.observations, muts[i].key) == Some(muts[i].expected_revision)
        &&& lookup(ws, muts[i].key)->Some_0.after == muts[i].after
    } by {
        let m = muts[i];
        let idx = index_of(ws, m.key);
        lemma_lookup_at(ws, idx);
        assert(j.anchored(0, ws[idx]));
        assert(j.frames.take(0) =~= Seq::empty());
        assert(lookup(j.observations, m.key) == match lookup(j.canonical, m.key) {
            Some(cc) => Some(cc.revision),
            None => None::<u64>,
        });
    }
}

/// The base view `base` answers a read of `e.0` with the cell `e.1`.
pub open spec fn base_answers<S: StateView>(base: S, e: (Seq<u8>, CellView)) -> bool {
    exists|key: StateKey, cell: StateCell|
        #![trigger call_ensures(S::read, (&base, &key), Ok::<StateCell, S::Error>(cell))]
        key@ == e.0 && cell@ == e.1 && call_ensures(
            S::read,
            (&base, &key),
            Ok::<StateCell, S::Error>(cell),
        )
}

/// Every cell the journal holds as read from the base view is one that
/// `base` answered.
pub open spec fn reads_from_base<S: StateView>(view: JournalView, base: S) -> bool {
    forall|i: int| 0 <= i < view.canonical.len() ==> base_answers(base, #[trigger] view.canonical[i])
}

/// A fresh identity for a journal (a random version 4 UUID, `Uuid::new_v4`).
/// Nothing is stated of the value: two journals share one only if two
/// random draws of 122 bits coincide.
#[verifier::external_body]
fn fresh_journal_id() -> (id: u128) {
    uuid::Uuid::new_v4().as_u128()
}

/// A non-cloneable token identifying one open checkpoint.
///
/// A token is marked closed by [`Journal::commit`] or [`Journal::revert`].
/// Tokens must be closed in last-in, first-out order; rejected operations
/// leave the token open so the caller can retry after closing a child
/// checkpoint.
#[derive(Debug, PartialEq, Eq)]
pub struct Checkpoint {
    journal_id: u128,
    id: u64,
    closed: bool,
}

impl View for Checkpoint {
    type V = CheckpointView;

    closed spec fn view(&self) -> CheckpointView {
        CheckpointView { journal_id: self.journal_id, id: self.id, closed: self.closed }
    }
}

struct PendingWrite {
    expected_revision: Revision,
    before: Option<StateValue>,
    after: Option<StateValue>,
}

impl View for PendingWrite {
    type V = PendingView;

    closed spec fn view(&self) -> PendingView {
        PendingView {
            expected_revision: self.expected_revision@,
            before: value_view(self.before),
            after: value_view(self.after),
        }
    }
}

spec fn writes_view(w: Seq<(StateKey, PendingWrite)>) -> Seq<(Seq<u8>, PendingView)> {
    w.map_values(|e: (StateKey, PendingWrite)| (e.0@, e.1@))
}

struct Frame {
    checkpoint_id: Option<u64>,
    writes: Vec<(StateKey, PendingWrite)>,
}

impl View for Frame {
    type V = FrameView;

    closed spec fn view(&self) -> FrameView {
        FrameView { checkpoint_id: self.checkpoint_id, writes: writes_view(self.writes@) }
    }
}

impl Frame {
    fn root() -> (r: Self)
        ensures
            r@ == (FrameView { checkpoint_id: None, writes: Seq::empty() }),
    {
        let r = Frame { checkpoint_id: None, writes: Vec::new() };
        assert(writes_view(r.writes@) =~= Seq::empty());
        r
    }

    fn checkpoint(id: u64) -> (r: Self)
        ensures
            r@ == (FrameView { checkpoint_id: Some(id), writes: Seq::empty() }),
    {
        let r = Frame { checkpoint_id: Some(id), writes: Vec::new() };
        assert(writes_view(r.writes@) =~= Seq::empty());
        r
    }
}

/// A mutation from `before` to `after`, or `None` when the write puts back
/// the value it replaced.
fn make_mutation(
    key: StateKey,
    expected_revision: Revision,
    before: Option<StateValue>,
    after: Option<StateValue>,
) -> (r: Option<Mutation>)
    ensures
        match r {
            None => value_view(before) == value_view(after),
            Some(m) => value_view(before) != value_view(after) && m@ == (MutationView {
                key: key@,
                expected_revision: expected_revision@,
                before: value_view(before),
                after: value_view(after),
            }),
        },
{
    if crate::state::same_value(&before, &after) {
        None
    } else {
        Some(Mutation::new(key, expected_revision, before, after))
    }
}

fn mutations_from(writes: &Vec<(StateKey, PendingWrite)>) -> (r: Vec<Mutation>)
    ensures
        mutations_view(r@) == mutations_of(writes_view(writes@)),
{
    let ghost ws = writes_view(writes@);
    let mut out: Vec<Mutation> = Vec::new();
    let mut i: usize = 0;
    assert(ws.take(0) =~= Seq::<(Seq<u8>, PendingView)>::empty());
    assert(mutations_view(out@) =~= Seq::<MutationView>::empty());
    while i < writes.len()
        invariant
            i <= ws.len(),
            ws == writes_view(writes@),
            mutations_view(out@) == mutations_of(ws.take(i as int)),
        decreases ws.len() - i,
    {
        assert(ws.take(i + 1).drop_last() =~= ws.take(i as int));
        assert(ws.take(i + 1).last() == ws[i as int]);
        let key = &writes[i].0;
        let write = &writes[i].1;
        let made = make_mutation(
            key.clone(),
            write.expected_revision,
            copy_value(&write.before),
            copy_value(&write.after),
        );
        match made {
            Some(m) => {
                let ghost before = out@;
                out.push(m);
                assert(mutations_view(out@) =~= mutations_view(before).push(m@));
            },
            None => {},
        }
        i = i + 1;
    }
    assert(ws.take(ws.len() as int) =~= ws);
    out
}

spec fn canonical_view(c: Seq<(StateKey, StateCell)>) -> Seq<(Seq<u8>, CellView)> {
    c.map_values(|e: (StateKey, StateCell)| (e.0@, e.1@))
}

/// A transactional overlay over a deterministic canonical state view.
pub struct Journal<S> {
    base: S,
    journal_id: u128,
    next_checkpoint_id: u64,
    frames: Vec<Frame>,
    observations: ReadSet,
    canonical_reads: Vec<(StateKey, StateCell)>,
}

impl<S> View for Journal<S> {
    type V = JournalView;

    closed spec fn view(&self) -> JournalView {
        JournalView {
            journal_id: self.journal_id,
            next_checkpoint_id: self.next_checkpoint_id,
            frames: self.frames@.map_values(|f: Frame| f@),
            observations: self.observations@,
            canonical: canonical_view(self.canonical_reads@),
        }
    }
}

impl<S> Journal<S> {
    /// The base view the journal reads through.
    pub closed spec fn base_state(&self) -> S {
        self.base
    }

    /// Creates an empty transaction over `base`.
    pub fn new(base: S) -> (r: Self)
        ensures
            r@.wf(),
            r@.next_checkpoint_id == 0,
            r@.frames == seq![FrameView { checkpoint_id: None, writes: Seq::empty() }],
            r@.observations.len() == 0,
            r@.canonical.len() == 0,
            r.base_state() == base,
    {
        let mut frames: Vec<Frame> = Vec::new();
        frames.push(Frame::root());
        let r = Journal {
            base,
            journal_id: fresh_journal_id(),
            next_checkpoint_id: 0,
            frames,
            observations: ReadSet::new(),
            canonical_reads: Vec::new(),
        };
        proof {
            assert(r@.frames =~= seq![FrameView { checkpoint_id: None, writes: Seq::empty() }]);
            assert(r@.canonical =~= Seq::empty());
            assert forall|i: int, j: int|
                0 <= i < r@.frames.len() && 0 <= j < r@.frames[i].writes.len() implies r@.anchored(
                i,
                #[trigger] r@.frames[i].writes[j],
            ) by {}
            assert forall|k: Seq<u8>| #[trigger] lookup(r@.observations, k) == match lookup(
                r@.canonical,
                k,
            ) {
                Some(c) => Some(c.revision),
                None => None::<u64>,
            } by {}
        }
        r
    }

    /// Returns the canonical read observations collected so far.
    pub fn observations(&self) -> (r: &ReadSet)
        ensures
            r@ == self@.observations,
    {
        &self.observations
    }

    fn pending_write(&self, key: &StateKey) -> (r: Option<&PendingWrite>)
        requires
            self@.wf(),
        ensures
            match r {
                Some(w) => pending_in(self@.frames, key@) == Some(w@),
                None => pending_in(self@.frames, key@) is None,
            },
    {
        let ghost fs = self@.frames;
        let mut i: usize = self.frames.len();
        assert(fs.take(i as int) =~= fs);
        while i > 0
            invariant
                i <= fs.len(),
                fs == self@.frames,
                fs.len() == self.frames@.len(),
                self@.wf(),
                pending_in(fs, key@) == pending_in(fs.take(i as int), key@),
            decreases i,
        {
            i = i - 1;
            let frame = &self.frames[i];
            assert(fs[i as int] == frame@);
            match find_key(&frame.writes, key) {
                Some(at) => {
                    proof {
                        assert(keys_unique(fs[i as int].writes));
                        lemma_lookup_at(fs[i as int].writes, at as int);
                        assert(fs.take(i + 1).last() == fs[i as int]);
                    }
                    return Some(&frame.writes[at].1);
                },
                None => {
                    proof {
                        lemma_lookup_absent(fs[i as int].writes, key@);
                        lemma_pending_take(fs, i as int, key@);
                    }
                },
            }
        }
        None
    }

    /// Reads through the current overlay and records canonical reads.
    pub fn read(&mut self, key: &StateKey) -> (r: Result<StateCell, S::Error>) where
        S: StateView,

        requires
            old(self)@.wf(),
        ensures
            final(self)@.wf(),
            match r {
                Ok(cell) => match old(self)@.overlay_cell(key@) {
                    Some(c) => cell@ == c && final(self)@ == old(self)@,
                    None => final(self)@ == old(self)@.with_base_read(key@, cell@),
                },
                Err(_) => old(self)@.overlay_cell(key@) is None && final(self)@ == old(self)@,
            },
            final(self).base_state() == old(self).base_state(),
            old(self)@.overlay_cell(key@) is None ==> call_ensures(
                S::read,
                (&old(self).base_state(), key),
                r,
            ),
            reads_from_base(old(self)@, old(self).base_state()) ==> reads_from_base(
                final(self)@,
                final(self).base_state(),
            ),
    {
        if let Some(write) = self.pending_write(key) {
            return Ok(StateCell::new(write.expected_revision, copy_value(&write.after)));
        }
        match find_key(&self.canonical_reads, key) {
            Some(at) => {
                proof {
                    lemma_lookup_at(self@.canonical, at as int);
                }
                return Ok(self.canonical_reads[at].1.clone());
            },
            None => {
                proof {
                    lemma_lookup_absent(self@.canonical, key@);
                }
            },
        }
        let cell = match self.base.read(key) {
            Ok(c) => c,
            Err(e) => {
                return Err(e);
            },
        };
        let ghost before = self@;
        proof {
            lemma_base_read(before, key@, cell@);
        }
        self.observations.insert_if_absent(key.clone(), cell.revision);
        self.canonical_reads.push((key.clone(), cell.clone()));
        assert(self@.canonical =~= before.canonical.push((key@, cell@)));
        assert(self@ == before.with_base_read(key@, cell@));
        Ok(cell)
    }

    fn write_key(&mut self, key: StateKey, value: Option<StateValue>) -> (r: Result<(), S::Error>) where
        S: StateView,

        requires
            old(self)@.wf(),
        ensures
            final(self)@.wf(),
            final(self).base_state() == old(self).base_state(),
            old(self)@.write_done(final(self)@, key, value_view(value), old(self).base_state(), r),
            reads_from_base(old(self)@, old(self).base_state()) ==> reads_from_base(
                final(self)@,
                final(self).base_state(),
            ),
    {
        let ghost start = self@;
        let current = match self.read(&key) {
            Ok(c) => c,
            Err(e) => {
                return Err(e);
            },
        };
        let ghost mid = self@;
        proof {
            if start.overlay_cell(key@) is None {
                lemma_base_read(start, key@, current@);
            }
            assert(mid == start.settle(key@, current@));
            assert(start.seen(key@, current@) == current@);
            assert(mid.overlay_cell(key@) == Some(current@));
            lemma_write(mid, key@, value_view(value), current@);
        }
        let mut top = self.frames.pop().unwrap();
        let ghost n = mid.frames.len() - 1;
        assert(top@ == mid.frames[n]);
        assert(keys_unique(top@.writes));
        let ghost v = value_view(value);
        match find_key(&top.writes, &key) {
            Some(at) => {
                proof {
                    lemma_lookup_at(top@.writes, at as int);
                }
                let entry = (
                    key,
                    PendingWrite {
                        expected_revision: top.writes[at].1.expected_revision,
                        before: copy_value(&top.writes[at].1.before),
                        after: value,
                    },
                );
                top.writes.set(at, entry);
                assert(writes_view(top.writes@) =~= assoc_set(
                    mid.frames[n].writes,
                    key@,
                    PendingView { after: v, ..mid.frames[n].writes[at as int].1 },
                ));
            },
            None => {
                proof {
                    lemma_lookup_absent(top@.writes, key@);
                }
                let entry = (
                    key,
                    PendingWrite {
                        expected_revision: current.revision,
                        before: current.value,
                        after: value,
                    },
                );
                top.writes.push(entry);
                assert(writes_view(top.writes@) =~= assoc_set(
                    mid.frames[n].writes,
                    key@,
                    PendingView {
                        expected_revision: current@.revision,
                        before: current@.value,
                        after: v,
                    },
                ));
            },
        }
        self.frames.push(top);
        assert(self@.frames =~= mid.with_write(key@, v, current@).frames);
        assert(self@ == start.write_outcome(key@, v, current@));
        Ok(())
    }

    /// Records a tentative value for `key`, or a deletion when `value` is `None`.
    pub fn write<K>(&mut self, key: K, value: Option<StateValue>) -> (r: Result<(), S::Error>) where
        S: StateView,
        K: Into<StateKey>,

        requires
            old(self)@.wf(),
        ensures
            final(self)@.wf(),
            final(self).base_state() == old(self).base_state(),
            exists|k: StateKey|
                #![trigger old(self)@.write_done(final(self)@, k, value_view(value), old(self).base_state(), r)]
                call_ensures(K::into, (key,), k) && old(self)@.write_done(
                    final(self)@,
                    k,
                    value_view(value),
                    old(self).base_state(),
                    r,
                ),
            reads_from_base(old(self)@, old(self).base_state()) ==> reads_from_base(
                final(self)@,
                final(self).base_state(),
            ),
    {
        let key: StateKey = key.into();
        self.write_key(key, value)
    }

    /// Records a tentative value for `key`.
    pub fn set<K>(&mut self, key: K, value: StateValue) -> (r: Result<(), S::Error>) where
        S: StateView,
        K: Into<StateKey>,

        requires
            old(self)@.wf(),
        ensures
            final(self)@.wf(),
            final(self).base_state() == old(self).base_state(),
            exists|k: StateKey|
                #![trigger old(self)@.write_done(final(self)@, k, Some(value@), old(self).base_state(), r)]
                call_ensures(K::into, (key,), k) && old(self)@.write_done(
                    final(self)@,
                    k,
                    Some(value@),
                    old(self).base_state(),
                    r,
                ),
            reads_from_base(old(self)@, old(self).base_state()) ==> reads_from_base(
                final(self)@,
                final(self).base_state(),
            ),
    {
        self.write(key, Some(value))
    }

    /// Records a tentative deletion for `key`.
    pub fn delete<K>(&mut self, key: K) -> (r: Result<(), S::Error>) where
        S: StateView,
        K: Into<StateKey>,

        requires
            old(self)@.wf(),
        ensures
            final(self)@.wf(),
            final(self).base_state() == old(self).base_state(),
            exists|k: StateKey|
                #![trigger old(self)@.write_done(final(self)@, k, None, old(self).base_state(), r)]
                call_ensures(K::into, (key,), k) && old(self)@.write_done(
                    final(self)@,
                    k,
                    None,
                    old(self).base_state(),
                    r,
                ),
            reads_from_base(old(self)@, old(self).base_state()) ==> reads_from_base(
                final(self)@,
                final(self).base_state(),
            ),
    {
        self.write(key, None)
    }

    /// Opens a nested checkpoint.
    pub fn checkpoint(&mut self) -> (r: Checkpoint)
        requires
            old(self)@.wf(),
            old(self)@.next_checkpoint_id < u64::MAX,
        ensures
            final(self)@.wf(),
            final(self)@ == old(self)@.opened(),
            r@ == (CheckpointView {
                journal_id: old(self)@.journal_id,
                id: old(self)@.next_checkpoint_id,
                closed: false,
            }),
            final(self).base_state() == old(self).base_state(),
    {
        proof {
            lemma_open(self@);
        }
        let id = self.next_checkpoint_id;
        self.next_checkpoint_id = id + 1;
        self.frames.push(Frame::checkpoint(id));
        assert(self@.frames =~= old(self)@.opened().frames);
        Checkpoint { journal_id: self.journal_id, id, closed: false }
    }

    /// Commits the top checkpoint into its parent overlay.
    pub fn commit(&mut self, checkpoint: &mut Checkpoint) -> (r: Result<(), CheckpointError>)
        requires
            old(self)@.wf(),
        ensures
            final(self)@.wf(),
            match old(self)@.close_error(old(checkpoint)@) {
                Some(e) => r == Err::<(), CheckpointError>(e) && final(self)@ == old(self)@
                    && final(checkpoint)@ == old(checkpoint)@,
                None => r == Ok::<(), CheckpointError>(()) && final(self)@ == old(self)@.committed()
                    && final(checkpoint)@ == (CheckpointView { closed: true, ..old(checkpoint)@ }),
            },
            final(self).base_state() == old(self).base_state(),
    {
        self.close(checkpoint, true)
    }

    /// Reverts the top checkpoint and discards only its tentative writes.
    pub fn revert(&mut self, checkpoint: &mut Checkpoint) -> (r: Result<(), CheckpointError>)
        requires
            old(self)@.wf(),
        ensures
            final(self)@.wf(),
            match old(self)@.close_error(old(checkpoint)@) {
                Some(e) => r == Err::<(), CheckpointError>(e) && final(self)@ == old(self)@
                    && final(checkpoint)@ == old(checkpoint)@,
                None => r == Ok::<(), CheckpointError>(()) && final(self)@ == old(self)@.reverted()
                    && final(checkpoint)@ == (CheckpointView { closed: true, ..old(checkpoint)@ }),
            },
            final(self).base_state() == old(self).base_state(),
    {
        self.close(checkpoint, false)
    }

    fn close(&mut self, checkpoint: &mut Checkpoint, commit: bool) -> (r: Result<(), CheckpointError>)
        requires
            old(self)@.wf(),
        ensures
            final(self)@.wf(),
            match old(self)@.close_error(old(checkpoint)@) {
                Some(e) => r == Err::<(), CheckpointError>(e) && final(self)@ == old(self)@
                    && final(checkpoint)@ == old(checkpoint)@,
                None => r == Ok::<(), CheckpointError>(()) && final(self)@ == (if commit {
                    old(self)@.committed()
                } else {
                    old(self)@.reverted()
                }) && final(checkpoint)@ == (CheckpointView { closed: true, ..old(checkpoint)@ }),
            },
            final(self).base_state() == old(self).base_state(),
    {
        if checkpoint.journal_id != self.journal_id {
            return Err(CheckpointError::ForeignCheckpoint);
        }
        if checkpoint.closed {
            return Err(CheckpointError::AlreadyClosed);
        }
        let n = self.frames.len();
        let active = if n == 0 {
            None
        } else {
            self.frames[n - 1].checkpoint_id
        };
        let is_top = match active {
            Some(id) => id == checkpoint.id,
            None => false,
        };
        if !is_top {
            return Err(CheckpointError::NotTopCheckpoint);
        }
        let ghost start = self@;
        assert(start.frames.last() == self.frames@[n - 1]@);
        assert(n >= 2);
        checkpoint.closed = true;
        let child = self.frames.pop().unwrap();
        if commit {
            let mut parent = self.frames.pop().unwrap();
            let ghost pw = parent@.writes;
            let ghost cw = child@.writes;
            assert(pw == start.frames[n - 2].writes);
            assert(cw == start.frames[n - 1].writes);
            assert(keys_unique(pw));
            assert(keys_unique(cw));
            let mut i: usize = 0;
            assert(cw.take(0) =~= Seq::<(Seq<u8>, PendingView)>::empty());
            while i < child.writes.len()
                invariant
                    i <= cw.len(),
                    cw == writes_view(child.writes@),
                    keys_unique(pw),
                    keys_unique(cw),
                    parent@.checkpoint_id == start.frames[n - 2].checkpoint_id,
                    writes_view(parent.writes@) == merge_writes(pw, cw.take(i as int)),
                decreases cw.len() - i,
            {
                let ghost acc = writes_view(parent.writes@);
                assert(cw.take(i + 1).drop_last() =~= cw.take(i as int));
                assert(cw.take(i + 1).last() == cw[i as int]);
                assert(keys_unique(cw.take(i as int))) by {
                    assert forall|a: int, b: int|
                        0 <= a < cw.take(i as int).len() && 0 <= b < cw.take(i as int).len() && a
                            != b implies #[trigger] cw.take(i as int)[a].0 != #[trigger] cw.take(
                        i as int,
                    )[b].0 by {
                        assert(cw[a].0 != cw[b].0);
                    }
                }
                proof {
                    lemma_merge(pw, cw.take(i as int));
                }
                let key = &child.writes[i].0;
                let write = &child.writes[i].1;
                match find_key(&parent.writes, key) {
                    Some(at) => {
                        proof {
                            lemma_lookup_at(acc, at as int);
                        }
                        let entry = (
                            key.clone(),
                            PendingWrite {
                                expected_revision: parent.writes[at].1.expected_revision,
                                before: copy_value(&parent.writes[at].1.before),
                                after: copy_value(&write.after),
                            },
                        );
                        parent.writes.set(at, entry);
                        assert(writes_view(parent.writes@) =~= assoc_set(
                            acc,
                            key@,
                            PendingView { after: cw[i as int].1.after, ..acc[at as int].1 },
                        ));
                    },
                    None => {
                        proof {
                            lemma_lookup_absent(acc, key@);
                        }
                        let entry = (
                            key.clone(),
                            PendingWrite {
                                expected_revision: write.expected_revision,
                                before: copy_value(&write.before),
                                after: copy_value(&write.after),
                            },
                        );
                        parent.writes.push(entry);
                        assert(writes_view(parent.writes@) =~= acc.push(cw[i as int]));
                    },
                }
                i = i + 1;
            }
            assert(cw.take(cw.len() as int) =~= cw);
            self.frames.push(parent);
            proof {
                lemma_commit(start);
            }
            assert(self@.frames =~= start.committed().frames);
        } else {
            proof {
                lemma_revert(start);
            }
            assert(self@.frames =~= start.reverted().frames);
        }
        Ok(())
    }

    /// Builds the final batch without consuming the journal.
    ///
    /// An open checkpoint is rejected because its outcome has not yet been
    /// decided. Mutations keep the order of their first write, including
    /// writes merged from committed child checkpoints.
    pub fn transition(&self) -> (r: Result<TransitionBatch, CheckpointError>)
        requires
            self@.wf(),
        ensures
            match r {
                Ok(b) => self@.batch() == Ok::<BatchView, CheckpointError>(b@),
                Err(e) => self@.batch() == Err::<BatchView, CheckpointError>(e),
            },
    {
        if self.frames.len() != 1 {
            return Err(CheckpointError::NotTopCheckpoint);
        }
        let mutations = mutations_from(&self.frames[0].writes);
        Ok(TransitionBatch::new(self.observations.clone(), mutations))
    }

    /// Builds the final batch and consumes the journal.
    pub fn into_transition(self) -> (r: Result<TransitionBatch, CheckpointError>)
        requires
            self@.wf(),
        ensures
            match r {
                Ok(b) => self@.batch() == Ok::<BatchView, CheckpointError>(b@),
                Err(e) => self@.batch() == Err::<BatchView, CheckpointError>(e),
            },
    {
        if self.frames.len() != 1 {
            return Err(CheckpointError::NotTopCheckpoint);
        }
        let ghost whole = self@;
        let Journal { observations, frames, .. } = self;
        let mutations = mutations_from(&frames[0].writes);
        assert(frames@[0]@ == whole.frames[0]);
        Ok(TransitionBatch::new(observations, mutations))
    }
}

} // verus!
