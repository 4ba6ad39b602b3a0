use std::collections::BTreeMap;
use std::convert::Infallible;

use chekov::journal::{CheckpointError, Journal};
use chekov::state::{Revision, StateCell, StateKey, StateValue, StateView};

#[derive(Debug, Default)]
struct MemoryState {
    cells: BTreeMap<StateKey, StateCell>,
}

impl MemoryState {
    fn with<const N: usize>(cells: [(&'static str, u64, &'static str); N]) -> Self {
        Self {
            cells: cells
                .into_iter()
                .map(|(key, revision, value)| {
                    (
                        StateKey::from(key),
                        StateCell::present(Revision::new(revision), StateValue::from(value)),
                    )
                })
                .collect(),
        }
    }
}

impl StateView for MemoryState {
    type Error = Infallible;

    fn read(&self, key: &StateKey) -> Result<StateCell, Self::Error> {
        Ok(self
            .cells
            .get(key)
            .cloned()
            .unwrap_or_else(|| StateCell::absent(Revision::zero())))
    }
}

fn value(value: &'static str) -> StateValue {
    StateValue::from(value)
}

#[test]
fn nested_commit_merges_and_revert_discards_writes() {
    let base = MemoryState::with([("a", 7, "canonical")]);
    let mut journal = Journal::new(base);

    let mut outer = journal.checkpoint();
    journal.set("a", value("outer")).unwrap();
    let mut inner = journal.checkpoint();
    journal.set("a", value("inner")).unwrap();
    journal.set("b", value("discarded")).unwrap();
    assert_eq!(
        journal.read(&StateKey::from("a")).unwrap().value,
        Some(value("inner"))
    );
    journal.revert(&mut inner).unwrap();

    assert_eq!(
        journal.read(&StateKey::from("a")).unwrap().value,
        Some(value("outer"))
    );
    assert_eq!(journal.read(&StateKey::from("b")).unwrap().value, None);
    journal.commit(&mut outer).unwrap();

    let batch = journal.transition().unwrap();
    assert_eq!(batch.mutations.len(), 1);
    assert_eq!(batch.mutations[0].before, Some(value("canonical")));
    assert_eq!(batch.mutations[0].after, Some(value("outer")));
}

#[test]
fn reads_from_reverted_scopes_are_retained() {
    let mut journal = Journal::new(MemoryState::with([("read", 12, "value")]));
    let mut checkpoint = journal.checkpoint();

    assert_eq!(
        journal.read(&StateKey::from("read")).unwrap().revision,
        Revision::new(12)
    );
    journal.revert(&mut checkpoint).unwrap();

    assert_eq!(
        journal.observations().get(&StateKey::from("read")),
        Some(Revision::new(12))
    );
    assert!(journal.transition().unwrap().mutations.is_empty());
}

#[test]
fn three_level_commit_propagates_reads_and_writes_to_the_batch() {
    let mut journal = Journal::new(MemoryState::with([
        ("a", 1, "a"),
        ("b", 2, "b"),
        ("c", 3, "c"),
    ]));
    let mut outer = journal.checkpoint();
    assert_eq!(
        journal.read(&StateKey::from("a")).unwrap().value,
        Some(value("a"))
    );
    let mut middle = journal.checkpoint();
    journal.set("b", value("b-next")).unwrap();
    let mut inner = journal.checkpoint();
    assert_eq!(
        journal.read(&StateKey::from("c")).unwrap().revision,
        Revision::new(3)
    );
    journal.set("c", value("c-next")).unwrap();

    journal.commit(&mut inner).unwrap();
    assert_eq!(
        journal.read(&StateKey::from("c")).unwrap().value,
        Some(value("c-next"))
    );
    journal.commit(&mut middle).unwrap();
    assert_eq!(
        journal.read(&StateKey::from("b")).unwrap().value,
        Some(value("b-next"))
    );
    journal.commit(&mut outer).unwrap();

    let batch = journal.transition().unwrap();
    assert_eq!(batch.mutations.len(), 2);
    assert_eq!(batch.mutations[0].key, StateKey::from("b"));
    assert_eq!(batch.mutations[1].key, StateKey::from("c"));
    assert_eq!(batch.reads.len(), 3);
}

#[test]
fn repeated_writes_coalesce_and_final_batch_is_deterministic() {
    let mut journal = Journal::new(MemoryState::with([("a", 1, "old-a"), ("z", 2, "old-z")]));

    journal.set("z", value("z-one")).unwrap();
    journal.set("a", value("a-one")).unwrap();
    journal.set("z", value("z-final")).unwrap();
    journal.set("a", value("a-final")).unwrap();

    let batch = journal.transition().unwrap();
    assert_eq!(batch.mutations.len(), 2);
    assert_eq!(batch.mutations[0].key, StateKey::from("z"));
    assert_eq!(batch.mutations[0].before, Some(value("old-z")));
    assert_eq!(batch.mutations[0].after, Some(value("z-final")));
    assert_eq!(batch.mutations[1].key, StateKey::from("a"));
    assert_eq!(batch.mutations[1].before, Some(value("old-a")));
    assert_eq!(batch.mutations[1].after, Some(value("a-final")));
    assert_eq!(
        batch.reads.keys(),
        vec![StateKey::from("a"), StateKey::from("z")]
    );
}

#[test]
fn writing_back_the_original_value_emits_no_mutation() {
    let mut journal = Journal::new(MemoryState::with([("key", 1, "original")]));
    journal.set("key", value("temporary")).unwrap();
    journal.set("key", value("original")).unwrap();

    let batch = journal.transition().unwrap();
    assert!(batch.mutations.is_empty());
    assert_eq!(
        batch.reads.get(&StateKey::from("key")),
        Some(Revision::new(1))
    );
}

#[test]
fn child_commit_preserves_parent_before_value() {
    let mut journal = Journal::new(MemoryState::with([("key", 4, "base")]));
    let mut parent = journal.checkpoint();
    journal.set("key", value("parent")).unwrap();
    let mut child = journal.checkpoint();
    journal.set("key", value("child")).unwrap();
    journal.commit(&mut child).unwrap();
    journal.commit(&mut parent).unwrap();

    let mutation = &journal.transition().unwrap().mutations[0];
    assert_eq!(mutation.expected_revision, Revision::new(4));
    assert_eq!(mutation.before, Some(value("base")));
    assert_eq!(mutation.after, Some(value("child")));
}

#[test]
fn deletion_is_a_read_your_writes_tombstone() {
    let mut journal = Journal::new(MemoryState::with([("key", 9, "value")]));
    journal.delete("key").unwrap();

    assert_eq!(journal.read(&StateKey::from("key")).unwrap().value, None);
    let mutation = &journal.transition().unwrap().mutations[0];
    assert_eq!(mutation.expected_revision, Revision::new(9));
    assert_eq!(mutation.before, Some(value("value")));
    assert_eq!(mutation.after, None);
}

#[test]
fn checkpoint_tokens_are_stack_checked() {
    let mut journal = Journal::new(MemoryState::default());
    let mut parent = journal.checkpoint();
    let mut child = journal.checkpoint();
    assert_eq!(
        journal.commit(&mut parent),
        Err(CheckpointError::NotTopCheckpoint)
    );
    journal.revert(&mut child).unwrap();
    journal.revert(&mut parent).unwrap();
    assert_eq!(
        journal.revert(&mut parent),
        Err(CheckpointError::AlreadyClosed)
    );
}

#[test]
fn rejected_parent_commit_can_be_retried_after_committing_child() {
    let mut journal = Journal::new(MemoryState::default());
    let mut parent = journal.checkpoint();
    journal.set("parent", value("value")).unwrap();
    let mut child = journal.checkpoint();
    journal.set("child", value("value")).unwrap();

    assert_eq!(
        journal.commit(&mut parent),
        Err(CheckpointError::NotTopCheckpoint)
    );
    journal.commit(&mut child).unwrap();
    journal.commit(&mut parent).unwrap();

    let batch = journal.into_transition().unwrap();
    assert_eq!(batch.mutations.len(), 2);
    assert_eq!(batch.mutations[0].key, StateKey::from("parent"));
    assert_eq!(batch.mutations[1].key, StateKey::from("child"));
}

#[test]
fn foreign_checkpoint_rejection_does_not_close_the_handle() {
    let mut first = Journal::new(MemoryState::default());
    let mut second = Journal::new(MemoryState::default());
    let mut checkpoint = first.checkpoint();

    assert_eq!(
        second.revert(&mut checkpoint),
        Err(CheckpointError::ForeignCheckpoint)
    );
    first.revert(&mut checkpoint).unwrap();
    assert!(first.transition().unwrap().mutations.is_empty());
}

#[test]
fn an_open_checkpoint_blocks_the_transition() {
    let mut journal = Journal::new(MemoryState::default());
    let mut open = journal.checkpoint();
    assert_eq!(journal.transition(), Err(CheckpointError::NotTopCheckpoint));
    journal.commit(&mut open).unwrap();
    assert!(journal.transition().is_ok());
}

#[test]
fn a_reverted_write_is_no_longer_read() {
    let mut journal = Journal::new(MemoryState::with([("k", 2, "base")]));
    let mut cp = journal.checkpoint();
    journal.set("k", value("tentative")).unwrap();
    assert_eq!(journal.read(&StateKey::from("k")).unwrap().value, Some(value("tentative")));
    journal.revert(&mut cp).unwrap();
    let cell = journal.read(&StateKey::from("k")).unwrap();
    assert_eq!(cell.value, Some(value("base")));
    assert_eq!(cell.revision, Revision::new(2));
    journal.write("k", None).unwrap();
    assert_eq!(journal.read(&StateKey::from("k")).unwrap().value, None);
}

struct Unreachable;

impl StateView for Unreachable {
    type Error = &'static str;

    fn read(&self, _key: &StateKey) -> Result<StateCell, Self::Error> {
        Err("unreachable")
    }
}

#[test]
fn a_failed_base_read_is_the_error_of_read_and_write() {
    let mut journal = Journal::new(Unreachable);
    assert_eq!(journal.read(&StateKey::from("k")), Err("unreachable"));
    assert_eq!(journal.set("k", value("v")), Err("unreachable"));
    assert_eq!(journal.delete("k"), Err("unreachable"));
    assert!(journal.observations().is_empty());
    assert!(journal.transition().unwrap().mutations.is_empty());
}

#[test]
fn a_written_key_is_observed_at_its_first_revision() {
    let mut journal = Journal::new(MemoryState::with([("k", 5, "v")]));
    journal.set("k", value("w")).unwrap();
    journal.set("k", value("x")).unwrap();
    assert_eq!(journal.observations().get(&StateKey::from("k")), Some(Revision::new(5)));
    let cell = journal.read(&StateKey::from("k")).unwrap();
    assert_eq!(cell, StateCell::present(Revision::new(5), value("x")));
}
