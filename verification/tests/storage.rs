use chekov::state::{Mutation, ReadSet, Revision, StateCell, StateKey, StateValue, TransitionBatch};
use chekov::storage::{MemoryStorage, StorageError};

fn key(value: &'static str) -> StateKey {
    StateKey::from(value)
}

fn value(value: &'static str) -> StateValue {
    StateValue::from(value)
}

fn reads(entries: &[(StateKey, Revision)]) -> ReadSet {
    let mut reads = ReadSet::new();
    for (key, revision) in entries {
        reads.insert_if_absent(key.clone(), *revision);
    }
    reads
}

fn create(key: StateKey, value: StateValue) -> TransitionBatch {
    TransitionBatch::new(
        reads(&[(key.clone(), Revision::zero())]),
        vec![Mutation::create(key, Revision::zero(), value)],
    )
}

#[test]
fn creates_updates_and_deletes_without_losing_tombstone_revisions() {
    let mut storage = MemoryStorage::default();
    let key = key("account");
    let first = value("one");
    let second = value("two");

    assert_eq!(
        storage.read(&key).unwrap(),
        StateCell::absent(Revision::zero())
    );
    storage.apply(&create(key.clone(), first.clone())).unwrap();
    storage
        .apply(&TransitionBatch::new(
            reads(&[(key.clone(), Revision::new(1))]),
            vec![Mutation::update(
                key.clone(),
                Revision::new(1),
                first,
                second.clone(),
            )],
        ))
        .unwrap();
    storage
        .apply(&TransitionBatch::new(
            reads(&[(key.clone(), Revision::new(2))]),
            vec![Mutation::delete(key.clone(), Revision::new(2), second)],
        ))
        .unwrap();

    assert_eq!(
        storage.read(&key).unwrap(),
        StateCell::absent(Revision::new(3))
    );
}

#[test]
fn stale_multi_key_batch_does_not_partially_commit() {
    let mut storage = MemoryStorage::default();
    let first_key = key("first");
    let second_key = key("second");
    storage
        .apply(&create(first_key.clone(), value("original-first")))
        .unwrap();
    storage
        .apply(&create(second_key.clone(), value("original-second")))
        .unwrap();

    let stale = TransitionBatch::new(
        reads(&[
            (first_key.clone(), Revision::new(1)),
            (second_key.clone(), Revision::zero()),
        ]),
        vec![
            Mutation::update(
                first_key.clone(),
                Revision::new(1),
                value("original-first"),
                value("changed-first"),
            ),
            Mutation::update(
                second_key.clone(),
                Revision::zero(),
                value("original-second"),
                value("changed-second"),
            ),
        ],
    );

    assert_eq!(
        storage.apply(&stale),
        Err(StorageError::Conflict {
            key: second_key.clone(),
            expected: Revision::zero(),
            actual: Revision::new(1),
        })
    );
    assert_eq!(
        storage.read(&first_key).unwrap(),
        StateCell::present(Revision::new(1), value("original-first"))
    );
    assert_eq!(
        storage.read(&second_key).unwrap(),
        StateCell::present(Revision::new(1), value("original-second"))
    );
}

#[test]
fn failed_mutation_validation_does_not_commit_earlier_mutations() {
    let mut storage = MemoryStorage::default();
    let first_key = key("first");
    let second_key = key("second");
    storage
        .apply(&create(first_key.clone(), value("original-first")))
        .unwrap();
    storage
        .apply(&create(second_key.clone(), value("original-second")))
        .unwrap();

    let batch = TransitionBatch::new(
        reads(&[(first_key.clone(), Revision::new(1))]),
        vec![
            Mutation::update(
                first_key.clone(),
                Revision::new(1),
                value("original-first"),
                value("changed-first"),
            ),
            Mutation::update(
                second_key.clone(),
                Revision::new(1),
                value("stale-second-value"),
                value("changed-second"),
            ),
        ],
    );

    assert!(matches!(
        storage.apply(&batch),
        Err(StorageError::ValueMismatch { key, .. }) if key == second_key
    ));
    assert_eq!(
        storage.read(&first_key).unwrap(),
        StateCell::present(Revision::new(1), value("original-first"))
    );
}

#[test]
fn revision_overflow_does_not_commit_any_mutation() {
    let mut storage = MemoryStorage::default();
    let exhausted = key("exhausted");
    let ordinary = key("ordinary");
    storage.restore_cell(
        exhausted.clone(),
        StateCell::present(Revision::new(u64::MAX), value("old")),
    );

    let batch = TransitionBatch::new(
        reads(&[
            (exhausted.clone(), Revision::new(u64::MAX)),
            (ordinary.clone(), Revision::zero()),
        ]),
        vec![
            Mutation::update(
                exhausted.clone(),
                Revision::new(u64::MAX),
                value("old"),
                value("new"),
            ),
            Mutation::create(ordinary.clone(), Revision::zero(), value("created")),
        ],
    );

    assert!(matches!(
        storage.apply(&batch),
        Err(StorageError::RevisionExhausted { key, .. }) if key == exhausted
    ));
    assert_eq!(
        storage.read(&exhausted).unwrap(),
        StateCell::present(Revision::new(u64::MAX), value("old"))
    );
    assert_eq!(
        storage.read(&ordinary).unwrap(),
        StateCell::absent(Revision::zero())
    );
}

#[test]
fn a_fresh_batch_applies_and_reports_the_published_cells() {
    let mut storage = MemoryStorage::new();
    let applied = storage.apply(&create(key("k"), value("v"))).unwrap();
    assert_eq!(applied.mutations.len(), 1);
    assert_eq!(applied.mutations[0].key, key("k"));
    assert_eq!(
        applied.mutations[0].cell,
        StateCell::present(Revision::new(1), value("v"))
    );
    assert_eq!(
        storage.read(&key("k")).unwrap(),
        StateCell::present(Revision::new(1), value("v"))
    );
}

#[test]
fn a_stale_read_alone_refuses_the_batch() {
    let mut storage = MemoryStorage::new();
    storage.apply(&create(key("watched"), value("v"))).unwrap();
    let batch = TransitionBatch::new(
        reads(&[(key("watched"), Revision::zero())]),
        vec![Mutation::create(key("other"), Revision::zero(), value("w"))],
    );
    assert_eq!(
        storage.apply(&batch),
        Err(StorageError::Conflict {
            key: key("watched"),
            expected: Revision::zero(),
            actual: Revision::new(1),
        })
    );
    assert_eq!(storage.read(&key("other")).unwrap(), StateCell::absent(Revision::zero()));
}

#[test]
fn the_same_batch_cannot_be_applied_twice() {
    let mut storage = MemoryStorage::new();
    let batch = create(key("once"), value("v"));
    assert!(storage.apply(&batch).is_ok());
    assert_eq!(
        storage.apply(&batch),
        Err(StorageError::Conflict {
            key: key("once"),
            expected: Revision::zero(),
            actual: Revision::new(1),
        })
    );
}

#[test]
fn two_mutations_of_one_key_see_each_other() {
    let mut storage = MemoryStorage::new();
    let batch = TransitionBatch::new(
        ReadSet::new(),
        vec![
            Mutation::create(key("k"), Revision::zero(), value("one")),
            Mutation::update(key("k"), Revision::new(1), value("one"), value("two")),
        ],
    );
    storage.apply(&batch).unwrap();
    assert_eq!(
        storage.read(&key("k")).unwrap(),
        StateCell::present(Revision::new(2), value("two"))
    );
}

#[test]
fn applied_batches_copy_and_default_to_empty() {
    let mut storage = MemoryStorage::new();
    let applied = storage.apply(&create(key("k"), value("v"))).unwrap();
    assert_eq!(applied.clone(), applied);
    assert!(chekov::storage::AppliedBatch::default().mutations.is_empty());
}

#[test]
fn a_journal_over_the_store_commits_its_batch_back_into_it() {
    let mut storage = MemoryStorage::new();
    storage.apply(&create(key("k"), value("one"))).unwrap();
    let batch = {
        let mut journal = chekov::journal::Journal::new(&storage);
        journal.set("k", value("two")).unwrap();
        journal.set("fresh", value("new")).unwrap();
        journal.into_transition().unwrap()
    };
    storage.apply(&batch).unwrap();
    assert_eq!(
        storage.read(&key("k")).unwrap(),
        StateCell::present(Revision::new(2), value("two"))
    );
    assert_eq!(
        storage.read(&key("fresh")).unwrap(),
        StateCell::present(Revision::new(1), value("new"))
    );
}
