use std::collections::BTreeMap;
use std::convert::Infallible;

use chekov::state::{
    Mutation, Observation, Revision, StateCell, StateKey, StateValue, StateView, TransitionBatch,
};

#[derive(Debug, Default)]
struct MemoryState {
    cells: BTreeMap<StateKey, StateCell>,
}

#[derive(Debug, PartialEq, Eq)]
enum MemoryError {
    RevisionMismatch { key: StateKey, expected: Revision, actual: Revision },
    BeforeMismatch { key: StateKey },
    RevisionExhausted,
}

impl StateView for MemoryState {
    type Error = Infallible;

    fn read(&self, key: &StateKey) -> Result<StateCell, Self::Error> {
        Ok(self
            .cells
            .get(key)
            .cloned()
            .unwrap_or_else(|| StateCell::absent(Revision::zero())))
    }
}

impl MemoryState {
    fn apply(&mut self, mutation: Mutation) -> Result<Revision, MemoryError> {
        let current = self.read(&mutation.key).expect("memory reads cannot fail");

        if current.revision != mutation.expected_revision {
            return Err(MemoryError::RevisionMismatch {
                key: mutation.key,
                expected: mutation.expected_revision,
                actual: current.revision,
            });
        }

        if current.value != mutation.before {
            return Err(MemoryError::BeforeMismatch { key: mutation.key });
        }

        let revision = current
            .revision
            .checked_next()
            .ok_or(MemoryError::RevisionExhausted)?;
        self.cells
            .insert(mutation.key, StateCell::new(revision, mutation.after));
        Ok(revision)
    }
}

fn key(bytes: &'static [u8]) -> StateKey {
    StateKey::from(bytes)
}

fn value(bytes: &'static [u8]) -> StateValue {
    StateValue::from(bytes)
}

#[test]
fn memory_state_supports_creation_update_and_deletion() {
    let mut state = MemoryState::default();
    let key = key(b"key");
    let first = value(b"one");
    let second = value(b"two");

    assert_eq!(state.read(&key).unwrap(), StateCell::absent(Revision::zero()));

    let revision = state
        .apply(Mutation::create(key.clone(), Revision::zero(), first.clone()))
        .unwrap();
    assert_eq!(revision, Revision::new(1));
    assert_eq!(
        state.read(&key).unwrap(),
        StateCell::present(Revision::new(1), first.clone())
    );

    let revision = state
        .apply(Mutation::update(
            key.clone(),
            revision,
            first.clone(),
            second.clone(),
        ))
        .unwrap();
    assert_eq!(revision, Revision::new(2));

    let revision = state
        .apply(Mutation::delete(key.clone(), revision, second))
        .unwrap();
    assert_eq!(revision, Revision::new(3));
    assert_eq!(state.read(&key).unwrap(), StateCell::absent(revision));
}

#[test]
fn stale_observations_are_rejected_even_when_the_old_cell_was_absent() {
    let mut state = MemoryState::default();
    let key = key(b"key");
    let observation = state.read(&key).unwrap();

    state
        .apply(Mutation::create(
            key.clone(),
            observation.revision,
            value(b"created"),
        ))
        .unwrap();

    let stale = state.apply(Mutation::new(
        key.clone(),
        observation.revision,
        observation.value,
        Some(value(b"stale write")),
    ));
    assert_eq!(
        stale,
        Err(MemoryError::RevisionMismatch {
            key,
            expected: Revision::zero(),
            actual: Revision::new(1),
        })
    );
}

#[test]
fn transition_batch_records_reads_and_explicit_mutations() {
    let key = key(b"key");
    let mut transition = TransitionBatch::empty();
    transition.record_observation(Observation::new(key.clone(), Revision::new(4)));
    transition.record_observation(Observation::new(key.clone(), Revision::new(9)));
    transition.push_mutation(Mutation::new(
        key.clone(),
        Revision::new(4),
        None,
        Some(value(b"value")),
    ));

    assert_eq!(transition.reads.get(&key), Some(Revision::new(4)));
    assert_eq!(transition.mutations.len(), 1);
    assert_eq!(transition.mutations[0].key, key);
    assert_eq!(transition.mutations[0].before, None);
    assert_eq!(transition.mutations[0].after, Some(value(b"value")));
}

#[test]
fn memory_state_rejects_revision_overflow() {
    let mut state = MemoryState::default();
    let key = key(b"key");
    let revision = Revision::new(u64::MAX);
    state
        .cells
        .insert(key.clone(), StateCell::present(revision, value(b"value")));

    assert_eq!(revision.checked_next(), None);
    assert_eq!(
        state.apply(Mutation::update(
            key.clone(),
            revision,
            value(b"value"),
            value(b"next"),
        )),
        Err(MemoryError::RevisionExhausted)
    );
    assert_eq!(state.read(&key).unwrap().revision, revision);
}

#[test]
fn keys_and_values_keep_their_bytes() {
    let k = StateKey::new(b"abc");
    assert_eq!(k.as_bytes(), b"abc");
    let v = StateValue::from("xyz");
    assert_eq!(v.as_bytes(), b"xyz");
    let back = StateValue::from_arc(v.clone().into_arc());
    assert_eq!(back, v);
    assert_eq!(StateKey::from(vec![1u8, 2, 3]).as_bytes(), &[1u8, 2, 3]);
}

#[test]
fn revisions_count_up_and_stop_at_the_maximum() {
    assert_eq!(Revision::zero().value(), 0);
    assert_eq!(Revision::new(41).checked_next(), Some(Revision::new(42)));
    assert_eq!(Revision::new(u64::MAX - 1).checked_next(), Some(Revision::new(u64::MAX)));
    assert_eq!(Revision::new(u64::MAX).checked_next(), None);
    assert_eq!(u64::from(Revision::from(7u64)), 7);
}

#[test]
fn cells_mutations_and_read_sets() {
    assert!(StateCell::present(Revision::new(1), StateValue::from("v")).is_present());
    assert!(!StateCell::absent(Revision::new(1)).is_present());

    let create = Mutation::create(StateKey::from("k"), Revision::zero(), StateValue::from("v"));
    assert_eq!(create.before, None);
    assert_eq!(create.after, Some(StateValue::from("v")));
    let delete = Mutation::delete(StateKey::from("k"), Revision::new(3), StateValue::from("v"));
    assert_eq!(delete.before, Some(StateValue::from("v")));
    assert_eq!(delete.after, None);
    assert_eq!(delete.expected_revision, Revision::new(3));

    let mut reads = chekov::state::ReadSet::new();
    reads.insert_if_absent(StateKey::from("z"), Revision::new(2));
    reads.insert_if_absent(StateKey::from("a"), Revision::new(1));
    reads.insert_if_absent(StateKey::from("m"), Revision::new(5));
    reads.insert_if_absent(StateKey::from("a"), Revision::new(9));
    assert_eq!(reads.len(), 3);
    assert_eq!(
        reads.keys(),
        vec![StateKey::from("a"), StateKey::from("m"), StateKey::from("z")]
    );
    assert_eq!(reads.get(&StateKey::from("a")), Some(Revision::new(1)));
    assert_eq!(reads.get(&StateKey::from("b")), None);
    assert_eq!(reads.revision_at(2), Revision::new(2));
}

#[test]
fn revisions_order_and_default_to_zero() {
    assert_eq!(Revision::default(), Revision::zero());
    assert!(Revision::new(1) < Revision::new(2));
    let batch = TransitionBatch::new(chekov::state::ReadSet::new(), vec![Mutation::create(
        StateKey::from("k"),
        Revision::zero(),
        StateValue::from("v"),
    )]);
    assert_eq!(batch.clone(), batch);
    let o = Observation::new(StateKey::from("k"), Revision::new(3));
    assert_eq!(o.clone(), o);
}
