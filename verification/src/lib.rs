//! Deterministic state transitions for event-sourced aggregates: opaque
//! keyed state with revisions, a transactional journal with nested
//! checkpoints, and an in-memory store that applies whole batches with
//! compare-and-swap validation; besides, the event store's streams,
//! expected versions and bus notifications, the version bookkeeping of
//! aggregate instances, the naming of event types, and the span records of
//! the console layer.

pub mod aggregate;
pub mod assoc;
pub mod console;
pub mod event_store;
pub mod event_type;
pub mod journal;
pub mod laws;
pub mod order;
pub mod registry;
pub mod state;
pub mod storage;
pub mod subscriber;
pub mod text;
