//! Streams, optimistic-concurrency versions and event-bus notifications.

pub mod error;
pub mod event;
pub mod notification;
pub mod stream;
pub mod versions;
