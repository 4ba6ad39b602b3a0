//! Events as the event store sees them.

use vstd::prelude::*;

verus! {

/// An event that an event store can handle.
pub trait Event {
    /// The type of the event, as precise as possible.
    fn event_type(&self) -> &'static str;

    /// Every event type of this kind of event.
    fn all_event_types() -> Vec<&'static str>;
}

/// Why an event could not be turned into its stored form.
#[derive(Clone, Copy, Debug, PartialEq, Eq, Structural)]
pub enum ParseEventError {
    UnknownFailure,
}

/// A request for the list of the streams of an event store.
#[derive(Clone, Copy, Debug, Default)]
pub struct GetStreamList {}

} // verus!
