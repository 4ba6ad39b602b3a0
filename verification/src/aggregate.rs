//! Aggregates: the version bookkeeping that decides which recorded events an
//! aggregate instance applies while it replays or follows its stream.

use vstd::prelude::*;

verus! {

/// Error returned by a failing event applier.
#[derive(Clone, Copy, Debug, PartialEq, Eq, Structural)]
pub enum ApplyError {
    Any,
}

/// Error returned by a failing event handler.
#[derive(Clone, Copy, Debug, PartialEq, Eq, Structural)]
pub enum HandleError {
    Any,
}

/// What an aggregate instance at some version does with a recorded event.
#[derive(Clone, Copy, Debug, PartialEq, Eq, Structural)]
pub enum RecordedEventAction {
    /// The event is older than the instance: it was applied already.
    Skip,
    /// The event does not follow the instance's version.
    Reject,
    /// The event is the next one: it is handed to the applier.
    Apply,
}

/// The version that the next event of the stream carries, seen as the
/// signed number that recorded events hold.
pub open spec fn expected_next(current_version: u64) -> i64 {
    (current_version + 1) as i64
}

/// The decision for an event with `stream_version` reaching an instance at
/// `current_version`: an event older than the next one is skipped, an event
/// without a version is accepted only by a fresh instance, and an event with
/// a version is accepted only if it is exactly the next one.
pub open spec fn recorded_event_decision(
    current_version: u64,
    stream_version: Option<i64>,
) -> RecordedEventAction {
    match stream_version {
        Some(v) => if expected_next(current_version) > v {
            RecordedEventAction::Skip
        } else if expected_next(current_version) != v {
            RecordedEventAction::Reject
        } else {
            RecordedEventAction::Apply
        },
        None => if current_version != 0 {
            RecordedEventAction::Reject
        } else {
            RecordedEventAction::Apply
        },
    }
}

/// Decides what an instance at `current_version` does with an event that
/// carries `stream_version`.
pub fn recorded_event_action(current_version: u64, stream_version: Option<i64>) -> (r:
    RecordedEventAction)
    requires
        current_version < u64::MAX,
    ensures
        r == recorded_event_decision(current_version, stream_version),
{
    let next = (current_version + 1) as i64;
    match stream_version {
        Some(version) if next > version => RecordedEventAction::Skip,
        None if current_version != 0 => RecordedEventAction::Reject,
        Some(version) if next != version => RecordedEventAction::Reject,
        _ => RecordedEventAction::Apply,
    }
}

/// The version of an instance after a recorded event was handled.
///
/// `applied` is what came of the event: `None` when no applier is
/// registered for its type, otherwise the applier's result. Only an event
/// that was applied successfully moves the version on by one; a skipped
/// event leaves it, a rejected event and a failing applier are errors.
pub fn version_after(
    current_version: u64,
    action: RecordedEventAction,
    applied: Option<Result<(), ApplyError>>,
) -> (r: Result<u64, ApplyError>)
    requires
        current_version < u64::MAX,
    ensures
        r == match action {
            RecordedEventAction::Skip => Ok(current_version),
            RecordedEventAction::Reject => Err(ApplyError::Any),
            RecordedEventAction::Apply => match applied {
                None => Ok(current_version),
                Some(Ok(())) => Ok((current_version + 1) as u64),
                Some(Err(e)) => Err(e),
            },
        },
{
    match action {
        RecordedEventAction::Skip => Ok(current_version),
        RecordedEventAction::Reject => Err(ApplyError::Any),
        RecordedEventAction::Apply => match applied {
            None => Ok(current_version),
            Some(Ok(())) => Ok(current_version + 1),
            Some(Err(e)) => Err(e),
        },
    }
}

/// An event that an instance applies carries exactly the version that the
/// instance reaches by applying it; so replaying a stream in order moves the
/// instance from one event's version to the next, and an event is never
/// applied twice.
pub proof fn law_applied_event_sets_version(current_version: u64, v: i64)
    requires
        current_version + 2 <= i64::MAX,
        recorded_event_decision(current_version, Some(v)) == RecordedEventAction::Apply,
    ensures
        v == current_version + 1,
        recorded_event_decision((current_version + 1) as u64, Some(v)) == RecordedEventAction::Skip,
{
}

/// An event whose version the instance has already reached is skipped and
/// leaves the instance as it was.
pub proof fn law_replayed_event_is_skipped(current_version: u64, v: i64)
    requires
        current_version < i64::MAX,
        0 <= v <= current_version,
    ensures
        recorded_event_decision(current_version, Some(v)) == RecordedEventAction::Skip,
{
}

/// What an instance at `current_version` does with a recorded event, in
/// plain arithmetic: an event without a version is applied only by a fresh
/// instance (version 0) and refused by any other; an event with version
/// `v` is skipped when `v` is at most the current version, applied when it
/// is exactly the next one, and refused when it lies further ahead.
pub proof fn law_recorded_event_decision(current_version: u64, v: i64)
    requires
        current_version < i64::MAX,
    ensures
        current_version == 0 ==> recorded_event_decision(current_version, None)
            == RecordedEventAction::Apply,
        current_version != 0 ==> recorded_event_decision(current_version, None)
            == RecordedEventAction::Reject,
        v <= current_version ==> recorded_event_decision(current_version, Some(v))
            == RecordedEventAction::Skip,
        v == current_version + 1 ==> recorded_event_decision(current_version, Some(v))
            == RecordedEventAction::Apply,
        v > current_version + 1 ==> recorded_event_decision(current_version, Some(v))
            == RecordedEventAction::Reject,
{
}

/// The result of a command: the events it produced, the version the
/// aggregate reached once they were appended, and the aggregate's state.
pub struct CommandExecutionResult<E, A> {
    pub events: Vec<E>,
    pub new_version: u64,
    pub state: A,
}

impl<E, A> CommandExecutionResult<E, A> {
    /// The result of appending `events` to a stream at `current_version`:
    /// the version moves on by one per event.
    pub fn after_append(events: Vec<E>, state: A, current_version: u64) -> (r: Self)
        requires
            current_version + events@.len() <= u64::MAX,
        ensures
            r.events@ == events@,
            r.state == state,
            r.new_version == current_version + events@.len(),
    {
        let new_version = current_version + events.len() as u64;
        CommandExecutionResult { events, new_version, state }
    }
}

/// An entry of an aggregate's event resolver: the event type names it
/// resolves.
pub trait EventResolverItem<A> {
    fn get_names(&self) -> &[&'static str];
}

/// Routes the commands of an application to the registries that execute
/// them.
pub struct Router<A> {
    _app: std::marker::PhantomData<A>,
    _before_dispatch: Vec<String>,
}

impl<A> Router<A> {
    /// The hooks run before a command is dispatched.
    pub closed spec fn hooks(&self) -> Seq<String> {
        self._before_dispatch@
    }
}

impl<A> Default for Router<A> {
    fn default() -> (r: Self)
        ensures
            r.hooks().len() == 0,
    {
        Router { _app: std::marker::PhantomData, _before_dispatch: Vec::new() }
    }
}

} // verus!
