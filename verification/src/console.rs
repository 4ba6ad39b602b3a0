//! What the console layer keeps of the spans and events it observes.

use vstd::prelude::*;

use crate::text::{same_text, starts_with};

verus! {

/// What the console does with a span or an event, by its target.
#[derive(Clone, Copy, Debug, PartialEq, Eq, Structural)]
pub enum SpanTarget {
    /// Emitted by an event handler: nothing is recorded yet.
    EventHandler,
    /// Emitted by an aggregate instance: its fields are recorded.
    AggregateInstance,
    /// Anything else: ignored.
    Other,
}

/// The class of a target: the event handler's own target, any target under
/// the aggregate instance's module, or another one.
pub open spec fn target_class(target: Seq<char>) -> SpanTarget {
    if target == "chekov::event::handler"@ {
        SpanTarget::EventHandler
    } else if "chekov::aggregate::instance"@.is_prefix_of(target) {
        SpanTarget::AggregateInstance
    } else {
        SpanTarget::Other
    }
}

/// Classifies the target of a new span or event.
pub fn span_target(target: &str) -> (r: SpanTarget)
    ensures
        r == target_class(target@),
{
    if same_text(target, "chekov::event::handler") {
        SpanTarget::EventHandler
    } else if starts_with(target, "chekov::aggregate::instance") {
        SpanTarget::AggregateInstance
    } else {
        SpanTarget::Other
    }
}

/// The fields of an aggregate instance's span that the console shows, each
/// as its rendered value.
#[derive(Clone, Debug, Default)]
pub struct AggregateInstanceData {
    pub aggregate_id: Option<String>,
    pub correlation_id: Option<String>,
    pub message: Option<String>,
}

/// Which of the tracked span fields a field name is.
pub enum TrackedField {
    AggregateId,
    CorrelationId,
    Message,
    Other,
}

pub open spec fn tracked_field(name: Seq<char>) -> TrackedField {
    if name == "aggregate_id"@ {
        TrackedField::AggregateId
    } else if name == "correlation_id"@ {
        TrackedField::CorrelationId
    } else if name == "message"@ {
        TrackedField::Message
    } else {
        TrackedField::Other
    }
}

pub open spec fn opt_text(o: Option<String>) -> Option<Seq<char>> {
    match o {
        Some(s) => Some(s@),
        None => None,
    }
}

impl AggregateInstanceData {
    /// The data of a span whose recorded fields are `fields`, in order:
    /// each pair is a field's name and its rendered value.
    pub fn new(fields: &Vec<(String, String)>) -> (r: Self)
        ensures
            forall|name: Seq<char>|
                tracked_field(name) != TrackedField::Other ==> #[trigger] r.field_text(name)
                    == last_value(fields@, name, fields@.len() as int),
    {
        let mut span = AggregateInstanceData { aggregate_id: None, correlation_id: None, message: None };
        let mut i: usize = 0;
        while i < fields.len()
            invariant
                i <= fields@.len(),
                forall|name: Seq<char>|
                    tracked_field(name) != TrackedField::Other ==> #[trigger] span.field_text(name)
                        == last_value(fields@, name, i as int),
            decreases fields@.len() - i,
        {
            let ghost before = span;
            span.record(fields[i].0.as_str(), fields[i].1.clone());
            proof {
                assert forall|name: Seq<char>| tracked_field(name) != TrackedField::Other implies
                    #[trigger] span.field_text(name) == last_value(fields@, name, i + 1) by {
                    assert(before.field_text(name) == last_value(fields@, name, i as int));
                }
            }
            i = i + 1;
        }
        span
    }

    /// The rendered value kept for the tracked field called `name`.
    pub open spec fn field_text(self, name: Seq<char>) -> Option<Seq<char>> {
        match tracked_field(name) {
            TrackedField::AggregateId => opt_text(self.aggregate_id),
            TrackedField::CorrelationId => opt_text(self.correlation_id),
            TrackedField::Message => opt_text(self.message),
            TrackedField::Other => None,
        }
    }

    /// Records one field: a tracked field keeps its latest rendered value,
    /// any other field is ignored.
    pub fn record(&mut self, field: &str, rendered: String)
        ensures
            final(self).aggregate_id == (if tracked_field(field@) == TrackedField::AggregateId {
                Some(rendered)
            } else {
                old(self).aggregate_id
            }),
            final(self).correlation_id == (if tracked_field(field@)
                == TrackedField::CorrelationId {
                Some(rendered)
            } else {
                old(self).correlation_id
            }),
            final(self).message == (if tracked_field(field@) == TrackedField::Message {
                Some(rendered)
            } else {
                old(self).message
            }),
    {
        if same_text(field, "aggregate_id") {
            self.aggregate_id = Some(rendered);
        } else if same_text(field, "correlation_id") {
            self.correlation_id = Some(rendered);
        } else if same_text(field, "message") {
            self.message = Some(rendered);
        }
    }
}

/// The value last recorded under `name` among the first `n` fields.
pub open spec fn last_value(fields: Seq<(String, String)>, name: Seq<char>, n: int) -> Option<
    Seq<char>,
>
    decreases n,
{
    if n <= 0 {
        None
    } else if fields[n - 1].0@ == name {
        Some(fields[n - 1].1@)
    } else {
        last_value(fields, name, n - 1)
    }
}

/// What the console keeps of a waker event: the task it names and the
/// aggregate it belongs to.
#[derive(Clone, Debug, Default)]
pub struct WakerVisitor {
    pub id: Option<u64>,
    pub aggregate_id: Option<String>,
}

impl WakerVisitor {
    /// Records an integer field: `task.id` names the task.
    pub fn record_u64(&mut self, field: &str, value: u64)
        ensures
            final(self).id == (if field@ == "task.id"@ {
                Some(value)
            } else {
                old(self).id
            }),
            final(self).aggregate_id == old(self).aggregate_id,
    {
        if same_text(field, "task.id") {
            self.id = Some(value);
        }
    }

    /// Records a text field: `aggregate_id` names the aggregate.
    pub fn record_str(&mut self, field: &str, value: &str)
        ensures
            final(self).id == old(self).id,
            opt_text(final(self).aggregate_id) == (if field@ == "aggregate_id"@ {
                Some(value@)
            } else {
                opt_text(old(self).aggregate_id)
            }),
    {
        if same_text(field, "aggregate_id") {
            self.aggregate_id = Some(value.to_owned());
        }
    }

    /// The task named by the recorded fields, if any.
    pub fn result(self) -> (r: Option<u64>)
        ensures
            r == self.id,
    {
        self.id
    }
}

} // verus!
