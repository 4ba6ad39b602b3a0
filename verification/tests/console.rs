use chekov::console::{span_target, AggregateInstanceData, SpanTarget, WakerVisitor};

#[test]
fn span_data_keeps_the_tracked_fields() {
    let fields = vec![
        ("aggregate_id".to_string(), "\"acc-1\"".to_string()),
        ("other".to_string(), "1".to_string()),
        ("message".to_string(), "\"first\"".to_string()),
        ("message".to_string(), "\"second\"".to_string()),
    ];
    let data = AggregateInstanceData::new(&fields);
    assert_eq!(data.aggregate_id.as_deref(), Some("\"acc-1\""));
    assert_eq!(data.correlation_id, None);
    assert_eq!(data.message.as_deref(), Some("\"second\""));
}

#[test]
fn waker_visitor_finds_the_task() {
    let mut visitor = WakerVisitor::default();
    visitor.record_u64("other", 3);
    assert_eq!(visitor.id, None);
    visitor.record_str("aggregate_id", "acc-2");
    assert_eq!(visitor.aggregate_id.as_deref(), Some("acc-2"));
    visitor.record_u64("task.id", 42);
    assert_eq!(visitor.result(), Some(42));
}

#[test]
fn targets_are_classified_by_module() {
    assert_eq!(span_target("chekov::event::handler"), SpanTarget::EventHandler);
    assert_eq!(
        span_target("chekov::aggregate::instance"),
        SpanTarget::AggregateInstance
    );
    assert_eq!(
        span_target("chekov::aggregate::instance::runtime"),
        SpanTarget::AggregateInstance
    );
    assert_eq!(span_target("chekov::aggregate"), SpanTarget::Other);
    assert_eq!(span_target("chekov::event::handler::x"), SpanTarget::Other);
    assert_eq!(span_target(""), SpanTarget::Other);
}
