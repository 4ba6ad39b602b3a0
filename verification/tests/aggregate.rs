use chekov::aggregate::{
    recorded_event_action, version_after, ApplyError, CommandExecutionResult, RecordedEventAction,
    Router,
};

#[test]
fn the_next_event_is_applied_and_moves_the_version() {
    assert_eq!(recorded_event_action(3, Some(4)), RecordedEventAction::Apply);
    assert_eq!(
        version_after(3, RecordedEventAction::Apply, Some(Ok(()))),
        Ok(4)
    );
}

#[test]
fn already_seen_events_are_skipped() {
    assert_eq!(recorded_event_action(3, Some(3)), RecordedEventAction::Skip);
    assert_eq!(recorded_event_action(3, Some(1)), RecordedEventAction::Skip);
    assert_eq!(version_after(3, RecordedEventAction::Skip, None), Ok(3));
}

#[test]
fn events_out_of_order_are_rejected() {
    assert_eq!(recorded_event_action(3, Some(5)), RecordedEventAction::Reject);
    assert_eq!(recorded_event_action(0, Some(999)), RecordedEventAction::Reject);
    assert_eq!(
        version_after(3, RecordedEventAction::Reject, None),
        Err(ApplyError::Any)
    );
}

#[test]
fn unversioned_events_only_reach_a_fresh_instance() {
    assert_eq!(recorded_event_action(0, None), RecordedEventAction::Apply);
    assert_eq!(recorded_event_action(2, None), RecordedEventAction::Reject);
}

#[test]
fn a_missing_or_failing_applier_keeps_the_version() {
    assert_eq!(version_after(5, RecordedEventAction::Apply, None), Ok(5));
    assert_eq!(
        version_after(5, RecordedEventAction::Apply, Some(Err(ApplyError::Any))),
        Err(ApplyError::Any)
    );
}

#[test]
fn appended_events_move_the_version_by_their_count() {
    let r = CommandExecutionResult::after_append(vec!["a", "b", "c"], 7u8, 10);
    assert_eq!(r.new_version, 13);
    assert_eq!(r.events, vec!["a", "b", "c"]);
    assert_eq!(r.state, 7);
    let none: CommandExecutionResult<u8, ()> = CommandExecutionResult::after_append(vec![], (), 100);
    assert_eq!(none.new_version, 100);
}

#[test]
fn a_router_starts_without_hooks() {
    let _router: Router<()> = Router::default();
}
