use std::str::FromStr;

use chekov::event_store::notification::{EventBusError, EventNotification, EventNotificationError};
use chekov::event_store::stream::{Stream, StreamError};
use chekov::event_store::versions::{ExpectedVersion, ExpectedVersionError, ReadVersion};

#[test]
fn test_stream_from_str() {
    assert_eq!(
        Err(StreamError::MalformedStreamUUID),
        Stream::from_str("unvalid stream name")
    );
}

#[test]
fn test_stream_is_not_persisted_by_default() {
    assert!(!Stream::from_str("unvalid").unwrap().is_persisted());
}

#[test]
fn test_that_an_unexisting_stream_with_any_is_created() {
    let stream = Stream::from_str("stream_1").unwrap();

    assert!(matches!(
        ExpectedVersion::verify(&stream, &ExpectedVersion::AnyVersion),
        Err(ExpectedVersionError::NeedCreation)
    ));
}

#[test]
fn test_validation_result_need_creation() {
    let mut stream = Stream::from_str("stream_1").unwrap();
    stream.stream_id = 1;
    stream.deleted_at = Some(chrono::Utc::now().timestamp_micros());

    assert!(matches!(
        ExpectedVersion::verify(&stream, &ExpectedVersion::AnyVersion),
        Err(ExpectedVersionError::StreamDeleted)
    ));

    stream.stream_id = 0;
    stream.deleted_at = None;

    assert!(matches!(
        ExpectedVersion::verify(&stream, &ExpectedVersion::NoStream),
        Err(ExpectedVersionError::NeedCreation)
    ));

    assert!(matches!(
        ExpectedVersion::verify(&stream, &ExpectedVersion::Version(0)),
        Err(ExpectedVersionError::NeedCreation)
    ));

    assert!(matches!(
        ExpectedVersion::verify(&stream, &ExpectedVersion::AnyVersion),
        Err(ExpectedVersionError::NeedCreation)
    ));

    assert!(matches!(
        ExpectedVersion::verify(&stream, &ExpectedVersion::StreamExists),
        Err(ExpectedVersionError::StreamDoesntExists)
    ));

    stream.stream_id = 1;
    assert!(ExpectedVersion::verify(&stream, &ExpectedVersion::AnyVersion).is_ok());
    assert!(ExpectedVersion::verify(&stream, &ExpectedVersion::StreamExists).is_ok());

    stream.stream_version = 1;

    assert!(ExpectedVersion::verify(&stream, &ExpectedVersion::Version(1)).is_ok());
    assert!(matches!(
        ExpectedVersion::verify(&stream, &ExpectedVersion::Version(2)),
        Err(ExpectedVersionError::WrongExpectedVersion)
    ));
    assert!(matches!(
        ExpectedVersion::verify(&stream, &ExpectedVersion::NoStream),
        Err(ExpectedVersionError::StreamAlreadyExists)
    ));
}

#[test]
fn a_stream_keeps_its_name_and_starts_at_version_zero() {
    let stream = Stream::from_str("account-42").unwrap();
    assert_eq!(stream.stream_uuid(), "account-42");
    assert_eq!(stream.stream_version, 0);
    assert_eq!(stream.deleted_at, None);
    assert!(Stream::validates_stream_id("no-space"));
    assert!(!Stream::validates_stream_id("one space"));
}

#[test]
fn unpersisted_stream_at_a_later_version_is_a_wrong_version() {
    let stream = Stream::from_str("s").unwrap();
    assert!(matches!(
        ExpectedVersion::verify(&stream, &ExpectedVersion::Version(3)),
        Err(ExpectedVersionError::WrongExpectedVersion)
    ));
}

#[test]
fn read_versions_start_where_they_say() {
    assert_eq!(ReadVersion::Origin.start(), 0);
    assert_eq!(ReadVersion::Version(17).start(), 17);
}

#[test]
fn a_notification_is_read_field_by_field() {
    let n = EventNotification::try_from("account-1,12,3,5").unwrap();
    assert_eq!(n.stream_uuid, "account-1");
    assert_eq!(n.stream_id, 12);
    assert_eq!(n.first_stream_version, 3);
    assert_eq!(n.last_stream_version, 5);
}

#[test]
fn notification_numbers_take_signs_and_range_limits() {
    let n = EventNotification::parse("s,-2147483648,+7,2147483647").unwrap();
    assert_eq!(n.stream_id, i32::MIN);
    assert_eq!(n.first_stream_version, 7);
    assert_eq!(n.last_stream_version, i32::MAX);
}

fn parse_error_field(text: &str) -> Option<&'static str> {
    match EventNotification::parse(text) {
        Err(EventNotificationError::ParsingError { field }) => Some(field),
        _ => None,
    }
}

#[test]
fn notification_errors_name_the_first_bad_field() {
    assert!(matches!(
        EventNotification::parse(",1,2,3"),
        Err(EventNotificationError::InvalidStreamUUID)
    ));
    assert!(matches!(
        EventNotification::parse(""),
        Err(EventNotificationError::InvalidStreamUUID)
    ));
    assert_eq!(parse_error_field("s"), Some("stream_id"));
    assert_eq!(parse_error_field("s,x,2,3"), Some("stream_id"));
    assert_eq!(parse_error_field("s,1"), Some("first_stream_version"));
    assert_eq!(parse_error_field("s,1,-,3"), Some("first_stream_version"));
    assert_eq!(parse_error_field("s,1,2"), Some("last_stream_version"));
    assert_eq!(parse_error_field("s,1,2,2147483648"), Some("last_stream_version"));
    assert_eq!(parse_error_field("s,1,2,3,4"), Some("last_stream_version"));
    assert_eq!(parse_error_field("s,1,2, 3"), Some("last_stream_version"));
}

#[test]
fn a_notification_names_the_events_to_read() {
    let n = EventNotification::parse("s,1,4,9").unwrap();
    assert_eq!(n.read_window(), (ReadVersion::Version(4), 6));
}

struct ConnectionLost;

impl chekov::event_store::error::BackendError for ConnectionLost {}

#[test]
fn backend_errors_are_wrapped() {
    let e = chekov::event_store::error::StorageError::from(ConnectionLost);
    assert!(matches!(
        e,
        chekov::event_store::error::StorageError::InternalBackendError(_)
    ));
}

#[test]
fn bus_errors_carry_notification_or_backend_failures() {
    let e = EventBusError::EventNotificationError(EventNotificationError::InvalidStreamUUID);
    assert!(matches!(e, EventBusError::EventNotificationError(_)));
    let e = EventBusError::InternalEventBusError(Box::new(ConnectionLost));
    assert!(matches!(e, EventBusError::InternalEventBusError(_)));
}
