use chekov::event_type::{EventShape, EventVariant};

fn variant(ident: &str, event_type: Option<&str>) -> EventVariant {
    EventVariant {
        ident: ident.to_string(),
        event_type: event_type.map(|s| s.to_string()),
    }
}

#[test]
fn enum_events_are_named_after_their_variants() {
    let shape = EventShape {
        ident: "MyEnumEvent".to_string(),
        event_type: None,
        variants: Some(vec![
            variant("Created", None),
            variant("Updated", None),
            variant("Deleted", None),
        ]),
    };
    assert_eq!(
        shape.all_event_types(),
        vec![
            "MyEnumEvent::Created".to_string(),
            "MyEnumEvent::Updated".to_string(),
            "MyEnumEvent::Deleted".to_string(),
        ]
    );
}

#[test]
fn struct_events_are_named_after_the_type() {
    let shape = EventShape {
        ident: "MyStructEvent".to_string(),
        event_type: None,
        variants: None,
    };
    assert_eq!(shape.all_event_types(), vec!["MyStructEvent".to_string()]);
}

#[test]
fn given_names_take_precedence() {
    let shape = EventShape {
        ident: "AccountEvent".to_string(),
        event_type: Some("account".to_string()),
        variants: Some(vec![variant("Opened", Some("opened")), variant("Closed", None)]),
    };
    assert_eq!(shape.base_event_type(), "account");
    assert_eq!(
        shape.all_event_types(),
        vec!["account::opened".to_string(), "account::Closed".to_string()]
    );
}
