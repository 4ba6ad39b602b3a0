use chekov::registry::{InstanceRegistry, Route};

#[test]
fn a_running_instance_is_reused_and_a_missing_one_is_started() {
    let mut registry: InstanceRegistry<u64> = InstanceRegistry::new();
    assert!(matches!(registry.route("user-1"), Route::Start));
    assert_eq!(registry.started("user-1".to_string(), Ok::<u64, ()>(11)), Ok(11));
    assert!(matches!(registry.route("user-1"), Route::Running(11)));
    assert!(matches!(registry.route("user-2"), Route::Start));
}

#[test]
fn a_failed_start_keeps_nothing() {
    let mut registry: InstanceRegistry<u64> = InstanceRegistry::new();
    assert_eq!(registry.started("user-1".to_string(), Err::<u64, &str>("boom")), Err("boom"));
    assert_eq!(registry.get("user-1"), None);
}

#[test]
fn shutdown_forgets_the_instance() {
    let mut registry: InstanceRegistry<u64> = InstanceRegistry::new();
    registry.insert("a".to_string(), 1);
    registry.insert("b".to_string(), 2);
    registry.insert("a".to_string(), 3);
    assert_eq!(registry.get("a"), Some(&3));
    assert_eq!(registry.remove("a"), Some(3));
    assert_eq!(registry.remove("a"), None);
    assert_eq!(registry.get("b"), Some(&2));
}
