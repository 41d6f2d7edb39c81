use sync_core::device::DeviceRegistry;

fn is_lower_hex(c: char) -> bool {
    c.is_ascii_digit() || ('a'..='f').contains(&c)
}

#[test]
fn fresh_registry_creates_a_uuid() {
    let mut registry = DeviceRegistry::new();
    let out = registry.ensure_device_id();
    assert!(out.created);
    assert_eq!(out.id.len(), 36);
    for (i, c) in out.id.chars().enumerate() {
        if i == 8 || i == 13 || i == 18 || i == 23 {
            assert_eq!(c, '-');
        } else {
            assert!(is_lower_hex(c));
        }
    }
    assert_eq!(out.id.chars().nth(14), Some('4'));
    assert!(matches!(out.id.chars().nth(19), Some('8') | Some('9') | Some('a') | Some('b')));
}

#[test]
fn repeated_requests_return_the_same_id() {
    let mut registry = DeviceRegistry::new();
    let first = registry.ensure_device_id();
    let second = registry.ensure_device_id();
    let third = registry.ensure_device_id();
    assert!(first.created);
    assert!(!second.created);
    assert!(!third.created);
    assert_eq!(first.id, second.id);
    assert_eq!(first.id, third.id);
}

#[test]
fn stored_id_is_returned_as_it_is() {
    let mut registry = DeviceRegistry::from_stored(Some("device-7".to_string()));
    let out = registry.ensure_device_id();
    assert!(!out.created);
    assert_eq!(out.id, "device-7");
}

#[test]
fn registry_loaded_without_an_entry_creates_one() {
    let mut registry = DeviceRegistry::from_stored(None);
    let out = registry.ensure_device_id();
    assert!(out.created);
    assert_eq!(out.id.len(), 36);
    let again = registry.ensure_device_id();
    assert!(!again.created);
    assert_eq!(again.id, out.id);
}

#[test]
fn candidate_is_adopted_only_when_nothing_is_stored() {
    let mut registry = DeviceRegistry::new();
    let out = registry.ensure_device_id_with("alpha".to_string());
    assert!(out.created);
    assert_eq!(out.id, "alpha");
    let out = registry.ensure_device_id_with("beta".to_string());
    assert!(!out.created);
    assert_eq!(out.id, "alpha");
    let out = registry.ensure_device_id();
    assert!(!out.created);
    assert_eq!(out.id, "alpha");
}

#[test]
fn two_fresh_registries_get_different_ids() {
    let mut one = DeviceRegistry::new();
    let mut other = DeviceRegistry::new();
    assert_ne!(one.ensure_device_id().id, other.ensure_device_id().id);
}
