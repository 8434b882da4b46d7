use skvs::entry::Entry;

#[test]
fn test_new_entry() {
    let ent = Entry::new("hello, world");
    assert_eq!(ent.version, 1);
    assert_eq!(ent.value, "hello, world");
    assert!(ent.time > 0);
}

#[test]
fn entry_from_string_starts_at_version_one() {
    let ent = Entry::from_string("hello, world".to_string());
    assert_eq!(ent.version, 1);
    assert_eq!(ent.value, "hello, world".to_string());
    assert!(ent.time > 0);
}

#[test]
fn entry_update_changes_value_and_version() {
    let ent1 = Entry::new("hello, world");
    let ent2 = Entry::update(&ent1, "goodbye, world");
    assert_ne!(ent1.value, ent2.value);
    assert_eq!(ent2.value, "goodbye, world");
    assert_eq!(ent2.version, ent1.version + 1);
    assert!(ent2.time >= ent1.time);
}

#[test]
fn entry_update_same_value_is_noop() {
    let ent1 = Entry::new("hello, world");
    let ent2 = Entry::update(&ent1, "hello, world");
    assert_eq!(ent2.version, ent1.version);
    assert_eq!(ent2.time, ent1.time);
    assert_eq!(ent2.value, ent1.value);
}

#[test]
fn entry_update_from_string_matches_update() {
    let ent1 = Entry::from_string("hello, world".to_string());
    let ent2 = Entry::update_from_string(&ent1, "goodbye, world".to_string());
    assert_eq!(ent2.version, ent1.version + 1);
    assert_eq!(ent2.value, "goodbye, world");
    assert!(ent2.time >= ent1.time);

    let ent3 = Entry::update_from_string(&ent2, "goodbye, world".to_string());
    assert_eq!(ent3.version, ent2.version);
    assert_eq!(ent3.time, ent2.time);
}
