use skvs::basic::{Store, Value};

#[test]
fn store_init() {
    let mut store = Store::new();

    if store.metrics.last_update.clone() != 0 {
        panic!("store wasn't zero-initialised!");
    }

    if !store.add("a".to_string(), "b".to_string()) {
        panic!("failed to add 'a' to the store.");
    }

    if store.metrics.last_update.clone() == 0 {
        panic!("store wasn't updated");
    }
}

#[test]
fn store_add() {
    let mut store = Store::new();
    if !store.add("a".to_string(), "b".to_string()) {
        panic!("failed to add 'a' to the store.");
    }

    if !store.add("a".to_string(), "c".to_string()) {
        panic!("failed to update 'a' in the store.");
    }

    let v: Value;
    match store.get("a".to_string()) {
        Some(kval) => {
            v = kval;
        }
        None => {
            panic!("key wasn't found in store");
        }
    };

    if v.version.clone() != 2 {
        panic!("value wasn't updated properly");
    }
}

#[test]
fn store_delete() {
    let mut store = Store::new();
    store.add("a".to_string(), "b".to_string());
    store.add("c".to_string(), "d".to_string());

    if store.metrics.size.clone() != 2 {
        panic!("invalid size for store");
    }

    if store.delete("b".to_string()) {
        panic!("shouldn't delete non-extant key");
    }

    if !store.delete("a".to_string()) {
        panic!("failed to delete key");
    }
}

#[test]
fn store_rejects_empty_value() {
    let mut store = Store::new();
    assert!(!store.add("a".to_string(), "".to_string()));
    assert_eq!(store.metrics.size, 0);
    assert_eq!(store.metrics.last_update, 0);
    assert!(store.get("a".to_string()).is_none());
}

#[test]
fn store_add_same_value_keeps_version() {
    let mut store = Store::new();
    assert!(store.add("a".to_string(), "b".to_string()));
    assert!(store.add("a".to_string(), "b".to_string()));
    let v = store.clone().get("a".to_string()).expect("key not found in store");
    assert_eq!(v.version, 1);
    assert_eq!(v.value, "b");
    assert_eq!(store.metrics.size, 1);
}

#[test]
fn store_last_updated_tracks_metrics() {
    let mut store = Store::new();
    assert_eq!(store.clone().last_updated(), 0);
    store.add("a".to_string(), "b".to_string());
    let after = store.clone().last_updated();
    assert!(after > 0);
    assert_eq!(after, store.metrics.last_update);
}

#[test]
fn store_delete_then_get_returns_nothing() {
    let mut store = Store::new();
    store.add("a".to_string(), "b".to_string());
    assert_eq!(store.metrics.size, 1);
    assert!(store.delete("a".to_string()));
    assert_eq!(store.metrics.size, 0);
    assert!(store.get("a".to_string()).is_none());
}

#[test]
fn store_write_error_stays_empty() {
    let mut store = Store::new();
    assert_eq!(store.metrics.write_error, "");
    store.add("a".to_string(), "b".to_string());
    assert_eq!(store.metrics.write_error, "");
    store.delete("a".to_string());
    assert_eq!(store.metrics.write_error, "");
    store.delete("a".to_string());
    assert_eq!(store.metrics.write_error, "");
}
