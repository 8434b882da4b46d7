use skvs::store::{new, DecodeError, Store, StoreError, WriteResult};

fn version_of(kvs: &Store, key: &str) -> i64 {
    for p in kvs.values.iter() {
        if p.0 == key {
            return p.1.version;
        }
    }
    panic!("missing entry");
}

#[test]
fn store_single_key_scenario() {
    let mut kvs = new(String::new());
    assert_eq!(kvs.len(), 0);
    assert_eq!(kvs.metrics.size, 0);

    assert_eq!(kvs.insert("a".to_string(), "b".to_string()), Ok(WriteResult::Inserted));
    assert_eq!(kvs.metrics.size, 1);
    assert_eq!(kvs.len(), 1);

    assert_eq!(kvs.insert("a".to_string(), "c".to_string()), Ok(WriteResult::AlreadyExists));
    assert_eq!(kvs.metrics.size, 1);
    assert_eq!(kvs.get("a".to_string()), Some("b".to_string()));

    assert_eq!(kvs.update("a".to_string(), "c".to_string()), Ok(WriteResult::Updated));
    assert_eq!(kvs.get("a".to_string()), Some("c".to_string()));
    assert_eq!(version_of(&kvs, "a"), 2);

    assert_eq!(kvs.delete("a".to_string()), WriteResult::Updated);
    assert_eq!(kvs.metrics.size, 0);

    assert_eq!(kvs.delete("a".to_string()), WriteResult::DoesNotExist);
    assert_eq!(kvs.metrics.size, 0);
}

#[test]
fn store_insert_rejects_empty_value() {
    let mut kvs = new(String::new());
    assert_eq!(kvs.insert("a".to_string(), String::new()), Err(StoreError::InvalidValue));
    assert_eq!(kvs.len(), 0);
    assert_eq!(kvs.metrics.last_update, 0);
    assert!(kvs.get("a".to_string()).is_none());
}

#[test]
fn store_update_rejects_empty_value() {
    let mut kvs = new(String::new());
    assert_eq!(kvs.update("a".to_string(), "b".to_string()), Ok(WriteResult::Inserted));
    assert_eq!(kvs.update("a".to_string(), String::new()), Err(StoreError::InvalidValue));
    assert_eq!(kvs.get("a".to_string()), Some("b".to_string()));
    assert_eq!(kvs.len(), 1);
}

#[test]
fn store_update_same_value_keeps_version() {
    let mut kvs = new(String::new());
    assert_eq!(kvs.update("a".to_string(), "b".to_string()), Ok(WriteResult::Inserted));
    assert_eq!(version_of(&kvs, "a"), 1);
    assert_eq!(kvs.update("a".to_string(), "b".to_string()), Ok(WriteResult::Updated));
    assert_eq!(version_of(&kvs, "a"), 1);
    assert_eq!(kvs.update("a".to_string(), "b".to_string()), Ok(WriteResult::Updated));
    assert_eq!(version_of(&kvs, "a"), 1);
}

#[test]
fn store_write_sequence_keeps_metrics_consistent() {
    let mut kvs = new("/tmp/kvs.snap".to_string());
    assert_eq!(kvs.len(), 0);
    assert_eq!(kvs.metrics.last_update, 0);
    assert_eq!(kvs.metrics.size, kvs.len());

    let mut wr = kvs.insert("X-Pro2".to_string(), "Fujifilm".to_string());
    assert_eq!(wr, Ok(WriteResult::Inserted));
    assert_eq!(kvs.len(), 1);
    assert_ne!(kvs.metrics.last_update, 0);
    assert_eq!(kvs.metrics.size, kvs.len());
    let mut lastup = kvs.metrics.last_update;

    wr = kvs.insert("D800".to_string(), "Canon".to_string());
    assert_eq!(wr, Ok(WriteResult::Inserted));
    assert_eq!(kvs.len(), 2);
    assert!(kvs.metrics.last_update >= lastup);
    assert_eq!(kvs.metrics.size, kvs.len());
    lastup = kvs.metrics.last_update;

    wr = kvs.insert("D800".to_string(), "Nikon".to_string());
    assert_eq!(wr, Ok(WriteResult::AlreadyExists));
    assert_eq!(kvs.len(), 2);
    assert_eq!(kvs.get("D800".to_string()), Some("Canon".to_string()));

    wr = kvs.update("D800".to_string(), "Nikon".to_string());
    assert_eq!(wr, Ok(WriteResult::Updated));
    assert_eq!(kvs.len(), 2);
    assert!(kvs.metrics.last_update >= lastup);
    assert_eq!(kvs.metrics.size, kvs.len());
    assert_eq!(kvs.get("D800".to_string()), Some("Nikon".to_string()));
    lastup = kvs.metrics.last_update;

    assert_eq!(kvs.get("EOS 5D Mark II".to_string()), None);

    wr = kvs.insert("EOS 5D Mark II".to_string(), "Canon".to_string());
    assert_eq!(wr, Ok(WriteResult::Inserted));
    assert_eq!(kvs.metrics.size, 3);

    assert_eq!(kvs.delete("EOS 5D Mark II".to_string()), WriteResult::Updated);
    assert!(kvs.metrics.last_update >= lastup);
    assert_eq!(kvs.metrics.size, kvs.len());
    assert_eq!(kvs.metrics.size, 2);

    assert_eq!(kvs.delete("EOS 5D Mark II".to_string()), WriteResult::DoesNotExist);
    assert_eq!(kvs.metrics.size, 2);
}

#[test]
fn write_result_messages() {
    assert_eq!(WriteResult::AlreadyExists.to_string(), "key already exists");
    assert_eq!(WriteResult::Inserted.to_string(), "new entry inserted");
    assert_eq!(WriteResult::Updated.to_string(), "entry was updated");
    assert_eq!(WriteResult::DoesNotExist.to_string(), "key doesn't exist");
}

#[test]
fn decode_error_values_compare() {
    assert_eq!(DecodeError::Malformed, DecodeError::Malformed);
    assert_eq!(StoreError::InvalidValue, StoreError::InvalidValue);
}

#[test]
fn store_insert_on_present_key_fails_closed_even_for_empty_value() {
    let mut kvs = new(String::new());
    assert_eq!(kvs.insert("a".to_string(), "b".to_string()), Ok(WriteResult::Inserted));
    assert_eq!(kvs.insert("a".to_string(), String::new()), Ok(WriteResult::AlreadyExists));
    assert_eq!(kvs.get("a".to_string()), Some("b".to_string()));
    assert_eq!(kvs.len(), 1);
}
