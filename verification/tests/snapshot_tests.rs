use skvs::store::{new, Store, WriteResult};

#[test]
fn snapshot_round_trip_preserves_store() {
    let mut kvs = new("kvs.snap".to_string());
    assert_eq!(kvs.insert("X-Pro2".to_string(), "Fujifilm".to_string()), Ok(WriteResult::Inserted));
    assert_eq!(kvs.insert("D800".to_string(), "Nikon".to_string()), Ok(WriteResult::Inserted));
    assert_eq!(kvs.update("D800".to_string(), "Nikon D800".to_string()), Ok(WriteResult::Updated));

    let text = kvs.prepare_flush().expect("a non-empty path must produce a snapshot");
    let kvs2 = Store::from_snapshot(&text).expect("the snapshot of a store must decode");

    assert_eq!(kvs2.metrics.last_write, kvs.metrics.last_write);
    assert_eq!(kvs2.metrics.last_update, kvs.metrics.last_update);
    assert_eq!(kvs2.metrics.size, kvs.metrics.size);
    assert_eq!(kvs2.path, kvs.path);
    assert_eq!(kvs2.len(), kvs.len());
    for p in kvs.values.iter() {
        let got = kvs2.get(p.0.clone()).expect("missing entry");
        assert_eq!(got, p.1.value);
    }
    for (p, q) in kvs.values.iter().zip(kvs2.values.iter()) {
        assert_eq!(p.0, q.0);
        assert_eq!(p.1.time, q.1.time);
        assert_eq!(p.1.version, q.1.version);
        assert_eq!(p.1.value, q.1.value);
    }
}

#[test]
fn flush_with_empty_path_is_a_noop() {
    let mut kvs = new(String::new());
    assert_eq!(kvs.insert("a".to_string(), "b".to_string()), Ok(WriteResult::Inserted));
    let before_write = kvs.metrics.last_write;
    assert!(kvs.prepare_flush().is_none());
    assert_eq!(kvs.metrics.last_write, before_write);
    assert_eq!(kvs.len(), 1);
}

#[test]
fn flush_stamps_last_write() {
    let mut kvs = new("somewhere.snap".to_string());
    assert_eq!(kvs.metrics.last_write, 0);
    let _ = kvs.prepare_flush().expect("a non-empty path must produce a snapshot");
    assert!(kvs.metrics.last_write > 0);
}

#[test]
fn decode_accepts_a_canonical_text() {
    let kvs = Store::from_snapshot("skvs;5;7;1;0;1;2;ab3;1;1;x").expect("canonical text");
    assert_eq!(kvs.metrics.last_update, 5);
    assert_eq!(kvs.metrics.last_write, 7);
    assert_eq!(kvs.metrics.size, 1);
    assert_eq!(kvs.path, "");
    assert_eq!(kvs.get("ab".to_string()), Some("x".to_string()));
    assert_eq!(kvs.values[0].1.time, 3);
    assert_eq!(kvs.values[0].1.version, 1);
}

#[test]
fn decode_accepts_the_empty_store() {
    let kvs = Store::from_snapshot("skvs;0;0;0;0;0;").expect("empty store text");
    assert_eq!(kvs.metrics.last_update, 0);
    assert_eq!(kvs.metrics.last_write, 0);
    assert_eq!(kvs.metrics.size, 0);
    assert_eq!(kvs.path, "");
}

#[test]
fn decode_rejects_malformed_texts() {
    assert!(Store::from_snapshot("").is_err());
    assert!(Store::from_snapshot("garbage").is_err());
    assert!(Store::from_snapshot("skvs;").is_err());
    // a number token with a leading zero is not canonical
    assert!(Store::from_snapshot("skvs;00;0;0;0;0;").is_err());
    // the size does not match the entry count
    assert!(Store::from_snapshot("skvs;5;7;2;0;1;2;ab3;1;1;x").is_err());
    // an entry timestamp ahead of last_update
    assert!(Store::from_snapshot("skvs;2;7;1;0;1;2;ab3;1;1;x").is_err());
    // a version of zero
    assert!(Store::from_snapshot("skvs;5;7;1;0;1;2;ab3;0;1;x").is_err());
    // an empty value
    assert!(Store::from_snapshot("skvs;5;7;1;0;1;2;ab3;1;0;").is_err());
    // a duplicate key
    assert!(Store::from_snapshot("skvs;5;7;2;0;2;2;ab3;1;1;x2;ab3;1;1;y").is_err());
}

#[test]
fn decode_rejects_trailing_text() {
    let mut kvs = new("kvs.snap".to_string());
    assert_eq!(kvs.insert("a".to_string(), "b".to_string()), Ok(WriteResult::Inserted));
    let mut text = kvs.prepare_flush().expect("a non-empty path must produce a snapshot");
    assert!(Store::from_snapshot(&text).is_ok());
    text.push('x');
    assert!(Store::from_snapshot(&text).is_err());
}

#[test]
fn flush_never_moves_last_write_back() {
    let mut kvs = new("somewhere-else.snap".to_string());
    let _ = kvs.prepare_flush().expect("a non-empty path must produce a snapshot");
    let first = kvs.metrics.last_write;
    assert!(first > 0);
    let _ = kvs.prepare_flush().expect("a non-empty path must produce a snapshot");
    assert!(kvs.metrics.last_write >= first);
}
