use kvs::{removal_outcome, value_from_lookup, KVStoreError, KvsEngine, SledKvStore};
use std::path::PathBuf;
use std::time::{SystemTime, UNIX_EPOCH};

fn fresh_dir(name: &str) -> PathBuf {
    let nanos = SystemTime::now().duration_since(UNIX_EPOCH).unwrap().as_nanos();
    PathBuf::from(format!("/tmp/kvs-sled-test-{}-{}", name, nanos))
}

fn open(dir: &PathBuf) -> SledKvStore {
    match SledKvStore::open(dir.clone()) {
        Ok(s) => s,
        Err(_) => panic!("sled opens"),
    }
}

#[test]
fn sled_set_get_remove() {
    let dir = fresh_dir("basic");
    let mut s = open(&dir);
    assert!(matches!(s.get("key1".to_string()), Ok(None)));
    assert!(s.set("key1".to_string(), "value1".to_string()).is_ok());
    assert_eq!(s.get("key1".to_string()).ok().flatten(), Some("value1".to_string()));
    assert!(s.set("key1".to_string(), "value2".to_string()).is_ok());
    assert_eq!(s.get("key1".to_string()).ok().flatten(), Some("value2".to_string()));
    assert!(s.remove("key1".to_string()).is_ok());
    assert!(matches!(s.get("key1".to_string()), Ok(None)));
    assert!(matches!(s.remove("key1".to_string()), Err(KVStoreError::KeyNotFound)));
}

#[test]
fn sled_values_persist_across_opens() {
    let dir = fresh_dir("persist");
    {
        let mut s = open(&dir);
        assert!(s.set("é".to_string(), "ünïcode".to_string()).is_ok());
    }
    let mut s = open(&dir);
    assert_eq!(s.get("é".to_string()).ok().flatten(), Some("ünïcode".to_string()));
}

#[test]
fn sled_bytes_that_are_no_utf8_are_a_utf8_error() {
    let dir = fresh_dir("utf8");
    {
        let db = sled::open(&dir).unwrap();
        db.insert("bad", vec![0xffu8, 0xfe]).unwrap();
        db.flush().unwrap();
    }
    let mut s = open(&dir);
    assert!(matches!(s.get("bad".to_string()), Err(KVStoreError::Utf8Error(_))));
}

#[test]
fn lookups_decode_utf8() {
    assert!(matches!(value_from_lookup(Ok(None)), Ok(None)));
    match value_from_lookup(Ok(Some("héllo".as_bytes().to_vec()))) {
        Ok(Some(s)) => assert_eq!(s, "héllo"),
        _ => panic!("valid UTF-8 decodes"),
    }
    assert!(matches!(value_from_lookup(Ok(Some(vec![0xc3]))), Err(KVStoreError::Utf8Error(_))));
}

#[test]
fn removal_outcomes() {
    assert!(removal_outcome(Ok(Some(b"v".to_vec()))).is_ok());
    assert!(matches!(removal_outcome(Ok(None)), Err(KVStoreError::KeyNotFound)));
}

#[test]
fn sled_remove_of_an_absent_key_is_key_not_found() {
    let dir = fresh_dir("absent");
    let mut s = open(&dir);
    assert!(matches!(s.remove("nope".to_string()), Err(KVStoreError::KeyNotFound)));
    s.set("a".to_string(), "1".to_string()).unwrap();
    s.remove("a".to_string()).unwrap();
    assert!(matches!(s.remove("a".to_string()), Err(KVStoreError::KeyNotFound)));
    assert_eq!(s.get("a".to_string()).unwrap(), None);
}
