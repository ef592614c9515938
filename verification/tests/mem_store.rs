use kvstore::errors::KVError;
use kvstore::mem_kv::MemKVStore;
use kvstore::value::Value;
use kvstore::KVStore;
use kvstore::StringKey;

/// The four operations through the capability interface alone: what works
/// here works the same against any backend that implements it.
fn run_through_capability<T: KVStore>(store: &mut T) {
    let key = StringKey::new("cap-key".to_string());
    assert!(store.get(&key).unwrap().is_none());
    store.put(&key, &Value::Int(11)).unwrap();
    assert!(store.contains_key(&key).unwrap());
    assert_eq!(store.get(&key).unwrap(), Some(Value::Int(11)));
    store.delete(&key).unwrap();
    assert!(store.get(&key).unwrap().is_none());
}

#[test]
fn the_capability_is_one_interface_over_backends() {
    let mut store = MemKVStore::new();
    run_through_capability(&mut store);
}

fn custom_key(id: i32, name: &str) -> StringKey {
    // a composite key: two fields joined by a delimiter
    StringKey::new(format!("{}-{}", id, name))
}

fn sample_value() -> Value {
    Value::Fields(vec![
        ("id".to_string(), Value::Int(1)),
        ("name".to_string(), Value::Text("test".to_string())),
        (
            "settings".to_string(),
            Value::Fields(vec![
                ("key1".to_string(), Value::Text("value1".to_string())),
                ("key2".to_string(), Value::Text("value2".to_string())),
                ("key3".to_string(), Value::Text("value3".to_string())),
            ]),
        ),
    ])
}

#[test]
fn put_then_get_returns_the_same_structure() {
    let mut store = MemKVStore::new();
    let key = custom_key(1, "test");
    store.put(&key, &sample_value()).unwrap();
    // a fresh key with the same fields reaches the same record
    let key2 = custom_key(1, "test");
    let got = store.get(&key2).unwrap().unwrap();
    assert_eq!(got, sample_value());
}

#[test]
fn get_on_a_key_never_written_is_none_not_an_error() {
    let store = MemKVStore::new();
    let key = custom_key(9, "missing");
    assert_eq!(store.get(&key).unwrap(), None);
}

#[test]
fn delete_then_get_is_none_and_deleting_absent_succeeds() {
    let mut store = MemKVStore::new();
    let key = custom_key(1, "test");
    store.put(&key, &sample_value()).unwrap();
    store.delete(&key).unwrap();
    assert_eq!(store.get(&key).unwrap(), None);
    // deleting what is already gone is still a success
    store.delete(&key).unwrap();
}

#[test]
fn presence_tracks_put_and_delete() {
    let mut store = MemKVStore::new();
    let key = custom_key(1, "test");
    assert!(!store.contains_key(&key).unwrap());
    store.put(&key, &Value::Int(5)).unwrap();
    assert!(store.contains_key(&key).unwrap());
    store.delete(&key).unwrap();
    assert!(!store.contains_key(&key).unwrap());
}

#[test]
fn put_replaces_the_prior_record() {
    let mut store = MemKVStore::new();
    let key = custom_key(2, "again");
    store.put(&key, &Value::Int(1)).unwrap();
    store.put(&key, &Value::Int(2)).unwrap();
    assert_eq!(store.get(&key).unwrap(), Some(Value::Int(2)));
}

#[test]
fn a_write_in_flight_makes_writes_and_reads_fail_fast() {
    let mut store = MemKVStore::new();
    let key = custom_key(1, "test");
    store.acquire_exclusive().unwrap();
    // the losing write fails at once; nothing is corrupted and nothing waits
    assert_eq!(store.put(&key, &Value::Int(1)), Err(KVError::LockContention));
    assert_eq!(store.get(&key), Err(KVError::LockContention));
    assert_eq!(store.contains_key(&key), Err(KVError::LockContention));
    assert_eq!(store.delete(&key), Err(KVError::LockContention));
    store.release_exclusive();
    // once the guard is gone the same operations succeed
    store.put(&key, &Value::Int(1)).unwrap();
    assert_eq!(store.get(&key).unwrap(), Some(Value::Int(1)));
}

#[test]
fn readers_share_the_lock_but_exclude_writers() {
    let mut store = MemKVStore::new();
    let key = custom_key(1, "test");
    store.put(&key, &Value::Int(7)).unwrap();
    store.acquire_shared().unwrap();
    store.acquire_shared().unwrap();
    // reads still work while readers hold the lock
    assert_eq!(store.get(&key).unwrap(), Some(Value::Int(7)));
    // writes do not
    assert_eq!(store.put(&key, &Value::Int(8)), Err(KVError::LockContention));
    assert_eq!(store.delete(&key), Err(KVError::LockContention));
    store.release_shared();
    assert_eq!(store.put(&key, &Value::Int(8)), Err(KVError::LockContention));
    store.release_shared();
    store.put(&key, &Value::Int(8)).unwrap();
    assert_eq!(store.get(&key).unwrap(), Some(Value::Int(8)));
}
