use kvstore::codec::encode;
use kvstore::dynamodb_kv::{item_present, Attr, TableBinding};
use kvstore::errors::{DecodeError, KVError};
use kvstore::rocksdb_kv::read_engine_value;
use kvstore::value::Value;
use kvstore::StringKey;

fn binding() -> TableBinding {
    TableBinding::new("table1".to_string(), "part1".to_string(), "value".to_string())
}

#[test]
fn missing_value_attribute_is_a_schema_error_not_absence() {
    let b = binding();
    // the item exists: its partition key is set, but the value attribute is not
    let item = vec![("part1".to_string(), Attr::Text("1-test".to_string()))];
    match b.read_item(Some(item)) {
        Err(KVError::Schema(attribute)) => assert_eq!(attribute, "value"),
        other => panic!("expected a schema error, got {:?}", other),
    }
}

#[test]
fn non_text_value_attribute_is_a_schema_error() {
    let b = binding();
    let item = vec![
        ("part1".to_string(), Attr::Text("1-test".to_string())),
        ("value".to_string(), Attr::Other),
    ];
    match b.read_item(Some(item)) {
        Err(KVError::Schema(attribute)) => assert_eq!(attribute, "value"),
        other => panic!("expected a schema error, got {:?}", other),
    }
}

#[test]
fn no_item_is_absence() {
    let b = binding();
    assert_eq!(b.read_item(None), Ok(None));
    assert!(!item_present(&None));
    assert!(item_present(&Some(vec![])));
}

#[test]
fn stored_payload_comes_back_decoded() {
    let b = binding();
    let v = Value::Fields(vec![("id".to_string(), Value::Int(1))]);
    let item = vec![
        ("part1".to_string(), Attr::Text("1-test".to_string())),
        ("value".to_string(), Attr::Text(encode(&v))),
    ];
    assert_eq!(b.read_item(Some(item)), Ok(Some(v)));
}

#[test]
fn undecodable_payload_is_a_decode_error() {
    let b = binding();
    let item = vec![("value".to_string(), Attr::Text("garbage".to_string()))];
    assert_eq!(
        b.read_item(Some(item)),
        Err(KVError::Decode(DecodeError::Malformed))
    );
}

#[test]
fn write_item_carries_key_and_payload() {
    let b = binding();
    let key = StringKey::new("1-test".to_string());
    let v = Value::Int(3);
    let item = b.write_item(&key, &v);
    assert_eq!(item.len(), 2);
    assert_eq!(item[0], ("part1".to_string(), Attr::Text("1-test".to_string())));
    assert_eq!(item[1], ("value".to_string(), Attr::Text("i3;".to_string())));
}

#[test]
fn engine_outcomes_mirror_the_store_contract() {
    assert_eq!(read_engine_value(None), Ok(None));
    let v = Value::Items(vec![Value::Int(-4), Value::Flag(true)]);
    assert_eq!(read_engine_value(Some(encode(&v))), Ok(Some(v)));
    match read_engine_value(Some("not a payload".to_string())) {
        Err(KVError::Decode(_)) => {}
        other => panic!("expected a decode error, got {:?}", other),
    }
}
