use kvstore::codec::{decode, encode};
use kvstore::errors::DecodeError;
use kvstore::value::Value;

fn text(s: &str) -> Value {
    Value::Text(s.to_string())
}

fn round_trip(v: Value) {
    let payload = encode(&v);
    assert_eq!(decode(payload.as_str()), Ok(v));
}

#[test]
fn encodes_integers_exactly() {
    assert_eq!(encode(&Value::Int(0)), "i0;");
    assert_eq!(encode(&Value::Int(42)), "i42;");
    assert_eq!(encode(&Value::Int(-7)), "i-7;");
    assert_eq!(encode(&Value::Int(9007)), "i9007;");
}

#[test]
fn encodes_flags_text_and_collections_exactly() {
    assert_eq!(encode(&Value::Flag(true)), "t");
    assert_eq!(encode(&Value::Flag(false)), "f");
    assert_eq!(encode(&text("hi")), "s2:hi");
    assert_eq!(encode(&text("")), "s0:");
    assert_eq!(encode(&Value::Items(vec![Value::Int(1), Value::Flag(true)])), "l2:i1;t");
    assert_eq!(
        encode(&Value::Fields(vec![("a".to_string(), Value::Int(1))])),
        "d1:1:ai1;"
    );
}

#[test]
fn round_trips_scalars() {
    round_trip(Value::Int(0));
    round_trip(Value::Int(-1));
    round_trip(Value::Int(i64::MAX));
    round_trip(Value::Int(i64::MIN));
    round_trip(Value::Flag(true));
    round_trip(Value::Flag(false));
    round_trip(text(""));
    round_trip(text("hello world"));
    round_trip(text("colons: and ; digits 123 survive, no escaping"));
}

#[test]
fn round_trips_nested_structures() {
    round_trip(Value::Items(vec![]));
    round_trip(Value::Fields(vec![]));
    round_trip(Value::Items(vec![
        Value::Int(5),
        text("x"),
        Value::Items(vec![Value::Flag(false)]),
    ]));
    round_trip(Value::Fields(vec![
        ("id".to_string(), Value::Int(1)),
        ("name".to_string(), text("test")),
        (
            "settings".to_string(),
            Value::Fields(vec![
                ("key1".to_string(), text("value1")),
                ("key2".to_string(), text("value2")),
            ]),
        ),
    ]));
}

#[test]
fn rejects_malformed_payloads() {
    assert!(decode("").is_err());
    assert!(decode("x").is_err());
    assert!(decode("i;").is_err());
    assert!(decode("i-;").is_err());
    assert!(decode("i-0;").is_err());
    assert!(decode("i01;").is_err());
    assert!(decode("i1").is_err());
    assert!(decode("s").is_err());
    assert_eq!(decode("s5:ab"), Err(DecodeError::Truncated));
    assert!(decode("l1:").is_err());
    assert!(decode("d1:1:a").is_err());
    // one full value followed by trailing garbage is not a payload
    assert!(decode("i1;x").is_err());
    assert!(decode("tt").is_err());
}

#[test]
fn rejects_out_of_range_integers() {
    assert_eq!(decode("i9223372036854775807;"), Ok(Value::Int(i64::MAX)));
    assert_eq!(decode("i-9223372036854775808;"), Ok(Value::Int(i64::MIN)));
    assert_eq!(decode("i9223372036854775808;"), Err(DecodeError::OutOfRange));
    assert_eq!(decode("i-9223372036854775809;"), Err(DecodeError::OutOfRange));
    assert!(decode("i99999999999999999999999999;").is_err());
}
