use resp_kv::{encode, parse, RedisValue};

/// Encode, decode back, and re-encode: the decode must consume the whole
/// frame and the re-encoding must reproduce it byte for byte.
fn round_trip(v: RedisValue) -> Vec<u8> {
    let framed = encode(&v);
    let (pos, back) = parse(&framed, 0)
        .expect("round trip must not error")
        .expect("round trip must be complete");
    assert_eq!(pos, framed.len());
    assert_eq!(encode(&back), framed);
    framed
}

#[test]
fn encodes_bulk_string() {
    assert_eq!(encode(&RedisValue::String(b"hi".to_vec())), b"$2\r\nhi\r\n");
    assert_eq!(encode(&RedisValue::String(Vec::new())), b"$0\r\n\r\n");
}

#[test]
fn encodes_error() {
    assert_eq!(encode(&RedisValue::Error(b"ERR bad".to_vec())), b"-ERR bad\r\n");
}

#[test]
fn encodes_integers() {
    assert_eq!(encode(&RedisValue::Int(0)), b":0\r\n");
    assert_eq!(encode(&RedisValue::Int(1234)), b":1234\r\n");
    assert_eq!(encode(&RedisValue::Int(-56)), b":-56\r\n");
    assert_eq!(
        encode(&RedisValue::Int(i64::MIN)),
        b":-9223372036854775808\r\n"
    );
    assert_eq!(
        encode(&RedisValue::Int(i64::MAX)),
        b":9223372036854775807\r\n"
    );
}

#[test]
fn encodes_null_sentinels() {
    assert_eq!(encode(&RedisValue::NullBulkString), b"$-1\r\n");
    assert_eq!(encode(&RedisValue::NullArray), b"*-1\r\n");
}

#[test]
fn encodes_array() {
    assert_eq!(
        encode(&RedisValue::Array(vec![
            RedisValue::String(b"GET".to_vec()),
            RedisValue::String(b"k".to_vec()),
        ])),
        b"*2\r\n$3\r\nGET\r\n$1\r\nk\r\n"
    );
}

#[test]
fn round_trips_scalars() {
    round_trip(RedisValue::String(b"hello".to_vec()));
    round_trip(RedisValue::String(Vec::new()));
    round_trip(RedisValue::String(b"with\rcr and\nlf".to_vec()));
    round_trip(RedisValue::Error(b"ERR something".to_vec()));
    round_trip(RedisValue::Int(0));
    round_trip(RedisValue::Int(i64::MIN));
    round_trip(RedisValue::Int(i64::MAX));
    round_trip(RedisValue::NullArray);
    round_trip(RedisValue::NullBulkString);
}

#[test]
fn round_trips_nested_arrays() {
    round_trip(RedisValue::Array(Vec::new()));
    round_trip(RedisValue::Array(vec![
        RedisValue::Int(-7),
        RedisValue::NullBulkString,
        RedisValue::Array(vec![
            RedisValue::String(b"deep".to_vec()),
            RedisValue::NullArray,
        ]),
        RedisValue::Error(b"ERR nested".to_vec()),
    ]));
}

#[test]
fn round_trip_prefixes_stay_incomplete() {
    let framed = round_trip(RedisValue::String(b"abc".to_vec()));
    for n in 0..framed.len() {
        assert!(parse(&framed[..n], 0).unwrap().is_none());
    }
}
