use resp_kv::{parse, RESPError, RedisValue};

/// Structural equality over decoded values, for test assertions.
fn val_eq(a: &RedisValue, b: &RedisValue) -> bool {
    match (a, b) {
        (RedisValue::String(x), RedisValue::String(y)) => x == y,
        (RedisValue::Error(x), RedisValue::Error(y)) => x == y,
        (RedisValue::Int(x), RedisValue::Int(y)) => x == y,
        (RedisValue::Array(xs), RedisValue::Array(ys)) => {
            xs.len() == ys.len() && xs.iter().zip(ys.iter()).all(|(x, y)| val_eq(x, y))
        }
        (RedisValue::NullArray, RedisValue::NullArray) => true,
        (RedisValue::NullBulkString, RedisValue::NullBulkString) => true,
        _ => false,
    }
}

fn complete(buf: &[u8]) -> (usize, RedisValue) {
    match parse(buf, 0) {
        Ok(Some(r)) => r,
        other => panic!("expected a complete value, got {:?}", other),
    }
}

#[test]
fn decodes_simple_string() {
    let (pos, v) = complete(b"+OK\r\n");
    assert_eq!(pos, 5);
    assert!(val_eq(&v, &RedisValue::String(b"OK".to_vec())));
}

#[test]
fn decodes_error() {
    let (pos, v) = complete(b"-ERR unknown\r\n");
    assert_eq!(pos, 14);
    assert!(val_eq(&v, &RedisValue::Error(b"ERR unknown".to_vec())));
}

#[test]
fn decodes_integer() {
    let (pos, v) = complete(b":1234\r\n");
    assert_eq!(pos, 7);
    assert!(val_eq(&v, &RedisValue::Int(1234)));
}

#[test]
fn decodes_negative_and_signed_integers() {
    let (_, v) = complete(b":-45\r\n");
    assert!(val_eq(&v, &RedisValue::Int(-45)));
    let (_, v) = complete(b":+7\r\n");
    assert!(val_eq(&v, &RedisValue::Int(7)));
    let (_, v) = complete(b":9223372036854775807\r\n");
    assert!(val_eq(&v, &RedisValue::Int(i64::MAX)));
    let (_, v) = complete(b":-9223372036854775808\r\n");
    assert!(val_eq(&v, &RedisValue::Int(i64::MIN)));
}

#[test]
fn integer_overflow_is_a_parse_failure() {
    assert_eq!(
        parse(b":9223372036854775808\r\n", 0).unwrap_err(),
        RESPError::IntParseFailure
    );
    assert_eq!(
        parse(b":-9223372036854775809\r\n", 0).unwrap_err(),
        RESPError::IntParseFailure
    );
}

#[test]
fn integer_junk_is_a_parse_failure() {
    assert_eq!(parse(b":abc\r\n", 0).unwrap_err(), RESPError::IntParseFailure);
    assert_eq!(parse(b":\r\n", 0).unwrap_err(), RESPError::IntParseFailure);
    assert_eq!(parse(b":1 2\r\n", 0).unwrap_err(), RESPError::IntParseFailure);
    assert_eq!(parse(b":--4\r\n", 0).unwrap_err(), RESPError::IntParseFailure);
}

#[test]
fn decodes_bulk_string() {
    let (pos, v) = complete(b"$4\r\nECHO\r\n");
    assert_eq!(pos, 10);
    assert!(val_eq(&v, &RedisValue::String(b"ECHO".to_vec())));
}

#[test]
fn bulk_string_is_binary_safe() {
    let (pos, v) = complete(b"$3\r\na\rb\r\n");
    assert_eq!(pos, 9);
    assert!(val_eq(&v, &RedisValue::String(b"a\rb".to_vec())));
}

#[test]
fn empty_bulk_differs_from_null_bulk() {
    let (pos_empty, empty) = complete(b"$0\r\n\r\n");
    assert_eq!(pos_empty, 6);
    assert!(val_eq(&empty, &RedisValue::String(Vec::new())));

    let (pos_null, null) = complete(b"$-1\r\n");
    assert_eq!(pos_null, 5);
    assert!(val_eq(&null, &RedisValue::NullBulkString));

    assert!(!val_eq(&empty, &null));
}

#[test]
fn decodes_null_array() {
    let (pos, v) = complete(b"*-1\r\n");
    assert_eq!(pos, 5);
    assert!(val_eq(&v, &RedisValue::NullArray));
}

#[test]
fn decodes_command_array() {
    let (pos, v) = complete(b"*2\r\n$4\r\nECHO\r\n$2\r\nhi\r\n");
    assert_eq!(pos, 22);
    assert!(val_eq(
        &v,
        &RedisValue::Array(vec![
            RedisValue::String(b"ECHO".to_vec()),
            RedisValue::String(b"hi".to_vec()),
        ])
    ));
}

#[test]
fn decodes_nested_array() {
    let (pos, v) = complete(b"*2\r\n*1\r\n+A\r\n:5\r\n");
    assert_eq!(pos, 16);
    assert!(val_eq(
        &v,
        &RedisValue::Array(vec![
            RedisValue::Array(vec![RedisValue::String(b"A".to_vec())]),
            RedisValue::Int(5),
        ])
    ));
}

#[test]
fn decodes_empty_array() {
    let (pos, v) = complete(b"*0\r\n");
    assert_eq!(pos, 4);
    assert!(val_eq(&v, &RedisValue::Array(Vec::new())));
}

#[test]
fn partial_input_returns_none() {
    for msg in [
        b"+PONG\r\n".to_vec(),
        b"$2\r\nhi\r\n".to_vec(),
        b":123\r\n".to_vec(),
        b"-oops\r\n".to_vec(),
        b"$-1\r\n".to_vec(),
        b"*-1\r\n".to_vec(),
        b"*0\r\n".to_vec(),
    ] {
        for n in 0..msg.len() {
            assert!(
                parse(&msg[..n], 0).unwrap().is_none(),
                "prefix of length {} of {:?}",
                n,
                msg
            );
        }
    }
}

#[test]
fn trailing_bytes_are_left_alone() {
    let (pos, v) = complete(b"+OK\r\nX");
    assert_eq!(pos, 5);
    assert!(val_eq(&v, &RedisValue::String(b"OK".to_vec())));

    let (pos, v) = complete(b"*1\r\n:7\r\n:8\r\n");
    assert_eq!(pos, 8);
    assert!(val_eq(&v, &RedisValue::Array(vec![RedisValue::Int(7)])));
}

#[test]
fn truncated_array_is_unexpected_end() {
    assert_eq!(parse(b"*1\r\n", 0).unwrap_err(), RESPError::UnexpectedEnd);
    assert_eq!(
        parse(b"*2\r\n$4\r\nECHO\r\n$2\r\nh", 0).unwrap_err(),
        RESPError::UnexpectedEnd
    );
}

#[test]
fn unknown_marker_byte_is_rejected() {
    assert_eq!(parse(b"^hello\r\n", 0).unwrap_err(), RESPError::UnknownStartingByte);
}

#[test]
fn bad_sizes_are_rejected() {
    assert_eq!(parse(b"$-2\r\n", 0).unwrap_err(), RESPError::BadBulkStringSize(-2));
    assert_eq!(parse(b"*-2\r\n", 0).unwrap_err(), RESPError::BadArraySize(-2));
}

#[test]
fn bad_length_text_is_a_parse_failure() {
    assert_eq!(parse(b"$x\r\n", 0).unwrap_err(), RESPError::IntParseFailure);
    assert_eq!(parse(b"*x\r\n", 0).unwrap_err(), RESPError::IntParseFailure);
}

#[test]
fn parse_at_end_of_buffer_is_none() {
    let buf = b"+OK\r\n";
    assert!(parse(buf, buf.len()).unwrap().is_none());
}

#[test]
fn parse_resumes_at_given_position() {
    let buf = b"+A\r\n+B\r\n";
    let (pos, v) = complete(buf);
    assert_eq!(pos, 4);
    assert!(val_eq(&v, &RedisValue::String(b"A".to_vec())));
    let (pos2, v2) = match parse(buf, pos) {
        Ok(Some(r)) => r,
        other => panic!("expected a complete value, got {:?}", other),
    };
    assert_eq!(pos2, 8);
    assert!(val_eq(&v2, &RedisValue::String(b"B".to_vec())));
}
