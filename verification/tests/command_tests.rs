use resp_kv::{execute, parse, Expiry, KVStore, RESPError, RedisValue};

fn s(bytes: &[u8]) -> RedisValue {
    RedisValue::String(bytes.to_vec())
}

fn cmd(parts: Vec<RedisValue>) -> RedisValue {
    RedisValue::Array(parts)
}

fn run(store: &mut KVStore, parts: Vec<RedisValue>, now_ms: u64) -> Result<Vec<u8>, RESPError> {
    execute(&cmd(parts), store, now_ms)
}

#[test]
fn ping_answers_pong() {
    let mut store = KVStore::new();
    assert_eq!(run(&mut store, vec![s(b"PING")], 0).unwrap(), b"+PONG\r\n");
}

#[test]
fn ping_is_case_insensitive() {
    let mut store = KVStore::new();
    for name in [&b"ping"[..], &b"PING"[..], &b"PiNg"[..]] {
        assert_eq!(run(&mut store, vec![s(name)], 0).unwrap(), b"+PONG\r\n");
    }
}

#[test]
fn ping_with_arguments_is_rejected() {
    let mut store = KVStore::new();
    assert_eq!(
        run(&mut store, vec![s(b"PING"), s(b"x")], 0).unwrap_err(),
        RESPError::InvalidArguments
    );
}

#[test]
fn echo_returns_argument_verbatim() {
    let mut store = KVStore::new();
    assert_eq!(
        run(&mut store, vec![s(b"ECHO"), s(b"hi")], 0).unwrap(),
        b"$2\r\nhi\r\n"
    );
}

#[test]
fn echo_arity_is_enforced() {
    let mut store = KVStore::new();
    assert_eq!(
        run(&mut store, vec![s(b"ECHO")], 0).unwrap_err(),
        RESPError::InvalidArguments
    );
    assert_eq!(
        run(&mut store, vec![s(b"ECHO"), s(b"a"), s(b"b")], 0).unwrap_err(),
        RESPError::InvalidArguments
    );
}

#[test]
fn echo_requires_a_string_argument() {
    let mut store = KVStore::new();
    assert_eq!(
        run(&mut store, vec![s(b"ECHO"), RedisValue::Int(3)], 0).unwrap_err(),
        RESPError::InvalidArguments
    );
}

#[test]
fn get_without_key_is_invalid_arguments() {
    let mut store = KVStore::new();
    assert_eq!(
        run(&mut store, vec![s(b"GET")], 0).unwrap_err(),
        RESPError::InvalidArguments
    );
}

#[test]
fn get_missing_key_is_null_bulk() {
    let mut store = KVStore::new();
    assert_eq!(run(&mut store, vec![s(b"GET"), s(b"nope")], 0).unwrap(), b"$-1\r\n");
}

#[test]
fn set_then_get_returns_value() {
    let mut store = KVStore::new();
    assert_eq!(
        run(&mut store, vec![s(b"SET"), s(b"k"), s(b"v")], 0).unwrap(),
        b"+OK\r\n"
    );
    assert_eq!(run(&mut store, vec![s(b"GET"), s(b"k")], 0).unwrap(), b"$1\r\nv\r\n");
}

#[test]
fn set_with_px_expires_lazily() {
    let mut store = KVStore::new();
    assert_eq!(
        run(
            &mut store,
            vec![s(b"SET"), s(b"k"), s(b"v"), s(b"PX"), s(b"50")],
            1000
        )
        .unwrap(),
        b"+OK\r\n"
    );
    // immediately and just before the window closes the value is there
    assert_eq!(run(&mut store, vec![s(b"GET"), s(b"k")], 1000).unwrap(), b"$1\r\nv\r\n");
    assert_eq!(run(&mut store, vec![s(b"GET"), s(b"k")], 1049).unwrap(), b"$1\r\nv\r\n");
    // from start + window on, the entry is logically absent
    assert_eq!(run(&mut store, vec![s(b"GET"), s(b"k")], 1050).unwrap(), b"$-1\r\n");
    assert_eq!(run(&mut store, vec![s(b"GET"), s(b"k")], 1060).unwrap(), b"$-1\r\n");
}

#[test]
fn overwrite_clears_expiry() {
    let mut store = KVStore::new();
    run(
        &mut store,
        vec![s(b"SET"), s(b"k"), s(b"v1"), s(b"PX"), s(b"50")],
        0,
    )
    .unwrap();
    run(&mut store, vec![s(b"SET"), s(b"k"), s(b"v2")], 10).unwrap();
    // far past the first expiry, the overwritten value is still there
    assert_eq!(
        run(&mut store, vec![s(b"GET"), s(b"k")], 1_000_000).unwrap(),
        b"$2\r\nv2\r\n"
    );
}

#[test]
fn overwrite_replaces_value() {
    let mut store = KVStore::new();
    run(&mut store, vec![s(b"SET"), s(b"k"), s(b"v1")], 0).unwrap();
    run(&mut store, vec![s(b"SET"), s(b"k"), s(b"v2")], 0).unwrap();
    assert_eq!(run(&mut store, vec![s(b"GET"), s(b"k")], 0).unwrap(), b"$2\r\nv2\r\n");
}

#[test]
fn px_flag_is_case_insensitive() {
    let mut store = KVStore::new();
    run(
        &mut store,
        vec![s(b"set"), s(b"k"), s(b"v"), s(b"Px"), s(b"100")],
        0,
    )
    .unwrap();
    assert_eq!(run(&mut store, vec![s(b"GET"), s(b"k")], 99).unwrap(), b"$1\r\nv\r\n");
    assert_eq!(run(&mut store, vec![s(b"GET"), s(b"k")], 100).unwrap(), b"$-1\r\n");
}

#[test]
fn set_arity_is_enforced() {
    let mut store = KVStore::new();
    for parts in [
        vec![s(b"SET")],
        vec![s(b"SET"), s(b"k")],
        vec![s(b"SET"), s(b"k"), s(b"v"), s(b"PX")],
        vec![s(b"SET"), s(b"k"), s(b"v"), s(b"PX"), s(b"10"), s(b"x")],
    ] {
        assert_eq!(
            run(&mut store, parts, 0).unwrap_err(),
            RESPError::InvalidArguments
        );
    }
}

#[test]
fn set_unknown_flag_is_rejected() {
    let mut store = KVStore::new();
    assert_eq!(
        run(
            &mut store,
            vec![s(b"SET"), s(b"k"), s(b"v"), s(b"EX"), s(b"10")],
            0
        )
        .unwrap_err(),
        RESPError::InvalidArguments
    );
}

#[test]
fn set_malformed_expiry_is_a_parse_failure() {
    let mut store = KVStore::new();
    for bad in [&b"10x"[..], &b"-5"[..], &b""[..], &b"18446744073709551616"[..]] {
        assert_eq!(
            run(
                &mut store,
                vec![s(b"SET"), s(b"k"), s(b"v"), s(b"PX"), s(bad)],
                0
            )
            .unwrap_err(),
            RESPError::IntParseFailure
        );
    }
}

#[test]
fn set_requires_string_key_and_value() {
    let mut store = KVStore::new();
    assert_eq!(
        run(&mut store, vec![s(b"SET"), RedisValue::Int(1), s(b"v")], 0).unwrap_err(),
        RESPError::InvalidArguments
    );
    assert_eq!(
        run(&mut store, vec![s(b"SET"), s(b"k"), RedisValue::NullBulkString], 0).unwrap_err(),
        RESPError::InvalidArguments
    );
}

#[test]
fn unknown_command_is_invalid() {
    let mut store = KVStore::new();
    assert_eq!(
        run(&mut store, vec![s(b"NOPE")], 0).unwrap_err(),
        RESPError::InvalidCommand
    );
}

#[test]
fn unknown_command_leaves_store_untouched() {
    let mut store = KVStore::new();
    run(&mut store, vec![s(b"SET"), s(b"k"), s(b"v")], 0).unwrap();
    assert_eq!(
        run(&mut store, vec![s(b"NOPE"), s(b"k"), s(b"x")], 0).unwrap_err(),
        RESPError::InvalidCommand
    );
    assert_eq!(run(&mut store, vec![s(b"GET"), s(b"k")], 0).unwrap(), b"$1\r\nv\r\n");
}

#[test]
fn empty_array_is_invalid_command() {
    let mut store = KVStore::new();
    assert_eq!(run(&mut store, vec![], 0).unwrap_err(), RESPError::InvalidCommand);
}

#[test]
fn non_array_top_level_is_invalid_command() {
    let mut store = KVStore::new();
    assert_eq!(
        execute(&RedisValue::Int(5), &mut store, 0).unwrap_err(),
        RESPError::InvalidCommand
    );
    assert_eq!(
        execute(&s(b"PING"), &mut store, 0).unwrap_err(),
        RESPError::InvalidCommand
    );
}

#[test]
fn non_string_command_head_is_invalid() {
    let mut store = KVStore::new();
    assert_eq!(
        run(&mut store, vec![RedisValue::Int(1), s(b"k")], 0).unwrap_err(),
        RESPError::InvalidCommand
    );
}

#[test]
fn keys_are_case_sensitive_even_though_commands_are_not() {
    let mut store = KVStore::new();
    run(&mut store, vec![s(b"SET"), s(b"Key"), s(b"v")], 0).unwrap();
    assert_eq!(run(&mut store, vec![s(b"GET"), s(b"key")], 0).unwrap(), b"$-1\r\n");
    assert_eq!(run(&mut store, vec![s(b"GET"), s(b"Key")], 0).unwrap(), b"$1\r\nv\r\n");
}

#[test]
fn full_wire_round_trip_of_a_session() {
    let mut store = KVStore::new();
    let wire = b"*3\r\n$3\r\nSET\r\n$3\r\nfoo\r\n$3\r\nbar\r\n*2\r\n$3\r\nGET\r\n$3\r\nfoo\r\n";
    let (pos, set_msg) = parse(wire, 0).unwrap().unwrap();
    let reply = execute(&set_msg, &mut store, 7).unwrap();
    assert_eq!(reply, b"+OK\r\n");
    let (pos2, get_msg) = parse(wire, pos).unwrap().unwrap();
    assert_eq!(pos2, wire.len());
    let reply2 = execute(&get_msg, &mut store, 8).unwrap();
    assert_eq!(reply2, b"$3\r\nbar\r\n");
}

#[test]
fn store_get_and_set_directly() {
    let mut store = KVStore::new();
    assert_eq!(store.get(b"k", 0), None);
    store.set(b"k".to_vec(), b"v".to_vec(), None);
    assert_eq!(store.get(b"k", 0), Some(b"v".to_vec()));
    store.set(
        b"k".to_vec(),
        b"w".to_vec(),
        Some(Expiry { start_ms: 100, window_ms: 20 }),
    );
    assert_eq!(store.get(b"k", 100), Some(b"w".to_vec()));
    assert_eq!(store.get(b"k", 119), Some(b"w".to_vec()));
    assert_eq!(store.get(b"k", 120), None);
    // the clock standing before the entry's creation still finds it live
    assert_eq!(store.get(b"k", 50), Some(b"w".to_vec()));
}
