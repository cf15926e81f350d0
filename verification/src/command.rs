use vstd::prelude::*;
use vstd::slice::slice_to_vec;
use crate::errors::RESPError;
use crate::encode::{encode_model, encode, crlf};
use crate::ints::{parse_u64, parse_u64_model};
use crate::store::{KVStore, Expiry, live_at};
use crate::value::{RedisValue, ValueModel, value_models, lemma_value_models, CR, LF, MARK_SIMPLE};

verus! {

/// The supported command set.
#[derive(Debug, Clone, Copy, PartialEq, Eq, Structural)]
pub enum RedisCommand {
    PING,
    ECHO,
    GET,
    SET,
}

/// What the store looks like to a contract: a mapping from key to value
/// and optional expiry.
pub type StoreModel = Map<Seq<u8>, (Seq<u8>, Option<Expiry>)>;

/// ASCII lowercase of one byte.
pub open spec fn lower_byte(b: u8) -> u8 {
    if 65 <= b <= 90 {
        (b + 32) as u8
    } else {
        b
    }
}

/// ASCII lowercase of a byte run: how command and flag names are folded
/// before they are compared.
pub open spec fn lower(s: Seq<u8>) -> Seq<u8> {
    s.map_values(|b: u8| lower_byte(b))
}

/// The bytes of `ping`.
pub open spec fn name_ping() -> Seq<u8> {
    seq![112u8, 105u8, 110u8, 103u8]
}

/// The bytes of `echo`.
pub open spec fn name_echo() -> Seq<u8> {
    seq![101u8, 99u8, 104u8, 111u8]
}

/// The bytes of `get`.
pub open spec fn name_get() -> Seq<u8> {
    seq![103u8, 101u8, 116u8]
}

/// The bytes of `set`.
pub open spec fn name_set() -> Seq<u8> {
    seq![115u8, 101u8, 116u8]
}

/// The bytes of `px`, the expiry flag.
pub open spec fn name_px() -> Seq<u8> {
    seq![112u8, 120u8]
}

/// The fixed `+PONG\r\n` reply.
pub open spec fn pong_reply() -> Seq<u8> {
    seq![MARK_SIMPLE, 80u8, 79u8, 78u8, 71u8] + crlf()
}

/// The fixed `+OK\r\n` reply.
pub open spec fn ok_reply() -> Seq<u8> {
    seq![MARK_SIMPLE, 79u8, 75u8] + crlf()
}

/// Which command a decoded top-level array names: its first element must
/// be a string whose ASCII-lowercase form is a supported name. An empty
/// array, a non-string head, and an unknown name are all invalid.
pub open spec fn spec_command(msg: Seq<ValueModel>) -> Result<RedisCommand, RESPError> {
    if msg.len() == 0 {
        Err(RESPError::InvalidCommand)
    } else {
        match msg[0] {
            ValueModel::Str(name) => {
                let l = lower(name);
                if l == name_ping() {
                    Ok(RedisCommand::PING)
                } else if l == name_echo() {
                    Ok(RedisCommand::ECHO)
                } else if l == name_get() {
                    Ok(RedisCommand::GET)
                } else if l == name_set() {
                    Ok(RedisCommand::SET)
                } else {
                    Err(RESPError::InvalidCommand)
                }
            },
            _ => Err(RESPError::InvalidCommand),
        }
    }
}

/// The semantics of `SET`: two string arguments bind key to value with no
/// expiry; an optional trailing `PX <milliseconds>` pair (flag folded
/// case-insensitively, the count an unsigned decimal) binds them with an
/// expiry starting now. Anything else is an arity or argument error.
pub open spec fn spec_set(msg: Seq<ValueModel>, store: StoreModel, now_ms: u64) -> (Result<
    Seq<u8>,
    RESPError,
>, StoreModel) {
    if msg.len() == 3 {
        match (msg[1], msg[2]) {
            (ValueModel::Str(k), ValueModel::Str(v)) => (
                Ok(ok_reply()),
                store.insert(k, (v, None)),
            ),
            _ => (Err(RESPError::InvalidArguments), store),
        }
    } else if msg.len() == 5 {
        match (msg[1], msg[2], msg[3], msg[4]) {
            (
                ValueModel::Str(k),
                ValueModel::Str(v),
                ValueModel::Str(flag),
                ValueModel::Str(ms),
            ) => {
                if lower(flag) == name_px() {
                    match parse_u64_model(ms) {
                        Some(m) => (
                            Ok(ok_reply()),
                            store.insert(
                                k,
                                (v, Some(Expiry { start_ms: now_ms, window_ms: m })),
                            ),
                        ),
                        None => (Err(RESPError::IntParseFailure), store),
                    }
                } else {
                    (Err(RESPError::InvalidArguments), store)
                }
            },
            _ => (Err(RESPError::InvalidArguments), store),
        }
    } else {
        (Err(RESPError::InvalidArguments), store)
    }
}

/// The complete semantics of executing one decoded message against a
/// store at time `now_ms`: the reply bytes (or the error) and the store
/// afterwards. Only `SET` changes the store.
pub open spec fn spec_execute(v: ValueModel, store: StoreModel, now_ms: u64) -> (Result<
    Seq<u8>,
    RESPError,
>, StoreModel) {
    match v {
        ValueModel::Arr(msg) => match spec_command(msg) {
            Err(e) => (Err(e), store),
            Ok(RedisCommand::PING) => if msg.len() == 1 {
                (Ok(pong_reply()), store)
            } else {
                (Err(RESPError::InvalidArguments), store)
            },
            Ok(RedisCommand::ECHO) => if msg.len() == 2 {
                match msg[1] {
                    ValueModel::Str(s) => (Ok(encode_model(ValueModel::Str(s))), store),
                    _ => (Err(RESPError::InvalidArguments), store),
                }
            } else {
                (Err(RESPError::InvalidArguments), store)
            },
            Ok(RedisCommand::GET) => if msg.len() == 2 {
                match msg[1] {
                    ValueModel::Str(k) => if store.contains_key(k) && live_at(
                        store[k].1,
                        now_ms,
                    ) {
                        (Ok(encode_model(ValueModel::Str(store[k].0))), store)
                    } else {
                        (Ok(encode_model(ValueModel::NullBulk)), store)
                    },
                    _ => (Err(RESPError::InvalidArguments), store),
                }
            } else {
                (Err(RESPError::InvalidArguments), store)
            },
            Ok(RedisCommand::SET) => spec_set(msg, store, now_ms),
        },
        _ => (Err(RESPError::InvalidCommand), store),
    }
}

/// ASCII-lowercases a byte run.
fn to_lower_vec(s: &[u8]) -> (r: Vec<u8>)
    ensures
        r@ == lower(s@),
{
    let n = s.len();
    let mut out: Vec<u8> = Vec::new();
    let mut i: usize = 0;
    while i < n
        invariant
            i <= n,
            n == s@.len(),
            out@.len() == i,
            forall|j: int| 0 <= j < i ==> out@[j] == lower_byte(s@[j]),
        decreases n - i,
    {
        let b = s[i];
        if 65 <= b && b <= 90 {
            out.push(b + 32);
        } else {
            out.push(b);
        }
        i = i + 1;
    }
    proof {
        assert(out@ =~= lower(s@));
    }
    out
}

/// Compares a byte run to a two-byte word.
fn eq2(s: &[u8], b0: u8, b1: u8) -> (r: bool)
    ensures
        r == (s@ == seq![b0, b1]),
{
    let r = s.len() == 2 && s[0] == b0 && s[1] == b1;
    proof {
        if r {
            assert(s@ =~= seq![b0, b1]);
        }
    }
    r
}

/// Compares a byte run to a three-byte word.
fn eq3(s: &[u8], b0: u8, b1: u8, b2: u8) -> (r: bool)
    ensures
        r == (s@ == seq![b0, b1, b2]),
{
    let r = s.len() == 3 && s[0] == b0 && s[1] == b1 && s[2] == b2;
    proof {
        if r {
            assert(s@ =~= seq![b0, b1, b2]);
        }
    }
    r
}

/// Compares a byte run to a four-byte word.
fn eq4(s: &[u8], b0: u8, b1: u8, b2: u8, b3: u8) -> (r: bool)
    ensures
        r == (s@ == seq![b0, b1, b2, b3]),
{
    let r = s.len() == 4 && s[0] == b0 && s[1] == b1 && s[2] == b2 && s[3] == b3;
    proof {
        if r {
            assert(s@ =~= seq![b0, b1, b2, b3]);
        }
    }
    r
}

/// Maps a decoded top-level array to the command it names, exactly as
/// [`spec_command`] describes.
pub fn command(arr: &[RedisValue]) -> (r: Result<RedisCommand, RESPError>)
    ensures
        r == spec_command(value_models(arr@)),
{
    proof {
        lemma_value_models(arr@);
    }
    if arr.len() == 0 {
        return Err(RESPError::InvalidCommand);
    }
    match &arr[0] {
        RedisValue::String(name) => {
            let l = to_lower_vec(name.as_slice());
            if eq4(l.as_slice(), 112, 105, 110, 103) {
                Ok(RedisCommand::PING)
            } else if eq4(l.as_slice(), 101, 99, 104, 111) {
                Ok(RedisCommand::ECHO)
            } else if eq3(l.as_slice(), 103, 101, 116) {
                Ok(RedisCommand::GET)
            } else if eq3(l.as_slice(), 115, 101, 116) {
                Ok(RedisCommand::SET)
            } else {
                Err(RESPError::InvalidCommand)
            }
        },
        _ => Err(RESPError::InvalidCommand),
    }
}

/// Builds the fixed `+PONG\r\n` reply.
fn pong_vec() -> (r: Vec<u8>)
    ensures
        r@ == pong_reply(),
{
    let mut out: Vec<u8> = Vec::new();
    out.push(MARK_SIMPLE);
    out.push(80);
    out.push(79);
    out.push(78);
    out.push(71);
    out.push(CR);
    out.push(LF);
    proof {
        assert(out@ =~= pong_reply());
    }
    out
}

/// Builds the fixed `+OK\r\n` reply.
fn ok_vec() -> (r: Vec<u8>)
    ensures
        r@ == ok_reply(),
{
    let mut out: Vec<u8> = Vec::new();
    out.push(MARK_SIMPLE);
    out.push(79);
    out.push(75);
    out.push(CR);
    out.push(LF);
    proof {
        assert(out@ =~= ok_reply());
    }
    out
}

/// Builds the fixed `$-1\r\n` null-bulk reply.
fn null_bulk_vec() -> (r: Vec<u8>)
    ensures
        r@ == encode_model(ValueModel::NullBulk),
{
    let mut out: Vec<u8> = Vec::new();
    out.push(crate::value::MARK_BULK);
    out.push(45);
    out.push(49);
    out.push(CR);
    out.push(LF);
    proof {
        assert(crate::ints::dec_digits(1) == seq![49u8]);
        assert(out@ =~= encode_model(ValueModel::NullBulk));
    }
    out
}

/// Interprets one decoded message against the store at time `now_ms` and
/// returns the encoded reply, exactly as [`spec_execute`] describes: the
/// message must be an array naming a supported command with the right
/// arguments; only `SET` changes the store; an error leaves it untouched
/// and sends nothing.
pub fn execute(msg: &RedisValue, store: &mut KVStore, now_ms: u64) -> (r: Result<
    Vec<u8>,
    RESPError,
>)
    requires
        old(store).wf(),
    ensures
        final(store).wf(),
        ({
            let (rep, m2) = spec_execute(msg@, old(store)@, now_ms);
            &&& final(store)@ == m2
            &&& match rep {
                Ok(bytes) => r matches Ok(v) && v@ == bytes,
                Err(e) => r == Err::<Vec<u8>, RESPError>(e),
            }
        }),
{
    let items: &Vec<RedisValue> = match msg {
        RedisValue::Array(items) => items,
        _ => {
            return Err(RESPError::InvalidCommand);
        },
    };
    proof {
        lemma_value_models(items@);
    }
    let cmd = match command(items.as_slice()) {
        Ok(c) => c,
        Err(e) => {
            return Err(e);
        },
    };
    match cmd {
        RedisCommand::PING => {
            if items.len() == 1 {
                Ok(pong_vec())
            } else {
                Err(RESPError::InvalidArguments)
            }
        },
        RedisCommand::ECHO => {
            if items.len() == 2 {
                match &items[1] {
                    RedisValue::String(_) => Ok(encode(&items[1])),
                    _ => Err(RESPError::InvalidArguments),
                }
            } else {
                Err(RESPError::InvalidArguments)
            }
        },
        RedisCommand::GET => {
            if items.len() == 2 {
                match &items[1] {
                    RedisValue::String(k) => {
                        match store.get(k.as_slice(), now_ms) {
                            Some(v) => {
                                let reply = encode(&RedisValue::String(v));
                                Ok(reply)
                            },
                            None => Ok(null_bulk_vec()),
                        }
                    },
                    _ => Err(RESPError::InvalidArguments),
                }
            } else {
                Err(RESPError::InvalidArguments)
            }
        },
        RedisCommand::SET => {
            if items.len() == 3 {
                match (&items[1], &items[2]) {
                    (RedisValue::String(k), RedisValue::String(v)) => {
                        let key = slice_to_vec(k.as_slice());
                        let value = slice_to_vec(v.as_slice());
                        store.set(key, value, None);
                        Ok(ok_vec())
                    },
                    _ => Err(RESPError::InvalidArguments),
                }
            } else if items.len() == 5 {
                match (&items[1], &items[2], &items[3], &items[4]) {
                    (
                        RedisValue::String(k),
                        RedisValue::String(v),
                        RedisValue::String(flag),
                        RedisValue::String(px_ms),
                    ) => {
                        let lflag = to_lower_vec(flag.as_slice());
                        if eq2(lflag.as_slice(), 112, 120) {
                            match parse_u64(px_ms.as_slice()) {
                                Some(m) => {
                                    let key = slice_to_vec(k.as_slice());
                                    let value = slice_to_vec(v.as_slice());
                                    store.set(
                                        key,
                                        value,
                                        Some(Expiry { start_ms: now_ms, window_ms: m }),
                                    );
                                    Ok(ok_vec())
                                },
                                None => Err(RESPError::IntParseFailure),
                            }
                        } else {
                            Err(RESPError::InvalidArguments)
                        }
                    },
                    _ => Err(RESPError::InvalidArguments),
                }
            } else {
                Err(RESPError::InvalidArguments)
            }
        },
    }
}

/// The supported names and the expiry flag are already lowercase, so
/// folding leaves them unchanged.
proof fn lemma_names_fold()
    ensures
        lower(name_ping()) == name_ping(),
        lower(name_echo()) == name_echo(),
        lower(name_get()) == name_get(),
        lower(name_set()) == name_set(),
        lower(name_px()) == name_px(),
{
    assert(lower(name_ping()) =~= name_ping());
    assert(lower(name_echo()) =~= name_echo());
    assert(lower(name_get()) =~= name_get());
    assert(lower(name_set()) =~= name_set());
    assert(lower(name_px()) =~= name_px());
}

/// Case-insensitive dispatch: two messages of the same length whose
/// command names fold to the same word, and whose remaining elements are
/// equal, execute identically — same reply or error, same store after.
pub proof fn lemma_case_insensitive(
    m1: Seq<ValueModel>,
    m2: Seq<ValueModel>,
    store: StoreModel,
    now_ms: u64,
)
    requires
        m1.len() == m2.len(),
        m1.len() >= 1,
        m1[0] matches ValueModel::Str(n1) && m2[0] matches ValueModel::Str(n2) && lower(n1)
            == lower(n2),
        forall|i: int| 1 <= i < m1.len() ==> m1[i] == m2[i],
    ensures
        spec_execute(ValueModel::Arr(m1), store, now_ms) == spec_execute(
            ValueModel::Arr(m2),
            store,
            now_ms,
        ),
{
    assert(spec_command(m1) == spec_command(m2));
    if m1.len() >= 2 {
        assert(m1[1] == m2[1]);
    }
    if m1.len() >= 3 {
        assert(m1[2] == m2[2]);
    }
    if m1.len() >= 5 {
        assert(m1[3] == m2[3]);
        assert(m1[4] == m2[4]);
    }
}

/// Expiry semantics: after `SET k v PX ms` at time `t0`, a `GET k` at
/// time `t1` returns `v` exactly while `t1 < t0 + ms`, and the null bulk
/// from that moment on.
pub proof fn lemma_expiry(
    k: Seq<u8>,
    v: Seq<u8>,
    ms: Seq<u8>,
    m: u64,
    store: StoreModel,
    t0: u64,
    t1: u64,
)
    requires
        parse_u64_model(ms) == Some(m),
    ensures
        ({
            let set_msg = ValueModel::Arr(
                seq![
                    ValueModel::Str(name_set()),
                    ValueModel::Str(k),
                    ValueModel::Str(v),
                    ValueModel::Str(name_px()),
                    ValueModel::Str(ms),
                ],
            );
            let get_msg = ValueModel::Arr(seq![ValueModel::Str(name_get()), ValueModel::Str(k)]);
            let s1 = spec_execute(set_msg, store, t0).1;
            spec_execute(get_msg, s1, t1).0 == (if (t1 as int) < t0 + m {
                Ok::<Seq<u8>, RESPError>(encode_model(ValueModel::Str(v)))
            } else {
                Ok::<Seq<u8>, RESPError>(encode_model(ValueModel::NullBulk))
            })
        }),
{
    lemma_names_fold();
    assert(name_set()[0] == 115);
    assert(name_get()[0] == 103);
}

/// Overwrite semantics: `SET k v1 PX ms` followed by a plain `SET k v2`
/// leaves `k` bound to `v2` with no expiry, so a `GET k` at any later —
/// or any — time returns `v2`.
pub proof fn lemma_overwrite(
    k: Seq<u8>,
    v1: Seq<u8>,
    v2: Seq<u8>,
    ms: Seq<u8>,
    m: u64,
    store: StoreModel,
    t0: u64,
    t1: u64,
)
    requires
        parse_u64_model(ms) == Some(m),
    ensures
        ({
            let set1 = ValueModel::Arr(
                seq![
                    ValueModel::Str(name_set()),
                    ValueModel::Str(k),
                    ValueModel::Str(v1),
                    ValueModel::Str(name_px()),
                    ValueModel::Str(ms),
                ],
            );
            let set2 = ValueModel::Arr(
                seq![ValueModel::Str(name_set()), ValueModel::Str(k), ValueModel::Str(v2)],
            );
            let get_msg = ValueModel::Arr(seq![ValueModel::Str(name_get()), ValueModel::Str(k)]);
            let s1 = spec_execute(set1, store, t0).1;
            let s2 = spec_execute(set2, s1, t1).1;
            forall|t: u64|
                #[trigger] spec_execute(get_msg, s2, t).0 == Ok::<Seq<u8>, RESPError>(
                    encode_model(ValueModel::Str(v2)),
                ) && spec_execute(get_msg, s2, t).1 == s2
        }),
{
    lemma_names_fold();
    assert(name_set()[0] == 115);
    assert(name_get()[0] == 103);
}

} // verus!
