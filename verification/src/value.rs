use vstd::prelude::*;

verus! {

/// Carriage return, the first byte of the wire format's line terminator.
pub const CR: u8 = 13;

/// Line feed, the second byte of the wire format's line terminator.
pub const LF: u8 = 10;

/// Marker byte `*`: an array follows.
pub const MARK_ARRAY: u8 = 42;

/// Marker byte `$`: a bulk string follows.
pub const MARK_BULK: u8 = 36;

/// Marker byte `+`: a simple string follows.
pub const MARK_SIMPLE: u8 = 43;

/// Marker byte `-`: an error follows.
pub const MARK_ERROR: u8 = 45;

/// Marker byte `:`: an integer follows.
pub const MARK_INT: u8 = 58;

/// One decoded unit of the wire protocol: the tagged union a message is
/// made of. A top-level command is always the `Array` variant.
#[derive(Debug)]
pub enum RedisValue {
    /// A bulk or simple string payload, kept as raw bytes (bulk strings are
    /// binary-safe and need not be valid text).
    String(Vec<u8>),
    /// An error reply payload, distinct from `String` so a caller can tell
    /// success from failure without inspecting the content.
    Error(Vec<u8>),
    /// A decoded or constructed 64-bit signed integer.
    Int(i64),
    /// A nested, fully decoded sequence of values.
    Array(Vec<RedisValue>),
    /// The absent array, wire form `*-1\r\n`, distinct from an empty array.
    NullArray,
    /// The absent string, wire form `$-1\r\n`, distinct from an empty string.
    NullBulkString,
}

/// The mathematical shape of a [`RedisValue`]: the same tree over `Seq`
/// instead of `Vec`. All contracts of the decoder, the encoder and the
/// interpreter speak of this type.
#[verifier::ext_equal]
pub enum ValueModel {
    Str(Seq<u8>),
    Error(Seq<u8>),
    Int(i64),
    Arr(Seq<ValueModel>),
    NullArr,
    NullBulk,
}

/// The model of a value: each `Vec` replaced by the `Seq` it holds.
pub open spec fn value_model(v: RedisValue) -> ValueModel
    decreases v,
{
    match v {
        RedisValue::String(s) => ValueModel::Str(s@),
        RedisValue::Error(s) => ValueModel::Error(s@),
        RedisValue::Int(i) => ValueModel::Int(i),
        RedisValue::Array(vs) => ValueModel::Arr(value_models(vs@)),
        RedisValue::NullArray => ValueModel::NullArr,
        RedisValue::NullBulkString => ValueModel::NullBulk,
    }
}

/// The models of a sequence of values, element by element.
pub open spec fn value_models(s: Seq<RedisValue>) -> Seq<ValueModel>
    decreases s,
{
    if s.len() == 0 {
        Seq::empty()
    } else {
        value_models(s.drop_last()).push(value_model(s.last()))
    }
}

/// `value_models` maps the model over the sequence pointwise.
pub proof fn lemma_value_models(s: Seq<RedisValue>)
    ensures
        value_models(s).len() == s.len(),
        forall|i: int| 0 <= i < s.len() ==> value_models(s)[i] == value_model(s[i]),
    decreases s.len(),
{
    if s.len() > 0 {
        lemma_value_models(s.drop_last());
    }
}

impl View for RedisValue {
    type V = ValueModel;

    open spec fn view(&self) -> ValueModel {
        value_model(*self)
    }
}

/// Whether two byte slices hold the same bytes.
pub fn bytes_eq(a: &[u8], b: &[u8]) -> (r: bool)
    ensures
        r == (a@ == b@),
{
    let n = a.len();
    if n != b.len() {
        return false;
    }
    let mut i: usize = 0;
    while i < n
        invariant
            i <= n,
            n == a@.len(),
            n == b@.len(),
            forall|j: int| 0 <= j < i ==> a@[j] == b@[j],
        decreases n - i,
    {
        if a[i] != b[i] {
            return false;
        }
        i = i + 1;
    }
    proof {
        assert(a@ =~= b@);
    }
    true
}

/// Whether a value can be framed onto the wire and decoded back intact:
/// error payloads carry no carriage return (an error reply is a single
/// line, terminated by the first `\r\n`), integers and lengths fit the
/// signed 64-bit fields of the format.
pub open spec fn wf_value(v: ValueModel) -> bool
    decreases v,
{
    match v {
        ValueModel::Str(s) => s.len() <= i64::MAX,
        ValueModel::Error(s) => {
            &&& s.len() <= i64::MAX
            &&& forall|i: int| 0 <= i < s.len() ==> s[i] != CR
        },
        ValueModel::Int(_) => true,
        ValueModel::Arr(es) => {
            &&& es.len() <= i64::MAX
            &&& wf_values(es)
        },
        ValueModel::NullArr => true,
        ValueModel::NullBulk => true,
    }
}

/// Every value of the run is well-formed.
pub open spec fn wf_values(es: Seq<ValueModel>) -> bool
    decreases es,
{
    if es.len() == 0 {
        true
    } else {
        wf_value(es[0]) && wf_values(es.drop_first())
    }
}

/// `wf_values` holds exactly when each value of the run is well-formed.
pub proof fn lemma_wf_values(es: Seq<ValueModel>)
    ensures
        wf_values(es) <==> (forall|i: int| 0 <= i < es.len() ==> #[trigger] wf_value(es[i])),
    decreases es.len(),
{
    if es.len() > 0 {
        lemma_wf_values(es.drop_first());
        if wf_values(es) {
            assert forall|i: int| 0 <= i < es.len() implies #[trigger] wf_value(es[i]) by {
                if i > 0 {
                    assert(wf_value(es.drop_first()[i - 1]));
                }
            }
        }
        if forall|i: int| 0 <= i < es.len() ==> #[trigger] wf_value(es[i]) {
            assert(wf_value(es[0]));
            assert forall|i: int|
                0 <= i < es.drop_first().len() implies #[trigger] wf_value(
                es.drop_first()[i],
            ) by {
                assert(es.drop_first()[i] == es[i + 1]);
                assert(wf_value(es[i + 1]));
            }
            assert(wf_values(es.drop_first()));
        }
    }
}

} // verus!
