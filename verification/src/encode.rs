use vstd::prelude::*;
use crate::ints::{dec_digits, int_digits, push_dec_digits, push_int_digits};
use crate::value::{
    RedisValue,
    ValueModel,
    value_models,
    lemma_value_models,
    CR,
    LF,
    MARK_ARRAY,
    MARK_BULK,
    MARK_ERROR,
    MARK_INT,
};

verus! {

/// The two-byte line terminator of the wire format.
pub open spec fn crlf() -> Seq<u8> {
    seq![CR, LF]
}

/// The wire encoding of a value. A string is framed as a bulk string
/// (length-prefixed, binary-safe); the two null sentinels are framed as a
/// `-1` length. This is the inverse of [`dec`](crate::decode::dec) on
/// well-formed values.
pub open spec fn encode_model(v: ValueModel) -> Seq<u8>
    decreases v,
{
    match v {
        ValueModel::Str(s) => seq![MARK_BULK] + dec_digits(s.len()) + crlf() + s + crlf(),
        ValueModel::Error(s) => seq![MARK_ERROR] + s + crlf(),
        ValueModel::Int(i) => seq![MARK_INT] + int_digits(i as int) + crlf(),
        ValueModel::Arr(es) => seq![MARK_ARRAY] + dec_digits(es.len()) + crlf() + encode_list(es),
        ValueModel::NullArr => seq![MARK_ARRAY] + int_digits(-1) + crlf(),
        ValueModel::NullBulk => seq![MARK_BULK] + int_digits(-1) + crlf(),
    }
}

/// The concatenated encodings of a run of values, in order.
pub open spec fn encode_list(es: Seq<ValueModel>) -> Seq<u8>
    decreases es,
{
    if es.len() == 0 {
        Seq::empty()
    } else {
        encode_model(es[0]) + encode_list(es.drop_first())
    }
}

/// Appending one value to a run appends its encoding.
pub proof fn lemma_encode_list_push(es: Seq<ValueModel>, x: ValueModel)
    ensures
        encode_list(es.push(x)) == encode_list(es) + encode_model(x),
    decreases es.len(),
{
    if es.len() == 0 {
        assert(es.push(x)[0] == x);
        assert(es.push(x).drop_first() =~= es);
        assert(encode_list(es) =~= Seq::<u8>::empty());
        assert(encode_list(es.push(x)) =~= encode_list(es) + encode_model(x));
    } else {
        assert(es.push(x)[0] == es[0]);
        assert(es.push(x).drop_first() =~= es.drop_first().push(x));
        lemma_encode_list_push(es.drop_first(), x);
        assert(encode_list(es.push(x)) =~= encode_list(es) + encode_model(x));
    }
}

/// Appends every byte of `src` to `out`.
fn push_bytes(src: &[u8], out: &mut Vec<u8>)
    ensures
        final(out)@ == old(out)@ + src@,
{
    let ghost base = out@;
    let len = src.len();
    let mut idx: usize = 0;
    while idx < len
        invariant
            idx <= len,
            len == src@.len(),
            out@ == base + src@.subrange(0, idx as int),
        decreases len - idx,
    {
        out.push(src[idx]);
        proof {
            assert(base + src@.subrange(0, idx as int) + seq![src@[idx as int]] =~= base
                + src@.subrange(0, idx + 1));
        }
        idx = idx + 1;
    }
    proof {
        assert(base + src@.subrange(0, len as int) =~= base + src@);
    }
}

/// Appends the wire encoding of `v` to `out`.
#[verifier::loop_isolation(false)]
fn push_value(v: &RedisValue, out: &mut Vec<u8>)
    ensures
        final(out)@ == old(out)@ + encode_model(v@),
    decreases v,
{
    let ghost base = out@;
    match v {
        RedisValue::String(s) => {
            out.push(MARK_BULK);
            push_dec_digits(s.len() as u64, out);
            out.push(CR);
            out.push(LF);
            push_bytes(s.as_slice(), out);
            out.push(CR);
            out.push(LF);
            proof {
                assert(out@ =~= base + encode_model(v@));
            }
        },
        RedisValue::Error(s) => {
            out.push(MARK_ERROR);
            push_bytes(s.as_slice(), out);
            out.push(CR);
            out.push(LF);
            proof {
                assert(out@ =~= base + encode_model(v@));
            }
        },
        RedisValue::Int(i) => {
            out.push(MARK_INT);
            push_int_digits(*i, out);
            out.push(CR);
            out.push(LF);
            proof {
                assert(out@ =~= base + encode_model(v@));
            }
        },
        RedisValue::Array(vs) => {
            let ghost ms = value_models(vs@);
            proof {
                lemma_value_models(vs@);
            }
            out.push(MARK_ARRAY);
            push_dec_digits(vs.len() as u64, out);
            out.push(CR);
            out.push(LF);
            let ghost head = out@;
            let len = vs.len();
            let mut j: usize = 0;
            proof {
                assert(ms.subrange(0, 0) =~= Seq::<ValueModel>::empty());
            }
            while j < len
                invariant
                    j <= len,
                    out@ == head + encode_list(ms.subrange(0, j as int)),
                decreases len - j,
            {
                push_value(&vs[j], out);
                proof {
                    assert(ms.subrange(0, j + 1) =~= ms.subrange(0, j as int).push(ms[j as int]));
                    lemma_encode_list_push(ms.subrange(0, j as int), ms[j as int]);
                    assert(head + encode_list(ms.subrange(0, j as int)) + encode_model(ms[j as int])
                        =~= head + encode_list(ms.subrange(0, j + 1)));
                }
                j = j + 1;
            }
            proof {
                assert(ms.subrange(0, len as int) =~= ms);
                assert(head + encode_list(ms) =~= base + encode_model(v@));
            }
        },
        RedisValue::NullArray => {
            out.push(MARK_ARRAY);
            out.push(45);
            out.push(49);
            out.push(CR);
            out.push(LF);
            proof {
                assert(out@ =~= base + encode_model(v@));
            }
        },
        RedisValue::NullBulkString => {
            out.push(MARK_BULK);
            out.push(45);
            out.push(49);
            out.push(CR);
            out.push(LF);
            proof {
                assert(out@ =~= base + encode_model(v@));
            }
        },
    }
}

/// Frames `v` onto the wire, exactly as [`encode_model`] describes.
pub fn encode(v: &RedisValue) -> (r: Vec<u8>)
    ensures
        r@ == encode_model(v@),
{
    let mut out: Vec<u8> = Vec::new();
    push_value(v, &mut out);
    proof {
        assert(Seq::<u8>::empty() + encode_model(v@) =~= encode_model(v@));
    }
    out
}

} // verus!
