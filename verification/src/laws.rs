use vstd::prelude::*;
use crate::errors::RESPError;
use crate::decode::{
    dec,
    dec_elems,
    spec_word,
    cr_pos,
    Decoded,
    DecodedElems,
    lemma_cr_pos_found,
    lemma_cr_pos_none,
    lemma_dec_consumed,
};
use crate::encode::{encode_model, encode_list, crlf};
use crate::ints::{dec_digits, int_digits, is_digit, lemma_dec_digits, lemma_int_digits_roundtrip};
use crate::value::{ValueModel, wf_value, CR, MARK_ARRAY, MARK_BULK};

verus! {

/// A carriage return found in `s` is found at the same place in `s + t`.
proof fn lemma_cr_pos_extend(s: Seq<u8>, t: Seq<u8>, i: int)
    requires
        cr_pos(s, i) is Some,
    ensures
        cr_pos(s + t, i) == cr_pos(s, i),
    decreases s.len() - i,
{
    if 0 <= i < s.len() && s[i] != CR {
        lemma_cr_pos_extend(s, t, i + 1);
    }
}

/// A line fully present in `s` reads the same from `s + t`.
proof fn lemma_spec_word_extend(s: Seq<u8>, t: Seq<u8>)
    requires
        spec_word(s) is Some,
    ensures
        spec_word(s + t) == spec_word(s),
{
    lemma_cr_pos_extend(s, t, 0);
    match cr_pos(s, 0) {
        Some(e) => {
            assert((s + t).subrange(0, e) =~= s.subrange(0, e));
        },
        None => {},
    }
}

/// Trailing bytes change nothing about a complete decode: the same value
/// comes back, and the cursor does not touch them.
pub proof fn lemma_dec_extend(s: Seq<u8>, t: Seq<u8>)
    requires
        dec(s) is Complete,
    ensures
        dec(s + t) == dec(s),
    decreases s.len(), 0nat,
{
    let u = s + t;
    assert(u.drop_first() =~= s.drop_first() + t);
    if s[0] == MARK_ARRAY {
        match spec_word(s.drop_first()) {
            Some((c, w)) => {
                lemma_spec_word_extend(s.drop_first(), t);
                match crate::ints::parse_i64_model(w) {
                    Some(k) => {
                        if k >= 0 {
                            assert(u.skip(1 + c) =~= s.skip(1 + c) + t);
                            lemma_dec_elems_extend(s.skip(1 + c), t, k as nat);
                        }
                    },
                    None => {},
                }
            },
            None => {},
        }
    } else if s[0] == MARK_BULK {
        match spec_word(s.drop_first()) {
            Some((c, w)) => {
                lemma_spec_word_extend(s.drop_first(), t);
                match crate::ints::parse_i64_model(w) {
                    Some(k) => {
                        if k >= 0 && s.len() >= 1 + c + k + 2 {
                            assert(u.subrange(1 + c, 1 + c + k) =~= s.subrange(1 + c, 1 + c + k));
                        }
                    },
                    None => {},
                }
            },
            None => {},
        }
    } else {
        match spec_word(s.drop_first()) {
            Some(_) => {
                lemma_spec_word_extend(s.drop_first(), t);
            },
            None => {},
        }
    }
}

/// Trailing bytes change nothing about a complete run of decodes.
proof fn lemma_dec_elems_extend(s: Seq<u8>, t: Seq<u8>, n: nat)
    requires
        dec_elems(s, n) is Complete,
    ensures
        dec_elems(s + t, n) == dec_elems(s, n),
    decreases s.len(), n,
{
    if n > 0 {
        match dec(s) {
            Decoded::Complete(c, v) => {
                lemma_dec_extend(s, t);
                if 1 <= c <= s.len() {
                    assert((s + t).skip(c) =~= s.skip(c) + t);
                    lemma_dec_elems_extend(s.skip(c), t, (n - 1) as nat);
                }
            },
            _ => {},
        }
    }
}

/// A line without a carriage return, terminated and followed by anything,
/// reads back as exactly that line.
proof fn lemma_word_of_line(w: Seq<u8>, rest: Seq<u8>)
    requires
        forall|j: int| 0 <= j < w.len() ==> w[j] != CR,
    ensures
        spec_word(w + crlf() + rest) == Some(((w.len() + 2) as int, w)),
{
    let s = w + crlf() + rest;
    assert(s[w.len() as int] == CR);
    assert(forall|j: int| 0 <= j < w.len() ==> s[j] == w[j]);
    lemma_cr_pos_found(s, 0, w.len() as int);
    assert(s[w.len() as int + 1] == crlf()[1]);
    assert(s.subrange(0, w.len() as int) =~= w);
}

/// The digits of a numeral contain no carriage return.
proof fn lemma_digits_no_cr(n: nat)
    ensures
        forall|j: int| 0 <= j < dec_digits(n).len() ==> dec_digits(n)[j] != CR,
{
    lemma_dec_digits(n);
    assert forall|j: int| 0 <= j < dec_digits(n).len() implies dec_digits(n)[j] != CR by {
        assert(is_digit(dec_digits(n)[j]));
    }
}

/// Round-trip: a well-formed value, framed onto the wire, decodes back to
/// exactly itself, consuming exactly its frame.
pub proof fn lemma_round_trip(v: ValueModel)
    requires
        wf_value(v),
    ensures
        dec(encode_model(v)) == Decoded::Complete(encode_model(v).len() as int, v),
    decreases v,
{
    let s = encode_model(v);
    match v {
        ValueModel::Str(p) => {
            let d = dec_digits(p.len());
            lemma_dec_digits(p.len());
            lemma_digits_no_cr(p.len());
            lemma_int_digits_roundtrip(p.len() as int);
            assert(s.drop_first() =~= d + crlf() + (p + crlf()));
            lemma_word_of_line(d, p + crlf());
            let c = (d.len() + 2) as int;
            assert(s.len() == 1 + c + p.len() + 2);
            assert(s.subrange(1 + c, 1 + c + p.len() as int) =~= p);
        },
        ValueModel::Error(p) => {
            assert(s.drop_first() =~= p + crlf() + Seq::<u8>::empty());
            lemma_word_of_line(p, Seq::empty());
            assert(s.len() == 1 + (p.len() + 2));
        },
        ValueModel::Int(i) => {
            let d = int_digits(i as int);
            lemma_int_digits_roundtrip(i as int);
            assert(s.drop_first() =~= d + crlf() + Seq::<u8>::empty());
            lemma_word_of_line(d, Seq::empty());
            assert(s.len() == 1 + (d.len() + 2));
        },
        ValueModel::Arr(es) => {
            let d = dec_digits(es.len());
            lemma_dec_digits(es.len());
            lemma_digits_no_cr(es.len());
            lemma_int_digits_roundtrip(es.len() as int);
            assert(s.drop_first() =~= d + crlf() + encode_list(es));
            lemma_word_of_line(d, encode_list(es));
            let c = (d.len() + 2) as int;
            assert(s.skip(1 + c) =~= encode_list(es));
            lemma_round_trip_list(es);
            assert(s.len() == 1 + c + encode_list(es).len());
        },
        ValueModel::NullArr => {
            let d = int_digits(-1);
            lemma_int_digits_roundtrip(-1);
            assert(s.drop_first() =~= d + crlf() + Seq::<u8>::empty());
            lemma_word_of_line(d, Seq::empty());
            assert(s.len() == 1 + (d.len() + 2));
        },
        ValueModel::NullBulk => {
            let d = int_digits(-1);
            lemma_int_digits_roundtrip(-1);
            assert(s.drop_first() =~= d + crlf() + Seq::<u8>::empty());
            lemma_word_of_line(d, Seq::empty());
            assert(s.len() == 1 + (d.len() + 2));
        },
    }
}

/// Round-trip for a run of values: the concatenated frames decode back to
/// exactly the run.
proof fn lemma_round_trip_list(es: Seq<ValueModel>)
    requires
        crate::value::wf_values(es),
    ensures
        dec_elems(encode_list(es), es.len()) == DecodedElems::Complete(
            encode_list(es).len() as int,
            es,
        ),
    decreases es,
{
    if es.len() == 0 {
        assert(es =~= Seq::<ValueModel>::empty());
    } else {
        let s0 = encode_model(es[0]);
        let tail = encode_list(es.drop_first());
        lemma_round_trip(es[0]);
        lemma_dec_extend(s0, tail);
        lemma_dec_consumed(s0);
        assert((s0 + tail).skip(s0.len() as int) =~= tail);
        lemma_round_trip_list(es.drop_first());
        assert(seq![es[0]] + es.drop_first() =~= es);
    }
}

/// The closing clause of partial-input monotonicity: a well-formed
/// value's frame followed by any trailing bytes decodes to the same
/// value, with a cursor that leaves the trailing bytes alone.
pub proof fn lemma_round_trip_with_tail(v: ValueModel, t: Seq<u8>)
    requires
        wf_value(v),
    ensures
        dec(encode_model(v) + t) == Decoded::Complete(encode_model(v).len() as int, v),
{
    lemma_round_trip(v);
    lemma_dec_extend(encode_model(v), t);
}

/// A strict prefix of the terminated line `w + crlf`, possibly reaching
/// into the first terminator byte, holds no complete line.
proof fn lemma_word_prefix(w: Seq<u8>, q: Seq<u8>)
    requires
        forall|j: int| 0 <= j < w.len() ==> w[j] != CR,
        q.len() <= w.len() + 1,
        forall|j: int|
            0 <= j < q.len() ==> q[j] == (if j < w.len() {
                w[j]
            } else {
                CR
            }),
    ensures
        spec_word(q) is None,
{
    if q.len() <= w.len() {
        lemma_cr_pos_none(q, 0);
    } else {
        lemma_cr_pos_found(q, 0, w.len() as int);
    }
}

/// Partial-input monotonicity: every strict prefix of a well-formed
/// value's frame decodes to "incomplete" — never to a value, never to an
/// error. Arrays with elements are the stated exception: a prefix that
/// cuts inside an element fails with `UnexpectedEnd`, because an array
/// decode is not resumable mid-element.
pub proof fn lemma_prefix_partial(v: ValueModel, n: int)
    requires
        wf_value(v),
        0 <= n < encode_model(v).len(),
        !(v matches ValueModel::Arr(es) && es.len() > 0),
    ensures
        dec(encode_model(v).subrange(0, n)) == Decoded::Incomplete,
{
    let s = encode_model(v);
    let p = s.subrange(0, n);
    if n == 0 {
        assert(p.len() == 0);
    } else {
        let q = p.drop_first();
        assert(q =~= s.subrange(1, n));
        match v {
            ValueModel::Str(p0) => {
                let d = dec_digits(p0.len());
                lemma_dec_digits(p0.len());
                lemma_digits_no_cr(p0.len());
                lemma_int_digits_roundtrip(p0.len() as int);
                assert(s =~= seq![MARK_BULK] + (d + crlf() + (p0 + crlf())));
                if n - 1 <= d.len() + 1 {
                    lemma_word_prefix(d, q);
                } else {
                    lemma_cr_pos_found(q, 0, d.len() as int);
                    assert(q.subrange(0, d.len() as int) =~= d);
                    let c = (d.len() + 2) as int;
                    assert(s.len() == 1 + c + p0.len() + 2);
                    assert(p.len() < 1 + c + p0.len() + 2);
                }
            },
            ValueModel::Error(p0) => {
                assert(s =~= seq![crate::value::MARK_ERROR] + (p0 + crlf() + Seq::<u8>::empty()));
                lemma_word_prefix(p0, q);
            },
            ValueModel::Int(i) => {
                let d = int_digits(i as int);
                lemma_int_digits_roundtrip(i as int);
                assert(s =~= seq![crate::value::MARK_INT] + (d + crlf() + Seq::<u8>::empty()));
                lemma_word_prefix(d, q);
            },
            ValueModel::Arr(es) => {
                let d = dec_digits(es.len());
                lemma_dec_digits(es.len());
                lemma_digits_no_cr(es.len());
                assert(encode_list(es) =~= Seq::<u8>::empty());
                assert(s =~= seq![MARK_ARRAY] + (d + crlf() + Seq::<u8>::empty()));
                lemma_word_prefix(d, q);
            },
            ValueModel::NullArr => {
                let d = int_digits(-1);
                lemma_int_digits_roundtrip(-1);
                assert(s =~= seq![MARK_ARRAY] + (d + crlf() + Seq::<u8>::empty()));
                lemma_word_prefix(d, q);
            },
            ValueModel::NullBulk => {
                let d = int_digits(-1);
                lemma_int_digits_roundtrip(-1);
                assert(s =~= seq![MARK_BULK] + (d + crlf() + Seq::<u8>::empty()));
                lemma_word_prefix(d, q);
            },
        }
    }
}

/// A strict prefix of a run of element frames never completes the run: it
/// is incomplete, or — where a nested array ran out mid-element — the
/// unexpected-end failure. `q` is the prefix, of length `n`.
proof fn lemma_prefix_elems(es: Seq<ValueModel>, q: Seq<u8>, n: int)
    requires
        crate::value::wf_values(es),
        0 <= n < encode_list(es).len(),
        q == encode_list(es).subrange(0, n),
    ensures
        dec_elems(q, es.len()) is Incomplete || dec_elems(q, es.len()) == DecodedElems::Fail(
            RESPError::UnexpectedEnd,
        ),
    decreases es,
{
    assert(es.len() > 0) by {
        if es.len() == 0 {
            assert(encode_list(es).len() == 0);
        }
    }
    let s0 = encode_model(es[0]);
    let tail = encode_list(es.drop_first());
    assert(encode_list(es) == s0 + tail);
    if n < s0.len() {
        assert(q =~= s0.subrange(0, n));
        lemma_prefix_never_complete(es[0], n);
        assert(dec(q) is Incomplete || dec(q) == Decoded::Fail(RESPError::UnexpectedEnd));
    } else {
        lemma_round_trip(es[0]);
        lemma_dec_consumed(s0);
        if n == s0.len() {
            assert(q =~= s0);
            assert(dec(q) == Decoded::Complete(s0.len() as int, es[0]));
            assert(q.skip(s0.len() as int) =~= Seq::<u8>::empty());
            // a run of one element would already be complete here, but
            // then the prefix would be the whole frame
            assert(es.len() > 1) by {
                if es.len() == 1 {
                    assert(tail.len() == 0);
                }
            }
            assert(q.skip(s0.len() as int).len() == 0);
            assert(dec(q.skip(s0.len() as int)) is Incomplete);
            assert(dec_elems(q.skip(s0.len() as int), (es.len() - 1) as nat)
                is Incomplete);
        } else {
            assert(q =~= s0 + tail.subrange(0, n - s0.len()));
            lemma_dec_extend(s0, tail.subrange(0, n - s0.len()));
            lemma_dec_consumed(q);
            assert(q.skip(s0.len() as int) =~= tail.subrange(0, n - s0.len()));
            lemma_prefix_elems(es.drop_first(), q.skip(s0.len() as int), n - s0.len());
        }
    }
}

/// No strict prefix of a well-formed value's frame ever decodes to a
/// complete value, nor to any error but the unexpected-end failure of a
/// truncated array.
pub proof fn lemma_prefix_never_complete(v: ValueModel, n: int)
    requires
        wf_value(v),
        0 <= n < encode_model(v).len(),
    ensures
        dec(encode_model(v).subrange(0, n)) is Incomplete || dec(
            encode_model(v).subrange(0, n),
        ) == Decoded::Fail(RESPError::UnexpectedEnd),
    decreases v,
{
    match v {
        ValueModel::Arr(es) => {
            if es.len() == 0 {
                lemma_prefix_partial(v, n);
            } else if n == 0 {
            } else {
                let s = encode_model(v);
                let p = s.subrange(0, n);
                let q = p.drop_first();
                assert(q =~= s.subrange(1, n));
                let d = dec_digits(es.len());
                lemma_dec_digits(es.len());
                lemma_digits_no_cr(es.len());
                lemma_int_digits_roundtrip(es.len() as int);
                assert(s =~= seq![MARK_ARRAY] + (d + crlf() + encode_list(es)));
                let c = (d.len() + 2) as int;
                if n - 1 <= d.len() + 1 {
                    lemma_word_prefix(d, q);
                } else {
                    lemma_cr_pos_found(q, 0, d.len() as int);
                    assert(q.subrange(0, d.len() as int) =~= d);
                    assert(s.len() == 1 + c + encode_list(es).len());
                    assert(p.skip(1 + c) =~= encode_list(es).subrange(0, n - 1 - c));
                    lemma_prefix_elems(es, p.skip(1 + c), n - 1 - c);
                }
            }
        },
        _ => {
            lemma_prefix_partial(v, n);
        },
    }
}

} // verus!

