use vstd::prelude::*;
use vstd::slice::{slice_subrange, slice_to_vec};
use crate::errors::RESPError;
use crate::ints::{parse_i64, parse_i64_model};
use crate::value::{
    RedisValue,
    ValueModel,
    value_models,
    CR,
    MARK_ARRAY,
    MARK_BULK,
    MARK_SIMPLE,
    MARK_ERROR,
    MARK_INT,
};

verus! {

/// The outcome of decoding one value from the front of a byte sequence.
#[verifier::ext_equal]
pub enum Decoded {
    /// The sequence does not yet hold a complete value: read more bytes
    /// and retry from the same position.
    Incomplete,
    /// The sequence is structurally invalid; the error says how.
    Fail(RESPError),
    /// A complete value, together with how many bytes it occupied.
    Complete(int, ValueModel),
}

/// The outcome of decoding a run of consecutive values (an array's
/// elements) from the front of a byte sequence.
#[verifier::ext_equal]
pub enum DecodedElems {
    Incomplete,
    Fail(RESPError),
    Complete(int, Seq<ValueModel>),
}

/// The index of the first carriage return at or after `i`, if any.
pub open spec fn cr_pos(s: Seq<u8>, i: int) -> Option<int>
    decreases s.len() - i,
{
    if i < 0 || i >= s.len() {
        None
    } else if s[i] == CR {
        Some(i)
    } else {
        cr_pos(s, i + 1)
    }
}

/// One line of the wire format, read from the front of `s`: the bytes up
/// to (not including) the first carriage return, with the two terminator
/// bytes counted into the advance. `None` when the terminator is not yet
/// fully present. The result is the advance and the line's content.
pub open spec fn spec_word(s: Seq<u8>) -> Option<(int, Seq<u8>)> {
    match cr_pos(s, 0) {
        // The bound checks restate what cr_pos guarantees, so that every
        // user of a successful match sees them without unfolding cr_pos.
        Some(e) => if 0 <= e && e + 1 < s.len() {
            Some((e + 2, s.subrange(0, e)))
        } else {
            None
        },
        None => None,
    }
}

/// Decodes one value from the front of `s`: the mathematical contract of
/// [`parse`](crate::decode::parse). Dispatch is on the leading marker
/// byte; each line-terminated field goes through [`spec_word`], each
/// numeric field through [`parse_i64_model`].
pub open spec fn dec(s: Seq<u8>) -> Decoded
    decreases s.len(), 0nat,
{
    if s.len() == 0 {
        Decoded::Incomplete
    } else if s[0] == MARK_ARRAY {
        match spec_word(s.drop_first()) {
            None => Decoded::Incomplete,
            Some((c, w)) => match parse_i64_model(w) {
                None => Decoded::Fail(RESPError::IntParseFailure),
                Some(k) => if k == -1 {
                    Decoded::Complete(1 + c, ValueModel::NullArr)
                } else if k < -1 {
                    Decoded::Fail(RESPError::BadArraySize(k))
                } else {
                    // An array is not resumable mid-element: a nested
                    // value that is merely incomplete fails the whole
                    // array decode.
                    match dec_elems(s.skip(1 + c), k as nat) {
                        DecodedElems::Incomplete => Decoded::Fail(RESPError::UnexpectedEnd),
                        DecodedElems::Fail(e) => Decoded::Fail(e),
                        DecodedElems::Complete(c2, es) => Decoded::Complete(
                            1 + c + c2,
                            ValueModel::Arr(es),
                        ),
                    }
                },
            },
        }
    } else if s[0] == MARK_BULK {
        match spec_word(s.drop_first()) {
            None => Decoded::Incomplete,
            Some((c, w)) => match parse_i64_model(w) {
                None => Decoded::Fail(RESPError::IntParseFailure),
                Some(k) => if k == -1 {
                    Decoded::Complete(1 + c, ValueModel::NullBulk)
                } else if k < -1 {
                    Decoded::Fail(RESPError::BadBulkStringSize(k))
                } else if s.len() < 1 + c + k + 2 {
                    Decoded::Incomplete
                } else {
                    Decoded::Complete(1 + c + k + 2, ValueModel::Str(s.subrange(1 + c, 1 + c + k)))
                },
            },
        }
    } else if s[0] == MARK_SIMPLE {
        match spec_word(s.drop_first()) {
            None => Decoded::Incomplete,
            Some((c, w)) => Decoded::Complete(1 + c, ValueModel::Str(w)),
        }
    } else if s[0] == MARK_ERROR {
        match spec_word(s.drop_first()) {
            None => Decoded::Incomplete,
            Some((c, w)) => Decoded::Complete(1 + c, ValueModel::Error(w)),
        }
    } else if s[0] == MARK_INT {
        match spec_word(s.drop_first()) {
            None => Decoded::Incomplete,
            Some((c, w)) => match parse_i64_model(w) {
                None => Decoded::Fail(RESPError::IntParseFailure),
                Some(i) => Decoded::Complete(1 + c, ValueModel::Int(i)),
            },
        }
    } else {
        Decoded::Fail(RESPError::UnknownStartingByte)
    }
}

/// Decodes `n` consecutive values from the front of `s`.
pub open spec fn dec_elems(s: Seq<u8>, n: nat) -> DecodedElems
    decreases s.len(), n,
{
    if n == 0 {
        DecodedElems::Complete(0, Seq::empty())
    } else {
        match dec(s) {
            Decoded::Incomplete => DecodedElems::Incomplete,
            Decoded::Fail(e) => DecodedElems::Fail(e),
            Decoded::Complete(c, v) =>
            // A complete value always occupies between 1 and s.len() bytes
            // (lemma_dec_consumed); the bound check discharges termination.
            if 1 <= c <= s.len() {
                match dec_elems(s.skip(c), (n - 1) as nat) {
                    DecodedElems::Incomplete => DecodedElems::Incomplete,
                    DecodedElems::Fail(e) => DecodedElems::Fail(e),
                    DecodedElems::Complete(c2, es) => DecodedElems::Complete(
                        c + c2,
                        seq![v] + es,
                    ),
                }
            } else {
                DecodedElems::Incomplete
            },
        }
    }
}

/// A complete run of `n` values occupies at most the whole sequence and
/// yields exactly `n` values.
proof fn lemma_dec_elems_consumed(s: Seq<u8>, n: nat)
    ensures
        dec_elems(s, n) matches DecodedElems::Complete(c, es) ==> 0 <= c <= s.len() && es.len()
            == n,
    decreases s.len(), n,
{
    if n > 0 {
        match dec(s) {
            Decoded::Complete(c, v) => {
                if 1 <= c <= s.len() {
                    lemma_dec_elems_consumed(s.skip(c), (n - 1) as nat);
                }
            },
            _ => {},
        }
    }
}

/// If the first carriage return at or after `i` stands at `e`, `cr_pos`
/// finds exactly it.
pub proof fn lemma_cr_pos_found(s: Seq<u8>, i: int, e: int)
    requires
        0 <= i <= e < s.len(),
        s[e] == CR,
        forall|j: int| i <= j < e ==> s[j] != CR,
    ensures
        cr_pos(s, i) == Some(e),
    decreases e - i,
{
    if i < e {
        lemma_cr_pos_found(s, i + 1, e);
    }
}

/// Where no carriage return stands at or after `i`, `cr_pos` finds none.
pub proof fn lemma_cr_pos_none(s: Seq<u8>, i: int)
    requires
        0 <= i,
        forall|j: int| i <= j < s.len() ==> s[j] != CR,
    ensures
        cr_pos(s, i) is None,
    decreases s.len() - i,
{
    if i < s.len() {
        lemma_cr_pos_none(s, i + 1);
    }
}

/// The outcome of one decode attempt: the new cursor and the value when a
/// complete value is present, `None` when more bytes are needed, an error
/// when the input is malformed.
pub type RedisResult = Result<Option<(usize, RedisValue)>, RESPError>;

/// A start/end index pair designating a range of a byte buffer.
pub struct BufSplit(pub usize, pub usize);

impl BufSplit {
    /// The slice of `buf` that this split designates.
    pub fn as_slice<'a>(&self, buf: &'a [u8]) -> (r: &'a [u8])
        requires
            self.0 <= self.1 <= buf@.len(),
        ensures
            r@ == buf@.subrange(self.0 as int, self.1 as int),
    {
        slice_subrange(buf, self.0, self.1)
    }
}

/// Scans for one line of the wire format starting at `pos`: the bytes up
/// to the first carriage return, with the two terminator bytes counted
/// into the returned advance. `None` when the terminator is not yet fully
/// in the buffer.
pub fn word(buf: &[u8], pos: usize) -> (r: Option<(usize, BufSplit)>)
    requires
        pos <= buf@.len(),
    ensures
        match spec_word(buf@.skip(pos as int)) {
            None => r is None,
            Some((c, w)) => {
                &&& r matches Some((p, bs))
                &&& p == pos + c
                &&& p <= buf@.len()
                &&& bs.0 == pos
                &&& bs.1 == pos + w.len()
                &&& buf@.subrange(bs.0 as int, bs.1 as int) == w
            },
        },
{
    let ghost s = buf@.skip(pos as int);
    let len = buf.len();
    let mut end = pos;
    loop
        invariant
            pos <= end <= len,
            len == buf@.len(),
            pos <= buf@.len(),
            s == buf@.skip(pos as int),
            forall|j: int| pos <= j < end ==> buf@[j] != CR,
        decreases len - end,
    {
        if end >= len {
            proof {
                assert(forall|j: int| 0 <= j < s.len() ==> s[j] == buf@[j + pos] && s[j] != CR);
                lemma_cr_pos_none(s, 0);
            }
            return None;
        }
        if buf[end] == CR {
            proof {
                assert(s[end - pos] == buf@[end as int]);
                assert(forall|j: int| 0 <= j < end - pos ==> s[j] == buf@[j + pos] && s[j] != CR);
                lemma_cr_pos_found(s, 0, end - pos);
            }
            if end + 1 < len {
                proof {
                    let e = end - pos;
                    assert(spec_word(s) == Some((e + 2, s.subrange(0, e))));
                    assert(s.subrange(0, e) =~= buf@.subrange(pos as int, end as int));
                }
                return Some((end + 2, BufSplit(pos, end)));
            } else {
                return None;
            }
        }
        end = end + 1;
    }
}

/// Decodes a simple string: one line, taken verbatim.
fn simple_string(buf: &[u8], pos: usize) -> (r: RedisResult)
    requires
        pos <= buf@.len(),
    ensures
        match spec_word(buf@.skip(pos as int)) {
            None => r == Ok::<Option<(usize, RedisValue)>, RESPError>(None),
            Some((c, w)) => {
                &&& r matches Ok(Some((p, v)))
                &&& p == pos + c
                &&& p <= buf@.len()
                &&& v@ == ValueModel::Str(w)
            },
        },
{
    match word(buf, pos) {
        Some((p, bs)) => {
            let payload = slice_to_vec(bs.as_slice(buf));
            Ok(Some((p, RedisValue::String(payload))))
        },
        None => Ok(None),
    }
}

/// Decodes an error: one line, taken verbatim and tagged as an error.
fn error(buf: &[u8], pos: usize) -> (r: RedisResult)
    requires
        pos <= buf@.len(),
    ensures
        match spec_word(buf@.skip(pos as int)) {
            None => r == Ok::<Option<(usize, RedisValue)>, RESPError>(None),
            Some((c, w)) => {
                &&& r matches Ok(Some((p, v)))
                &&& p == pos + c
                &&& p <= buf@.len()
                &&& v@ == ValueModel::Error(w)
            },
        },
{
    match word(buf, pos) {
        Some((p, bs)) => {
            let payload = slice_to_vec(bs.as_slice(buf));
            Ok(Some((p, RedisValue::Error(payload))))
        },
        None => Ok(None),
    }
}

/// Reads one line and parses it as a signed 64-bit decimal integer: the
/// shape of every numeric field of the wire format.
fn int_field(buf: &[u8], pos: usize) -> (r: Result<Option<(usize, i64)>, RESPError>)
    requires
        pos <= buf@.len(),
    ensures
        match spec_word(buf@.skip(pos as int)) {
            None => r == Ok::<Option<(usize, i64)>, RESPError>(None),
            Some((c, w)) => match parse_i64_model(w) {
                None => r == Err::<Option<(usize, i64)>, RESPError>(RESPError::IntParseFailure),
                Some(i) => {
                    &&& r matches Ok(Some((p, j)))
                    &&& p == pos + c
                    &&& p <= buf@.len()
                    &&& j == i
                },
            },
        },
{
    match word(buf, pos) {
        Some((p, bs)) => {
            match parse_i64(bs.as_slice(buf)) {
                Some(i) => Ok(Some((p, i))),
                None => Err(RESPError::IntParseFailure),
            }
        },
        None => Ok(None),
    }
}

/// Decodes an integer reply: one line parsed as a signed 64-bit decimal.
fn redis_int(buf: &[u8], pos: usize) -> (r: RedisResult)
    requires
        pos <= buf@.len(),
    ensures
        match spec_word(buf@.skip(pos as int)) {
            None => r == Ok::<Option<(usize, RedisValue)>, RESPError>(None),
            Some((c, w)) => match parse_i64_model(w) {
                None => r == Err::<Option<(usize, RedisValue)>, RESPError>(
                    RESPError::IntParseFailure,
                ),
                Some(i) => {
                    &&& r matches Ok(Some((p, v)))
                    &&& p == pos + c
                    &&& p <= buf@.len()
                    &&& v@ == ValueModel::Int(i)
                },
            },
        },
{
    match int_field(buf, pos)? {
        Some((p, i)) => Ok(Some((p, RedisValue::Int(i)))),
        None => Ok(None),
    }
}

/// Decodes a bulk string: a signed length line, then — unless the length
/// is the `-1` null sentinel — exactly that many payload bytes and a
/// terminator.
fn bulk_string(buf: &[u8], pos: usize) -> (r: RedisResult)
    requires
        pos <= buf@.len(),
    ensures
        match spec_word(buf@.skip(pos as int)) {
            None => r == Ok::<Option<(usize, RedisValue)>, RESPError>(None),
            Some((c, w)) => match parse_i64_model(w) {
                None => r == Err::<Option<(usize, RedisValue)>, RESPError>(
                    RESPError::IntParseFailure,
                ),
                Some(k) => if k == -1 {
                    r matches Ok(Some((p, v))) && p == pos + c && v@ == ValueModel::NullBulk
                } else if k < -1 {
                    r == Err::<Option<(usize, RedisValue)>, RESPError>(
                        RESPError::BadBulkStringSize(k),
                    )
                } else if buf@.len() < pos + c + k + 2 {
                    r == Ok::<Option<(usize, RedisValue)>, RESPError>(None)
                } else {
                    &&& r matches Ok(Some((p, v)))
                    &&& p == pos + c + k + 2
                    &&& p <= buf@.len()
                    &&& v@ == ValueModel::Str(buf@.subrange(pos + c, pos + c + k))
                },
            },
        },
{
    match int_field(buf, pos)? {
        Some((p, k)) => {
            if k == -1 {
                Ok(Some((p, RedisValue::NullBulkString)))
            } else if k < -1 {
                Err(RESPError::BadBulkStringSize(k))
            } else {
                let len = buf.len();
                if (k as u128) + 2 > (len - p) as u128 {
                    Ok(None)
                } else {
                    let kk = k as usize;
                    let payload = slice_to_vec(slice_subrange(buf, p, p + kk));
                    Ok(Some((p + kk + 2, RedisValue::String(payload))))
                }
            }
        },
        None => Ok(None),
    }
}

/// How far a partially decoded run of elements has come: the bytes it
/// consumed and the values it yielded, with the rest still ahead.
spec fn elems_glue(c0: int, es0: Seq<ValueModel>, rest: DecodedElems) -> DecodedElems {
    match rest {
        DecodedElems::Incomplete => DecodedElems::Incomplete,
        DecodedElems::Fail(e) => DecodedElems::Fail(e),
        DecodedElems::Complete(c2, es2) => DecodedElems::Complete(c0 + c2, es0 + es2),
    }
}

/// Decodes an array: a signed count line, then — unless the count is the
/// `-1` null sentinel — that many nested values in order. A nested value
/// that is merely incomplete fails the whole array decode.
#[verifier::loop_isolation(false)]
fn array(buf: &[u8], pos: usize) -> (r: RedisResult)
    requires
        pos <= buf@.len(),
    ensures
        match spec_word(buf@.skip(pos as int)) {
            None => r == Ok::<Option<(usize, RedisValue)>, RESPError>(None),
            Some((c, w)) => match parse_i64_model(w) {
                None => r == Err::<Option<(usize, RedisValue)>, RESPError>(
                    RESPError::IntParseFailure,
                ),
                Some(k) => if k == -1 {
                    r matches Ok(Some((p, v))) && p == pos + c && v@ == ValueModel::NullArr
                } else if k < -1 {
                    r == Err::<Option<(usize, RedisValue)>, RESPError>(RESPError::BadArraySize(k))
                } else {
                    match dec_elems(buf@.skip(pos + c), k as nat) {
                        DecodedElems::Incomplete => r == Err::<
                            Option<(usize, RedisValue)>,
                            RESPError,
                        >(RESPError::UnexpectedEnd),
                        DecodedElems::Fail(e) => r == Err::<Option<(usize, RedisValue)>, RESPError>(
                            e,
                        ),
                        DecodedElems::Complete(c2, es) => {
                            &&& r matches Ok(Some((p, v)))
                            &&& p == pos + c + c2
                            &&& p <= buf@.len()
                            &&& v@ == ValueModel::Arr(es)
                        },
                    }
                },
            },
        },
    decreases buf@.len() - pos, 0nat,
{
    match int_field(buf, pos)? {
        Some((p, k)) => {
            if k == -1 {
                Ok(Some((p, RedisValue::NullArray)))
            } else if k < -1 {
                Err(RESPError::BadArraySize(k))
            } else {
                let ghost s_el = buf@.skip(p as int);
                let mut res: Vec<RedisValue> = Vec::new();
                let mut curr: usize = p;
                let mut i: i64 = 0;
                proof {
                    assert(elems_glue(0, value_models(res@), dec_elems(s_el, k as nat)) =~= dec_elems(
                        s_el,
                        k as nat,
                    ));
                }
                while i < k
                    invariant
                        0 <= i <= k,
                        p <= curr <= buf@.len(),
                        pos + 2 <= p,
                        res@.len() == i,
                        s_el == buf@.skip(p as int),
                        dec_elems(s_el, k as nat) == elems_glue(
                            curr - p,
                            value_models(res@),
                            dec_elems(buf@.skip(curr as int), (k - i) as nat),
                        ),
                    decreases k - i,
                {
                    let ghost s_curr = buf@.skip(curr as int);
                    let ghost rest = dec_elems(s_curr, (k - i) as nat);
                    match parse(buf, curr) {
                        Err(e) => {
                            return Err(e);
                        },
                        Ok(Some((p2, val))) => {
                            proof {
                                lemma_dec_consumed(s_curr);
                                assert(s_curr.skip(p2 - curr) =~= buf@.skip(p2 as int));
                                let after = dec_elems(buf@.skip(p2 as int), (k - i - 1) as nat);
                                assert(res@.push(val).drop_last() =~= res@);
                                assert(value_models(res@.push(val)) == value_models(res@).push(
                                    val@,
                                ));
                                assert(rest == elems_glue(p2 - curr, seq![val@], after));
                                assert(elems_glue(
                                    curr - p,
                                    value_models(res@),
                                    elems_glue(p2 - curr, seq![val@], after),
                                ) =~= elems_glue(p2 - p, value_models(res@.push(val)), after));
                            }
                            res.push(val);
                            curr = p2;
                        },
                        Ok(None) => {
                            return Err(RESPError::UnexpectedEnd);
                        },
                    }
                    i = i + 1;
                }
                proof {
                    assert(value_models(res@) + Seq::<ValueModel>::empty() =~= value_models(res@));
                }
                Ok(Some((curr, RedisValue::Array(res))))
            }
        },
        None => Ok(None),
    }
}

/// Decodes one value from `buf` starting at `pos`, exactly as [`dec`]
/// describes on `buf[pos..]`: `Ok(None)` when the buffer does not yet
/// hold a complete value there, the value and the position just past it
/// when it does, an error when the input is malformed. Never panics,
/// whatever the bytes hold.
pub fn parse(buf: &[u8], pos: usize) -> (r: RedisResult)
    requires
        pos <= buf@.len(),
    ensures
        match dec(buf@.skip(pos as int)) {
            Decoded::Incomplete => r == Ok::<Option<(usize, RedisValue)>, RESPError>(None),
            Decoded::Fail(e) => r == Err::<Option<(usize, RedisValue)>, RESPError>(e),
            Decoded::Complete(c, vm) => {
                &&& r matches Ok(Some((p, v)))
                &&& p == pos + c
                &&& p <= buf@.len()
                &&& v@ == vm
            },
        },
    decreases buf@.len() - pos, 1nat,
{
    let ghost s = buf@.skip(pos as int);
    if pos == buf.len() {
        return Ok(None);
    }
    proof {
        assert(s[0] == buf@[pos as int]);
        assert(s.drop_first() =~= buf@.skip(pos + 1));
    }
    let m = buf[pos];
    if m == MARK_ARRAY {
        proof {
            match spec_word(s.drop_first()) {
                Some((c, w)) => {
                    assert(s.skip(1 + c) =~= buf@.skip(pos + 1 + c));
                },
                None => {},
            }
        }
        array(buf, pos + 1)
    } else if m == MARK_BULK {
        proof {
            match spec_word(s.drop_first()) {
                Some((c, w)) => {
                    match parse_i64_model(w) {
                        Some(k) => {
                            if k >= 0 && s.len() >= 1 + c + k + 2 {
                                assert(s.subrange(1 + c, 1 + c + k) =~= buf@.subrange(
                                    pos + 1 + c,
                                    pos + 1 + c + k,
                                ));
                            }
                        },
                        None => {},
                    }
                },
                None => {},
            }
        }
        bulk_string(buf, pos + 1)
    } else if m == MARK_SIMPLE {
        simple_string(buf, pos + 1)
    } else if m == MARK_ERROR {
        error(buf, pos + 1)
    } else if m == MARK_INT {
        redis_int(buf, pos + 1)
    } else {
        Err(RESPError::UnknownStartingByte)
    }
}

/// A complete value occupies at least 3 bytes (marker, one line byte, one
/// terminator byte) and at most the whole sequence.
pub proof fn lemma_dec_consumed(s: Seq<u8>)
    ensures
        dec(s) matches Decoded::Complete(c, _) ==> 3 <= c <= s.len(),
{
    if s.len() > 0 && s[0] == MARK_ARRAY {
        match spec_word(s.drop_first()) {
            Some((c, w)) => match parse_i64_model(w) {
                Some(k) => {
                    if k >= 0 {
                        lemma_dec_elems_consumed(s.skip(1 + c), k as nat);
                    }
                },
                None => {},
            },
            None => {},
        }
    }
}

} // verus!
