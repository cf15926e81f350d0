use vstd::prelude::*;
use crate::value::CR;

verus! {

/// An ASCII decimal digit.
pub open spec fn is_digit(b: u8) -> bool {
    48 <= b <= 57
}

/// Every byte of `s` is an ASCII decimal digit.
pub open spec fn all_digits(s: Seq<u8>) -> bool {
    forall|i: int| 0 <= i < s.len() ==> is_digit(#[trigger] s[i])
}

/// The number a digit string denotes in base 10 (left-to-right).
pub open spec fn digits_to_nat(s: Seq<u8>) -> nat
    decreases s.len(),
{
    if s.len() == 0 {
        0
    } else {
        digits_to_nat(s.drop_last()) * 10 + (s.last() - 48) as nat
    }
}

/// The value of `s` read as an unsigned decimal numeral: at least one byte,
/// all of them digits.
pub open spec fn parse_digits(s: Seq<u8>) -> Option<nat> {
    if s.len() >= 1 && all_digits(s) {
        Some(digits_to_nat(s))
    } else {
        None
    }
}

/// What a signed 64-bit decimal parse of `w` yields: an optional single
/// `+` or `-` sign, then one or more digits, the value within range.
pub open spec fn parse_i64_model(w: Seq<u8>) -> Option<i64> {
    if w.len() == 0 {
        None
    } else {
        let neg = w[0] == 45;
        let ds = if w[0] == 45 || w[0] == 43 {
            w.drop_first()
        } else {
            w
        };
        match parse_digits(ds) {
            Some(n) => if neg {
                if n <= 0x8000000000000000 {
                    Some((-(n as int)) as i64)
                } else {
                    None
                }
            } else {
                if n <= 0x7fffffffffffffff {
                    Some(n as i64)
                } else {
                    None
                }
            },
            None => None,
        }
    }
}

/// What an unsigned 64-bit decimal parse of `w` yields: an optional single
/// `+` sign, then one or more digits, the value within range.
pub open spec fn parse_u64_model(w: Seq<u8>) -> Option<u64> {
    if w.len() == 0 {
        None
    } else {
        let ds = if w[0] == 43 {
            w.drop_first()
        } else {
            w
        };
        match parse_digits(ds) {
            Some(n) => if n <= 0xffffffffffffffff {
                Some(n as u64)
            } else {
                None
            },
            None => None,
        }
    }
}

/// The canonical decimal numeral of `n`: no sign, no leading zero except
/// for `n == 0` itself.
pub open spec fn dec_digits(n: nat) -> Seq<u8>
    decreases n,
{
    if n < 10 {
        seq![(48 + n) as u8]
    } else {
        dec_digits(n / 10).push((48 + n % 10) as u8)
    }
}

/// The canonical decimal numeral of a signed integer: a `-` sign before
/// the magnitude when negative.
pub open spec fn int_digits(i: int) -> Seq<u8> {
    if i < 0 {
        seq![45u8] + dec_digits((-i) as nat)
    } else {
        dec_digits(i as nat)
    }
}

/// A digit string prefix never denotes more than the whole string.
proof fn lemma_digits_prefix_le(s: Seq<u8>, j: int)
    requires
        0 <= j <= s.len(),
    ensures
        digits_to_nat(s.subrange(0, j)) <= digits_to_nat(s),
    decreases s.len(),
{
    if j < s.len() {
        assert(s.drop_last().subrange(0, j) =~= s.subrange(0, j));
        lemma_digits_prefix_le(s.drop_last(), j);
    } else {
        assert(s.subrange(0, j) =~= s);
    }
}

/// The canonical numeral is nonempty, all digits, and denotes `n`.
pub proof fn lemma_dec_digits(n: nat)
    ensures
        dec_digits(n).len() >= 1,
        all_digits(dec_digits(n)),
        digits_to_nat(dec_digits(n)) == n,
    decreases n,
{
    if n < 10 {
        let s = seq![(48 + n) as u8];
        assert(s.drop_last() =~= Seq::<u8>::empty());
        assert(digits_to_nat(Seq::<u8>::empty()) == 0);
        assert(digits_to_nat(s) == n);
    } else {
        lemma_dec_digits(n / 10);
        let s = dec_digits(n / 10).push((48 + n % 10) as u8);
        assert(s.drop_last() =~= dec_digits(n / 10));
        assert(digits_to_nat(s) == (n / 10) * 10 + n % 10);
        assert((n / 10) * 10 + n % 10 == n) by (nonlinear_arith);
    }
}

/// A signed canonical numeral parses back to the integer it was made
/// from, and contains no carriage return.
pub proof fn lemma_int_digits_roundtrip(i: int)
    requires
        i64::MIN <= i <= i64::MAX,
    ensures
        parse_i64_model(int_digits(i)) == Some(i as i64),
        int_digits(i).len() >= 1,
        forall|j: int| 0 <= j < int_digits(i).len() ==> int_digits(i)[j] != CR,
{
    if i < 0 {
        lemma_dec_digits((-i) as nat);
        let w = seq![45u8] + dec_digits((-i) as nat);
        assert(w.drop_first() =~= dec_digits((-i) as nat));
        assert(parse_digits(w.drop_first()) == Some((-i) as nat));
    } else {
        lemma_dec_digits(i as nat);
        let w = dec_digits(i as nat);
        assert(is_digit(w[0]));
    }
}

/// Parses the digit run `w[start..]` as an unsigned value: it must be
/// nonempty, all digits, and fit in 64 bits.
fn parse_digits_u64(w: &[u8], start: usize) -> (r: Option<u64>)
    requires
        start <= w@.len(),
    ensures
        r == (match parse_digits(w@.skip(start as int)) {
            Some(n) => if n <= u64::MAX {
                Some(n as u64)
            } else {
                None::<u64>
            },
            None => None::<u64>,
        }),
{
    let ghost s = w@.skip(start as int);
    let len = w.len();
    let mut i = start;
    let mut acc: u64 = 0;
    while i < len
        invariant
            start <= i <= len,
            len == w@.len(),
            s == w@.skip(start as int),
            all_digits(w@.subrange(start as int, i as int)),
            acc == digits_to_nat(w@.subrange(start as int, i as int)),
        decreases len - i,
    {
        let b = w[i];
        if b < 48 || b > 57 {
            proof {
                assert(s[i - start] == b);
                assert(!all_digits(s));
            }
            return None;
        }
        let d = (b - 48) as u64;
        let ghost upto = w@.subrange(start as int, i + 1);
        proof {
            assert(upto.drop_last() =~= w@.subrange(start as int, i as int));
            assert(upto.last() == b);
            assert(digits_to_nat(upto) == acc * 10 + d);
        }
        if acc > (u64::MAX - d) / 10 {
            proof {
                assert(acc * 10 + d > u64::MAX) by (nonlinear_arith)
                    requires
                        acc > (u64::MAX - d) / 10,
                        0 <= d < 10,
                ;
                assert(s.subrange(0, i + 1 - start) =~= upto);
                lemma_digits_prefix_le(s, i + 1 - start);
            }
            return None;
        }
        acc = acc * 10 + d;
        i = i + 1;
    }
    proof {
        assert(w@.subrange(start as int, len as int) =~= s);
    }
    if i == start {
        None
    } else {
        Some(acc)
    }
}

/// Parses `w` as a signed 64-bit decimal integer, exactly as
/// [`parse_i64_model`] describes.
pub fn parse_i64(w: &[u8]) -> (r: Option<i64>)
    ensures
        r == parse_i64_model(w@),
{
    if w.len() == 0 {
        return None;
    }
    let b0 = w[0];
    let neg = b0 == 45;
    let start: usize = if b0 == 45 || b0 == 43 {
        1
    } else {
        0
    };
    proof {
        if start == 1 {
            assert(w@.skip(1) =~= w@.drop_first());
        } else {
            assert(w@.skip(0) =~= w@);
        }
    }
    match parse_digits_u64(w, start) {
        None => None,
        Some(n) => {
            if neg {
                if n == 0x8000000000000000u64 {
                    Some(i64::MIN)
                } else if n < 0x8000000000000000u64 {
                    Some(-(n as i64))
                } else {
                    None
                }
            } else {
                if n <= 0x7fffffffffffffffu64 {
                    Some(n as i64)
                } else {
                    None
                }
            }
        },
    }
}

/// Parses `w` as an unsigned 64-bit decimal integer, exactly as
/// [`parse_u64_model`] describes.
pub fn parse_u64(w: &[u8]) -> (r: Option<u64>)
    ensures
        r == parse_u64_model(w@),
{
    if w.len() == 0 {
        return None;
    }
    let b0 = w[0];
    let start: usize = if b0 == 43 {
        1
    } else {
        0
    };
    proof {
        if start == 1 {
            assert(w@.skip(1) =~= w@.drop_first());
        } else {
            assert(w@.skip(0) =~= w@);
        }
    }
    parse_digits_u64(w, start)
}

/// Appends the decimal numeral of `n` to `out`.
pub fn push_dec_digits(n: u64, out: &mut Vec<u8>)
    ensures
        final(out)@ == old(out)@ + dec_digits(n as nat),
    decreases n,
{
    if n < 10 {
        out.push(48 + n as u8);
        assert(final(out)@ =~= old(out)@ + dec_digits(n as nat));
    } else {
        push_dec_digits(n / 10, out);
        out.push(48 + (n % 10) as u8);
        assert(final(out)@ =~= old(out)@ + dec_digits(n as nat));
    }
}

/// Appends the decimal numeral of `i`, sign included, to `out`.
pub fn push_int_digits(i: i64, out: &mut Vec<u8>)
    ensures
        final(out)@ == old(out)@ + int_digits(i as int),
{
    if i < 0 {
        out.push(45);
        let m: u64 = if i == i64::MIN {
            0x8000000000000000u64
        } else {
            (-i) as u64
        };
        push_dec_digits(m, out);
        assert(final(out)@ =~= old(out)@ + int_digits(i as int));
    } else {
        push_dec_digits(i as u64, out);
    }
}

} // verus!
