//! Decimal rendering and parsing of the integers that appear in wire
//! frames: simple-integer payloads, bulk-string lengths and array counts.
//!
//! The parse grammar is the one `str::parse` on an integer type accepts:
//! an optional `+` or `-` sign followed by one or more ASCII digits, with
//! the value required to fit the target type.

use vstd::prelude::*;

verus! {

/// Is `b` an ASCII digit?
pub open spec fn is_digit(b: u8) -> bool {
    48 <= b <= 57
}

/// Are all bytes of `s` ASCII digits?
pub open spec fn all_digits(s: Seq<u8>) -> bool {
    forall|i: int| 0 <= i < s.len() ==> is_digit(#[trigger] s[i])
}

/// The number that a digit string denotes (most significant digit first).
pub open spec fn digits_val(s: Seq<u8>) -> nat
    decreases s.len(),
{
    if s.len() == 0 {
        0
    } else {
        digits_val(s.drop_last()) * 10 + (if s.last() >= 48 {
            (s.last() - 48) as nat
        } else {
            0
        })
    }
}

/// The decimal digit string of `n`, without sign and without leading zeros
/// (except for `n == 0`, rendered as `0`).
pub open spec fn dec_digits(n: nat) -> Seq<u8>
    decreases n,
{
    if n < 10 {
        seq![(48 + n) as u8]
    } else {
        dec_digits(n / 10) + seq![(48 + n % 10) as u8]
    }
}

/// The decimal rendering of a signed integer: a `-` sign for negative
/// values, then the digits of the magnitude.
pub open spec fn dec_int(n: int) -> Seq<u8> {
    if n < 0 {
        seq![45u8] + dec_digits((-n) as nat)
    } else {
        dec_digits(n as nat)
    }
}

/// The signed integer a byte string denotes under the `str::parse`
/// grammar, before any range check: an optional sign, then digits.
pub open spec fn parse_int(s: Seq<u8>) -> Option<int> {
    if s.len() >= 2 && s[0] == 45 {
        if all_digits(s.skip(1)) {
            Some(-(digits_val(s.skip(1)) as int))
        } else {
            None
        }
    } else if s.len() >= 2 && s[0] == 43 {
        if all_digits(s.skip(1)) {
            Some(digits_val(s.skip(1)) as int)
        } else {
            None
        }
    } else if s.len() >= 1 && all_digits(s) {
        Some(digits_val(s) as int)
    } else {
        None
    }
}

/// What `str::parse::<i64>` yields on `s`: the denoted value when the
/// grammar matches and the value fits an `i64`.
pub open spec fn parse_i64(s: Seq<u8>) -> Option<i64> {
    match parse_int(s) {
        Some(v) => if i64::MIN <= v <= i64::MAX {
            Some(v as i64)
        } else {
            None
        },
        None => None,
    }
}

/// Every byte of a digit string is an ASCII digit, and there is at
/// least one.
pub proof fn lemma_dec_digits_shape(n: nat)
    ensures
        dec_digits(n).len() >= 1,
        all_digits(dec_digits(n)),
    decreases n,
{
    if n >= 10 {
        lemma_dec_digits_shape(n / 10);
    }
}

/// Reading the digits of `n` back yields `n`.
pub proof fn lemma_dec_digits_val(n: nat)
    ensures
        digits_val(dec_digits(n)) == n,
    decreases n,
{
    if n < 10 {
        assert(dec_digits(n) == seq![(48 + n) as u8]);
        assert(dec_digits(n).drop_last() =~= Seq::<u8>::empty());
        assert(digits_val(Seq::<u8>::empty()) == 0);
        assert(dec_digits(n).last() == (48 + n) as u8);
        assert(digits_val(dec_digits(n)) == n);
    } else {
        lemma_dec_digits_val(n / 10);
        let s = dec_digits(n);
        assert(s.drop_last() =~= dec_digits(n / 10));
        assert(s.last() == (48 + n % 10) as u8);
    }
}

/// Appending more digits never shrinks the denoted value.
pub proof fn lemma_digits_val_prefix(s: Seq<u8>, i: int)
    requires
        0 <= i <= s.len(),
    ensures
        digits_val(s.take(i)) <= digits_val(s),
    decreases s.len() - i,
{
    if i < s.len() {
        lemma_digits_val_prefix(s, i + 1);
        assert(s.take(i + 1).drop_last() =~= s.take(i));
        assert(digits_val(s.take(i + 1)) >= digits_val(s.take(i)) * 10);
        assert(digits_val(s.take(i)) * 10 >= digits_val(s.take(i)));
    } else {
        assert(s.take(i) =~= s);
    }
}

/// Parsing the decimal rendering of `n` gives back `n`.
pub proof fn lemma_parse_dec_int(n: int)
    ensures
        parse_int(dec_int(n)) == Some(n),
{
    if n < 0 {
        lemma_dec_digits_shape((-n) as nat);
        lemma_dec_digits_val((-n) as nat);
        let s = dec_int(n);
        assert(s[0] == 45);
        assert(s.skip(1) =~= dec_digits((-n) as nat));
    } else {
        lemma_dec_digits_shape(n as nat);
        lemma_dec_digits_val(n as nat);
        let s = dec_int(n);
        assert(s =~= dec_digits(n as nat));
        if s.len() >= 2 && (s[0] == 45 || s[0] == 43) {
            assert(is_digit(s[0]));
            assert(false);
        }
    }
}

/// Append the decimal digits of `n` to `out`.
pub fn push_dec_u64(n: u64, out: &mut Vec<u8>)
    ensures
        final(out)@ == old(out)@ + dec_digits(n as nat),
    decreases n,
{
    if n < 10 {
        out.push(48 + (n as u8));
        assert(final(out)@ =~= old(out)@ + dec_digits(n as nat));
    } else {
        push_dec_u64(n / 10, out);
        out.push(48 + ((n % 10) as u8));
        assert(final(out)@ =~= old(out)@ + dec_digits(n as nat));
    }
}

/// Append the signed decimal rendering of `n` to `out`.
pub fn push_dec_i64(n: i64, out: &mut Vec<u8>)
    ensures
        final(out)@ == old(out)@ + dec_int(n as int),
{
    if n >= 0 {
        push_dec_u64(n as u64, out);
    } else {
        out.push(45);
        let mag: u64 = (-(n as i128)) as u64;
        push_dec_u64(mag, out);
        assert(final(out)@ =~= old(out)@ + dec_int(n as int));
    }
}

/// Parse an unsigned digit string (no sign allowed) into a value that
/// must fit below or at `limit`.
fn parse_digits_u64(s: &[u8], limit: u64) -> (r: Option<u64>)
    ensures
        match r {
            Some(v) => s@.len() >= 1 && all_digits(s@) && digits_val(s@) == v && v <= limit,
            None => s@.len() == 0 || !all_digits(s@) || digits_val(s@) > limit,
        },
{
    if s.len() == 0 {
        return None;
    }
    let mut acc: u64 = 0;
    let mut i: usize = 0;
    while i < s.len()
        invariant
            0 <= i <= s@.len(),
            all_digits(s@.take(i as int)),
            acc == digits_val(s@.take(i as int)),
            acc <= limit,
        decreases s@.len() - i,
    {
        let b = s[i];
        if b < 48 || b > 57 {
            assert(!is_digit(s@[i as int]));
            return None;
        }
        let d: u64 = (b - 48) as u64;
        let next = match acc.checked_mul(10) {
            Some(m) => m.checked_add(d),
            None => None,
        };
        match next {
            Some(v) => {
                if v > limit {
                    proof {
                        assert(s@.take(i as int + 1).drop_last() =~= s@.take(i as int));
                        assert(digits_val(s@.take(i as int + 1)) == v);
                        lemma_digits_val_prefix(s@, i as int + 1);
                    }
                    return None;
                }
                acc = v;
            },
            None => {
                proof {
                    assert(s@.take(i as int + 1).drop_last() =~= s@.take(i as int));
                    assert(digits_val(s@.take(i as int + 1)) > limit);
                    lemma_digits_val_prefix(s@, i as int + 1);
                }
                return None;
            },
        }
        proof {
            assert(s@.take(i as int + 1).drop_last() =~= s@.take(i as int));
        }
        i += 1;
    }
    proof {
        assert(s@.take(s@.len() as int) =~= s@);
    }
    Some(acc)
}

/// Parse a byte string as `str::parse::<i64>` would.
pub fn parse_i64_bytes(s: &[u8]) -> (r: Option<i64>)
    ensures
        r == parse_i64(s@),
{
    if s.len() >= 2 && (s[0] == 45 || s[0] == 43) {
        let negative = s[0] == 45;
        let rest = slice_drop_first(s);
        let limit: u64 = if negative {
            9223372036854775808
        } else {
            9223372036854775807
        };
        match parse_digits_u64(rest, limit) {
            Some(v) => {
                if negative {
                    let r = (-(v as i128)) as i64;
                    assert(r as int == -(digits_val(s@.skip(1)) as int));
                    Some(r)
                } else {
                    Some(v as i64)
                }
            },
            None => None,
        }
    } else {
        match parse_digits_u64(s, 9223372036854775807) {
            Some(v) => Some(v as i64),
            None => {
                assert(parse_i64(s@) is None) by {
                    if s@.len() >= 1 && all_digits(s@) {
                        assert(digits_val(s@) > i64::MAX);
                    }
                }
                None
            },
        }
    }
}

/// Parse a byte string as `str::parse::<u64>` would: like `parse_int`
/// restricted to non-negative values without a `-` sign.
pub open spec fn parse_u64(s: Seq<u8>) -> Option<u64> {
    if s.len() >= 1 && s[0] == 45 {
        None
    } else {
        match parse_int(s) {
            Some(v) => if v <= u64::MAX {
                Some(v as u64)
            } else {
                None
            },
            None => None,
        }
    }
}

/// Parse a byte string as `str::parse::<u64>` would.
pub fn parse_u64_bytes(s: &[u8]) -> (r: Option<u64>)
    ensures
        r == parse_u64(s@),
{
    if s.len() >= 1 && s[0] == 45 {
        return None;
    }
    if s.len() >= 2 && s[0] == 43 {
        let rest = slice_drop_first(s);
        match parse_digits_u64(rest, u64::MAX) {
            Some(v) => Some(v),
            None => None,
        }
    } else {
        match parse_digits_u64(s, u64::MAX) {
            Some(v) => Some(v),
            None => None,
        }
    }
}

/// The first-byte-dropped view of a slice.
fn slice_drop_first(s: &[u8]) -> (r: &[u8])
    requires
        s@.len() >= 1,
    ensures
        r@ == s@.skip(1),
{
    let (_, rest) = s.split_at(1);
    rest
}

} // verus!
