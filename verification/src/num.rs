//! Decimal representations of integers: the canonical digit strings used by
//! the wire format's length prefixes and integer values, with verified
//! formatting and parsing.

use vstd::prelude::*;

verus! {

use vstd::arithmetic::div_mod::lemma_fundamental_div_mod;
use vstd::arithmetic::mul::lemma_mul_inequality;

/// Decimal digit bytes are `'0'` (48) through `'9'` (57).
pub open spec fn is_digit(b: u8) -> bool {
    48 <= b <= 57
}

pub open spec fn all_digits(s: Seq<u8>) -> bool {
    forall|i: int| 0 <= i < s.len() ==> is_digit(#[trigger] s[i])
}

/// The canonical decimal digits of `n`, most significant first.
pub open spec fn dec_digits(n: nat) -> Seq<u8>
    decreases n,
{
    if n < 10 {
        seq![(48 + n) as u8]
    } else {
        dec_digits(n / 10).push((48 + n % 10) as u8)
    }
}

/// The number denoted by a digit string (most significant digit first).
pub open spec fn digits_val(s: Seq<u8>) -> nat
    decreases s.len(),
{
    if s.len() == 0 {
        0
    } else {
        (digits_val(s.drop_last()) * 10 + (s.last() - 48)) as nat
    }
}

/// A digit string is canonical when it is nonempty, all digits, and free of
/// leading zeros (so each number has exactly one canonical form).
pub open spec fn canonical_digits(s: Seq<u8>) -> bool {
    &&& s.len() >= 1
    &&& all_digits(s)
    &&& (s[0] == 48 ==> s.len() == 1)
}

/// The canonical decimal form of a signed integer: a minus sign for negative
/// values, then the digits of the magnitude.
pub open spec fn dec_int(i: int) -> Seq<u8> {
    if i < 0 {
        seq![45u8] + dec_digits((-i) as nat)
    } else {
        dec_digits(i as nat)
    }
}

/// A byte string is the canonical form of some 64-bit signed integer.
pub open spec fn valid_int_repr(s: Seq<u8>) -> bool {
    if s.len() >= 2 && s[0] == 45 {
        &&& canonical_digits(s.skip(1))
        &&& s[1] != 48
        &&& digits_val(s.skip(1)) <= 0x8000_0000_0000_0000
    } else {
        &&& canonical_digits(s)
        &&& digits_val(s) <= 0x7fff_ffff_ffff_ffff
    }
}

/// The integer denoted by a canonical signed decimal string.
pub open spec fn int_repr_val(s: Seq<u8>) -> int {
    if s.len() >= 2 && s[0] == 45 {
        -(digits_val(s.skip(1)) as int)
    } else {
        digits_val(s) as int
    }
}

/// The canonical digits of `n` denote `n`, are all digits, and carry no
/// leading zero.
pub proof fn lemma_dec_digits(n: nat)
    ensures
        dec_digits(n).len() >= 1,
        all_digits(dec_digits(n)),
        n >= 1 ==> dec_digits(n)[0] != 48,
        digits_val(dec_digits(n)) == n,
        canonical_digits(dec_digits(n)),
    decreases n,
{
    if n < 10 {
        let s0 = seq![(48 + n) as u8];
        assert(s0.drop_last() =~= Seq::<u8>::empty());
        assert(digits_val(s0.drop_last()) == 0);
        assert(digits_val(s0) == n);
    } else {
        lemma_dec_digits(n / 10);
        let d = (48 + n % 10) as u8;
        let s = dec_digits(n / 10).push(d);
        assert(s.drop_last() =~= dec_digits(n / 10));
        assert(s.last() == d);
        assert(digits_val(s) == (n / 10) * 10 + n % 10);
        assert((n / 10) * 10 + n % 10 == n) by (nonlinear_arith);
        assert(s[0] == dec_digits(n / 10)[0]);
        assert(forall|i: int| 0 <= i < s.len() ==> is_digit(#[trigger] s[i]));
    }
}

/// The canonical form of a 64-bit integer is a valid representation and
/// denotes the integer itself.
pub proof fn lemma_dec_int(i: int)
    requires
        -0x8000_0000_0000_0000 <= i <= 0x7fff_ffff_ffff_ffff,
    ensures
        dec_int(i).len() >= 1,
        valid_int_repr(dec_int(i)),
        int_repr_val(dec_int(i)) == i,
        forall|j: int| 0 <= j < dec_int(i).len() ==> #[trigger] dec_int(i)[j] != 13 && dec_int(i)[j] != 10,
{
    if i < 0 {
        lemma_dec_digits((-i) as nat);
        let s = seq![45u8] + dec_digits((-i) as nat);
        assert(s.skip(1) =~= dec_digits((-i) as nat));
        assert(s[0] == 45);
        assert(s[1] == dec_digits((-i) as nat)[0]);
        assert(forall|j: int| 1 <= j < s.len() ==> is_digit(#[trigger] s[j]));
    } else {
        lemma_dec_digits(i as nat);
        let s = dec_digits(i as nat);
        assert(s[0] != 45 && valid_int_repr(s) && int_repr_val(s) == i) by {
            assert(is_digit(s[0]));
        }
    }
}

/// For a digit string, longer prefixes denote numbers at least as large.
pub proof fn lemma_digits_val_monotone(s: Seq<u8>, j: int, k: int)
    requires
        0 <= j <= k <= s.len(),
        all_digits(s),
    ensures
        digits_val(s.subrange(0, j)) <= digits_val(s.subrange(0, k)),
    decreases k - j,
{
    if j < k {
        lemma_digits_val_monotone(s, j, k - 1);
        let p = s.subrange(0, k);
        let v = digits_val(s.subrange(0, k - 1));
        assert(p.drop_last() =~= s.subrange(0, k - 1));
        assert(is_digit(p.last()));
        assert(v * 10 >= v) by (nonlinear_arith);
        assert(digits_val(p) == v * 10 + (p.last() - 48));
    }
}

/// Appends the canonical decimal digits of `n` to `out`.
pub fn push_u64_dec(out: &mut Vec<u8>, n: u64)
    ensures
        final(out)@ == old(out)@ + dec_digits(n as nat),
    decreases n,
{
    if n < 10 {
        out.push(48 + n as u8);
        assert(out@ =~= old(out)@ + dec_digits(n as nat));
    } else {
        push_u64_dec(out, n / 10);
        out.push(48 + (n % 10) as u8);
        assert(out@ =~= old(out)@ + dec_digits((n / 10) as nat).push((48 + n % 10) as u8));
    }
}

/// Appends the canonical decimal digits of `n` to `out`.
pub fn push_usize_dec(out: &mut Vec<u8>, n: usize)
    ensures
        final(out)@ == old(out)@ + dec_digits(n as nat),
    decreases n,
{
    if n < 10 {
        out.push(48 + n as u8);
        assert(out@ =~= old(out)@ + dec_digits(n as nat));
    } else {
        push_usize_dec(out, n / 10);
        out.push(48 + (n % 10) as u8);
        assert(out@ =~= old(out)@ + dec_digits((n / 10) as nat).push((48 + n % 10) as u8));
    }
}

/// Appends the canonical signed decimal form of `i` to `out`.
pub fn push_i64_dec(out: &mut Vec<u8>, i: i64)
    ensures
        final(out)@ == old(out)@ + dec_int(i as int),
{
    if i < 0 {
        out.push(45);
        let ghost mid = out@;
        let mag: u64 = if i == i64::MIN {
            9223372036854775808u64
        } else {
            (-i) as u64
        };
        assert(mag as nat == (-(i as int)) as nat);
        push_u64_dec(out, mag);
        assert(out@ =~= old(out)@ + (seq![45u8] + dec_digits((-(i as int)) as nat)));
    } else {
        push_u64_dec(out, i as u64);
    }
}

/// Parses `buf[start..end]` as a canonical unsigned decimal no greater than
/// `cap`; returns `None` exactly when the bytes are not canonical digits or
/// the value is over the cap.
pub fn parse_u64_cap(buf: &Vec<u8>, start: usize, end: usize, cap: u64) -> (r: Option<u64>)
    requires
        start <= end <= buf.len(),
    ensures
        match r {
            Some(n) => canonical_digits(buf@.subrange(start as int, end as int))
                && digits_val(buf@.subrange(start as int, end as int)) == n as nat
                && n <= cap,
            None => !(canonical_digits(buf@.subrange(start as int, end as int))
                && digits_val(buf@.subrange(start as int, end as int)) <= cap as nat),
        },
{
    let ghost s = buf@.subrange(start as int, end as int);
    if start == end {
        return None;
    }
    if buf[start] == 48 && end - start > 1 {
        assert(s[0] == 48 && s.len() > 1);
        return None;
    }
    let mut acc: u64 = 0;
    let mut i: usize = start;
    while i < end
        invariant
            start <= i <= end <= buf.len(),
            s == buf@.subrange(start as int, end as int),
            acc as nat == digits_val(s.subrange(0, i - start)),
            acc <= cap,
            forall|j: int| 0 <= j < i - start ==> is_digit(#[trigger] s[j]),
        decreases end - i,
    {
        let b = buf[i];
        assert(s[i - start] == b);
        if !(48 <= b && b <= 57) {
            assert(!all_digits(s));
            return None;
        }
        let d: u64 = (b - 48) as u64;
        let ghost p1 = s.subrange(0, i + 1 - start);
        proof {
            assert(p1.drop_last() =~= s.subrange(0, i - start));
            assert(p1.last() == b);
            assert(digits_val(p1) == acc as nat * 10 + d);
        }
        let overflow: bool = if d > cap {
            true
        } else {
            let q = (cap - d) / 10;
            proof {
                lemma_fundamental_div_mod((cap - d) as int, 10);
                if acc > q {
                    lemma_mul_inequality(q as int + 1, acc as int, 10);
                } else {
                    lemma_mul_inequality(acc as int, q as int, 10);
                }
            }
            acc > q
        };
        if overflow {
            proof {
                assert(acc as nat * 10 + d > cap);
                if all_digits(s) {
                    lemma_digits_val_monotone(s, i + 1 - start, s.len() as int);
                    assert(s.subrange(0, s.len() as int) =~= s);
                }
            }
            return None;
        }
        assert(acc as nat * 10 + d <= cap);
        acc = acc * 10 + d;
        i = i + 1;
    }
    assert(s.subrange(0, s.len() as int) =~= s);
    assert(canonical_digits(s));
    Some(acc)
}

/// Parses `buf[start..end]` as a canonical signed 64-bit decimal; returns
/// `None` exactly when the bytes are not such a representation.
pub fn parse_i64_repr(buf: &Vec<u8>, start: usize, end: usize) -> (r: Option<i64>)
    requires
        start <= end <= buf.len(),
    ensures
        match r {
            Some(v) => valid_int_repr(buf@.subrange(start as int, end as int))
                && v as int == int_repr_val(buf@.subrange(start as int, end as int)),
            None => !valid_int_repr(buf@.subrange(start as int, end as int)),
        },
{
    let ghost s = buf@.subrange(start as int, end as int);
    if end - start >= 2 && buf[start] == 45 {
        assert(s.len() >= 2 && s[0] == 45);
        assert(s.skip(1) =~= buf@.subrange(start + 1, end as int));
        if buf[start + 1] == 48 {
            assert(s[1] == 48);
            return None;
        }
        match parse_u64_cap(buf, start + 1, end, 9223372036854775808u64) {
            None => None,
            Some(mag) => {
                let v: i64 = if mag == 9223372036854775808u64 {
                    i64::MIN
                } else {
                    -(mag as i64)
                };
                assert(v as int == -(mag as int));
                Some(v)
            },
        }
    } else {
        assert(!(s.len() >= 2 && s[0] == 45));
        match parse_u64_cap(buf, start, end, 9223372036854775807u64) {
            None => None,
            Some(n) => Some(n as i64),
        }
    }
}

} // verus!
