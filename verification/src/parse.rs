//! The decoding half of the codec.
//!
//! `decode_one` is the mathematical decoder: from a byte sequence it yields
//! the first value and the bytes it occupies, or says that more bytes are
//! needed, or that the stream violates the protocol. `parse_resp_string`
//! is the executable decoder, proved to agree with it exactly.

use vstd::prelude::*;

verus! {

use crate::num::{canonical_digits, digits_val, int_repr_val, valid_int_repr, parse_i64_repr,
    parse_u64_cap};
use crate::resp::{RESPString, RespView, seq_dview, lemma_vec_dview};

/// Why a decode attempt produced no value: the buffer does not yet hold a
/// whole value, or the bytes can never be one.
#[derive(Debug, Clone, Copy, PartialEq, Eq, Structural)]
pub enum DecodeError {
    NeedMoreData,
    MalformedInput,
}

/// The index of the first CRLF pair in `s`, if any.
pub open spec fn find_crlf(s: Seq<u8>) -> Option<int>
    decreases s.len(),
{
    if s.len() < 2 {
        None
    } else if s[0] == 13 && s[1] == 10 {
        Some(0)
    } else {
        match find_crlf(s.skip(1)) {
            Some(i) => Some(i + 1),
            None => None,
        }
    }
}

/// `find_crlf` returns the first CRLF pair, and `None` exactly when there is
/// no pair at all.
pub proof fn lemma_find_crlf(s: Seq<u8>)
    ensures
        match find_crlf(s) {
            Some(i) => 0 <= i && i + 2 <= s.len() && s[i] == 13 && s[i + 1] == 10 && (forall|
                j: int,
            |
                0 <= j < i ==> !(#[trigger] s[j] == 13 && s[j + 1] == 10)),
            None => forall|j: int| 0 <= j && j + 2 <= s.len() ==> !(#[trigger] s[j] == 13 && s[j + 1] == 10),
        },
    decreases s.len(),
{
    if s.len() < 2 {
    } else if s[0] == 13 && s[1] == 10 {
    } else {
        lemma_find_crlf(s.skip(1));
        let t = s.skip(1);
        assert(forall|j: int| 0 <= j && j + 1 < t.len() ==> #[trigger] t[j] == s[j + 1] && t[j + 1]
            == s[j + 2]);
        match find_crlf(t) {
            Some(i) => {
                assert(s[i + 1] == t[i] && s[i + 2] == t[i + 1]);
                assert forall|j: int| 0 <= j < i + 1 implies !(#[trigger] s[j] == 13 && s[j + 1] == 10) by {
                    if j > 0 {
                        assert(s[j] == t[j - 1] && s[j + 1] == t[j]);
                    }
                }
            },
            None => {
                assert forall|j: int| 0 <= j && j + 2 <= s.len() implies !(#[trigger] s[j] == 13
                    && s[j + 1] == 10) by {
                    if j > 0 {
                        assert(s[j] == t[j - 1] && s[j + 1] == t[j]);
                    }
                }
            },
        }
    }
}

/// If a CRLF pair sits at `i` and none sits earlier, `find_crlf` finds `i`.
pub proof fn lemma_find_crlf_at(s: Seq<u8>, i: int)
    requires
        0 <= i,
        i + 2 <= s.len(),
        s[i] == 13,
        s[i + 1] == 10,
        forall|j: int| 0 <= j < i ==> !(#[trigger] s[j] == 13 && s[j + 1] == 10),
    ensures
        find_crlf(s) == Some(i),
{
    lemma_find_crlf(s);
    match find_crlf(s) {
        Some(k) => {
            if k < i {
                assert(!(s[k] == 13 && s[k + 1] == 10));
            } else if k > i {
                assert(!(s[i] == 13 && s[i + 1] == 10));
            }
        },
        None => {
            assert(!(s[i] == 13 && s[i + 1] == 10));
        },
    }
}

/// The null sentinel line `-1`.
pub open spec fn null_line() -> Seq<u8> {
    seq![45u8, 49u8]
}

/// Decodes the first value of `s`: the value and the count of bytes it
/// occupies, or `NeedMoreData` when `s` is a proper prefix of some encoding,
/// or `MalformedInput` when it is not.
pub open spec fn decode_one(s: Seq<u8>) -> Result<(RespView, int), DecodeError>
    decreases s.len(), 0int, 0int,
    via decode_one_dec
{
    if s.len() == 0 {
        Err(DecodeError::NeedMoreData)
    } else if s[0] == 43 {
        match find_crlf(s) {
            Some(i) => Ok((RespView::SimpleString(s.subrange(1, i)), i + 2)),
            None => Err(DecodeError::NeedMoreData),
        }
    } else if s[0] == 45 {
        match find_crlf(s) {
            Some(i) => Ok((RespView::Error(s.subrange(1, i)), i + 2)),
            None => Err(DecodeError::NeedMoreData),
        }
    } else if s[0] == 58 {
        match find_crlf(s) {
            Some(i) => {
                let line = s.subrange(1, i);
                if valid_int_repr(line) {
                    Ok((RespView::Integer(int_repr_val(line)), i + 2))
                } else {
                    Err(DecodeError::MalformedInput)
                }
            },
            None => Err(DecodeError::NeedMoreData),
        }
    } else if s[0] == 36 {
        match find_crlf(s) {
            Some(i) => {
                let line = s.subrange(1, i);
                if line == null_line() {
                    Ok((RespView::NullBulkString, i + 2))
                } else if canonical_digits(line) && digits_val(line) <= usize::MAX as nat {
                    let n = digits_val(line) as int;
                    if s.len() < i + 2 + n + 2 {
                        Err(DecodeError::NeedMoreData)
                    } else if s[i + 2 + n] == 13 && s[i + 2 + n + 1] == 10 {
                        Ok((RespView::BulkString(s.subrange(i + 2, i + 2 + n)), i + 2 + n + 2))
                    } else {
                        Err(DecodeError::MalformedInput)
                    }
                } else {
                    Err(DecodeError::MalformedInput)
                }
            },
            None => Err(DecodeError::NeedMoreData),
        }
    } else if s[0] == 42 {
        match find_crlf(s) {
            Some(i) => {
                let line = s.subrange(1, i);
                if line == null_line() {
                    Ok((RespView::NullArray, i + 2))
                } else if canonical_digits(line) && digits_val(line) <= usize::MAX as nat {
                    match decode_elems(s.skip(i + 2), digits_val(line)) {
                        Ok((vs, m)) => Ok((RespView::Array(vs), i + 2 + m)),
                        Err(e) => Err(e),
                    }
                } else {
                    Err(DecodeError::MalformedInput)
                }
            },
            None => Err(DecodeError::NeedMoreData),
        }
    } else {
        Err(DecodeError::MalformedInput)
    }
}

#[via_fn]
proof fn decode_one_dec(s: Seq<u8>) {
    lemma_find_crlf(s);
}

/// Decodes `count` consecutive values from `s`: their views and the total
/// count of bytes they occupy.
pub open spec fn decode_elems(s: Seq<u8>, count: nat) -> Result<(Seq<RespView>, int), DecodeError>
    decreases s.len(), count, 1int,
{
    if count == 0 {
        Ok((Seq::<RespView>::empty(), 0))
    } else {
        match decode_one(s) {
            Ok((v, n)) => if 1 <= n <= s.len() {
                match decode_elems(s.skip(n), (count - 1) as nat) {
                    Ok((vs, m)) => Ok((seq![v] + vs, n + m)),
                    Err(e) => Err(e),
                }
            } else {
                // decode_one never reports such a count; see
                // lemma_decode_one_bounds
                Err(DecodeError::MalformedInput)
            },
            Err(e) => Err(e),
        }
    }
}

/// A decoded value occupies at least one byte and no more than the buffer.
pub proof fn lemma_decode_one_bounds(s: Seq<u8>)
    ensures
        decode_one(s) matches Ok(p) ==> 1 <= p.1 <= s.len(),
    decreases s.len(), 0int, 0int,
{
    if s.len() == 0 {
    } else {
        lemma_find_crlf(s);
        if s[0] == 42 {
            match find_crlf(s) {
                Some(i) => {
                    let line = s.subrange(1, i);
                    if line == null_line() {
                    } else if canonical_digits(line) && digits_val(line) <= usize::MAX as nat {
                        lemma_decode_elems_bounds(s.skip(i + 2), digits_val(line));
                    }
                },
                None => {},
            }
        }
    }
}

/// Decoded elements occupy between zero bytes and the whole buffer, and the
/// element count is as requested.
pub proof fn lemma_decode_elems_bounds(s: Seq<u8>, count: nat)
    ensures
        decode_elems(s, count) matches Ok(p) ==> 0 <= p.1 <= s.len() && p.0.len() == count,
    decreases s.len(), count, 1int,
{
    if count == 0 {
    } else {
        lemma_decode_one_bounds(s);
        match decode_one(s) {
            Ok((v, n)) => {
                if 1 <= n <= s.len() {
                    lemma_decode_elems_bounds(s.skip(n), (count - 1) as nat);
                }
            },
            Err(e) => {},
        }
    }
}

/// The executable result agrees with the mathematical decoder.
pub open spec fn value_matches(
    r: Result<(RESPString, usize), DecodeError>,
    d: Result<(RespView, int), DecodeError>,
) -> bool {
    match (r, d) {
        (Ok((v, n)), Ok((dv, dn))) => v.dview() == dv && n as int == dn,
        (Err(e), Err(de)) => e == de,
        _ => false,
    }
}

pub open spec fn elems_match(
    r: Result<(Vec<RESPString>, usize), DecodeError>,
    d: Result<(Seq<RespView>, int), DecodeError>,
) -> bool {
    match (r, d) {
        (Ok((vs, m)), Ok((dvs, dm))) => seq_dview(vs@) == dvs && m as int == dm,
        (Err(e), Err(de)) => e == de,
        _ => false,
    }
}

/// Finds the first CRLF pair at or after `start`, as an absolute index.
fn find_crlf_from(buf: &Vec<u8>, start: usize) -> (r: Option<usize>)
    requires
        start <= buf.len(),
    ensures
        match r {
            Some(a) => start <= a && a + 2 <= buf.len() && find_crlf(buf@.skip(start as int))
                == Some(a - start),
            None => find_crlf(buf@.skip(start as int)) is None,
        },
{
    let ghost s = buf@.skip(start as int);
    let mut i: usize = start;
    while buf.len() - i > 1
        invariant
            start <= i <= buf.len(),
            s == buf@.skip(start as int),
            forall|j: int| 0 <= j < i - start ==> !(#[trigger] s[j] == 13 && s[j + 1] == 10),
        decreases buf.len() - i,
    {
        if buf[i] == 13 && buf[i + 1] == 10 {
            proof {
                assert(s[i - start] == 13 && s[i - start + 1] == 10);
                lemma_find_crlf_at(s, i - start);
            }
            return Some(i);
        }
        proof {
            assert(s[i - start] == buf@[i as int] && s[i - start + 1] == buf@[i + 1]);
        }
        i = i + 1;
    }
    proof {
        lemma_find_crlf(s);
        match find_crlf(s) {
            Some(k) => {
                assert(!(s[k] == 13 && s[k + 1] == 10));
            },
            None => {},
        }
    }
    None
}

/// A fresh copy of `buf[start..end]`.
pub fn copy_range(buf: &Vec<u8>, start: usize, end: usize) -> (r: Vec<u8>)
    requires
        start <= end <= buf.len(),
    ensures
        r@ == buf@.subrange(start as int, end as int),
{
    let mut out: Vec<u8> = Vec::new();
    let mut i: usize = start;
    while i < end
        invariant
            start <= i <= end <= buf.len(),
            out@ == buf@.subrange(start as int, i as int),
        decreases end - i,
    {
        out.push(buf[i]);
        assert(out@ =~= buf@.subrange(start as int, i + 1));
        i = i + 1;
    }
    out
}

/// Decodes the first value found at `pos`, returning it with the count of
/// bytes it occupies there.
fn parse_value(buf: &Vec<u8>, pos: usize) -> (r: Result<(RESPString, usize), DecodeError>)
    requires
        pos <= buf.len(),
    ensures
        value_matches(r, decode_one(buf@.skip(pos as int))),
    decreases buf.len() - pos, 0int, 0int,
{
    let ghost s = buf@.skip(pos as int);
    proof {
        assert(s.len() == buf.len() - pos);
    }
    if pos == buf.len() {
        return Err(DecodeError::NeedMoreData);
    }
    let sigil = buf[pos];
    assert(s[0] == sigil);
    if sigil == 43 || sigil == 45 {
        match find_crlf_from(buf, pos) {
            None => Err(DecodeError::NeedMoreData),
            Some(a) => {
                let ghost i = a - pos;
                proof {
                    lemma_find_crlf(s);
                    assert(s[i] == 13);
                }
                let text = copy_range(buf, pos + 1, a);
                assert(text@ =~= s.subrange(1, i));
                if sigil == 43 {
                    Ok((RESPString::SimpleString(text), a + 2 - pos))
                } else {
                    Ok((RESPString::Error(text), a + 2 - pos))
                }
            },
        }
    } else if sigil == 58 {
        match find_crlf_from(buf, pos) {
            None => Err(DecodeError::NeedMoreData),
            Some(a) => {
                let ghost i = a - pos;
                proof {
                    lemma_find_crlf(s);
                    assert(buf@.subrange(pos + 1, a as int) =~= s.subrange(1, i));
                }
                match parse_i64_repr(buf, pos + 1, a) {
                    Some(v) => Ok((RESPString::Integer(v), a + 2 - pos)),
                    None => Err(DecodeError::MalformedInput),
                }
            },
        }
    } else if sigil == 36 {
        match find_crlf_from(buf, pos) {
            None => Err(DecodeError::NeedMoreData),
            Some(a) => {
                let ghost i = a - pos;
                let ghost line = s.subrange(1, i);
                proof {
                    lemma_find_crlf(s);
                    assert(buf@.subrange(pos + 1, a as int) =~= line);
                }
                if a - pos == 3 && buf[pos + 1] == 45 && buf[pos + 2] == 49 {
                    assert(line =~= null_line());
                    return Ok((RESPString::NullBulkString, a + 2 - pos));
                }
                proof {
                    if line == null_line() {
                        assert(line.len() == 2 && line[0] == 45 && line[1] == 49);
                        assert(s[1] == 45 && s[2] == 49);
                    }
                }
                match parse_u64_cap(buf, pos + 1, a, usize::MAX as u64) {
                    None => Err(DecodeError::MalformedInput),
                    Some(n64) => {
                        let n = n64 as usize;
                        assert(n as nat == digits_val(line));
                        let rem = buf.len() - (a + 2);
                        if rem < 2 || rem - 2 < n {
                            assert(s.len() < i + 2 + n + 2);
                            Err(DecodeError::NeedMoreData)
                        } else {
                            assert(s.len() >= i + 2 + n + 2);
                            let p = a + 2 + n;
                            assert(s[i + 2 + n] == buf@[p as int] && s[i + 2 + n + 1] == buf@[p
                                + 1]);
                            if buf[p] == 13 && buf[p + 1] == 10 {
                                let payload = copy_range(buf, a + 2, a + 2 + n);
                                assert(payload@ =~= s.subrange(i + 2, i + 2 + n));
                                Ok((RESPString::BulkString(payload), a + 2 + n + 2 - pos))
                            } else {
                                Err(DecodeError::MalformedInput)
                            }
                        }
                    },
                }
            },
        }
    } else if sigil == 42 {
        match find_crlf_from(buf, pos) {
            None => Err(DecodeError::NeedMoreData),
            Some(a) => {
                let ghost i = a - pos;
                let ghost line = s.subrange(1, i);
                proof {
                    lemma_find_crlf(s);
                    assert(buf@.subrange(pos + 1, a as int) =~= line);
                }
                if a - pos == 3 && buf[pos + 1] == 45 && buf[pos + 2] == 49 {
                    assert(line =~= null_line());
                    return Ok((RESPString::NullArray, a + 2 - pos));
                }
                proof {
                    if line == null_line() {
                        assert(line.len() == 2 && line[0] == 45 && line[1] == 49);
                        assert(s[1] == 45 && s[2] == 49);
                    }
                }
                match parse_u64_cap(buf, pos + 1, a, usize::MAX as u64) {
                    None => Err(DecodeError::MalformedInput),
                    Some(n64) => {
                        let count = n64 as usize;
                        assert(count as nat == digits_val(line));
                        proof {
                            assert(buf@.skip(a + 2) =~= s.skip(i + 2));
                        }
                        match parse_elems(buf, a + 2, count) {
                            Err(e) => Err(e),
                            Ok((vs, m)) => {
                                proof {
                                    lemma_decode_elems_bounds(s.skip(i + 2), count as nat);
                                    lemma_vec_dview(vs);
                                }
                                Ok((RESPString::Array(vs), a + 2 + m - pos))
                            },
                        }
                    },
                }
            },
        }
    } else {
        Err(DecodeError::MalformedInput)
    }
}

/// Decodes `count` consecutive values found at `pos`.
fn parse_elems(buf: &Vec<u8>, pos: usize, count: usize) -> (r: Result<
    (Vec<RESPString>, usize),
    DecodeError,
>)
    requires
        pos <= buf.len(),
    ensures
        elems_match(r, decode_elems(buf@.skip(pos as int), count as nat)),
    decreases buf.len() - pos, count, 1int,
{
    let ghost s = buf@.skip(pos as int);
    if count == 0 {
        let empty: Vec<RESPString> = Vec::new();
        assert(seq_dview(empty@) =~= Seq::<RespView>::empty());
        return Ok((empty, 0));
    }
    match parse_value(buf, pos) {
        Err(e) => Err(e),
        Ok((v, n)) => {
            proof {
                lemma_decode_one_bounds(s);
            }
            proof {
                assert(buf@.skip(pos + n) =~= s.skip(n as int));
            }
            match parse_elems(buf, pos + n, count - 1) {
                Err(e) => Err(e),
                Ok((vs, m)) => {
                    proof {
                        lemma_decode_elems_bounds(s.skip(n as int), (count - 1) as nat);
                    }
                    let ghost pre = vs@;
                    let mut vs = vs;
                    vs.insert(0, v);
                    proof {
                        assert(seq_dview(vs@) =~= seq![v.dview()] + seq_dview(pre));
                    }
                    Ok((vs, n + m))
                },
            }
        },
    }
}

/// Decodes the first complete value in `buf`, returning it together with the
/// count of bytes it occupied, exactly as the mathematical decoder says.
pub fn parse_resp_string(buf: &Vec<u8>) -> (r: Result<(RESPString, usize), DecodeError>)
    ensures
        value_matches(r, decode_one(buf@)),
{
    proof {
        assert(buf@.skip(0) =~= buf@);
    }
    parse_value(buf, 0)
}

} // verus!
