//! The codec laws: decoding a canonical encoding gives back the encoded
//! value, and a truncated encoding is always answered with `NeedMoreData`,
//! never with a wrong value or a protocol error.

use vstd::prelude::*;

verus! {

use crate::num::{dec_digits, dec_int, is_digit, lemma_dec_digits, lemma_dec_int};
use crate::resp::{RespView, encode_view, encode_elems_from, crlf, lemma_encode_view_len,
    lemma_array_wf};
use crate::parse::{DecodeError, decode_one, decode_elems, find_crlf, lemma_find_crlf,
    lemma_find_crlf_at, null_line};

/// A header line `<sigil><line>\r\n` puts the first CRLF right after the
/// line, whatever follows.
proof fn lemma_line_header(sig: u8, line: Seq<u8>, tail: Seq<u8>)
    requires
        sig != 13,
        forall|j: int| 0 <= j < line.len() ==> #[trigger] line[j] != 13,
    ensures
        find_crlf(seq![sig] + line + crlf() + tail) == Some(1 + line.len() as int),
        (seq![sig] + line + crlf() + tail).subrange(1, 1 + line.len() as int) == line,
{
    let s = seq![sig] + line + crlf() + tail;
    let q = 1 + line.len() as int;
    assert(s[0] == sig);
    assert(s[q] == 13 && s[q + 1] == 10);
    assert forall|j: int| 0 <= j < q implies !(#[trigger] s[j] == 13 && s[j + 1] == 10) by {
        if j >= 1 {
            assert(s[j] == line[j - 1]);
        }
    }
    lemma_find_crlf_at(s, q);
    assert(s.subrange(1, q) =~= line);
}

/// A truncated header line holds no CRLF at all.
proof fn lemma_line_header_prefix(sig: u8, line: Seq<u8>, tail: Seq<u8>, i: int)
    requires
        sig != 13,
        forall|j: int| 0 <= j < line.len() ==> #[trigger] line[j] != 13,
        0 <= i <= 1 + line.len() + 1,
        i <= (seq![sig] + line + crlf() + tail).len(),
    ensures
        find_crlf((seq![sig] + line + crlf() + tail).take(i)) is None,
{
    let s = seq![sig] + line + crlf() + tail;
    let p = s.take(i);
    assert forall|j: int| 0 <= j && j + 2 <= p.len() implies !(#[trigger] p[j] == 13 && p[j + 1]
        == 10) by {
        assert(p[j] == s[j]);
        if j >= 1 {
            assert(s[j] == line[j - 1]);
        }
    }
    lemma_find_crlf(p);
    match find_crlf(p) {
        Some(k) => {
            assert(!(p[k] == 13 && p[k + 1] == 10));
        },
        None => {},
    }
}

/// Decoding an encoding followed by anything yields the encoded value and
/// consumes exactly the encoding.
pub proof fn lemma_decode_encode(v: RespView, rest: Seq<u8>)
    requires
        v.wf(),
    ensures
        decode_one(encode_view(v) + rest) == Ok::<(RespView, int), DecodeError>(
            (v, encode_view(v).len() as int),
        ),
    decreases v, 0int,
{
    let e = encode_view(v);
    let s = e + rest;
    match v {
        RespView::SimpleString(text) => {
            assert(s =~= seq![43u8] + text + crlf() + rest);
            lemma_line_header(43, text, rest);
        },
        RespView::Error(text) => {
            assert(s =~= seq![45u8] + text + crlf() + rest);
            lemma_line_header(45, text, rest);
        },
        RespView::Integer(i) => {
            lemma_dec_int(i);
            assert(s =~= seq![58u8] + dec_int(i) + crlf() + rest);
            lemma_line_header(58, dec_int(i), rest);
        },
        RespView::BulkString(text) => {
            let line = dec_digits(text.len());
            lemma_dec_digits(text.len());
            assert(forall|j: int| 0 <= j < line.len() ==> #[trigger] line[j] != 13);
            assert(s =~= seq![36u8] + line + (crlf() + text + crlf() + rest));
            assert(seq![36u8] + line + (crlf() + text + crlf() + rest) =~= seq![36u8] + line
                + crlf() + (text + crlf() + rest));
            lemma_line_header(36, line, text + crlf() + rest);
            let q = 1 + line.len() as int;
            assert(is_digit(line[0]));
            assert(line != null_line()) by {
                if line == null_line() {
                    assert(line[0] == 45);
                }
            }
            let n = text.len() as int;
            assert(s.len() == q + 2 + n + 2 + rest.len());
            assert(s[q + 2 + n] == 13 && s[q + 2 + n + 1] == 10) by {
                assert(s =~= (seq![36u8] + line + crlf() + text) + (crlf() + rest));
            }
            assert(s.subrange(q + 2, q + 2 + n) =~= text);
        },
        RespView::NullBulkString => {
            assert(s =~= seq![36u8] + null_line() + crlf() + rest);
            assert(forall|j: int| 0 <= j < null_line().len() ==> #[trigger] null_line()[j] != 13);
            lemma_line_header(36, null_line(), rest);
            assert(e.len() == 5);
        },
        RespView::Array(elems) => {
            let line = dec_digits(elems.len());
            let body = encode_elems_from(elems, 0);
            lemma_dec_digits(elems.len());
            assert(forall|j: int| 0 <= j < line.len() ==> #[trigger] line[j] != 13);
            assert(s =~= seq![42u8] + line + crlf() + (body + rest));
            lemma_line_header(42, line, body + rest);
            let q = 1 + line.len() as int;
            assert(is_digit(line[0]));
            assert(line != null_line()) by {
                if line == null_line() {
                    assert(line[0] == 45);
                }
            }
            assert(s.skip(q + 2) =~= body + rest);
            lemma_array_wf(elems);
            lemma_decode_encode_elems(elems, 0, rest);
            assert(elems.skip(0) =~= elems);
        },
        RespView::NullArray => {
            assert(s =~= seq![42u8] + null_line() + crlf() + rest);
            assert(forall|j: int| 0 <= j < null_line().len() ==> #[trigger] null_line()[j] != 13);
            lemma_line_header(42, null_line(), rest);
            assert(e.len() == 5);
        },
    }
}

/// Decoding the concatenated encodings of `elems[k..]` followed by anything
/// yields exactly those elements.
pub proof fn lemma_decode_encode_elems(elems: Seq<RespView>, k: int, rest: Seq<u8>)
    requires
        0 <= k <= elems.len(),
        forall|j: int| k <= j < elems.len() ==> (#[trigger] elems[j]).wf(),
    ensures
        decode_elems(encode_elems_from(elems, k) + rest, (elems.len() - k) as nat) == Ok::<
            (Seq<RespView>, int),
            DecodeError,
        >((elems.skip(k), encode_elems_from(elems, k).len() as int)),
    decreases elems, elems.len() - k,
{
    let body = encode_elems_from(elems, k);
    let s = body + rest;
    if k == elems.len() {
        assert(body =~= Seq::<u8>::empty());
        assert(s =~= rest);
        assert(elems.skip(k) =~= Seq::<RespView>::empty());
    } else {
        let e0 = elems[k];
        let enc0 = encode_view(e0);
        let tail = encode_elems_from(elems, k + 1);
        assert(body == enc0 + tail);
        assert(s =~= enc0 + (tail + rest));
        assert(decreases_to!(elems => elems[k]));
        lemma_decode_encode(e0, tail + rest);
        lemma_encode_view_len(e0);
        let n0 = enc0.len() as int;
        assert(1 <= n0 <= s.len());
        assert(s.skip(n0) =~= tail + rest);
        lemma_decode_encode_elems(elems, k + 1, rest);
        assert(seq![e0] + elems.skip(k + 1) =~= elems.skip(k));
    }
}

/// Round trip: decoding the canonical encoding of any well-formed value
/// yields that value back, consuming the whole encoding.
pub proof fn lemma_round_trip(v: RespView)
    requires
        v.wf(),
    ensures
        decode_one(encode_view(v)) == Ok::<(RespView, int), DecodeError>(
            (v, encode_view(v).len() as int),
        ),
{
    lemma_decode_encode(v, Seq::<u8>::empty());
    assert(encode_view(v) + Seq::<u8>::empty() =~= encode_view(v));
}

/// A strict prefix of an encoding decodes to `NeedMoreData`: never to a
/// value, never to a protocol error.
pub proof fn lemma_prefix_incomplete(v: RespView, i: int)
    requires
        v.wf(),
        0 <= i < encode_view(v).len(),
    ensures
        decode_one(encode_view(v).take(i)) == Err::<(RespView, int), DecodeError>(
            DecodeError::NeedMoreData,
        ),
    decreases v, 0int,
{
    let e = encode_view(v);
    let p = e.take(i);
    if i == 0 {
        assert(p.len() == 0);
    } else {
        match v {
            RespView::SimpleString(text) => {
                assert(e =~= seq![43u8] + text + crlf() + Seq::<u8>::empty());
                lemma_line_header_prefix(43, text, Seq::<u8>::empty(), i);
                assert(p[0] == 43);
            },
            RespView::Error(text) => {
                assert(e =~= seq![45u8] + text + crlf() + Seq::<u8>::empty());
                lemma_line_header_prefix(45, text, Seq::<u8>::empty(), i);
                assert(p[0] == 45);
            },
            RespView::Integer(n) => {
                lemma_dec_int(n);
                assert(e =~= seq![58u8] + dec_int(n) + crlf() + Seq::<u8>::empty());
                lemma_line_header_prefix(58, dec_int(n), Seq::<u8>::empty(), i);
                assert(p[0] == 58);
            },
            RespView::NullBulkString => {
                assert(forall|j: int| 0 <= j < null_line().len() ==> #[trigger] null_line()[j]
                    != 13);
                assert(e =~= seq![36u8] + null_line() + crlf() + Seq::<u8>::empty());
                lemma_line_header_prefix(36, null_line(), Seq::<u8>::empty(), i);
                assert(p[0] == 36);
            },
            RespView::NullArray => {
                assert(forall|j: int| 0 <= j < null_line().len() ==> #[trigger] null_line()[j]
                    != 13);
                assert(e =~= seq![42u8] + null_line() + crlf() + Seq::<u8>::empty());
                lemma_line_header_prefix(42, null_line(), Seq::<u8>::empty(), i);
                assert(p[0] == 42);
            },
            RespView::BulkString(text) => {
                let line = dec_digits(text.len());
                lemma_dec_digits(text.len());
                assert(forall|j: int| 0 <= j < line.len() ==> #[trigger] line[j] != 13);
                let q = 1 + line.len() as int;
                let n = text.len() as int;
                let after = text + crlf();
                assert(e =~= seq![36u8] + line + crlf() + after);
                assert(p[0] == 36);
                if i <= q + 1 {
                    lemma_line_header_prefix(36, line, after, i);
                } else {
                    lemma_line_header(36, line, after);
                    assert(p[q] == e[q] && p[q + 1] == e[q + 1]);
                    assert forall|j: int| 0 <= j < q implies !(#[trigger] p[j] == 13 && p[j + 1]
                        == 10) by {
                        assert(p[j] == e[j]);
                        if j >= 1 {
                            assert(e[j] == line[j - 1]);
                        }
                    }
                    lemma_find_crlf_at(p, q);
                    assert(p.subrange(1, q) =~= line);
                    assert(is_digit(line[0]));
                    assert(line != null_line()) by {
                        if line == null_line() {
                            assert(line[0] == 45);
                        }
                    }
                    assert(e.len() == q + 2 + n + 2);
                    assert(p.len() < q + 2 + n + 2);
                }
            },
            RespView::Array(elems) => {
                let line = dec_digits(elems.len());
                let body = encode_elems_from(elems, 0);
                lemma_dec_digits(elems.len());
                assert(forall|j: int| 0 <= j < line.len() ==> #[trigger] line[j] != 13);
                let q = 1 + line.len() as int;
                assert(e =~= seq![42u8] + line + crlf() + body);
                assert(p[0] == 42);
                if i <= q + 1 {
                    lemma_line_header_prefix(42, line, body, i);
                } else {
                    lemma_line_header(42, line, body);
                    assert(p[q] == e[q] && p[q + 1] == e[q + 1]);
                    assert forall|j: int| 0 <= j < q implies !(#[trigger] p[j] == 13 && p[j + 1]
                        == 10) by {
                        assert(p[j] == e[j]);
                        if j >= 1 {
                            assert(e[j] == line[j - 1]);
                        }
                    }
                    lemma_find_crlf_at(p, q);
                    assert(p.subrange(1, q) =~= line);
                    assert(is_digit(line[0]));
                    assert(line != null_line()) by {
                        if line == null_line() {
                            assert(line[0] == 45);
                        }
                    }
                    assert(e.len() == q + 2 + body.len());
                    assert(p.skip(q + 2) =~= body.take(i - (q + 2)));
                    lemma_array_wf(elems);
                    lemma_prefix_incomplete_elems(elems, 0, i - (q + 2));
                }
            },
        }
    }
}

/// A strict prefix of the concatenated element encodings decodes to
/// `NeedMoreData`.
pub proof fn lemma_prefix_incomplete_elems(elems: Seq<RespView>, k: int, i: int)
    requires
        0 <= k <= elems.len(),
        forall|j: int| k <= j < elems.len() ==> (#[trigger] elems[j]).wf(),
        0 <= i < encode_elems_from(elems, k).len(),
    ensures
        decode_elems(encode_elems_from(elems, k).take(i), (elems.len() - k) as nat) == Err::<
            (Seq<RespView>, int),
            DecodeError,
        >(DecodeError::NeedMoreData),
    decreases elems, elems.len() - k,
{
    let body = encode_elems_from(elems, k);
    let p = body.take(i);
    assert(k < elems.len());
    let e0 = elems[k];
    let enc0 = encode_view(e0);
    let tail = encode_elems_from(elems, k + 1);
    assert(body == enc0 + tail);
    let n0 = enc0.len() as int;
    assert(decreases_to!(elems => elems[k]));
    if i < n0 {
        assert(p =~= enc0.take(i));
        lemma_prefix_incomplete(e0, i);
    } else {
        assert(p =~= enc0 + tail.take(i - n0));
        lemma_decode_encode(e0, tail.take(i - n0));
        lemma_encode_view_len(e0);
        assert(1 <= n0 <= p.len());
        assert(p.skip(n0) =~= tail.take(i - n0));
        assert(i - n0 < tail.len());
        assert(k + 1 < elems.len());
        lemma_prefix_incomplete_elems(elems, k + 1, i - n0);
    }
}

/// Fragmentation invariance: however a valid encoding is cut in two, the
/// decoder answers `NeedMoreData` on the first piece alone and yields the
/// encoded value once the rest has arrived.
pub proof fn lemma_fragmentation(v: RespView, i: int)
    requires
        v.wf(),
        0 <= i <= encode_view(v).len(),
    ensures
        i < encode_view(v).len() ==> decode_one(encode_view(v).take(i)) == Err::<
            (RespView, int),
            DecodeError,
        >(DecodeError::NeedMoreData),
        i == encode_view(v).len() ==> decode_one(encode_view(v).take(i)) == Ok::<
            (RespView, int),
            DecodeError,
        >((v, i)),
{
    if i < encode_view(v).len() {
        lemma_prefix_incomplete(v, i);
    } else {
        assert(encode_view(v).take(i) =~= encode_view(v));
        lemma_round_trip(v);
    }
}

} // verus!
