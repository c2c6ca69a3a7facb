//! What holds of the codec as a whole: decoding undoes encoding, a frame
//! cut short is only incomplete, and bytes after a frame are left alone.

use vstd::prelude::*;
use vstd::utf8::{encode_utf8, encode_utf8_valid_utf8, encode_utf8_decode_utf8, decode_utf8_encode_utf8};
use crate::decimal::{decimal, parse_int, in_i64, lemma_parse_decimal, lemma_decimal_len, all_digits, is_digit};
use crate::frame::{FrameModel, FrameError, MAX_LINE_LEN, CR, LF, crlf, decode, encodable, encoding, find_crlf, is_crlf, line_end, lemma_find_crlf_found};

verus! {

proof fn lemma_find_crlf_at(b: Seq<u8>, i: int, limit: int, e: int)
    requires
        0 <= i <= e < limit,
        is_crlf(b, e),
        forall|j: int| i <= j < e ==> b[j] != CR,
    ensures
        find_crlf(b, i, limit) == Some(e),
    decreases e - i,
{
    if i < e {
        lemma_find_crlf_at(b, i + 1, limit, e);
    }
}

proof fn lemma_find_crlf_none(b: Seq<u8>, i: int, limit: int)
    requires
        0 <= i,
        forall|j: int| i <= j ==> !is_crlf(b, j),
    ensures
        find_crlf(b, i, limit) is None,
    decreases limit - i,
{
    if !(i >= limit || i + 1 >= b.len()) {
        lemma_find_crlf_none(b, i + 1, limit);
    }
}

/// A line without CR, its CR LF, and anything after.
proof fn lemma_line(tag: u8, l: Seq<u8>, rest: Seq<u8>)
    requires
        l.len() <= MAX_LINE_LEN,
        forall|j: int| 0 <= j < l.len() ==> l[j] != CR,
    ensures
        ({
            let b = seq![tag] + l + crlf() + rest;
            &&& b[0] == tag
            &&& line_end(b) == Ok::<int, FrameError>(1 + l.len() as int)
            &&& b.subrange(1, 1 + l.len() as int) == l
        }),
{
    let b = seq![tag] + l + crlf() + rest;
    assert forall|j: int| 1 <= j < 1 + l.len() implies b[j] != CR by {
        assert(b[j] == l[j - 1]);
    }
    lemma_find_crlf_at(b, 1, MAX_LINE_LEN as int + 2, 1 + l.len() as int);
    assert(b.subrange(1, 1 + l.len() as int) =~= l);
}

/// The first bytes of a line without CR, up to and including its CR.
proof fn lemma_line_prefix(tag: u8, l: Seq<u8>, k: int)
    requires
        l.len() <= MAX_LINE_LEN,
        forall|j: int| 0 <= j < l.len() ==> l[j] != CR,
        1 <= k <= l.len() + 2,
    ensures
        line_end((seq![tag] + l + crlf()).subrange(0, k)) == Err::<int, FrameError>(FrameError::Incomplete),
{
    let p = (seq![tag] + l + crlf()).subrange(0, k);
    assert forall|j: int| 1 <= j implies !is_crlf(p, j) by {
        if 1 <= j < 1 + l.len() && j < p.len() {
            assert(p[j] == l[j - 1]);
        }
    }
    lemma_find_crlf_none(p, 1, MAX_LINE_LEN as int + 2);
}

/// The text of an `i64` has no CR and fits a line.
proof fn lemma_decimal_line(n: int)
    requires
        in_i64(n),
    ensures
        decimal(n).len() <= MAX_LINE_LEN,
        forall|j: int| 0 <= j < decimal(n).len() ==> decimal(n)[j] != CR,
{
    lemma_decimal_len(n);
    lemma_parse_decimal(n);
    let d = decimal(n);
    if n < 0 {
        assert(all_digits(d.drop_first()));
        assert forall|j: int| 0 <= j < d.len() implies d[j] != CR by {
            if j > 0 {
                assert(is_digit(d.drop_first()[j - 1]));
            }
        }
    } else {
        assert(all_digits(d));
        assert forall|j: int| 0 <= j < d.len() implies d[j] != CR by {
            assert(is_digit(d[j]));
        }
    }
}

/// Decoding undoes encoding: a frame that the grammar can carry, followed by
/// any bytes at all, decodes to that same frame and takes exactly its own
/// bytes.
pub proof fn lemma_round_trip(f: FrameModel, rest: Seq<u8>)
    requires
        encodable(f),
    ensures
        decode(encoding(f) + rest) == Ok::<(FrameModel, int), FrameError>(
            (f, encoding(f).len() as int),
        ),
{
    let b = encoding(f) + rest;
    match f {
        FrameModel::Simple(t) => {
            let l = encode_utf8(t);
            lemma_line(43u8, l, rest);
            assert(b =~= seq![43u8] + l + crlf() + rest);
            encode_utf8_valid_utf8(t);
            encode_utf8_decode_utf8(t);
        },
        FrameModel::Error(t) => {
            let l = encode_utf8(t);
            lemma_line(45u8, l, rest);
            assert(b =~= seq![45u8] + l + crlf() + rest);
            encode_utf8_valid_utf8(t);
            encode_utf8_decode_utf8(t);
        },
        FrameModel::Integer(n) => {
            let l = decimal(n);
            lemma_decimal_line(n);
            lemma_parse_decimal(n);
            lemma_line(58u8, l, rest);
            assert(b =~= seq![58u8] + l + crlf() + rest);
        },
        FrameModel::Null => {
            let l = decimal(-1);
            assert(l =~= seq![45u8, 49u8]);
            lemma_decimal_line(-1);
            lemma_parse_decimal(-1);
            lemma_line(36u8, l, rest);
            assert(b =~= seq![36u8] + l + crlf() + rest);
        },
        FrameModel::Bulk(p) => {
            let n = p.len() as int;
            let l = decimal(n);
            lemma_decimal_line(n);
            lemma_parse_decimal(n);
            let tail = p + crlf() + rest;
            lemma_line(36u8, l, tail);
            assert(b =~= seq![36u8] + l + crlf() + tail);
            let next = l.len() as int + 3;
            assert(b.subrange(next, next + n) =~= p);
            assert(b[next + n] == CR);
            assert(b[next + n + 1] == LF);
        },
        FrameModel::Array(_) => {},
    }
}

/// A frame cut short is only incomplete: every proper prefix of its bytes
/// decodes to a request for more data, never to an error or a frame.
pub proof fn lemma_prefix_incomplete(f: FrameModel, k: int)
    requires
        encodable(f),
        0 <= k < encoding(f).len(),
    ensures
        decode(encoding(f).subrange(0, k)) == Err::<(FrameModel, int), FrameError>(
            FrameError::Incomplete,
        ),
{
    let e = encoding(f);
    let pre = e.subrange(0, k);
    if k > 0 {
        match f {
            FrameModel::Simple(t) => {
                let l = encode_utf8(t);
                assert(e =~= seq![43u8] + l + crlf());
                lemma_line_prefix(43u8, l, k);
            },
            FrameModel::Error(t) => {
                let l = encode_utf8(t);
                assert(e =~= seq![45u8] + l + crlf());
                lemma_line_prefix(45u8, l, k);
            },
            FrameModel::Integer(n) => {
                let l = decimal(n);
                lemma_decimal_line(n);
                assert(e =~= seq![58u8] + l + crlf());
                lemma_line_prefix(58u8, l, k);
            },
            FrameModel::Null => {
                let l = decimal(-1);
                assert(l =~= seq![45u8, 49u8]);
                lemma_decimal_line(-1);
                assert(e =~= seq![36u8] + l + crlf());
                lemma_line_prefix(36u8, l, k);
            },
            FrameModel::Bulk(p) => {
                let n = p.len() as int;
                let l = decimal(n);
                lemma_decimal_line(n);
                if k <= l.len() as int + 2 {
                    assert(pre =~= (seq![36u8] + l + crlf()).subrange(0, k));
                    lemma_line_prefix(36u8, l, k);
                } else {
                    lemma_parse_decimal(n);
                    let tail = (p + crlf()).subrange(0, k - l.len() as int - 3);
                    assert(pre =~= seq![36u8] + l + crlf() + tail);
                    lemma_line(36u8, l, tail);
                }
            },
            FrameModel::Array(_) => {},
        }
    }
}

/// Frames sent back to back come apart: the first decodes from the joined
/// bytes, what it leaves is exactly the second frame's bytes, and those
/// decode to the second frame.
pub proof fn lemma_back_to_back(f1: FrameModel, f2: FrameModel)
    requires
        encodable(f1),
        encodable(f2),
    ensures
        ({
            let b = encoding(f1) + encoding(f2);
            let n1 = encoding(f1).len() as int;
            &&& decode(b) == Ok::<(FrameModel, int), FrameError>((f1, n1))
            &&& b.subrange(n1, b.len() as int) == encoding(f2)
            &&& decode(b.subrange(n1, b.len() as int)) == Ok::<(FrameModel, int), FrameError>(
                (f2, encoding(f2).len() as int),
            )
        }),
{
    let b = encoding(f1) + encoding(f2);
    lemma_round_trip(f1, encoding(f2));
    lemma_round_trip(f2, Seq::empty());
    assert(encoding(f2) + Seq::<u8>::empty() =~= encoding(f2));
    assert(b.subrange(encoding(f1).len() as int, b.len() as int) =~= encoding(f2));
}

/// Decoding yields only what encoding makes: a frame taken from a buffer is
/// one the grammar can carry, and the bytes it took are exactly that
/// frame's encoding. So every frame decoded re-encodes to the same bytes.
pub proof fn lemma_decode_canonical(b: Seq<u8>)
    ensures
        decode(b) matches Ok((f, n)) ==> encodable(f) && b.subrange(0, n) == encoding(f),
{
    if let Ok((f, n)) = decode(b) {
        lemma_find_crlf_found(b, 1, MAX_LINE_LEN as int + 2);
        let e = line_end(b)->Ok_0;
        let line = b.subrange(1, e);
        let head = seq![b[0]] + line + crlf();
        assert(b.subrange(0, e + 2) =~= head);
        if b[0] == 43u8 || b[0] == 45u8 {
            decode_utf8_encode_utf8(line);
        } else if b[0] == 58u8 {
        } else {
            let v = parse_int(line)->Some_0;
            if v == -1 {
                assert(decimal(-1) =~= seq![45u8, 49u8]);
            } else {
                let p = b.subrange(e + 2, e + 2 + v);
                assert(b.subrange(0, n) =~= head + p + crlf());
            }
        }
    }
}

} // verus!
