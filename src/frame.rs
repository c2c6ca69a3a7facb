//! Frames and their wire encoding.
//!
//! A frame starts with a one-byte tag. Simple, error and integer frames are
//! one line ended by CR LF; a bulk frame is a length line followed by that
//! many bytes and CR LF; `$-1` stands for null. Arrays are recognised by
//! their tag but neither decoded nor encoded.

use vstd::prelude::*;
use vstd::slice::{slice_subrange, slice_to_vec};
use vstd::string::StringSliceAdditionalSpecFns;
use vstd::utf8::{decode_utf8, encode_utf8, valid_utf8, encode_utf8_decode_utf8};
use crate::decimal::{decimal, in_i64, parse_i64, parse_int, push_decimal, push_digits};

verus! {

/// The longest line (the bytes before its CR LF) that a frame may hold.
pub const MAX_LINE_LEN: usize = 65536;

pub const CR: u8 = 13;

pub const LF: u8 = 10;

/// What is wrong with bytes that cannot be a frame.
#[derive(Debug, Clone, Copy, PartialEq, Eq, Structural)]
pub enum Malformation {
    /// No CR LF within the longest line allowed.
    LineTooLong,
    /// The first byte is no known tag.
    UnknownTag,
    /// A simple or error line that is not UTF-8 text, or holds a CR or LF.
    BadText,
    /// An integer line that is not the canonical decimal text of an `i64`
    /// (no `+`, no leading zeros, no `-0`).
    BadInteger,
    /// A bulk length that is neither `-1` nor the canonical decimal text of
    /// a number in `0..=i64::MAX`.
    BadLength,
    /// A bulk payload not followed by CR LF.
    BadTerminator,
}

/// Why no frame could be taken from a buffer.
#[derive(Debug, Clone, Copy, PartialEq, Eq, Structural)]
pub enum FrameError {
    /// The bytes so far are the start of a frame: wait for more.
    Incomplete,
    Malformed(Malformation),
    /// An array frame, which this protocol does not carry.
    Unsupported,
}

/// A value on the wire.
#[derive(Debug, PartialEq, Eq)]
pub enum Frame {
    /// A short status line, without CR or LF.
    Simple(String),
    /// An error reply, shaped like a simple line.
    Error(String),
    Integer(i64),
    /// The absence of a value.
    Null,
    /// A binary payload of any length.
    Bulk(Vec<u8>),
    /// Known by its tag only: it can be neither decoded nor encoded.
    Array(Vec<Frame>),
}

/// A frame as a mathematical value. An array keeps only its length: no
/// operation here looks inside one.
pub ghost enum FrameModel {
    Simple(Seq<char>),
    Error(Seq<char>),
    Integer(int),
    Null,
    Bulk(Seq<u8>),
    Array(nat),
}

impl View for Frame {
    type V = FrameModel;

    open spec fn view(&self) -> FrameModel {
        match self {
            Frame::Simple(s) => FrameModel::Simple(s@),
            Frame::Error(s) => FrameModel::Error(s@),
            Frame::Integer(n) => FrameModel::Integer(*n as int),
            Frame::Null => FrameModel::Null,
            Frame::Bulk(b) => FrameModel::Bulk(b@),
            Frame::Array(v) => FrameModel::Array(v@.len()),
        }
    }
}

pub open spec fn crlf() -> Seq<u8> {
    seq![CR, LF]
}

/// The wire bytes of a frame (arrays have none).
pub open spec fn encoding(f: FrameModel) -> Seq<u8> {
    match f {
        FrameModel::Simple(s) => seq![43u8] + encode_utf8(s) + crlf(),
        FrameModel::Error(s) => seq![45u8] + encode_utf8(s) + crlf(),
        FrameModel::Integer(n) => seq![58u8] + decimal(n) + crlf(),
        FrameModel::Null => seq![36u8, 45u8, 49u8, CR, LF],
        FrameModel::Bulk(b) => seq![36u8] + decimal(b.len() as int) + crlf() + b + crlf(),
        FrameModel::Array(_) => Seq::empty(),
    }
}

/// No byte is CR or LF.
pub open spec fn no_cr_lf(b: Seq<u8>) -> bool {
    forall|i: int| 0 <= i < b.len() ==> #[trigger] b[i] != CR && b[i] != LF
}

/// Text that a simple or error frame can carry: its UTF-8 bytes hold no CR
/// or LF (so neither do its characters), and they fit a line.
pub open spec fn text_fits(s: Seq<char>) -> bool {
    &&& no_cr_lf(encode_utf8(s))
    &&& encode_utf8(s).len() <= MAX_LINE_LEN
}

/// The frames that the wire grammar can carry.
pub open spec fn encodable(f: FrameModel) -> bool {
    match f {
        FrameModel::Simple(s) => text_fits(s),
        FrameModel::Error(s) => text_fits(s),
        FrameModel::Integer(n) => in_i64(n),
        FrameModel::Null => true,
        FrameModel::Bulk(b) => b.len() <= i64::MAX,
        FrameModel::Array(_) => false,
    }
}

pub open spec fn is_crlf(b: Seq<u8>, i: int) -> bool {
    0 <= i && i + 1 < b.len() && b[i] == CR && b[i + 1] == LF
}

/// The first CR LF at or after `i` that starts before `limit`, if the
/// buffer shows one.
pub open spec fn find_crlf(b: Seq<u8>, i: int, limit: int) -> Option<int>
    decreases limit - i,
{
    if i >= limit || i + 1 >= b.len() {
        None
    } else if is_crlf(b, i) {
        Some(i)
    } else {
        find_crlf(b, i + 1, limit)
    }
}

/// Where the line after the tag ends: the position of its CR LF, or why
/// there is none yet.
pub open spec fn line_end(b: Seq<u8>) -> Result<int, FrameError> {
    match find_crlf(b, 1, MAX_LINE_LEN + 2) {
        Some(e) => Ok(e),
        None => if b.len() > MAX_LINE_LEN + 2 {
            Err(FrameError::Malformed(Malformation::LineTooLong))
        } else {
            Err(FrameError::Incomplete)
        },
    }
}

/// A CR LF that the search finds is one, and lies in the range searched.
pub proof fn lemma_find_crlf_found(b: Seq<u8>, i: int, limit: int)
    ensures
        find_crlf(b, i, limit) matches Some(e) ==> i <= e < limit && is_crlf(b, e),
    decreases limit - i,
{
    if !(i >= limit || i + 1 >= b.len()) && !is_crlf(b, i) {
        lemma_find_crlf_found(b, i + 1, limit);
    }
}

pub open spec fn is_tag(t: u8) -> bool {
    t == 43u8 || t == 45u8 || t == 58u8 || t == 36u8
}

/// The frame held by a buffer whose line ends at `e`.
pub open spec fn decode_line(b: Seq<u8>, e: int) -> Result<(FrameModel, int), FrameError> {
    let line = b.subrange(1, e);
    let next = e + 2;
    if b[0] == 43u8 || b[0] == 45u8 {
        if !valid_utf8(line) || !no_cr_lf(line) {
            Err(FrameError::Malformed(Malformation::BadText))
        } else if b[0] == 43u8 {
            Ok((FrameModel::Simple(decode_utf8(line)), next))
        } else {
            Ok((FrameModel::Error(decode_utf8(line)), next))
        }
    } else if b[0] == 58u8 {
        match parse_int(line) {
            Some(v) => if in_i64(v) && decimal(v) == line {
                Ok((FrameModel::Integer(v), next))
            } else {
                Err(FrameError::Malformed(Malformation::BadInteger))
            },
            None => Err(FrameError::Malformed(Malformation::BadInteger)),
        }
    } else {
        match parse_int(line) {
            Some(n) => if decimal(n) != line {
                Err(FrameError::Malformed(Malformation::BadLength))
            } else if n == -1 {
                Ok((FrameModel::Null, next))
            } else if 0 <= n && in_i64(n) {
                if b.len() < next + n + 2 {
                    Err(FrameError::Incomplete)
                } else if is_crlf(b, next + n) {
                    Ok((FrameModel::Bulk(b.subrange(next, next + n)), next + n + 2))
                } else {
                    Err(FrameError::Malformed(Malformation::BadTerminator))
                }
            } else {
                Err(FrameError::Malformed(Malformation::BadLength))
            },
            None => Err(FrameError::Malformed(Malformation::BadLength)),
        }
    }
}

/// The frame at the start of a buffer and the number of bytes it takes,
/// or why there is none.
pub open spec fn decode(b: Seq<u8>) -> Result<(FrameModel, int), FrameError> {
    if b.len() == 0 {
        Err(FrameError::Incomplete)
    } else if b[0] == 42u8 {
        Err(FrameError::Unsupported)
    } else if !is_tag(b[0]) {
        Err(FrameError::Malformed(Malformation::UnknownTag))
    } else {
        match line_end(b) {
            Ok(e) => decode_line(b, e),
            Err(x) => Err(x),
        }
    }
}

/// A frame takes at least one byte and no more than the buffer holds.
pub proof fn lemma_decode_len(b: Seq<u8>)
    ensures
        decode(b) matches Ok((_, n)) ==> 0 < n <= b.len(),
{
    lemma_find_crlf_found(b, 1, MAX_LINE_LEN + 2);
}

/// Relies on std::str::from_utf8: it accepts exactly the valid UTF-8 byte
/// strings, and the text it returns has those bytes.
#[verifier::external_body]
fn utf8_text(b: &[u8]) -> (r: Option<&str>)
    ensures
        r is Some <==> valid_utf8(b@),
        r matches Some(s) ==> s.spec_bytes() == b@,
{
    std::str::from_utf8(b).ok()
}

/// Two byte strings are equal.
pub fn bytes_eq(a: &[u8], b: &[u8]) -> (r: bool)
    ensures
        r == (a@ == b@),
{
    if a.len() != b.len() {
        return false;
    }
    let mut i: usize = 0;
    while i < a.len()
        invariant
            a@.len() == b@.len(),
            i <= a@.len(),
            forall|j: int| 0 <= j < i ==> a@[j] == b@[j],
        decreases a.len() - i,
    {
        if a[i] != b[i] {
            return false;
        }
        i = i + 1;
    }
    assert(a@ =~= b@);
    true
}

/// Whether no byte is CR or LF.
fn scan_no_cr_lf(b: &[u8]) -> (r: bool)
    ensures
        r == no_cr_lf(b@),
{
    let mut i: usize = 0;
    while i < b.len()
        invariant
            i <= b@.len(),
            forall|j: int| 0 <= j < i ==> #[trigger] b@[j] != CR && b@[j] != LF,
        decreases b.len() - i,
    {
        if b[i] == CR || b[i] == LF {
            return false;
        }
        i = i + 1;
    }
    true
}

/// Whether `line` is the canonical decimal text of `v`.
fn is_canonical(line: &[u8], v: i64) -> (r: bool)
    ensures
        r == (decimal(v as int) == line@),
{
    let mut text: Vec<u8> = Vec::new();
    push_decimal(&mut text, v);
    assert(text@ =~= decimal(v as int));
    bytes_eq(text.as_slice(), line)
}

/// Finds the CR LF that ends the line after the tag.
fn find_line(buf: &[u8]) -> (r: Result<usize, FrameError>)
    ensures
        match r {
            Ok(e) => line_end(buf@) == Ok::<int, FrameError>(e as int),
            Err(x) => line_end(buf@) == Err::<int, FrameError>(x),
        },
{
    let limit: usize = MAX_LINE_LEN + 2;
    let mut i: usize = 1;
    while i < limit && i + 1 < buf.len()
        invariant
            1 <= i <= limit,
            limit == MAX_LINE_LEN + 2,
            find_crlf(buf@, 1, limit as int) == find_crlf(buf@, i as int, limit as int),
        decreases limit - i,
    {
        if buf[i] == CR && buf[i + 1] == LF {
            return Ok(i);
        }
        i = i + 1;
    }
    if buf.len() > MAX_LINE_LEN + 2 {
        Err(FrameError::Malformed(Malformation::LineTooLong))
    } else {
        Err(FrameError::Incomplete)
    }
}

/// Tells whether a whole frame starts the buffer, without copying it: its
/// length if so, else why not.
pub fn check(buf: &[u8]) -> (r: Result<usize, FrameError>)
    ensures
        match r {
            Ok(n) => decode(buf@) is Ok && decode(buf@)->Ok_0.1 == n as int,
            Err(x) => decode(buf@) == Err::<(FrameModel, int), FrameError>(x),
        },
{
    if buf.len() == 0 {
        return Err(FrameError::Incomplete);
    }
    let tag = buf[0];
    if tag == 42u8 {
        return Err(FrameError::Unsupported);
    }
    if !(tag == 43u8 || tag == 45u8 || tag == 58u8 || tag == 36u8) {
        return Err(FrameError::Malformed(Malformation::UnknownTag));
    }
    let e = match find_line(buf) {
        Ok(e) => e,
        Err(x) => return Err(x),
    };
    proof {
        lemma_find_crlf_found(buf@, 1, MAX_LINE_LEN + 2);
    }
    let line = slice_subrange(buf, 1, e);
    assert(line@ == buf@.subrange(1, e as int));
    if tag == 43u8 || tag == 45u8 {
        if !scan_no_cr_lf(line) {
            return Err(FrameError::Malformed(Malformation::BadText));
        }
        match utf8_text(line) {
            Some(_) => Ok(e + 2),
            None => Err(FrameError::Malformed(Malformation::BadText)),
        }
    } else if tag == 58u8 {
        match parse_i64(line) {
            Some(v) => if is_canonical(line, v) {
                Ok(e + 2)
            } else {
                Err(FrameError::Malformed(Malformation::BadInteger))
            },
            None => Err(FrameError::Malformed(Malformation::BadInteger)),
        }
    } else {
        match parse_i64(line) {
            Some(n) => {
                if !is_canonical(line, n) {
                    Err(FrameError::Malformed(Malformation::BadLength))
                } else if n == -1 {
                    Ok(e + 2)
                } else if n >= 0 {
                    let avail: usize = buf.len() - (e + 2);
                    if (avail as u64) < (n as u64) + 2 {
                        Err(FrameError::Incomplete)
                    } else {
                        let end: usize = e + 2 + n as usize;
                        if buf[end] == CR && buf[end + 1] == LF {
                            Ok(end + 2)
                        } else {
                            Err(FrameError::Malformed(Malformation::BadTerminator))
                        }
                    }
                } else {
                    Err(FrameError::Malformed(Malformation::BadLength))
                }
            },
            None => Err(FrameError::Malformed(Malformation::BadLength)),
        }
    }
}

/// Takes the frame that `check` found at the start of the buffer: the frame
/// and the number of bytes it took.
pub fn parse(buf: &[u8]) -> (r: (Frame, usize))
    requires
        decode(buf@) is Ok,
    ensures
        decode(buf@) == Ok::<(FrameModel, int), FrameError>((r.0@, r.1 as int)),
{
    let tag = buf[0];
    let e = match find_line(buf) {
        Ok(e) => e,
        Err(_) => return (Frame::Null, 0),
    };
    proof {
        lemma_find_crlf_found(buf@, 1, MAX_LINE_LEN + 2);
    }
    let line = slice_subrange(buf, 1, e);
    assert(line@ == buf@.subrange(1, e as int));
    if tag == 43u8 || tag == 45u8 {
        match utf8_text(line) {
            Some(text) => {
                let owned = text.to_owned();
                proof {
                    encode_utf8_decode_utf8(text@);
                }
                if tag == 43u8 {
                    (Frame::Simple(owned), e + 2)
                } else {
                    (Frame::Error(owned), e + 2)
                }
            },
            None => (Frame::Null, 0),
        }
    } else if tag == 58u8 {
        match parse_i64(line) {
            Some(v) => (Frame::Integer(v), e + 2),
            None => (Frame::Null, 0),
        }
    } else {
        match parse_i64(line) {
            Some(n) => {
                if n == -1 {
                    (Frame::Null, e + 2)
                } else {
                    let start: usize = e + 2;
                    let end: usize = start + n as usize;
                    let payload = slice_to_vec(slice_subrange(buf, start, end));
                    (Frame::Bulk(payload), end + 2)
                }
            },
            None => (Frame::Null, 0),
        }
    }
}

/// Appends the bytes of `src` to `out`.
fn append(out: &mut Vec<u8>, src: &[u8])
    ensures
        final(out)@ == old(out)@ + src@,
{
    let mut i: usize = 0;
    while i < src.len()
        invariant
            i <= src.len(),
            out@ == old(out)@ + src@.subrange(0, i as int),
        decreases src.len() - i,
    {
        out.push(src[i]);
        i = i + 1;
        assert(out@ =~= old(out)@ + src@.subrange(0, i as int));
    }
    assert(src@.subrange(0, i as int) =~= src@);
}

/// Why a frame outside the wire grammar cannot be encoded.
pub open spec fn encode_error(f: FrameModel) -> FrameError {
    match f {
        FrameModel::Simple(t) => if !no_cr_lf(encode_utf8(t)) {
            FrameError::Malformed(Malformation::BadText)
        } else {
            FrameError::Malformed(Malformation::LineTooLong)
        },
        FrameModel::Error(t) => if !no_cr_lf(encode_utf8(t)) {
            FrameError::Malformed(Malformation::BadText)
        } else {
            FrameError::Malformed(Malformation::LineTooLong)
        },
        FrameModel::Bulk(_) => FrameError::Malformed(Malformation::BadLength),
        _ => FrameError::Unsupported,
    }
}

/// Appends `tag`, the text and CR LF, if the text fits a line.
fn push_text_line(out: &mut Vec<u8>, tag: u8, text: &String) -> (r: Result<(), FrameError>)
    ensures
        match r {
            Ok(_) => text_fits(text@) && final(out)@ == old(out)@ + (seq![tag] + encode_utf8(text@) + crlf()),
            Err(e) => !text_fits(text@) && e == (if !no_cr_lf(encode_utf8(text@)) {
                FrameError::Malformed(Malformation::BadText)
            } else {
                FrameError::Malformed(Malformation::LineTooLong)
            }),
        },
{
    let bytes = text.as_str().as_bytes();
    if !scan_no_cr_lf(bytes) {
        return Err(FrameError::Malformed(Malformation::BadText));
    }
    if bytes.len() > MAX_LINE_LEN {
        return Err(FrameError::Malformed(Malformation::LineTooLong));
    }
    out.push(tag);
    append(out, bytes);
    out.push(CR);
    out.push(LF);
    assert(final(out)@ =~= old(out)@ + (seq![tag] + encode_utf8(text@) + crlf()));
    Ok(())
}

/// The wire bytes of a frame. A frame outside the grammar (text with CR or
/// LF or longer than a line, an array) is refused.
pub fn encode(frame: &Frame) -> (r: Result<Vec<u8>, FrameError>)
    ensures
        match r {
            Ok(v) => encodable(frame@) && v@ == encoding(frame@),
            Err(e) => !encodable(frame@) && e == encode_error(frame@),
        },
{
    let mut out: Vec<u8> = Vec::new();
    match frame {
        Frame::Simple(s) => {
            match push_text_line(&mut out, 43u8, s) {
                Ok(_) => {},
                Err(e) => return Err(e),
            }
            assert(out@ =~= encoding(frame@));
        },
        Frame::Error(s) => {
            match push_text_line(&mut out, 45u8, s) {
                Ok(_) => {},
                Err(e) => return Err(e),
            }
            assert(out@ =~= encoding(frame@));
        },
        Frame::Integer(n) => {
            out.push(58u8);
            push_decimal(&mut out, *n);
            out.push(CR);
            out.push(LF);
            assert(out@ =~= encoding(frame@));
        },
        Frame::Null => {
            out.push(36u8);
            out.push(45u8);
            out.push(49u8);
            out.push(CR);
            out.push(LF);
            assert(out@ =~= encoding(frame@));
        },
        Frame::Bulk(b) => {
            if b.len() as u64 > 9_223_372_036_854_775_807u64 {
                return Err(FrameError::Malformed(Malformation::BadLength));
            }
            out.push(36u8);
            push_digits(&mut out, b.len() as u64);
            out.push(CR);
            out.push(LF);
            append(&mut out, b.as_slice());
            out.push(CR);
            out.push(LF);
            assert(out@ =~= encoding(frame@));
        },
        Frame::Array(_) => {
            return Err(FrameError::Unsupported);
        },
    }
    Ok(out)
}

} // verus!
