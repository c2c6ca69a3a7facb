//! Buffered framing for one connection: bytes arrive from a stream in
//! chunks of any size, and frames are carved off the front of the buffer.
//!
//! The reading loop itself lives with the stream. It asks `next_frame` for
//! a frame; on `Ok(None)` it reads once from the stream and hands the bytes
//! to `receive`, which also decides, on an empty read, between a clean end
//! of stream and a truncated frame.

use vstd::prelude::*;
use bytes::BytesMut;
use crate::frame::{check, lemma_decode_len, decode, encodable, encoding, parse, Frame, FrameError, FrameModel, Malformation};
use crate::laws::{lemma_prefix_incomplete, lemma_round_trip};

verus! {

/// The capacity that a new buffer starts with; it grows as needed.
pub const INITIAL_CAPACITY: usize = 4096;

#[verifier::external_type_specification]
#[verifier::external_body]
pub struct ExBytesMut(BytesMut);

/// The bytes that a `BytesMut` holds.
pub uninterp spec fn buffered(b: BytesMut) -> Seq<u8>;

/// Relies on BytesMut::with_capacity: the new buffer holds no bytes. It
/// panics when the capacity passes `isize::MAX`.
#[verifier::external_body]
fn buffer_with_capacity(capacity: usize) -> (r: BytesMut)
    requires
        capacity <= isize::MAX,
    ensures
        buffered(r) == Seq::<u8>::empty(),
{
    BytesMut::with_capacity(capacity)
}

/// Relies on BytesMut's `Deref` to `[u8]`: the slice is the bytes held.
#[verifier::external_body]
fn buffer_bytes(b: &BytesMut) -> (r: &[u8])
    ensures
        r@ == buffered(*b),
{
    &b[..]
}

/// Relies on BytesMut::extend_from_slice: the bytes are appended after
/// those held. It panics only when the length would pass `isize::MAX`.
#[verifier::external_body]
fn buffer_extend(b: &mut BytesMut, data: &[u8])
    requires
        buffered(*old(b)).len() + data@.len() <= isize::MAX,
    ensures
        buffered(*final(b)) == buffered(*old(b)) + data@,
{
    b.extend_from_slice(data)
}

/// Relies on `Buf::advance` of BytesMut: the first `n` bytes are dropped and
/// the rest kept in order. It panics when `n` passes the length.
#[verifier::external_body]
fn buffer_advance(b: &mut BytesMut, n: usize)
    requires
        n <= buffered(*old(b)).len(),
    ensures
        buffered(*final(b)) == buffered(*old(b)).subrange(n as int, buffered(*old(b)).len() as int),
{
    bytes::Buf::advance(b, n)
}

/// Why a connection cannot go on reading.
#[derive(Debug, Clone, Copy, PartialEq, Eq, Structural)]
pub enum ReadError {
    Malformed(Malformation),
    /// An array frame arrived.
    Unsupported,
    /// The peer closed the stream in the middle of a frame.
    Truncated,
}

/// The bytes received on a connection and not yet taken as frames.
pub struct FrameBuffer {
    buffer: BytesMut,
}

impl View for FrameBuffer {
    type V = Seq<u8>;

    closed spec fn view(&self) -> Seq<u8> {
        buffered(self.buffer)
    }
}

impl FrameBuffer {
    /// An empty buffer.
    pub fn new() -> (r: FrameBuffer)
        ensures
            r@ == Seq::<u8>::empty(),
    {
        FrameBuffer { buffer: buffer_with_capacity(INITIAL_CAPACITY) }
    }

    /// The number of bytes held.
    pub fn len(&self) -> (r: usize)
        ensures
            r == self@.len(),
    {
        buffer_bytes(&self.buffer).len()
    }

    /// Takes a frame off the front of the buffer if a whole one is there.
    /// The bytes after it stay as they were; on `Ok(None)` (more bytes are
    /// needed) and on an error nothing is taken.
    pub fn next_frame(&mut self) -> (r: Result<Option<Frame>, ReadError>)
        ensures
            match decode(old(self)@) {
                Ok((f, n)) => {
                    &&& r matches Ok(Some(fr)) && fr@ == f
                    &&& final(self)@ == old(self)@.subrange(n, old(self)@.len() as int)
                },
                Err(FrameError::Incomplete) => r == Ok::<Option<Frame>, ReadError>(None)
                    && final(self)@ == old(self)@,
                Err(FrameError::Malformed(m)) => r == Err::<Option<Frame>, ReadError>(
                    ReadError::Malformed(m),
                ) && final(self)@ == old(self)@,
                Err(FrameError::Unsupported) => r == Err::<Option<Frame>, ReadError>(
                    ReadError::Unsupported,
                ) && final(self)@ == old(self)@,
            },
    {
        let bytes = buffer_bytes(&self.buffer);
        proof {
            lemma_decode_len(bytes@);
        }
        match check(bytes) {
            Ok(_) => {
                let (frame, n) = parse(bytes);
                buffer_advance(&mut self.buffer, n);
                Ok(Some(frame))
            },
            Err(FrameError::Incomplete) => Ok(None),
            Err(FrameError::Malformed(m)) => Err(ReadError::Malformed(m)),
            Err(FrameError::Unsupported) => Err(ReadError::Unsupported),
        }
    }

    /// Takes the bytes of one read from the stream. Bytes are appended and
    /// `Ok(true)` says to go on. No bytes means the peer closed: `Ok(false)`
    /// when nothing was pending, a truncation error when part of a frame was.
    pub fn receive(&mut self, data: &[u8]) -> (r: Result<bool, ReadError>)
        requires
            old(self)@.len() + data@.len() <= isize::MAX,
        ensures
            data@.len() > 0 ==> r == Ok::<bool, ReadError>(true) && final(self)@ == old(self)@
                + data@,
            data@.len() == 0 ==> final(self)@ == old(self)@ && r == (if old(self)@.len() == 0 {
                Ok::<bool, ReadError>(false)
            } else {
                Err::<bool, ReadError>(ReadError::Truncated)
            }),
    {
        if data.len() == 0 {
            if self.len() == 0 {
                Ok(false)
            } else {
                Err(ReadError::Truncated)
            }
        } else {
            buffer_extend(&mut self.buffer, data);
            Ok(true)
        }
    }
}

/// The bytes of several reads, in order.
pub open spec fn joined(chunks: Seq<Seq<u8>>) -> Seq<u8>
    decreases chunks.len(),
{
    if chunks.len() == 0 {
        Seq::empty()
    } else {
        joined(chunks.drop_last()) + chunks.last()
    }
}

proof fn lemma_joined_prefix(chunks: Seq<Seq<u8>>, j: int)
    requires
        0 <= j <= chunks.len(),
        forall|i: int| 0 <= i < chunks.len() ==> #[trigger] chunks[i].len() > 0,
    ensures
        joined(chunks.take(j)) == joined(chunks).subrange(0, joined(chunks.take(j)).len() as int),
        j < chunks.len() ==> joined(chunks.take(j)).len() < joined(chunks).len(),
    decreases chunks.len(),
{
    if j == chunks.len() {
        assert(chunks.take(j) =~= chunks);
        assert(joined(chunks).subrange(0, joined(chunks).len() as int) =~= joined(chunks));
    } else {
        let rest = chunks.drop_last();
        assert(rest.take(j) =~= chunks.take(j));
        assert forall|i: int| 0 <= i < rest.len() implies #[trigger] rest[i].len() > 0 by {
            assert(rest[i] == chunks[i]);
        }
        lemma_joined_prefix(rest, j);
        assert(chunks.last().len() > 0);
        let n = joined(chunks.take(j)).len() as int;
        assert(joined(chunks).subrange(0, n) =~= joined(rest).subrange(0, n));
    }
}

/// A frame's bytes may arrive in any number of non-empty reads, split
/// anywhere: before each read the bytes held so far are only incomplete
/// (so `next_frame` takes nothing and one more read is made), and after the
/// last one the buffer decodes to the whole frame, as had the bytes come in
/// one read.
pub proof fn lemma_chunked_delivery(f: FrameModel, chunks: Seq<Seq<u8>>)
    requires
        encodable(f),
        forall|i: int| 0 <= i < chunks.len() ==> #[trigger] chunks[i].len() > 0,
        joined(chunks) == encoding(f),
    ensures
        forall|j: int| 0 <= j < chunks.len() ==> decode(#[trigger] joined(chunks.take(j)))
            == Err::<(FrameModel, int), FrameError>(FrameError::Incomplete),
        decode(joined(chunks)) == Ok::<(FrameModel, int), FrameError>(
            (f, encoding(f).len() as int),
        ),
{
    assert forall|j: int| 0 <= j < chunks.len() implies decode(#[trigger] joined(chunks.take(j)))
        == Err::<(FrameModel, int), FrameError>(FrameError::Incomplete) by {
        lemma_joined_prefix(chunks, j);
        lemma_prefix_incomplete(f, joined(chunks.take(j)).len() as int);
    }
    lemma_round_trip(f, Seq::empty());
    assert(encoding(f) + Seq::<u8>::empty() =~= encoding(f));
}

} // verus!
