//! Bounded read/write/seek abstractions over in-memory byte buffers.
//!
//! Every reader carries a ghost model of the full underlying stream and
//! the current offset into it, so that decoders layered on top can state
//! exactly which bytes they consumed.

use vstd::prelude::*;

verus! {

/// Errors surfaced by the codec.
#[derive(Debug, Clone, Copy, PartialEq, Eq, Structural)]
pub enum Error {
    /// Some unexpected data left in the buffer after reading all data.
    TrailingData,
    /// Unexpected end-of-file: the buffer was exhausted mid-field, or a
    /// declared length claimed more bytes than remain.
    UnexpectedEof,
    /// Invalid data: malformed varint, duplicate index, out-of-bound
    /// index, duplicated subsection kind, or malformed text.
    InvalidData,
    /// Invalid input: seek arithmetic overflow or underflow.
    InvalidInput,
    /// A low-level failure of an external stream.
    Io,
}

/// An in-memory buffer of bytes that a cursor can read from.
pub trait ByteSource {
    /// The bytes held by the buffer.
    spec fn byte_view(&self) -> Seq<u8>;

    /// Borrow the bytes as a slice.
    fn as_byte_slice(&self) -> (r: &[u8])
        ensures
            r@ == self.byte_view(),
    ;
}

impl ByteSource for Vec<u8> {
    open spec fn byte_view(&self) -> Seq<u8> {
        self@
    }

    fn as_byte_slice(&self) -> (r: &[u8]) {
        self.as_slice()
    }
}

impl<'a> ByteSource for &'a [u8] {
    open spec fn byte_view(&self) -> Seq<u8> {
        self@
    }

    fn as_byte_slice(&self) -> (r: &[u8]) {
        *self
    }
}

/// A source of bytes.
///
/// `stream` and `mark` model the whole underlying byte stream and the
/// current offset into it; `reliable` says that reads fail exactly when
/// too few bytes remain, which holds of every in-memory reader.
pub trait Read {
    /// The full underlying byte stream.
    spec fn stream(&self) -> Seq<u8>;

    /// The current read offset into the stream.
    spec fn mark(&self) -> nat;

    /// Whether reads succeed exactly when enough bytes remain, and fail
    /// with `UnexpectedEof` otherwise.
    spec fn reliable(&self) -> bool;

    /// Read exactly `n` bytes, or fail with `UnexpectedEof` if fewer
    /// than `n` bytes remain.
    fn read(&mut self, n: usize) -> (r: Result<Vec<u8>, Error>)
        ensures
            final(self).stream() == old(self).stream(),
            final(self).reliable() == old(self).reliable(),
            match r {
                Ok(buf) => {
                    &&& buf@.len() == n
                    &&& old(self).mark() + n <= old(self).stream().len()
                    &&& buf@ == old(self).stream().subrange(
                        old(self).mark() as int,
                        old(self).mark() + n,
                    )
                    &&& final(self).mark() == old(self).mark() + n
                },
                Err(_) => final(self).mark() == old(self).mark(),
            },
            old(self).reliable() ==> (r is Ok <==> old(self).mark() + n
                <= old(self).stream().len()),
            old(self).reliable() && r is Err ==> r == Err::<Vec<u8>, Error>(
                Error::UnexpectedEof,
            ),
    ;
}

/// A sink of bytes.
///
/// `sink` models everything written so far; `infallible` says that
/// writes always succeed, which holds of an in-memory growable sink.
pub trait Write {
    /// Everything written to the sink so far.
    spec fn sink(&self) -> Seq<u8>;

    /// Whether writes always succeed.
    spec fn infallible(&self) -> bool;

    /// Write a buffer of data into this sink. All data is written at once.
    fn write(&mut self, buf: &[u8]) -> (r: Result<(), Error>)
        ensures
            final(self).infallible() == old(self).infallible(),
            r is Ok ==> final(self).sink() == old(self).sink() + buf@,
            old(self).infallible() ==> r is Ok,
    ;
}

impl Write for Vec<u8> {
    open spec fn sink(&self) -> Seq<u8> {
        self@
    }

    open spec fn infallible(&self) -> bool {
        true
    }

    fn write(&mut self, buf: &[u8]) -> (r: Result<(), Error>) {
        let mut i: usize = 0;
        while i < buf.len()
            invariant
                i <= buf@.len(),
                self@ == old(self)@ + buf@.take(i as int),
            decreases buf@.len() - i,
        {
            self.push(buf[i]);
            proof {
                assert(buf@.take(i + 1) =~= buf@.take(i as int).push(buf@[i as int]));
            }
            i = i + 1;
        }
        proof {
            assert(buf@.take(buf@.len() as int) =~= buf@);
        }
        Ok(())
    }
}

/// Bounded relative seeking over a readable stream.
pub trait Seek: Read {
    /// Seek relative to the current position, by a signed offset. The
    /// seek fails with `InvalidInput` exactly when the resulting
    /// position would underflow below zero or overflow the position's
    /// representable range; seeking past the end of the stream is
    /// allowed.
    fn seek_relative(&mut self, offset: i64) -> (r: Result<(), Error>)
        ensures
            final(self).stream() == old(self).stream(),
            final(self).reliable() == old(self).reliable(),
            match r {
                Ok(_) => final(self).mark() == old(self).mark() + offset,
                Err(e) => final(self).mark() == old(self).mark() && e == Error::InvalidInput,
            },
            old(self).reliable() ==> (r is Ok <==> 0 <= old(self).mark() + offset && old(
                self,
            ).mark() + offset <= usize::MAX),
    ;

    /// The current position from the start of the stream.
    fn stream_position(&mut self) -> (r: Result<u64, Error>)
        ensures
            final(self).stream() == old(self).stream(),
            final(self).reliable() == old(self).reliable(),
            final(self).mark() == old(self).mark(),
            r matches Ok(p) ==> p == old(self).mark(),
            old(self).reliable() ==> r is Ok,
    ;

    /// The total length of the stream, in bytes. A seekable stream is
    /// addressable by `usize`, so a reported length also bounds the
    /// stream.
    fn stream_len(&mut self) -> (r: Result<u64, Error>)
        ensures
            final(self).stream() == old(self).stream(),
            final(self).reliable() == old(self).reliable(),
            final(self).mark() == old(self).mark(),
            r matches Ok(n) ==> n == old(self).stream().len() && old(self).stream().len()
                <= usize::MAX,
            old(self).reliable() ==> r is Ok,
    ;
}

/// Reader over an in-memory byte buffer that tracks the read position.
pub struct Cursor<T> {
    inner: T,
    pos: usize,
}

impl<T: ByteSource> Cursor<T> {
    /// Create a cursor positioned at the start of the buffer.
    pub fn new(inner: T) -> (c: Cursor<T>)
        ensures
            c.stream() == inner.byte_view(),
            c.mark() == 0,
            c.reliable(),
    {
        Cursor { inner, pos: 0 }
    }

    /// The current read position.
    pub fn position(&self) -> (p: usize)
        ensures
            p == self.mark(),
    {
        self.pos
    }
}

impl<T: ByteSource> Read for Cursor<T> {
    closed spec fn stream(&self) -> Seq<u8> {
        self.inner.byte_view()
    }

    closed spec fn mark(&self) -> nat {
        self.pos as nat
    }

    closed spec fn reliable(&self) -> bool {
        true
    }

    fn read(&mut self, n: usize) -> (r: Result<Vec<u8>, Error>) {
        let slice = self.inner.as_byte_slice();
        if self.pos > slice.len() {
            return Err(Error::UnexpectedEof);
        }
        if n > slice.len() - self.pos {
            return Err(Error::UnexpectedEof);
        }
        let mut buf: Vec<u8> = Vec::new();
        let mut i: usize = 0;
        while i < n
            invariant
                i <= n,
                self == old(self),
                slice@ == self.inner.byte_view(),
                self.pos + n <= slice@.len(),
                self.pos + n <= usize::MAX,
                buf@ == slice@.subrange(self.pos as int, self.pos + i),
            decreases n - i,
        {
            buf.push(slice[self.pos + i]);
            proof {
                assert(slice@.subrange(self.pos as int, self.pos + i + 1) =~= slice@.subrange(
                    self.pos as int,
                    self.pos + i,
                ).push(slice@[self.pos + i]));
            }
            i = i + 1;
        }
        self.pos = self.pos + n;
        Ok(buf)
    }
}

impl<T: ByteSource> Seek for Cursor<T> {
    fn seek_relative(&mut self, offset: i64) -> (r: Result<(), Error>) {
        if offset >= 0 {
            let fwd = offset as u64;
            if fwd > usize::MAX as u64 {
                return Err(Error::InvalidInput);
            }
            match self.pos.checked_add(fwd as usize) {
                Some(p) => {
                    self.pos = p;
                    Ok(())
                },
                None => Err(Error::InvalidInput),
            }
        } else {
            let back = (-(offset + 1)) as u64 + 1;
            if back > self.pos as u64 {
                return Err(Error::InvalidInput);
            }
            self.pos = self.pos - back as usize;
            Ok(())
        }
    }

    fn stream_position(&mut self) -> (r: Result<u64, Error>) {
        Ok(self.pos as u64)
    }

    fn stream_len(&mut self) -> (r: Result<u64, Error>) {
        Ok(self.inner.as_byte_slice().len() as u64)
    }
}

/// The bytes that remain to be read: the suffix of the stream that
/// starts at the current mark, or nothing if the mark has been moved
/// past the end.
pub open spec fn readable<R: Read>(r: &R) -> Seq<u8> {
    if r.mark() <= r.stream().len() {
        r.stream().skip(r.mark() as int)
    } else {
        Seq::empty()
    }
}

} // verus!
