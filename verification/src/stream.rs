//! Byte-stream capabilities: the failure conditions bit-level operations can
//! surface, the traits a byte source or sink must offer, and in-memory
//! implementations backed by `Vec<u8>`.

use vstd::prelude::*;

verus! {

/// A failure condition of a bit-level operation. A bit count above 64 or a
/// bit value above 1 is a caller bug, not a runtime condition: those inputs
/// are excluded by precondition rather than reported through this type.
#[derive(Clone, Copy, Debug, PartialEq, Eq, Structural)]
pub enum BitError {
    /// The source held fewer bytes than the request needed.
    EndOfStream,
    /// The sink rejected or could not complete a write.
    WriteFailure,
    /// A seek variant other than from-start or from-end-backwards was asked for.
    UnsupportedSeek,
}

/// A bit position in a stream, counted from the start, the end, or the cursor.
#[derive(Clone, Copy, Debug, PartialEq, Eq, Structural)]
pub enum SeekFrom {
    /// This many bits after the start of the stream.
    Start(u64),
    /// This many bits relative to the end of the stream; only negative offsets
    /// (positions before the end) are supported.
    End(i64),
    /// This many bits relative to the cursor; not supported.
    Current(i64),
}

/// A sequential byte source: a fixed byte content and a cursor over it.
pub trait ByteSource {
    /// The whole byte content behind the source.
    spec fn data(&self) -> Seq<u8>;

    /// The cursor: how many bytes have been consumed.
    spec fn pos(&self) -> int;

    /// Yields the byte under the cursor and advances, or reports that none is left.
    fn read_byte(&mut self) -> (r: Result<u8, BitError>)
        ensures
            final(self).data() == old(self).data(),
            0 <= old(self).pos() < old(self).data().len() ==> r == Ok::<u8, BitError>(
                old(self).data()[old(self).pos()],
            ) && final(self).pos() == old(self).pos() + 1,
            !(0 <= old(self).pos() < old(self).data().len()) ==> r == Err::<u8, BitError>(
                BitError::EndOfStream,
            ) && final(self).pos() == old(self).pos(),
    ;
}

/// A byte source whose cursor can also be moved freely.
pub trait SeekableByteSource: ByteSource {
    /// Moves the cursor to `n` bytes after the start, or to the end when the
    /// content is shorter than that.
    fn seek_to(&mut self, n: u64)
        ensures
            final(self).data() == old(self).data(),
            final(self).pos() == if n as int <= old(self).data().len() {
                n as int
            } else {
                old(self).data().len() as int
            },
    ;

    /// Moves the cursor to `n` bytes before the end and reports the byte
    /// position reached, or fails when the content is shorter than `n`.
    fn seek_back(&mut self, n: u64) -> (r: Result<u64, BitError>)
        ensures
            final(self).data() == old(self).data(),
            n as int <= old(self).data().len() ==> r == Ok::<u64, BitError>(
                (old(self).data().len() - n as int) as u64,
            ) && final(self).pos() == old(self).data().len() - n as int,
            n as int > old(self).data().len() ==> r == Err::<u64, BitError>(BitError::EndOfStream)
                && final(self).pos() == old(self).pos(),
    ;
}

/// A sequential byte sink: the bytes written so far, in order.
pub trait ByteSink {
    /// Every byte accepted so far, in the order written.
    spec fn written(&self) -> Seq<u8>;

    /// Whether this sink accepts every write; an in-memory sink does.
    spec fn reliable(&self) -> bool;

    /// Appends one byte, or fails leaving the content as it was.
    fn write_byte(&mut self, byte: u8) -> (r: Result<(), BitError>)
        ensures
            final(self).reliable() == old(self).reliable(),
            r is Ok ==> final(self).written() == old(self).written().push(byte),
            r is Err ==> r == Err::<(), BitError>(BitError::WriteFailure) && final(self).written()
                == old(self).written(),
            old(self).reliable() ==> r is Ok,
    ;

    /// Pushes buffered bytes onward, or fails; the content is unchanged either way.
    fn flush(&mut self) -> (r: Result<(), BitError>)
        ensures
            final(self).reliable() == old(self).reliable(),
            final(self).written() == old(self).written(),
            r is Err ==> r == Err::<(), BitError>(BitError::WriteFailure),
            old(self).reliable() ==> r is Ok,
    ;
}

/// An in-memory byte source over an owned byte vector.
#[derive(Debug)]
pub struct VecSource {
    bytes: Vec<u8>,
    at: usize,
}

impl VecSource {
    /// Wraps the given bytes as a source positioned at their start.
    pub fn new(bytes: Vec<u8>) -> (r: Self)
        ensures
            r.data() == bytes@,
            r.pos() == 0,
    {
        VecSource { bytes, at: 0 }
    }

    /// Returns the underlying bytes.
    pub fn into_vec(self) -> (r: Vec<u8>)
        ensures
            r@ == self.data(),
    {
        self.bytes
    }
}

impl ByteSource for VecSource {
    closed spec fn data(&self) -> Seq<u8> {
        self.bytes@
    }

    closed spec fn pos(&self) -> int {
        self.at as int
    }

    fn read_byte(&mut self) -> (r: Result<u8, BitError>) {
        if self.at < self.bytes.len() {
            let b = self.bytes[self.at];
            self.at = self.at + 1;
            Ok(b)
        } else {
            Err(BitError::EndOfStream)
        }
    }
}

impl SeekableByteSource for VecSource {
    fn seek_to(&mut self, n: u64) {
        if n <= self.bytes.len() as u64 {
            self.at = n as usize;
        } else {
            self.at = self.bytes.len();
        }
    }

    fn seek_back(&mut self, n: u64) -> (r: Result<u64, BitError>) {
        if n <= self.bytes.len() as u64 {
            let back = self.bytes.len() - (n as usize);
            self.at = back;
            Ok(back as u64)
        } else {
            Err(BitError::EndOfStream)
        }
    }
}

/// An in-memory byte sink that grows an owned byte vector.
#[derive(Debug)]
pub struct VecSink {
    bytes: Vec<u8>,
}

impl VecSink {
    /// An empty sink.
    pub fn new() -> (r: Self)
        ensures
            r.written() == Seq::<u8>::empty(),
            r.reliable(),
    {
        VecSink { bytes: Vec::new() }
    }

    /// Returns every byte written, in order.
    pub fn into_vec(self) -> (r: Vec<u8>)
        ensures
            r@ == self.written(),
    {
        self.bytes
    }
}

impl ByteSink for VecSink {
    closed spec fn written(&self) -> Seq<u8> {
        self.bytes@
    }

    closed spec fn reliable(&self) -> bool {
        true
    }

    fn write_byte(&mut self, byte: u8) -> (r: Result<(), BitError>) {
        self.bytes.push(byte);
        Ok(())
    }

    fn flush(&mut self) -> (r: Result<(), BitError>) {
        Ok(())
    }
}

} // verus!
