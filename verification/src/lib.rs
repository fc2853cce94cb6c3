//! Bit-granular reading and writing layered over byte-oriented streams.
//!
//! A [`BitReader`] consumes bits most-significant-first from any byte source,
//! and a [`BitWriter`] packs bits most-significant-first into bytes handed to
//! any byte sink. Readers over seekable sources can seek to a bit position
//! counted from the start or from the end of the stream.

pub mod bits;
pub mod laws;
pub mod reader;
pub mod stream;
pub mod writer;

pub use bits::bits_int;
pub use bits::bytes_bits;
pub use bits::lemma_bytes_bits_injective;
pub use bits::low_bits;
pub use laws::fields_bits;
pub use laws::fields_offset;
pub use laws::lemma_round_trip;
pub use laws::lemma_sequence_round_trip;
pub use reader::BitReader;
pub use stream::BitError;
pub use stream::ByteSink;
pub use stream::ByteSource;
pub use stream::SeekFrom;
pub use stream::SeekableByteSource;
pub use stream::VecSink;
pub use stream::VecSource;
pub use writer::BitWriter;
