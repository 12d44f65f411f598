//! An elastic buffer between a byte source and a consumer that reads one
//! byte at a time and may go back to positions it has marked.
//!
//! The buffer keeps the bytes between the oldest position that is still
//! marked and the newest byte read, in chunks of a fixed size, and lets go
//! of everything before that.
//!
//! The stream makes no read call itself. [`ElasticBufferedReadStream::uncons`]
//! answers with a [`Step`]: a byte, the end of input, or the request to
//! fetch. On that request the caller makes one read call on the source and
//! hands what came of it to [`ElasticBufferedReadStream::supply`] as a
//! [`ReadOutcome`], then asks again. For a source that is held in memory,
//! [`ElasticBufferedReadStream::uncons_from`] does all of this.
//!
//! A position is marked with [`ElasticBufferedReadStream::checkpoint`].
//! The [`CheckPoint`] that comes back keeps the bytes from that position on
//! in the buffer for as long as it, or a clone of it, exists.
//!
//! What the operations are is stated over the [`view::StreamView`] of the
//! stream; what they add up to is proved in [`guarantees`].

pub mod checkpoint;
pub mod chunk;
pub mod guarantees;
pub mod stream;
pub mod view;

pub use checkpoint::{held_by_a_handle, CheckPoint, CheckPointHandler, CheckPointSet};
pub use chunk::{read_exact_or_eof, ChunkFill, FillStep, ReadOutcome, CHUNK_SIZE};
pub use stream::ElasticBufferedReadStream;
pub use view::{Step, StreamError};
