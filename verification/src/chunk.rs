//! Chunks: the fixed-size units in which the stream buffers its bytes, and
//! the rules by which one chunk is filled from a byte source.
//!
//! The library never calls the source. Whoever drives it makes one read
//! call at a time and reports what came of it as a [`ReadOutcome`];
//! [`read_exact_or_eof`] says what that means for the chunk.

use vstd::prelude::*;

verus! {

/// The number of bits of a position that select the byte inside its chunk.
pub const ITEM_INDEX_SIZE: usize = 13;

/// The bits of a position that select the byte inside its chunk.
pub const ITEM_INDEX_MASK: usize = 8191;

/// The size of a chunk in bytes: two to the power of `ITEM_INDEX_SIZE`.
pub const CHUNK_SIZE: usize = 8192;

/// `n` zero bytes.
pub open spec fn zeros(n: nat) -> Seq<u8> {
    Seq::new(n, |i: int| 0u8)
}

/// What one read call on the byte source came to.
pub enum ReadOutcome<'a> {
    /// The source produced these bytes; none at all means that it is
    /// exhausted.
    Data(&'a [u8]),
    /// The call was interrupted before it produced anything.
    Interrupted,
    /// The source failed.
    Failed,
}

/// How the filling of a chunk goes on after a read call.
#[derive(Clone, Copy, Debug, PartialEq, Eq, Structural)]
pub enum FillStep {
    /// The chunk has room left and the source may have more: read again.
    Continue,
    /// The chunk is finished. `Some(n)` says that the source ran out with
    /// `n` bytes of the chunk unfilled, `None` that the chunk is full.
    Done(Option<usize>),
    /// The source failed: the filling is given up.
    Failed,
}

/// What `outcome` means for a chunk that holds `filled` bytes so far.
pub open spec fn fill_step(filled: nat, outcome: ReadOutcome<'_>) -> FillStep {
    match outcome {
        ReadOutcome::Data(bytes) => if bytes@.len() == 0 {
            FillStep::Done(Some((CHUNK_SIZE - filled) as usize))
        } else if filled + bytes@.len() == CHUNK_SIZE {
            FillStep::Done(None)
        } else {
            FillStep::Continue
        },
        ReadOutcome::Interrupted => FillStep::Continue,
        ReadOutcome::Failed => FillStep::Failed,
    }
}

/// The bytes that `outcome` adds to a chunk.
pub open spec fn delivered(outcome: ReadOutcome<'_>) -> Seq<u8> {
    match outcome {
        ReadOutcome::Data(bytes) => bytes@,
        _ => Seq::empty(),
    }
}

/// A chunk that is being filled.
pub struct ChunkFill {
    bytes: [u8; CHUNK_SIZE],
    filled: usize,
}

impl View for ChunkFill {
    type V = Seq<u8>;

    /// The bytes received so far.
    closed spec fn view(&self) -> Seq<u8> {
        self.bytes@.take(self.filled as int)
    }
}

impl ChunkFill {
    /// At most a chunk's worth has been received, and what has not been
    /// filled is zero.
    pub closed spec fn wf(&self) -> bool {
        &&& self.filled <= CHUNK_SIZE
        &&& forall|i: int| self.filled <= i < CHUNK_SIZE ==> self.bytes@[i] == 0
    }

    /// How many bytes have been received.
    pub fn len(&self) -> (n: usize)
        requires
            self.wf(),
        ensures
            n == self@.len(),
    {
        self.filled
    }

    /// An empty chunk.
    pub fn new() -> (chunk: ChunkFill)
        ensures
            chunk.wf(),
            chunk@ == Seq::<u8>::empty(),
    {
        ChunkFill { bytes: [0u8; CHUNK_SIZE], filled: 0 }
    }

    /// How many bytes the chunk can still take.
    pub fn room(&self) -> (n: usize)
        requires
            self.wf(),
        ensures
            n == CHUNK_SIZE - self@.len(),
    {
        CHUNK_SIZE - self.filled
    }

    /// The whole chunk: what was received, then zeros.
    pub fn into_bytes(self) -> (bytes: [u8; CHUNK_SIZE])
        requires
            self.wf(),
        ensures
            bytes@ == self@ + zeros((CHUNK_SIZE - self@.len()) as nat),
    {
        self.bytes
    }
}

/// Takes the outcome of one read call into `chunk` and says how the filling
/// goes on: bytes are appended, an interruption changes nothing and asks
/// for another call, an empty read ends the chunk short, a failure ends the
/// filling.
pub fn read_exact_or_eof(chunk: &mut ChunkFill, outcome: ReadOutcome<'_>) -> (step: FillStep)
    requires
        old(chunk).wf(),
        old(chunk)@.len() < CHUNK_SIZE,
        old(chunk)@.len() + delivered(outcome).len() <= CHUNK_SIZE,
    ensures
        final(chunk).wf(),
        final(chunk)@ == old(chunk)@ + delivered(outcome),
        step == fill_step(old(chunk)@.len(), outcome),
{
    match outcome {
        ReadOutcome::Data(bytes) => {
            let n = bytes.len();
            if n == 0 {
                return FillStep::Done(Some(CHUNK_SIZE - chunk.filled));
            }
            let start = chunk.filled;
            let mut i: usize = 0;
            while i < n
                invariant
                    n == bytes@.len(),
                    start == old(chunk)@.len(),
                    start + n <= CHUNK_SIZE,
                    i <= n,
                    chunk.filled == start + i,
                    chunk.wf(),
                    chunk@ == old(chunk)@ + bytes@.take(i as int),
                decreases n - i,
            {
                let ghost before = *chunk;
                chunk.bytes[start + i] = bytes[i];
                chunk.filled = chunk.filled + 1;
                assert(chunk@ =~= before@.push(bytes@[i as int]));
                i += 1;
            }
            if chunk.filled == CHUNK_SIZE {
                FillStep::Done(None)
            } else {
                FillStep::Continue
            }
        },
        ReadOutcome::Interrupted => FillStep::Continue,
        ReadOutcome::Failed => FillStep::Failed,
    }
}

} // verus!
