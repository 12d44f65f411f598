//! The stream as a mathematical value, and its operations as relations
//! between such values.

use crate::checkpoint::kept;
use crate::chunk::{zeros, ReadOutcome, CHUNK_SIZE};
use vstd::prelude::*;

verus! {

/// The two ways in which a read can fail.
#[derive(Clone, Copy, Debug, PartialEq, Eq, Structural)]
pub enum StreamError {
    /// There is no byte at the cursor and there never will be.
    EndOfInput,
    /// The byte source failed.
    TransportFailure,
}

/// The stream's answer to a request for the next byte.
#[derive(Clone, Copy, Debug, PartialEq, Eq, Structural)]
pub enum Step {
    /// The byte at the cursor; the cursor has moved past it.
    Item(u8),
    /// The source ended where the cursor stands.
    EndOfInput,
    /// The cursor stands behind the last buffered byte: read up to this
    /// many bytes from the source, hand the outcome to the stream, and ask
    /// again.
    Fetch(usize),
}

/// What a stream is, seen from outside. Positions count bytes from the
/// start of the stream.
#[verifier::ext_equal]
pub struct StreamView {
    /// Every byte that has become readable so far, the released ones
    /// included.
    pub data: Seq<u8>,
    /// Where the cursor stands.
    pub position: nat,
    /// Whether the source has reported its end.
    pub ended: bool,
    /// While a chunk is being filled, the bytes received for it.
    pub pending: Option<Seq<u8>>,
    /// How many bytes have been released from the head of the buffer.
    pub offset: nat,
    /// How many chunks the buffer holds.
    pub chunks: nat,
    /// The positions of the tracked checkpoints, oldest first.
    pub checkpoints: Seq<nat>,
}

/// The least of `bound` and the elements of `refs`.
pub open spec fn least(refs: Seq<nat>, bound: nat) -> nat
    decreases refs.len(),
{
    if refs.len() == 0 {
        bound
    } else {
        let rest = least(refs.drop_last(), bound);
        if refs.last() < rest {
            refs.last()
        } else {
            rest
        }
    }
}

/// `least` is a lower bound of its arguments and is one of them.
pub proof fn lemma_least(refs: Seq<nat>, bound: nat)
    ensures
        least(refs, bound) <= bound,
        forall|i: int| 0 <= i < refs.len() ==> least(refs, bound) <= refs[i],
        least(refs, bound) == bound || refs.contains(least(refs, bound)),
    decreases refs.len(),
{
    if refs.len() > 0 {
        let front = refs.drop_last();
        lemma_least(front, bound);
        assert forall|i: int| 0 <= i < refs.len() implies least(refs, bound) <= refs[i] by {
            if i < front.len() {
                assert(front[i] == refs[i]);
            }
        }
        if least(refs, bound) != bound {
            if least(refs, bound) == refs.last() {
                assert(refs[refs.len() - 1] == least(refs, bound));
            } else {
                let j = choose|j: int| 0 <= j < front.len() && front[j] == least(front, bound);
                assert(refs[j] == least(refs, bound));
            }
        }
    }
}

/// The position at which the chunk that holds position `p` begins.
pub open spec fn chunk_start(p: nat) -> nat {
    (p - p % (CHUNK_SIZE as nat)) as nat
}

impl StreamView {
    /// A stream that has read nothing.
    pub open spec fn fresh() -> StreamView {
        StreamView {
            data: Seq::empty(),
            position: 0,
            ended: false,
            pending: None,
            offset: 0,
            chunks: 0,
            checkpoints: Seq::empty(),
        }
    }

    /// The position behind the last chunk of the buffer.
    pub open spec fn end(self) -> nat {
        self.offset + self.chunks * (CHUNK_SIZE as nat)
    }

    /// Whether the buffer can grow by one more chunk without a position
    /// leaving the range of the integers that hold it.
    pub open spec fn has_room(self) -> bool {
        &&& self.end() + CHUNK_SIZE <= u64::MAX
        &&& (self.chunks + 1) * CHUNK_SIZE <= usize::MAX
    }

    /// Whether the byte at position `p`, or the end of the data at `p`, is
    /// in the buffer.
    pub open spec fn reaches(self, p: nat) -> bool {
        self.offset <= p <= self.data.len()
    }

    /// What holds of every stream.
    pub open spec fn wf(self) -> bool {
        &&& self.offset % (CHUNK_SIZE as nat) == 0
        &&& self.end() <= u64::MAX
        &&& self.chunks * CHUNK_SIZE <= usize::MAX
        &&& self.reaches(self.position)
        &&& if self.ended {
            &&& self.chunks >= 1
            &&& self.end() - CHUNK_SIZE <= self.data.len() < self.end()
            &&& self.pending is None
        } else {
            self.data.len() == self.end()
        }
        &&& self.pending matches Some(received) ==> received.len() < CHUNK_SIZE && self.has_room()
        &&& forall|i: int|
            0 <= i < self.checkpoints.len() ==> self.reaches(#[trigger] self.checkpoints[i])
    }

    /// Whether the next request for a byte makes the stream release chunks
    /// and begin a new one.
    pub open spec fn starts_fetch(self) -> bool {
        self.position == self.data.len() && !self.ended && self.pending is None
    }

    /// The least position that the cursor or a tracked checkpoint refers
    /// to.
    pub open spec fn floor(self) -> nat {
        least(self.checkpoints, self.position)
    }

    /// `post` is what the release of useless chunks makes of `self`. Some
    /// trackers are dropped; which ones is not for the stream to decide.
    /// After that the buffer begins with the chunk that holds the least
    /// position still referred to, and ends where it ended.
    pub open spec fn evicts_to(self, post: StreamView) -> bool {
        &&& post.data == self.data
        &&& post.position == self.position
        &&& post.ended == self.ended
        &&& post.pending == self.pending
        &&& exists|live: Seq<bool>|
            live.len() == self.checkpoints.len() && post.checkpoints == #[trigger] kept(
                self.checkpoints,
                live,
            )
        &&& post.offset == chunk_start(post.floor())
        &&& post.end() == self.end()
    }

    /// `post` and `step` are what a request for the next byte makes of
    /// `self`.
    pub open spec fn steps_to(self, step: Step, post: StreamView) -> bool {
        match step {
            Step::Item(byte) => {
                &&& self.position < self.data.len()
                &&& byte == self.data[self.position as int]
                &&& post == StreamView { position: self.position + 1, ..self }
            },
            Step::EndOfInput => {
                &&& self.position == self.data.len()
                &&& self.ended
                &&& post == self
            },
            Step::Fetch(n) => {
                &&& self.position == self.data.len()
                &&& !self.ended
                &&& match self.pending {
                    Some(received) => post == self && n == CHUNK_SIZE - received.len(),
                    None => {
                        &&& n == CHUNK_SIZE
                        &&& self.evicts_to(StreamView { pending: None, ..post })
                        &&& post.pending == Some(Seq::<u8>::empty())
                    },
                }
            },
        }
    }

    /// What the bytes of one read call make of a stream that is filling a
    /// chunk. No bytes at all mean that the source has ended: the chunk
    /// joins the buffer as it is. Otherwise the bytes go into the chunk, and
    /// the chunk joins the buffer when they fill it.
    pub open spec fn took(self, bytes: Seq<u8>) -> StreamView
        recommends
            self.pending is Some,
    {
        let received = self.pending.unwrap() + bytes;
        if bytes.len() == 0 {
            StreamView {
                data: self.data + received,
                chunks: self.chunks + 1,
                pending: None,
                ended: true,
                ..self
            }
        } else if received.len() == CHUNK_SIZE {
            StreamView {
                data: self.data + received,
                chunks: self.chunks + 1,
                pending: None,
                ..self
            }
        } else {
            StreamView { pending: Some(received), ..self }
        }
    }

    /// What a failure of the source makes of a stream that is filling a
    /// chunk: the chunk joins the buffer as if it were full, with zeros
    /// for what it lacks.
    pub open spec fn gave_up(self) -> StreamView
        recommends
            self.pending is Some,
    {
        let received = self.pending.unwrap();
        StreamView {
            data: self.data + received + zeros((CHUNK_SIZE - received.len()) as nat),
            chunks: self.chunks + 1,
            pending: None,
            ..self
        }
    }

    /// What the outcome of a read call makes of a stream that is filling a
    /// chunk. An interrupted call changes nothing.
    pub open spec fn supplied(self, outcome: ReadOutcome<'_>) -> StreamView
        recommends
            self.pending is Some,
    {
        match outcome {
            ReadOutcome::Data(bytes) => self.took(bytes@),
            ReadOutcome::Interrupted => self,
            ReadOutcome::Failed => self.gave_up(),
        }
    }

    /// Every byte that the stream has taken in, readable or not yet.
    pub open spec fn received(self) -> Seq<u8> {
        match self.pending {
            Some(received) => self.data + received,
            None => self.data,
        }
    }

    /// The stream has taken in a prefix of `source` and nothing else, and
    /// has seen the end only where `source` ends.
    pub open spec fn fed_from(self, source: Seq<u8>) -> bool {
        &&& self.received().len() <= source.len()
        &&& forall|at: int| 0 <= at < self.received().len() ==> self.received()[at] == source[at]
        &&& self.ended ==> self.data.len() == source.len()
    }

    /// What comes next in `source` for a stream that is fed from it and is
    /// filling a chunk: the bytes behind those that the stream has taken
    /// in, as many as the chunk still lacks or as are left.
    pub open spec fn next_piece(self, source: Seq<u8>) -> Seq<u8>
        recommends
            self.pending is Some,
            self.fed_from(source),
    {
        let start = self.received().len() as int;
        let wanted = CHUNK_SIZE - self.pending.unwrap().len();
        let left = source.len() - start;
        source.subrange(
            start,
            if wanted < left {
                start + wanted
            } else {
                source.len() as int
            },
        )
    }

    /// What a read at the cursor yields of a stream that is fed from
    /// `source`: the byte there, or the end of input behind the last byte.
    pub open spec fn next_of(self, source: Seq<u8>) -> Result<u8, StreamError> {
        if self.position < source.len() {
            Ok(source[self.position as int])
        } else {
            Err(StreamError::EndOfInput)
        }
    }

    /// `post` and `result` are what a read makes of `self` when the stream
    /// is fed from `source`.
    ///
    /// The result is the byte of `source` at the cursor, or the end of
    /// input, and the cursor moves past a byte that was read. Where the
    /// cursor stood at a buffered byte or at the end of the source, nothing
    /// else changes. Where it stood behind everything buffered, the stream
    /// has first released its useless chunks, unless it was in the middle of
    /// filling a chunk, and has then taken in the next chunk of `source`,
    /// or what was left of `source`.
    pub open spec fn reads_to(
        self,
        source: Seq<u8>,
        result: Result<u8, StreamError>,
        post: StreamView,
    ) -> bool {
        let moved = if result is Ok {
            self.position + 1
        } else {
            self.position
        };
        &&& result == self.next_of(source)
        &&& post.position == moved
        &&& if self.position < self.data.len() || self.ended {
            post == StreamView { position: moved, ..self }
        } else {
            let grown = self.end() + CHUNK_SIZE;
            &&& post.data == source.take(
                if grown <= source.len() {
                    grown as int
                } else {
                    source.len() as int
                },
            )
            &&& post.ended == (source.len() < grown)
            &&& post.pending is None
            &&& post.end() == grown
            &&& match self.pending {
                Some(_) => post.checkpoints == self.checkpoints && post.offset == self.offset,
                None => self.evicts_to(
                    StreamView {
                        data: self.data,
                        position: self.position,
                        ended: false,
                        chunks: (post.chunks - 1) as nat,
                        ..post
                    },
                ),
            }
        }
    }
}

} // verus!
