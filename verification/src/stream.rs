//! The elastic buffer: a window of chunks over a byte stream, read one
//! byte at a time, with checkpoints to go back to. The window grows at its
//! tail when the cursor runs off it and shrinks at its head when no
//! checkpoint and no cursor refers to the chunks there.

use crate::checkpoint::{is_minimum, kept, lemma_kept_comes_from, CheckPoint, CheckPointSet};
use crate::chunk::{
    delivered, read_exact_or_eof, ChunkFill, FillStep, ReadOutcome, CHUNK_SIZE, ITEM_INDEX_MASK,
    ITEM_INDEX_SIZE,
};
use crate::view::{least, lemma_least, Step, StreamError, StreamView};
use std::collections::VecDeque;
use vstd::prelude::*;
use vstd::slice::slice_subrange;

verus! {

/// The bytes of `chunks`, one chunk after the other.
spec fn flatten(chunks: Seq<[u8; CHUNK_SIZE]>) -> Seq<u8> {
    Seq::new(
        chunks.len() * (CHUNK_SIZE as nat),
        |i: int| chunks[i / (CHUNK_SIZE as int)]@[i % (CHUNK_SIZE as int)],
    )
}

/// A chunk pushed to the buffer adds its bytes behind the others.
proof fn lemma_flatten_push(chunks: Seq<[u8; CHUNK_SIZE]>, chunk: [u8; CHUNK_SIZE])
    ensures
        flatten(chunks.push(chunk)) == flatten(chunks) + chunk@,
{
}

/// The first chunk holds the first bytes, the others hold the rest.
proof fn lemma_flatten_tail(chunks: Seq<[u8; CHUNK_SIZE]>)
    requires
        chunks.len() > 0,
    ensures
        flatten(chunks.subrange(1, chunks.len() as int)) == flatten(chunks).skip(
            CHUNK_SIZE as int,
        ),
        flatten(chunks).take(CHUNK_SIZE as int) == chunks[0]@,
{
}

/// Without its first `k` chunks the buffer holds what is behind their bytes.
proof fn lemma_flatten_skip(chunks: Seq<[u8; CHUNK_SIZE]>, k: nat)
    requires
        k <= chunks.len(),
    ensures
        flatten(chunks.skip(k as int)) == flatten(chunks).skip(k * CHUNK_SIZE),
{
}

/// Dropping marked elements and shifting positions can be done in either
/// order.
proof fn lemma_kept_shifted(positions: Seq<usize>, live: Seq<bool>, shift: int)
    requires
        positions.len() == live.len(),
    ensures
        kept(positions, live).map_values(|p: usize| (shift + p) as nat) == kept(
            positions.map_values(|p: usize| (shift + p) as nat),
            live,
        ),
    decreases positions.len(),
{
    if positions.len() > 0 {
        let f = |p: usize| (shift + p) as nat;
        lemma_kept_shifted(positions.drop_last(), live.drop_last(), shift);
        assert(positions.map_values(f).drop_last() =~= positions.drop_last().map_values(f));
    }
}

/// The least of shifted positions is the shifted minimum.
proof fn lemma_least_shifted(positions: Seq<usize>, m: Option<usize>, bound: usize, shift: nat)
    requires
        is_minimum(positions, m),
    ensures
        least(positions.map_values(|p: usize| (shift + p) as nat), (shift + bound) as nat)
            == shift + (match m {
            Some(least) => if least < bound {
                least
            } else {
                bound
            },
            None => bound,
        }),
{
    let shifted = positions.map_values(|p: usize| (shift + p) as nat);
    lemma_least(shifted, (shift + bound) as nat);
    let l = least(shifted, (shift + bound) as nat);
    match m {
        Some(least) => {
            let w = choose|w: int| 0 <= w < positions.len() && positions[w] == least;
            assert(shifted[w] == shift + least);
            if l != shift + bound {
                let j = choose|j: int| 0 <= j < shifted.len() && shifted[j] == l;
                assert(least <= positions[j]);
            }
        },
        None => {},
    }
}

/// A buffered stream of bytes with checkpoints.
///
/// The stream does not read its source. It answers a request for the next
/// byte with the byte, with the end of input, or with a request of its own:
/// to make one read call on the source and report the outcome.
pub struct ElasticBufferedReadStream {
    buffer: VecDeque<[u8; CHUNK_SIZE]>,
    /// How many bytes at the end of the last chunk the source left
    /// unfilled when it ended.
    eof: Option<usize>,
    checkpoints: CheckPointSet,
    /// The cursor, counted from the head of the buffer.
    cursor_pos: usize,
    /// How many bytes have been released from the head of the buffer.
    offset: u64,
    /// The chunk that is being filled, between the request to fetch and
    /// the outcome that finishes it.
    filling: Option<ChunkFill>,
    /// The bytes that have been released.
    released: Ghost<Seq<u8>>,
}

impl View for ElasticBufferedReadStream {
    type V = StreamView;

    closed spec fn view(&self) -> StreamView {
        StreamView {
            data: self.released@ + flatten(self.buffer@).take(self.valid_len()),
            position: (self.offset + self.cursor_pos) as nat,
            ended: self.eof is Some,
            pending: match self.filling {
                Some(chunk) => Some(chunk@),
                None => None,
            },
            offset: self.offset as nat,
            chunks: self.buffer@.len(),
            checkpoints: self.checkpoints@.map_values(|p: usize| (self.offset + p) as nat),
        }
    }
}

impl ElasticBufferedReadStream {
    /// How many bytes of the buffer hold data.
    closed spec fn valid_len(&self) -> int {
        self.buffer@.len() * CHUNK_SIZE - match self.eof {
            Some(unfilled) => unfilled as int,
            None => 0,
        }
    }

    /// The invariant of the stream.
    pub closed spec fn wf(&self) -> bool {
        &&& self.released@.len() == self.offset
        &&& self.offset as int % CHUNK_SIZE as int == 0
        &&& self.offset + self.buffer@.len() * CHUNK_SIZE <= u64::MAX
        &&& self.buffer@.len() * CHUNK_SIZE <= usize::MAX
        &&& match self.eof {
            Some(unfilled) => {
                &&& 1 <= unfilled <= CHUNK_SIZE
                &&& self.buffer@.len() >= 1
                &&& self.filling is None
            },
            None => true,
        }
        &&& self.cursor_pos <= self.valid_len()
        &&& forall|i: int|
            0 <= i < self.checkpoints@.len() ==> #[trigger] self.checkpoints@[i]
                <= self.valid_len()
        &&& match self.filling {
            Some(chunk) => chunk.wf() && chunk@.len() < CHUNK_SIZE && self@.has_room(),
            None => true,
        }
    }

    /// A stream in good order has a view in good order.
    pub proof fn lemma_view_wf(&self)
        requires
            self.wf(),
        ensures
            self@.wf(),
    {
    }

    /// A stream that has read nothing and buffers nothing.
    pub fn new() -> (stream: Self)
        ensures
            stream.wf(),
            stream@ == StreamView::fresh(),
    {
        Self {
            buffer: VecDeque::new(),
            eof: None,
            checkpoints: CheckPointSet::new(),
            cursor_pos: 0,
            offset: 0,
            filling: None,
            released: Ghost(Seq::empty()),
        }
    }

    /// The index in the buffer of the chunk that the cursor stands in.
    fn chunk_index(&self) -> (index: usize)
        ensures
            index == self.cursor_pos / CHUNK_SIZE,
    {
        let pos = self.cursor_pos;
        assert(pos >> 13 == pos / 8192) by (bit_vector);
        self.cursor_pos >> ITEM_INDEX_SIZE
    }

    /// The index in its chunk of the byte that the cursor stands at.
    fn item_index(&self) -> (index: usize)
        ensures
            index == self.cursor_pos % CHUNK_SIZE,
    {
        let pos = self.cursor_pos;
        assert(pos & 8191 == pos % 8192) by (bit_vector);
        self.cursor_pos & ITEM_INDEX_MASK
    }

    /// How many chunks the buffer holds.
    pub fn buffer_len(&self) -> (chunks: usize)
        ensures
            chunks == self@.chunks,
    {
        self.buffer.len()
    }

    /// Where the cursor stands, counted from the start of the stream.
    pub fn position(&self) -> (position: u64)
        requires
            self.wf(),
        ensures
            position == self@.position,
    {
        self.offset + self.cursor_pos as u64
    }

    /// Whether the buffer can take one more chunk.
    pub fn has_room(&self) -> (room: bool)
        requires
            self.wf(),
        ensures
            room == self@.has_room(),
    {
        let chunks = self.buffer.len();
        if chunks >= usize::MAX / CHUNK_SIZE {
            return false;
        }
        let grown = ((chunks + 1) * CHUNK_SIZE) as u64;
        self.offset <= u64::MAX - grown
    }

    /// Registers the cursor's position as a checkpoint.
    pub fn checkpoint(&mut self) -> (cp: CheckPoint)
        requires
            old(self).wf(),
        ensures
            final(self).wf(),
            cp@ == old(self)@.position,
            final(self)@ == (StreamView {
                checkpoints: old(self)@.checkpoints.push(old(self)@.position),
                ..old(self)@
            }),
    {
        self.checkpoints.insert(self.cursor_pos, self.offset)
    }

    /// Whether the stream can go back to `checkpoint`: whether the position
    /// is still in the buffer.
    pub fn can_reset(&self, checkpoint: &CheckPoint) -> (can: bool)
        requires
            self.wf(),
        ensures
            can == self@.reaches(checkpoint@ as nat),
    {
        let position = checkpoint.inner();
        if position < self.offset {
            return false;
        }
        let valid = self.valid_len_exec();
        position - self.offset <= valid as u64
    }

    /// How many bytes of the buffer hold data.
    fn valid_len_exec(&self) -> (valid: usize)
        requires
            self.wf(),
        ensures
            valid == self.valid_len(),
    {
        let whole = self.buffer.len() * CHUNK_SIZE;
        match self.eof {
            Some(unfilled) => whole - unfilled,
            None => whole,
        }
    }

    /// Puts the cursor back to where `checkpoint` was taken.
    pub fn reset(&mut self, checkpoint: CheckPoint)
        requires
            old(self).wf(),
            old(self)@.reaches(checkpoint@ as nat),
        ensures
            final(self).wf(),
            final(self)@ == (StreamView { position: checkpoint@ as nat, ..old(self)@ }),
    {
        self.cursor_pos = (checkpoint.inner() - self.offset) as usize;
    }

    /// Releases the chunks at the head of the buffer that neither the
    /// cursor nor a checkpoint which is still held refers to, and counts
    /// every position that the stream holds from the new head.
    fn free_useless_chunks(&mut self)
        requires
            old(self).wf(),
        ensures
            final(self).wf(),
            old(self)@.evicts_to(final(self)@),
            final(self)@.chunks <= old(self)@.chunks,
    {
        let checkpoint_pos_min = self.checkpoints.min();
        let ghost live = choose|live: Seq<bool>|
            live.len() == old(self).checkpoints@.len() && self.checkpoints@ == #[trigger] kept(
                old(self).checkpoints@,
                live,
            );
        let ghost survivors = self.checkpoints@;
        let global_pos_min = match checkpoint_pos_min {
            Some(cp_min) => if cp_min < self.cursor_pos {
                cp_min
            } else {
                self.cursor_pos
            },
            None => self.cursor_pos,
        };
        let drain_quantity = global_pos_min / CHUNK_SIZE;
        let mut drained: usize = 0;
        while drained < drain_quantity
            invariant
                drained <= drain_quantity <= old(self).buffer@.len(),
                self.buffer@ == old(self).buffer@.skip(drained as int),
                self.released@ == old(self).released@ + flatten(old(self).buffer@).take(
                    drained * CHUNK_SIZE,
                ),
                self.eof == old(self).eof,
                self.cursor_pos == old(self).cursor_pos,
                self.offset == old(self).offset,
                self.filling == old(self).filling,
                self.checkpoints@ == survivors,
            decreases drain_quantity - drained,
        {
            let ghost before = self.buffer@;
            let chunk = self.buffer.pop_front();
            proof {
                lemma_flatten_skip(old(self).buffer@, drained as nat);
                lemma_flatten_tail(before);
                let whole = flatten(old(self).buffer@);
                self.released@ = self.released@ + chunk.unwrap()@;
                assert(self.released@ =~= old(self).released@ + whole.take(
                    (drained + 1) * CHUNK_SIZE,
                ));
            }
            drained += 1;
        }
        let offset_delta = drain_quantity * CHUNK_SIZE;
        self.cursor_pos -= offset_delta;
        self.offset += offset_delta as u64;
        self.checkpoints.sub_offset(offset_delta);
        proof {
            Self::lemma_evicted(*old(self), *self, live, checkpoint_pos_min, drain_quantity as nat);
        }
    }

    /// The state `post` in which `free_useless_chunks` leaves the state
    /// `pre` is in good order and is what the release of useless chunks
    /// makes of `pre`.
    proof fn lemma_evicted(pre: Self, post: Self, live: Seq<bool>, m: Option<usize>, k: nat)
        requires
            pre.wf(),
            live.len() == pre.checkpoints@.len(),
            is_minimum(kept(pre.checkpoints@, live), m),
            k == (match m {
                Some(least) => if least < pre.cursor_pos {
                    least
                } else {
                    pre.cursor_pos
                },
                None => pre.cursor_pos,
            }) / CHUNK_SIZE,
            k <= pre.buffer@.len(),
            post.buffer@ == pre.buffer@.skip(k as int),
            post.released@ == pre.released@ + flatten(pre.buffer@).take(k * CHUNK_SIZE),
            post.eof == pre.eof,
            post.filling == pre.filling,
            post.cursor_pos == pre.cursor_pos - k * CHUNK_SIZE,
            post.offset == pre.offset + k * CHUNK_SIZE,
            post.checkpoints@.len() == kept(pre.checkpoints@, live).len(),
            forall|i: int|
                0 <= i < post.checkpoints@.len() ==> post.checkpoints@[i] == kept(
                    pre.checkpoints@,
                    live,
                )[i] - k * CHUNK_SIZE,
        ensures
            post.wf(),
            pre@.evicts_to(post@),
            post@.chunks <= pre@.chunks,
    {
        let survivors = kept(pre.checkpoints@, live);
        assert forall|i: int| 0 <= i < survivors.len() implies #[trigger] survivors[i]
            <= pre.valid_len() by {
            lemma_kept_comes_from(pre.checkpoints@, live, survivors[i]);
        }
        lemma_flatten_skip(pre.buffer@, k);
        assert(post@.data =~= pre@.data);
        lemma_kept_shifted(pre.checkpoints@, live, pre.offset as int);
        assert(post@.checkpoints == kept(pre@.checkpoints, live));
        lemma_least_shifted(survivors, m, pre.cursor_pos, pre.offset as nat);
    }

    /// Answers a request for the next byte.
    ///
    /// Where the cursor stands at a buffered byte, the answer is the byte,
    /// and the cursor moves on. Where it stands at the end that the source
    /// has reported, the answer is the end of input. Where it stands
    /// behind everything buffered, the answer is a request to fetch: the
    /// first such request releases the chunks that have become useless and
    /// begins a new chunk, the following ones ask for what the chunk still
    /// lacks.
    pub fn uncons(&mut self) -> (step: Step)
        requires
            old(self).wf(),
            old(self)@.starts_fetch() ==> old(self)@.has_room(),
        ensures
            final(self).wf(),
            old(self)@.steps_to(step, final(self)@),
    {
        let chunk_index = self.chunk_index();
        if chunk_index == self.buffer.len() {
            match &self.filling {
                Some(chunk) => {
                    return Step::Fetch(chunk.room());
                },
                None => {},
            }
            self.free_useless_chunks();
            self.filling = Some(ChunkFill::new());
            return Step::Fetch(CHUNK_SIZE);
        }
        let item_index = self.item_index();
        if chunk_index == self.buffer.len() - 1 {
            if let Some(unfilled) = self.eof {
                if item_index >= CHUNK_SIZE - unfilled {
                    return Step::EndOfInput;
                }
            }
        }
        let item = self.buffer[chunk_index][item_index];
        self.cursor_pos += 1;
        Step::Item(item)
    }

    /// Takes in the outcome of the read call that the stream asked for.
    ///
    /// The outcome goes into the chunk that is being filled. When that
    /// ends the filling, the chunk joins the buffer. A failure of the
    /// source comes back as the error of this call.
    pub fn supply(&mut self, outcome: ReadOutcome<'_>) -> (result: Result<(), StreamError>)
        requires
            old(self).wf(),
            old(self)@.pending matches Some(received) && received.len() + delivered(outcome).len()
                <= CHUNK_SIZE,
        ensures
            final(self).wf(),
            final(self)@ == old(self)@.supplied(outcome),
            result == (match outcome {
                ReadOutcome::Failed => Err(StreamError::TransportFailure),
                _ => Ok(()),
            }),
    {
        let mut chunk = self.filling.take().unwrap();
        let step = read_exact_or_eof(&mut chunk, outcome);
        match step {
            FillStep::Continue => {
                self.filling = Some(chunk);
                Ok(())
            },
            FillStep::Done(eof) => {
                let bytes = chunk.into_bytes();
                self.buffer.push_back(bytes);
                self.eof = eof;
                proof {
                    lemma_flatten_push(old(self).buffer@, bytes);
                }
                Ok(())
            },
            FillStep::Failed => {
                let bytes = chunk.into_bytes();
                self.buffer.push_back(bytes);
                proof {
                    lemma_flatten_push(old(self).buffer@, bytes);
                }
                Err(StreamError::TransportFailure)
            },
        }
    }

    /// How many bytes the stream has taken in, readable or not yet.
    fn received_len(&self) -> (n: u64)
        requires
            self.wf(),
        ensures
            n == self@.received().len(),
    {
        let valid = self.valid_len_exec();
        let pending = match &self.filling {
            Some(chunk) => chunk.len(),
            None => 0,
        };
        self.offset + valid as u64 + pending as u64
    }

    /// Serves the read that the stream has asked for from `source`.
    fn serve_from(&mut self, source: &[u8])
        requires
            old(self).wf(),
            old(self)@.fed_from(source@),
            old(self)@.pending is Some,
        ensures
            final(self).wf(),
            final(self)@ == old(self)@.took(old(self)@.next_piece(source@)),
    {
        let wanted = match &self.filling {
            Some(chunk) => chunk.room(),
            None => 0,
        };
        let start = self.received_len() as usize;
        let left = source.len() - start;
        let end = if wanted < left {
            start + wanted
        } else {
            source.len()
        };
        let bytes = slice_subrange(source, start, end);
        let _ = self.supply(ReadOutcome::Data(bytes));
    }

    /// The next byte of a stream whose source is `source`, held in memory.
    ///
    /// Whenever the stream asks for a read, it is served from `source`, at
    /// the place up to which the stream has taken `source` in. The answer
    /// is the byte of `source` at the cursor, or the end of input where the
    /// cursor stands at the end of `source`.
    pub fn uncons_from(&mut self, source: &[u8]) -> (result: Result<u8, StreamError>)
        requires
            old(self).wf(),
            old(self)@.fed_from(source@),
            source@.len() + CHUNK_SIZE <= usize::MAX,
        ensures
            final(self).wf(),
            final(self)@.fed_from(source@),
            old(self)@.reads_to(source@, result, final(self)@),
    {
        let ghost mut fetched = false;
        loop
            invariant
                self.wf(),
                self@.fed_from(source@),
                old(self)@.wf(),
                old(self)@.fed_from(source@),
                source@.len() + CHUNK_SIZE <= usize::MAX,
                if fetched {
                    fetching(old(self)@, self@, source@)
                } else {
                    self@ == old(self)@
                },
            decreases served_less(self@, source@),
        {
            proof {
                self.lemma_view_wf();
            }
            let ghost before = self@;
            let step = self.uncons();
            proof {
                self.lemma_view_wf();
                if fetched {
                    lemma_fetch_ends(old(self)@, before, source@, step, self@);
                } else {
                    lemma_read_begins(before, source@, step, self@);
                }
            }
            match step {
                Step::Item(byte) => {
                    return Ok(byte);
                },
                Step::EndOfInput => {
                    return Err(StreamError::EndOfInput);
                },
                Step::Fetch(_) => {
                    let ghost asking = self@;
                    self.serve_from(source);
                    proof {
                        self.lemma_view_wf();
                        lemma_fetch_goes_on(old(self)@, asking, source@);
                        fetched = true;
                    }
                },
            }
        }
    }
}

/// What is left to do of a read from `source` in the state `cur`.
spec fn served_less(cur: StreamView, source: Seq<u8>) -> int {
    source.len() - cur.received().len() + if cur.ended {
        0int
    } else {
        1int
    }
}

/// The buffer of `cur` without the chunk that has joined it since the
/// stream asked to fetch, if one has.
spec fn before_chunk(origin: StreamView, cur: StreamView) -> StreamView {
    StreamView {
        data: origin.data,
        position: origin.position,
        ended: false,
        pending: None,
        chunks: if cur.pending is Some {
            cur.chunks
        } else {
            (cur.chunks - 1) as nat
        },
        ..cur
    }
}

/// `cur` is a state of a read from `source` that began in `origin` and
/// has made the stream ask to fetch.
spec fn fetching(origin: StreamView, cur: StreamView, source: Seq<u8>) -> bool {
    let grown = origin.end() + CHUNK_SIZE;
    &&& origin.position == origin.data.len()
    &&& !origin.ended
    &&& cur.position == origin.position
    &&& match origin.pending {
        Some(_) => cur.checkpoints == origin.checkpoints && cur.offset == origin.offset,
        None => origin.evicts_to(before_chunk(origin, cur)),
    }
    &&& match cur.pending {
        Some(_) => {
            &&& cur.data == origin.data
            &&& cur.end() == origin.end()
            &&& !cur.ended
        },
        None => {
            &&& cur.end() == grown
            &&& cur.ended == (source.len() < grown)
            &&& cur.data == source.take(
                if grown <= source.len() {
                    grown as int
                } else {
                    source.len() as int
                },
            )
        },
    }
}

/// The first answer of a read either ends it or makes it a fetch.
proof fn lemma_read_begins(origin: StreamView, source: Seq<u8>, step: Step, post: StreamView)
    requires
        origin.wf(),
        origin.fed_from(source),
        post.wf(),
        origin.steps_to(step, post),
    ensures
        match step {
            Step::Item(byte) => origin.reads_to(source, Ok(byte), post) && post.fed_from(source),
            Step::EndOfInput => origin.reads_to(source, Err(StreamError::EndOfInput), post)
                && post.fed_from(source),
            Step::Fetch(_) => fetching(origin, post, source) && post.fed_from(source)
                && post.pending is Some,
        },
{
}

/// Serving a fetch from the source keeps the read on its way and leaves
/// less to do.
proof fn lemma_fetch_goes_on(origin: StreamView, cur: StreamView, source: Seq<u8>)
    requires
        origin.wf(),
        cur.wf(),
        cur.fed_from(source),
        cur.pending is Some,
        fetching(origin, cur, source),
    ensures
        fetching(origin, cur.took(cur.next_piece(source)), source),
        cur.took(cur.next_piece(source)).fed_from(source),
        served_less(cur.took(cur.next_piece(source)), source) < served_less(cur, source),
{
    let piece = cur.next_piece(source);
    let taken = cur.received() + piece;
    assert(taken =~= source.take(taken.len() as int));
    if cur.took(piece).pending is None {
        assert(cur.took(piece).data =~= taken);
    }
}

/// An answer to a read that has made the stream fetch: it asks for more
/// while the chunk is open, and ends the read once the chunk has joined
/// the buffer.
proof fn lemma_fetch_ends(
    origin: StreamView,
    cur: StreamView,
    source: Seq<u8>,
    step: Step,
    post: StreamView,
)
    requires
        origin.wf(),
        origin.fed_from(source),
        cur.wf(),
        cur.fed_from(source),
        fetching(origin, cur, source),
        cur.steps_to(step, post),
    ensures
        match step {
            Step::Item(byte) => origin.reads_to(source, Ok(byte), post) && post.fed_from(source),
            Step::EndOfInput => origin.reads_to(source, Err(StreamError::EndOfInput), post)
                && post.fed_from(source),
            Step::Fetch(_) => post == cur && cur.pending is Some,
        },
{
}

} // verus!
