//! What the operations of the stream add up to.
//!
//! The functions of the stream state what one call does, as a relation
//! between the stream before and after. The theorems here are about
//! what follows for many calls, and for every stream.

use crate::checkpoint::{kept, lemma_kept_comes_from};
use crate::chunk::CHUNK_SIZE;
use crate::stream::ElasticBufferedReadStream;
use crate::view::{chunk_start, lemma_least, Step, StreamError, StreamView};
use vstd::prelude::*;

verus! {

/// What the `k`-th read of `source` from its start yields, counting from
/// zero: the `k`-th byte, or the end of input once the bytes are used up.
pub open spec fn kth_read(source: Seq<u8>, k: int) -> Result<u8, StreamError> {
    if k < source.len() {
        Ok(source[k])
    } else {
        Err(StreamError::EndOfInput)
    }
}

/// Reads in a row give the source back.
///
/// Let a stream stand at position 0 and be read again and again, fed from
/// `source`; `states` are the stream before the first read and after each
/// read, `results` what the reads returned. Then the reads return the
/// bytes of `source` in their order, one each, and after the last byte
/// nothing but the end of input; and the position of the stream is the
/// number of bytes that were read, wherever the chunks begin and end.
pub proof fn lemma_reads_spell_source(
    source: Seq<u8>,
    states: Seq<StreamView>,
    results: Seq<Result<u8, StreamError>>,
)
    requires
        states.len() == results.len() + 1,
        states[0].position == 0,
        forall|k: int|
            0 <= k < results.len() ==> states[k].reads_to(
                source,
                #[trigger] results[k],
                states[k + 1],
            ),
    ensures
        forall|k: int| 0 <= k < results.len() ==> #[trigger] results[k] == kth_read(source, k),
        forall|k: int|
            0 <= k < states.len() ==> (#[trigger] states[k]).position == if k < source.len() {
                k
            } else {
                source.len() as int
            },
    decreases results.len(),
{
    if results.len() > 0 {
        let last = results.len() - 1;
        let front_states = states.drop_last();
        let front_results = results.drop_last();
        lemma_reads_spell_source(source, front_states, front_results);
        assert(front_states[last] == states[last]);
        assert(states[last].reads_to(source, results[last], states[last + 1]));
        assert forall|k: int| 0 <= k < states.len() implies (#[trigger] states[k]).position
            == if k < source.len() {
            k
        } else {
            source.len() as int
        } by {
            if k <= last {
                assert(front_states[k] == states[k]);
            }
        }
    }
}

/// A stream that is handed a source in pieces stays fed from it.
///
/// Let a stream be fed from `source` and be filling a chunk, and let the
/// next `n` bytes of `source` be handed to it, none at all only where
/// `source` has ended. Then the stream is fed from `source` as before,
/// however small the pieces are.
pub proof fn lemma_pieces_keep_the_source(cur: StreamView, source: Seq<u8>, n: nat)
    requires
        cur.fed_from(source),
        cur.pending is Some,
        cur.received().len() + n <= source.len(),
        n == 0 ==> cur.received().len() == source.len(),
    ensures
        cur.took(
            source.subrange(cur.received().len() as int, (cur.received().len() + n) as int),
        ).fed_from(source),
{
}

/// The answers of a stream follow its source.
///
/// Let a stream in good order be fed from `source`. Then an item that it
/// answers with is the byte of `source` at the cursor, and it answers
/// with the end of input only where the cursor stands at the end of
/// `source`. Whatever it answers, it is fed from `source` afterwards.
pub proof fn lemma_answers_follow_the_source(
    cur: StreamView,
    source: Seq<u8>,
    step: Step,
    post: StreamView,
)
    requires
        cur.wf(),
        cur.fed_from(source),
        cur.steps_to(step, post),
    ensures
        step matches Step::Item(byte) ==> cur.position < source.len() && byte
            == source[cur.position as int],
        step is EndOfInput ==> cur.position == source.len(),
        post.fed_from(source),
{
}

/// Going back to a checkpoint brings the same bytes again.
///
/// Let a checkpoint be taken of the stream `marked`, and let the next read
/// return `first`. Let the stream, fed from the same source, later be
/// `later`, and be put back to the checkpoint there. Then the next read
/// returns `first` again.
pub proof fn lemma_restore_rereads(
    source: Seq<u8>,
    marked: StreamView,
    checkpoint: nat,
    first: Result<u8, StreamError>,
    after_first: StreamView,
    later: StreamView,
    second: Result<u8, StreamError>,
    after_second: StreamView,
)
    requires
        checkpoint == marked.position,
        marked.reads_to(source, first, after_first),
        (StreamView { position: checkpoint, ..later }).reads_to(source, second, after_second),
    ensures
        second == first,
{
}

/// A stream only grows, and its cursor only moves forward unless it is put
/// back to a checkpoint.
///
/// Whatever a request for the next byte or the outcome of a read call
/// makes of a stream, the bytes that were readable before are readable
/// after, at their positions; the cursor stands where it stood or behind
/// the byte that was read; and the checkpoints that are tracked after
/// were tracked before, at their positions.
pub proof fn lemma_stream_only_grows(pre: StreamView, post: StreamView)
    requires
        pre.pending is Some ==> pre.pending.unwrap().len() <= CHUNK_SIZE,
        (exists|step| pre.steps_to(step, post)) || (exists|bytes: Seq<u8>|
            pre.pending is Some && post == pre.took(bytes)) || (pre.pending is Some && post
            == pre.gave_up()),
    ensures
        pre.data.len() <= post.data.len(),
        forall|at: int| 0 <= at < pre.data.len() ==> post.data[at] == pre.data[at],
        pre.position <= post.position <= pre.position + 1,
        forall|i: int|
            0 <= i < post.checkpoints.len() ==> pre.checkpoints.contains(
                #[trigger] post.checkpoints[i],
            ),
{
    assert forall|i: int| 0 <= i < post.checkpoints.len() implies pre.checkpoints.contains(
        #[trigger] post.checkpoints[i],
    ) by {
        if post.checkpoints == pre.checkpoints {
            assert(pre.checkpoints[i] == post.checkpoints[i]);
        } else {
            let evicted = StreamView { pending: None, ..post };
            let live = choose|live: Seq<bool>|
                live.len() == pre.checkpoints.len() && evicted.checkpoints == #[trigger] kept(
                    pre.checkpoints,
                    live,
                );
            lemma_kept_comes_from(pre.checkpoints, live, post.checkpoints[i]);
        }
    }
}

/// Every checkpoint that a stream tracks can be restored: its position is
/// in the buffer.
pub proof fn lemma_checkpoints_can_be_restored(stream: &ElasticBufferedReadStream, i: int)
    requires
        stream.wf(),
        0 <= i < stream@.checkpoints.len(),
    ensures
        stream@.reaches(stream@.checkpoints[i]),
{
    stream.lemma_view_wf();
}

/// The release of chunks spares what is referred to.
///
/// It leaves the stream in good order: the cursor and every checkpoint
/// that is still tracked have their positions in the buffer. It only
/// moves the head of the buffer forward, and changes no byte.
pub proof fn lemma_eviction_spares(pre: StreamView, post: StreamView)
    requires
        pre.wf(),
        pre.evicts_to(post),
    ensures
        post.wf(),
        post.data == pre.data,
        pre.offset <= post.offset <= post.floor(),
        forall|i: int|
            0 <= i < post.checkpoints.len() ==> post.reaches(#[trigger] post.checkpoints[i]),
{
    let live = choose|live: Seq<bool>|
        live.len() == pre.checkpoints.len() && post.checkpoints == #[trigger] kept(
            pre.checkpoints,
            live,
        );
    lemma_least(post.checkpoints, post.position);
    assert forall|i: int| 0 <= i < post.checkpoints.len() implies pre.reaches(
        #[trigger] post.checkpoints[i],
    ) by {
        lemma_kept_comes_from(pre.checkpoints, live, post.checkpoints[i]);
    }
    if post.floor() != post.position {
        let j = choose|j: int|
            0 <= j < post.checkpoints.len() && post.checkpoints[j] == post.floor();
        assert(pre.reaches(post.checkpoints[j]));
    }
}

/// Good order is kept.
///
/// Whatever a request for the next byte or the outcome of a read call
/// makes of a stream in good order is in good order again, provided that
/// the buffer has room where a chunk is begun and that a read call hands
/// in no more than was asked for. So at all times the cursor and every
/// checkpoint that is tracked have their positions in the buffer.
pub proof fn lemma_good_order_is_kept(pre: StreamView, post: StreamView)
    requires
        pre.wf(),
        (exists|step| pre.steps_to(step, post) && (pre.starts_fetch() ==> pre.has_room()))
            || (exists|bytes: Seq<u8>|
            pre.pending is Some && pre.pending.unwrap().len() + bytes.len() <= CHUNK_SIZE && post
                == pre.took(bytes)) || (pre.pending is Some && post == pre.gave_up()),
    ensures
        post.wf(),
{
    if exists|step| pre.steps_to(step, post) && (pre.starts_fetch() ==> pre.has_room()) {
        let step = choose|step|
            pre.steps_to(step, post) && (pre.starts_fetch() ==> pre.has_room());
        if step is Fetch && pre.pending is None {
            let evicted = StreamView { pending: None, ..post };
            lemma_eviction_spares(pre, evicted);
            lemma_eviction_releases(pre, evicted);
        }
    }
}

/// The release of chunks leaves nothing useless behind.
///
/// After it the buffer begins with the chunk that holds the least position
/// which the cursor or a checkpoint that is still tracked refers to. With
/// no such checkpoint behind the cursor, it begins with the chunk of the
/// cursor; and when the cursor has read everything buffered, as it has
/// when a chunk is to be fetched, the buffer is empty.
pub proof fn lemma_eviction_releases(pre: StreamView, post: StreamView)
    requires
        pre.wf(),
        pre.evicts_to(post),
    ensures
        post.offset <= post.floor() < post.offset + CHUNK_SIZE,
        post.chunks * CHUNK_SIZE == pre.end() - chunk_start(post.floor()),
        post.chunks <= pre.chunks,
        (forall|i: int| 0 <= i < post.checkpoints.len() ==> post.position <= post.checkpoints[i])
            ==> post.offset == chunk_start(post.position),
        (forall|i: int| 0 <= i < post.checkpoints.len() ==> post.position <= post.checkpoints[i])
            && pre.position == pre.end() ==> post.chunks == 0,
{
    lemma_eviction_spares(pre, post);
    lemma_least(post.checkpoints, post.position);
    if forall|i: int| 0 <= i < post.checkpoints.len() ==> post.position <= post.checkpoints[i] {
        if post.floor() != post.position {
            let j = choose|j: int|
                0 <= j < post.checkpoints.len() && post.checkpoints[j] == post.floor();
            assert(post.position <= post.checkpoints[j]);
        }
    }
}

/// Without checkpoints the buffer does not grow.
///
/// Let a stream that tracks no checkpoint be read, fed from `source`, and
/// let the read fetch a chunk. Then that chunk is the only one in the
/// buffer afterwards: the buffer begins where the cursor stood.
pub proof fn lemma_read_without_checkpoints(
    source: Seq<u8>,
    pre: StreamView,
    result: Result<u8, StreamError>,
    post: StreamView,
)
    requires
        pre.wf(),
        pre.checkpoints.len() == 0,
        pre.starts_fetch(),
        pre.reads_to(source, result, post),
    ensures
        post.offset == pre.position,
        post.chunks == 1,
{
    let evicted = StreamView {
        data: pre.data,
        position: pre.position,
        ended: false,
        chunks: (post.chunks - 1) as nat,
        ..post
    };
    lemma_eviction_releases(pre, evicted);
}

} // verus!
