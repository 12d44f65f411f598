//! Backtrack points and the registry that keeps track of them.
//!
//! A [`CheckPoint`] is owned by the consumer. The registry keeps one tracker
//! per checkpoint and never has to be told that a checkpoint is gone: a
//! tracker whose checkpoint nobody holds any more is dropped the next time
//! the registry looks for its minimum.

use std::rc::Rc;
use vstd::prelude::*;

verus! {

/// A position of the stream that the consumer may go back to.
///
/// The handle holds the position counted from the start of the stream, so a
/// rebase of the registry leaves it untouched.
pub struct CheckPoint(Rc<u64>);

impl Clone for CheckPoint {
    /// A second handle on the same checkpoint: the checkpoint is held as
    /// long as one of its handles is.
    fn clone(&self) -> (copy: Self)
        ensures
            copy@ == self@,
    {
        CheckPoint(share(&self.0))
    }
}

impl View for CheckPoint {
    type V = u64;

    closed spec fn view(&self) -> u64 {
        *self.0
    }
}

impl CheckPoint {
    /// A checkpoint at `pos`, counted from the start of the stream.
    pub(crate) fn new(pos: u64) -> (cp: CheckPoint)
        ensures
            cp@ == pos,
    {
        CheckPoint(Rc::new(pos))
    }

    /// The position the checkpoint stands for, counted from the start of the
    /// stream.
    pub fn inner(&self) -> (pos: u64)
        ensures
            pos == self@,
    {
        *self.0
    }
}

/// `Rc::clone`: a second pointer to the allocation of `token`, which
/// therefore reads the same value. The strong count of the allocation goes
/// up by one.
#[verifier::external_body]
fn share(token: &Rc<u64>) -> (copy: Rc<u64>)
    ensures
        *copy == **token,
{
    Rc::clone(token)
}

/// `Rc::strong_count`: how many `Rc` pointers to the allocation of `token`
/// exist right now. The number depends on what the rest of the program has
/// dropped, so nothing is claimed about it.
#[verifier::external_body]
fn holders(token: &Rc<u64>) -> (count: usize) {
    Rc::strong_count(token)
}

/// The registry's side of a checkpoint: the tracked position, relative to
/// the head of the buffer, and a share of the checkpoint's allocation by
/// which the registry sees whether the checkpoint is still held.
pub struct CheckPointHandler {
    token: Rc<u64>,
    position: usize,
}

impl CheckPointHandler {
    /// The tracked position, relative to the head of the buffer.
    pub closed spec fn position(&self) -> usize {
        self.position
    }

    /// A tracker for `cp`, which stands at `position` from the head of the
    /// buffer.
    pub(crate) fn from_checkpoint(cp: &CheckPoint, position: usize) -> (handler: CheckPointHandler)
        ensures
            handler.position() == position,
    {
        CheckPointHandler { token: share(&cp.0), position }
    }

    /// Whether anyone but the registry still holds the checkpoint.
    ///
    /// The answer goes by how many holders the checkpoint's allocation has
    /// at the moment of the call, which is for the rest of the program to
    /// decide: [`held_by_a_handle`] says what each number means.
    pub(crate) fn is_live(&self) -> bool {
        held_by_a_handle(holders(&self.token))
    }
}

/// Whether a checkpoint whose allocation has `count` holders is still held
/// by a handle. The registry's tracker is one of the holders, so it takes
/// a second one.
pub fn held_by_a_handle(count: usize) -> (held: bool)
    ensures
        held == (count > 1),
{
    count > 1
}

/// `m` is the least element of `positions`, or `None` where there is none.
pub open spec fn is_minimum(positions: Seq<usize>, m: Option<usize>) -> bool {
    match m {
        Some(least) => positions.contains(least) && forall|i: int|
            0 <= i < positions.len() ==> least <= positions[i],
        None => positions.len() == 0,
    }
}

/// The elements of `positions` whose mark in `live` is set, in their order.
pub open spec fn kept<T>(positions: Seq<T>, live: Seq<bool>) -> Seq<T>
    recommends
        positions.len() == live.len(),
    decreases positions.len(),
{
    if positions.len() == 0 {
        Seq::empty()
    } else if live.last() {
        kept(positions.drop_last(), live.drop_last()).push(positions.last())
    } else {
        kept(positions.drop_last(), live.drop_last())
    }
}

/// Every element of `kept(positions, live)` is an element of `positions`.
pub proof fn lemma_kept_comes_from<T>(positions: Seq<T>, live: Seq<bool>, p: T)
    requires
        positions.len() == live.len(),
        kept(positions, live).contains(p),
    ensures
        positions.contains(p),
    decreases positions.len(),
{
    if positions.len() > 0 {
        let front = positions.drop_last();
        let kept_front = kept(front, live.drop_last());
        if live.last() && p == positions.last() {
            assert(positions[positions.len() - 1] == p);
        } else {
            let all = kept(positions, live);
            let i = choose|i: int| 0 <= i < all.len() && all[i] == p;
            assert(kept_front[i] == p);
            lemma_kept_comes_from(front, live.drop_last(), p);
            let j = choose|j: int| 0 <= j < front.len() && front[j] == p;
            assert(positions[j] == p);
        }
    }
}

/// The checkpoint registry: the positions of the checkpoints that may still
/// be held, oldest first.
pub struct CheckPointSet(Vec<CheckPointHandler>);

impl View for CheckPointSet {
    type V = Seq<usize>;

    closed spec fn view(&self) -> Seq<usize> {
        self.0@.map_values(|h: CheckPointHandler| h.position)
    }
}

impl CheckPointSet {
    /// A registry that tracks nothing.
    pub fn new() -> (set: CheckPointSet)
        ensures
            set@ == Seq::<usize>::empty(),
    {
        CheckPointSet(Vec::new())
    }

    /// Registers a checkpoint at `pos`, where `origin` is the position of the
    /// buffer's head in the stream, and hands out its handle.
    pub fn insert(&mut self, pos: usize, origin: u64) -> (cp: CheckPoint)
        requires
            origin + pos <= u64::MAX,
        ensures
            final(self)@ == old(self)@.push(pos),
            cp@ == origin + pos,
    {
        let cp = CheckPoint::new(origin + pos as u64);
        self.0.push(CheckPointHandler::from_checkpoint(&cp, pos));
        cp
    }

    /// How many trackers the registry holds, dead ones included.
    pub fn len(&self) -> (n: usize)
        ensures
            n == self@.len(),
    {
        self.0.len()
    }

    /// Asks each tracker in turn whether its checkpoint is still held.
    pub fn survey(&self) -> (live: Vec<bool>)
        ensures
            live@.len() == self@.len(),
    {
        let mut live: Vec<bool> = Vec::new();
        let mut i: usize = 0;
        while i < self.0.len()
            invariant
                i <= self.0.len(),
                live@.len() == i,
            decreases self.0.len() - i,
        {
            live.push(self.0[i].is_live());
            i += 1;
        }
        live
    }

    /// Drops the trackers that `live` marks as dead and returns the least
    /// position among the others.
    pub fn min_of(&mut self, live: &Vec<bool>) -> (m: Option<usize>)
        requires
            live@.len() == old(self)@.len(),
        ensures
            final(self)@ == kept(old(self)@, live@),
            is_minimum(final(self)@, m),
    {
        let mut m: Option<usize> = None;
        let mut done: usize = 0;
        let mut at: usize = 0;
        let total = live.len();
        while done < total
            invariant
                total == live@.len(),
                total == old(self)@.len(),
                done <= total,
                at <= done,
                self@.len() == at + (total - done),
                self@.take(at as int) == kept(
                    old(self)@.take(done as int),
                    live@.take(done as int),
                ),
                self@.skip(at as int) == old(self)@.skip(done as int),
                is_minimum(self@.take(at as int), m),
            decreases total - done,
        {
            let ghost before = self@;
            assert(old(self)@.take(done + 1).drop_last() =~= old(self)@.take(done as int));
            assert(live@.take(done + 1).drop_last() =~= live@.take(done as int));
            assert(before[at as int] == before.skip(at as int)[0]);
            if live[done] {
                let pos = self.0[at].position;
                m =
                match m {
                    Some(least) => {
                        if pos < least {
                            Some(pos)
                        } else {
                            Some(least)
                        }
                    },
                    None => Some(pos),
                };
                proof {
                    let prefix = self@.take(at as int);
                    let grown = prefix.push(pos);
                    assert(grown[at as int] == pos);
                    if m == Some(pos) {
                        assert(grown.contains(pos));
                    } else {
                        let least = m->0;
                        let w = choose|w: int| 0 <= w < prefix.len() && prefix[w] == least;
                        assert(grown[w] == least);
                    }
                }
                at += 1;
                let ghost rest = old(self)@.skip(done + 1);
                assert forall|k: int| 0 <= k < rest.len() implies self@.skip(at as int)[k]
                    == #[trigger] rest[k] by {
                    assert(before.skip(at - 1)[k + 1] == old(self)@.skip(done as int)[k + 1]);
                }
                assert(self@.skip(at as int) =~= rest);
            } else {
                self.0.remove(at);
                assert(self@ =~= before.remove(at as int));
                assert(self@.take(at as int) =~= before.take(at as int));
                let ghost rest = old(self)@.skip(done + 1);
                assert forall|k: int| 0 <= k < rest.len() implies self@.skip(at as int)[k]
                    == #[trigger] rest[k] by {
                    assert(before.skip(at as int)[k + 1] == old(self)@.skip(done as int)[k + 1]);
                }
                assert(self@.skip(at as int) =~= rest);
            }
            done += 1;
        }
        assert(old(self)@.take(done as int) =~= old(self)@);
        assert(live@.take(done as int) =~= live@);
        m
    }

    /// The least tracked position among the checkpoints that are still held;
    /// the trackers of the others are dropped on the way.
    ///
    /// Which checkpoints are still held is for the rest of the program to
    /// decide: the registry ends up as `min_of` leaves it for some marking.
    pub fn min(&mut self) -> (m: Option<usize>)
        ensures
            exists|live: Seq<bool>|
                live.len() == old(self)@.len() && final(self)@ == #[trigger] kept(
                    old(self)@,
                    live,
                ),
            is_minimum(final(self)@, m),
    {
        let live = self.survey();
        self.min_of(&live)
    }

    /// Moves every tracked position `value` towards the head.
    pub fn sub_offset(&mut self, value: usize)
        requires
            forall|i: int| 0 <= i < old(self)@.len() ==> value <= old(self)@[i],
        ensures
            final(self)@.len() == old(self)@.len(),
            forall|i: int| 0 <= i < old(self)@.len() ==> final(self)@[i] == old(self)@[i] - value,
    {
        let mut i: usize = 0;
        while i < self.0.len()
            invariant
                i <= self.0.len(),
                self@.len() == old(self)@.len(),
                forall|j: int| 0 <= j < i ==> self@[j] == old(self)@[j] - value,
                forall|j: int| i <= j < self@.len() ==> self@[j] == old(self)@[j],
                forall|j: int| 0 <= j < old(self)@.len() ==> value <= old(self)@[j],
            decreases self.0.len() - i,
        {
            let ghost before = self@;
            assert(before[i as int] == self.0[i as int].position);
            self.0[i].position = self.0[i].position - value;
            assert forall|j: int| 0 <= j < i + 1 implies self@[j] == old(self)@[j] - value by {
                if j < i {
                    assert(self@[j] == before[j]);
                }
            }
            i += 1;
        }
    }
}

} // verus!
