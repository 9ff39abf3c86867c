//! What holds of a ring over several operations.
use crate::cursor::{gap, lemma_moved, moved};
use crate::error::Error;
use crate::queue::{batch_dequeued, batch_enqueued, dequeued, enqueued, least};
use crate::spsc::{law_ring_owns_its_queue, lets_go, SpscRing};
use crate::window::{in_order, lemma_in_order_owned, owned};
use vstd::multiset::Multiset;
use vstd::prelude::*;
use vstd::seq_lib::lemma_multiset_commutative;

verus! {

/// One operation on a queue, by either end.
pub enum Op<T> {
    /// Append an element.
    Enqueue(T),
    /// Append items.
    EnqueueBatch(Seq<T>),
    /// Take an element.
    Dequeue,
    /// Take at most so many elements.
    DequeueBatch(nat),
}

/// A queue with what was taken in and given out so far.
#[verifier::ext_equal]
pub struct Ledger<T> {
    /// The queue.
    pub queue: Seq<T>,
    /// The elements that were accepted, in order.
    pub accepted: Seq<T>,
    /// The elements that were handed out, in order.
    pub handed_out: Seq<T>,
}

/// The ledger after one more operation.
pub open spec fn after_op<T>(ledger: Ledger<T>, cap: int, op: Op<T>) -> Ledger<T> {
    match op {
        Op::Enqueue(elem) => Ledger {
            queue: enqueued(ledger.queue, cap, elem).0,
            accepted: if enqueued(ledger.queue, cap, elem).1 is Ok {
                ledger.accepted.push(elem)
            } else {
                ledger.accepted
            },
            ..ledger
        },
        Op::EnqueueBatch(items) => Ledger {
            queue: batch_enqueued(ledger.queue, cap, items).0,
            accepted: ledger.accepted + items.take(batch_enqueued(ledger.queue, cap, items).1),
            ..ledger
        },
        Op::Dequeue => Ledger {
            queue: dequeued(ledger.queue).0,
            handed_out: match dequeued(ledger.queue).1 {
                Ok(elem) => ledger.handed_out.push(elem),
                Err(_) => ledger.handed_out,
            },
            ..ledger
        },
        Op::DequeueBatch(max) => Ledger {
            queue: batch_dequeued(ledger.queue, max as int).0,
            handed_out: ledger.handed_out + batch_dequeued(ledger.queue, max as int).1,
            ..ledger
        },
    }
}

/// The ledger after a sequence of operations.
pub open spec fn after_ops<T>(ledger: Ledger<T>, cap: int, ops: Seq<Op<T>>) -> Ledger<T>
    decreases ops.len(),
{
    if ops.len() == 0 {
        ledger
    } else {
        after_op(after_ops(ledger, cap, ops.drop_last()), cap, ops.last())
    }
}

/// First in, first out: after any operations, what was handed out, followed by what is queued, is
/// what was queued at the start, followed by what was accepted. The queue never exceeds the
/// capacity.
pub proof fn law_fifo<T>(start: Seq<T>, cap: int, ops: Seq<Op<T>>)
    requires
        start.len() <= cap,
    ensures
        ({
            let end = after_ops(
                Ledger { queue: start, accepted: Seq::empty(), handed_out: Seq::empty() },
                cap,
                ops,
            );
            &&& end.handed_out + end.queue == start + end.accepted
            &&& end.queue.len() <= cap
        }),
    decreases ops.len(),
{
    let first = Ledger { queue: start, accepted: Seq::<T>::empty(), handed_out: Seq::<T>::empty() };
    if ops.len() == 0 {
        assert(first.handed_out + first.queue =~= start + first.accepted);
    } else {
        law_fifo(start, cap, ops.drop_last());
        let before = after_ops(first, cap, ops.drop_last());
        let end = after_op(before, cap, ops.last());
        match ops.last() {
            Op::Enqueue(elem) => {
                assert((before.handed_out + before.queue).push(elem) =~= before.handed_out
                    + before.queue.push(elem));
                assert((start + before.accepted).push(elem) =~= start + before.accepted.push(elem));
            },
            Op::EnqueueBatch(items) => {
                let more = items.take(batch_enqueued(before.queue, cap, items).1);
                assert((before.handed_out + before.queue) + more =~= before.handed_out + (
                before.queue + more));
                assert((start + before.accepted) + more =~= start + (before.accepted + more));
            },
            Op::Dequeue => {
                assert(end.handed_out + end.queue =~= before.handed_out + before.queue);
            },
            Op::DequeueBatch(max) => {
                assert(end.handed_out + end.queue =~= before.handed_out + before.queue);
            },
        }
    }
}

/// Over the life of a ring that starts empty, every accepted element leaves it exactly once: it is
/// handed out, or the ring still owns it and lets it go when it is dropped.
pub proof fn law_every_element_leaves_once<T, const N: usize>(ring: SpscRing<T, N>, ops: Seq<Op<T>>)
    requires
        ring.wf(),
        ring@ == after_ops(
            Ledger { queue: Seq::empty(), accepted: Seq::empty(), handed_out: Seq::empty() },
            N as int,
            ops,
        ).queue,
    ensures
        ({
            let end = after_ops(
                Ledger { queue: Seq::<T>::empty(), accepted: Seq::empty(), handed_out: Seq::empty() },
                N as int,
                ops,
            );
            end.accepted.to_multiset() == end.handed_out.to_multiset().add(owned(ring.slots()))
        }),
{
    let start = Ledger {
        queue: Seq::<T>::empty(),
        accepted: Seq::<T>::empty(),
        handed_out: Seq::<T>::empty(),
    };
    let end = after_ops(start, N as int, ops);
    law_fifo(start.queue, N as int, ops);
    law_ring_owns_its_queue(ring);
    lemma_multiset_commutative(end.handed_out, end.queue);
    assert(start.queue + end.accepted =~= end.accepted);
}

/// Dropping a ring completes the order: what was handed out over its life, followed by what goes
/// with it in the order in which it goes, is what was accepted. Nothing is lost, doubled or
/// reordered, and what goes is what the ring owned.
pub proof fn law_drop_completes_the_order<T, const N: usize>(
    ring: SpscRing<T, N>,
    dropped: SpscRing<T, N>,
    ops: Seq<Op<T>>,
)
    requires
        ring.wf(),
        ring@ == after_ops(
            Ledger { queue: Seq::empty(), accepted: Seq::empty(), handed_out: Seq::empty() },
            N as int,
            ops,
        ).queue,
        lets_go(ring, dropped),
    ensures
        ({
            let end = after_ops(
                Ledger { queue: Seq::<T>::empty(), accepted: Seq::empty(), handed_out: Seq::empty() },
                N as int,
                ops,
            );
            end.handed_out + in_order(dropped.leaving()) == end.accepted
        }),
        owned(dropped.leaving()) == owned(ring.slots()),
        owned(dropped.slots()) == Multiset::<T>::empty(),
{
    let start = Ledger {
        queue: Seq::<T>::empty(),
        accepted: Seq::<T>::empty(),
        handed_out: Seq::<T>::empty(),
    };
    let end = after_ops(start, N as int, ops);
    law_fifo(start.queue, N as int, ops);
    assert(start.queue + end.accepted =~= end.accepted);
    law_ring_owns_its_queue(ring);
    lemma_in_order_owned(dropped.leaving());
}

/// The operations that enqueue the given items one by one.
pub open spec fn one_by_one<T>(items: Seq<T>) -> Seq<Op<T>> {
    items.map_values(|item: T| Op::Enqueue(item))
}

/// Enqueueing a batch does what enqueueing its items one by one does.
pub proof fn law_enqueue_batch_is_repeated_enqueue<T>(ledger: Ledger<T>, cap: int, items: Seq<T>)
    requires
        ledger.queue.len() <= cap,
    ensures
        after_op(ledger, cap, Op::EnqueueBatch(items)) == after_ops(ledger, cap, one_by_one(items)),
    decreases items.len(),
{
    let ops = one_by_one(items);
    if items.len() == 0 {
        assert(ledger.queue + items.take(0) =~= ledger.queue);
        assert(ledger.accepted + items.take(0) =~= ledger.accepted);
        assert(after_op(ledger, cap, Op::EnqueueBatch(items)) =~= ledger);
    } else {
        let fewer = items.drop_last();
        law_enqueue_batch_is_repeated_enqueue(ledger, cap, fewer);
        assert(ops.drop_last() =~= one_by_one(fewer));
        assert(ops.last() == Op::Enqueue(items.last()));
        let n = batch_enqueued(ledger.queue, cap, items).1;
        let m = batch_enqueued(ledger.queue, cap, fewer).1;
        if n == items.len() {
            assert(items.take(n) =~= fewer.take(m).push(items.last()));
            assert(ledger.queue + items.take(n) =~= (ledger.queue + fewer.take(m)).push(
                items.last(),
            ));
            assert(ledger.accepted + items.take(n) =~= (ledger.accepted + fewer.take(m)).push(
                items.last(),
            ));
        } else {
            assert(items.take(n) =~= fewer.take(m));
        }
        assert(after_op(ledger, cap, Op::EnqueueBatch(items)) =~= after_ops(ledger, cap, ops));
    }
}

/// Dequeueing a batch does what dequeueing as many times one by one does.
pub proof fn law_dequeue_batch_is_repeated_dequeue<T>(ledger: Ledger<T>, cap: int, max: nat)
    ensures
        after_op(ledger, cap, Op::DequeueBatch(max)) == after_ops(
            ledger,
            cap,
            Seq::new(max, |i: int| Op::<T>::Dequeue),
        ),
    decreases max,
{
    let ops = Seq::new(max, |i: int| Op::<T>::Dequeue);
    let queue = ledger.queue;
    if max == 0 {
        assert(queue.skip(0) =~= queue);
        assert(ledger.handed_out + queue.take(0) =~= ledger.handed_out);
        assert(after_op(ledger, cap, Op::DequeueBatch(0)) =~= ledger);
    } else {
        let fewer = (max - 1) as nat;
        law_dequeue_batch_is_repeated_dequeue(ledger, cap, fewer);
        assert(ops.drop_last() =~= Seq::new(fewer, |i: int| Op::<T>::Dequeue));
        let n = least(max as int, queue.len() as int);
        let m = least(fewer as int, queue.len() as int);
        if m < n {
            assert(queue.skip(m).drop_first() =~= queue.skip(n));
            assert((ledger.handed_out + queue.take(m)).push(queue[m]) =~= ledger.handed_out
                + queue.take(n));
        }
        assert(after_op(ledger, cap, Op::DequeueBatch(max)) =~= after_ops(ledger, cap, ops));
    }
}

/// A queue at capacity refuses an element, stays as it is and hands the element back; one below
/// capacity takes it. A batch is refused altogether under the same condition.
pub proof fn law_refused_iff_full<T>(queue: Seq<T>, cap: int, elem: T)
    requires
        queue.len() <= cap,
    ensures
        enqueued(queue, cap, elem).1 is Err <==> queue.len() == cap,
        enqueued(queue, cap, elem).1 is Err ==> enqueued(queue, cap, elem) == (
            queue,
            Err::<(), T>(elem),
        ),
        batch_enqueued(queue, cap, seq![elem]).1 == 0 <==> queue.len() == cap,
{
}

/// An empty queue takes as many elements as its capacity, and no more.
pub proof fn law_capacity<T>(cap: int, items: Seq<T>)
    requires
        cap >= 0,
    ensures
        batch_enqueued(Seq::<T>::empty(), cap, items).1 == least(items.len() as int, cap),
        batch_enqueued(Seq::<T>::empty(), cap, items).0 == items.take(
            least(items.len() as int, cap),
        ),
{
    assert(batch_enqueued(Seq::<T>::empty(), cap, items).0 =~= items.take(
        least(items.len() as int, cap),
    ));
}

/// What is put into an empty queue comes out as it went in, singly or in a batch; of a batch, as
/// much as fits.
pub proof fn law_round_trip<T>(cap: int, elem: T, items: Seq<T>, max: int)
    requires
        1 <= cap,
        least(items.len() as int, cap) <= max,
    ensures
        dequeued(enqueued(Seq::<T>::empty(), cap, elem).0) == (
            Seq::<T>::empty(),
            Ok::<T, Error>(elem),
        ),
        batch_dequeued(batch_enqueued(Seq::<T>::empty(), cap, items).0, max) == (
            Seq::<T>::empty(),
            items.take(least(items.len() as int, cap)),
        ),
{
    let empty = Seq::<T>::empty();
    assert(empty.push(elem).drop_first() =~= empty);
    let n = least(items.len() as int, cap);
    let filled = batch_enqueued(empty, cap, items).0;
    assert(filled =~= items.take(n));
    assert(filled.skip(n) =~= empty);
    assert(filled.take(n) =~= items.take(n));
}

/// Only the distance between the cursors counts: it stays when both move alike.
pub proof fn law_only_distance_counts(newer: usize, older: usize, n: int)
    requires
        0 <= n <= usize::MAX,
    ensures
        gap(moved(newer, n), moved(older, n)) == gap(newer, older),
{
    lemma_moved(newer, n);
    lemma_moved(older, n);
}

} // verus!
