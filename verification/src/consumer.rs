//! The reading end of a ring.
use crate::cursor::{gap, moved};
use crate::dequeued::Dequeued;
use crate::error::Error;
use crate::producer::Producer;
use crate::queue::{batch_dequeued, dequeued};
use crate::spsc::{
    consumer_cache_ok, is_empty, law_dequeue_keeps_producer_cache, law_len_is_gap, SpscRing,
};
use core::marker::PhantomData;
use vstd::prelude::*;

verus! {

/// The handle that elements are dequeued through.
///
/// It remembers where the producer was when the consumer last looked. A handle `tracks` a ring as
/// long as what it remembers is safe to go by. What a producer does to the ring keeps that so;
/// what another consumer does need not, so a ring is drained through one consumer.
pub struct Consumer<T, const N: usize> {
    cached_head: usize,
    elems: PhantomData<T>,
}

impl<T, const N: usize> Consumer<T, N> {
    /// The head as this consumer last saw it.
    pub closed spec fn cached_head(&self) -> usize {
        self.cached_head
    }

    /// Whether what this consumer remembers is safe to go by: the queue is at least as long as the
    /// consumer takes it to be.
    pub open spec fn tracks(&self, ring: SpscRing<T, N>) -> bool {
        consumer_cache_ok(ring.head(), ring.tail(), self.cached_head())
    }

    /// A consumer that has seen the head at `head`.
    pub(crate) fn new(head: usize) -> (consumer: Self)
        ensures
            consumer.cached_head() == head,
        no_unwind
    {
        Consumer { cached_head: head, elems: PhantomData }
    }

    /// Takes the oldest element, if there is one.
    pub fn dequeue(&mut self, ring: &mut SpscRing<T, N>) -> (result: Result<T, Error>)
        requires
            old(ring).wf(),
            old(self).tracks(*old(ring)),
        ensures
            final(ring).wf(),
            final(self).tracks(*final(ring)),
            (final(ring)@, result) == dequeued(old(ring)@),
            result is Err ==> *final(ring) == *old(ring),
            final(ring).head() == old(ring).head(),
            final(ring).tail() == moved(old(ring).tail(), if result is Ok { 1 } else { 0 }),
            final(self).cached_head() == if old(ring).tail() == old(self).cached_head() {
                old(ring).head()
            } else {
                old(self).cached_head()
            },
            forall|p: Producer<T, N>| p.tracks(*old(ring)) ==> #[trigger] p.tracks(*final(ring)),
        no_unwind
    {
        let result = ring.dequeue(&mut self.cached_head);
        proof {
            let n: int = if result is Ok { 1 } else { 0 };
            law_len_is_gap(*old(ring));
            assert forall|p: Producer<T, N>| p.tracks(*old(ring)) implies #[trigger] p.tracks(
                *ring,
            ) by {
                law_dequeue_keeps_producer_cache(ring.head(), old(ring).tail(), p.cached_tail(), n, N);
            }
        }
        result
    }

    /// Takes the oldest elements, as many as there are but at most `max`.
    pub fn dequeue_batch(&mut self, ring: &mut SpscRing<T, N>, max: usize) -> (batch: Dequeued<T>)
        requires
            old(ring).wf(),
            old(self).tracks(*old(ring)),
        ensures
            final(ring).wf(),
            final(self).tracks(*final(ring)),
            (final(ring)@, batch@) == batch_dequeued(old(ring)@, max as int),
            batch@.len() == 0 ==> *final(ring) == *old(ring),
            final(ring).head() == old(ring).head(),
            final(ring).tail() == moved(old(ring).tail(), batch@.len() as int),
            final(self).cached_head() == if gap(old(self).cached_head(), old(ring).tail()) < max {
                old(ring).head()
            } else {
                old(self).cached_head()
            },
            forall|p: Producer<T, N>| p.tracks(*old(ring)) ==> #[trigger] p.tracks(*final(ring)),
    {
        let mut items: Vec<T> = Vec::new();
        let n: usize = ring.dequeue_batch(&mut items, max, &mut self.cached_head);
        proof {
            assert(items@ =~= batch_dequeued(old(ring)@, max as int).1);
            law_len_is_gap(*old(ring));
            assert forall|p: Producer<T, N>| p.tracks(*old(ring)) implies #[trigger] p.tracks(
                *ring,
            ) by {
                law_dequeue_keeps_producer_cache(
                    ring.head(),
                    old(ring).tail(),
                    p.cached_tail(),
                    n as int,
                    N,
                );
            }
        }
        Dequeued::new(items)
    }

    /// Whether the queue has no element.
    pub fn is_empty(&self, ring: &SpscRing<T, N>) -> (empty: bool)
        requires
            ring.wf(),
        ensures
            empty == (ring@.len() == 0),
        no_unwind
    {
        is_empty(ring)
    }
}

} // verus!
