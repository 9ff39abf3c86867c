//! The writing end of a ring.
use crate::consumer::Consumer;
use crate::cursor::{gap, moved};
use crate::queue::{batch_enqueued, enqueued};
use crate::spsc::{
    is_full, law_enqueue_keeps_consumer_cache, law_len_is_gap, producer_cache_ok, SpscRing,
};
use core::marker::PhantomData;
use vstd::prelude::*;

verus! {

/// The handle that elements are enqueued through.
///
/// It remembers where the consumer was when the producer last looked. A handle `tracks` a ring as
/// long as what it remembers is safe to go by. What a consumer does to the ring keeps that so;
/// what another producer does need not, so a ring is fed through one producer.
pub struct Producer<T, const N: usize> {
    cached_tail: usize,
    elems: PhantomData<T>,
}

impl<T, const N: usize> Producer<T, N> {
    /// The tail as this producer last saw it.
    pub closed spec fn cached_tail(&self) -> usize {
        self.cached_tail
    }

    /// Whether what this producer remembers is safe to go by: the queue is at most as long as the
    /// producer takes it to be, which is at most the capacity.
    pub open spec fn tracks(&self, ring: SpscRing<T, N>) -> bool {
        producer_cache_ok(ring.head(), ring.tail(), self.cached_tail(), N as int)
    }

    /// A producer that has seen the tail at `tail`.
    pub(crate) fn new(tail: usize) -> (producer: Self)
        ensures
            producer.cached_tail() == tail,
        no_unwind
    {
        Producer { cached_tail: tail, elems: PhantomData }
    }

    /// Appends an element, or hands it back if the queue is full.
    pub fn enqueue(&mut self, ring: &mut SpscRing<T, N>, elem: T) -> (result: Result<(), T>)
        requires
            old(ring).wf(),
            old(self).tracks(*old(ring)),
        ensures
            final(ring).wf(),
            final(self).tracks(*final(ring)),
            (final(ring)@, result) == enqueued(old(ring)@, N as int, elem),
            result is Err ==> *final(ring) == *old(ring),
            final(ring).tail() == old(ring).tail(),
            final(ring).head() == moved(old(ring).head(), if result is Ok { 1 } else { 0 }),
            final(self).cached_tail() == if gap(old(ring).head(), old(self).cached_tail()) == N {
                old(ring).tail()
            } else {
                old(self).cached_tail()
            },
            forall|c: Consumer<T, N>| c.tracks(*old(ring)) ==> #[trigger] c.tracks(*final(ring)),
        no_unwind
    {
        let result = ring.enqueue(elem, &mut self.cached_tail);
        proof {
            let n: int = if result is Ok { 1 } else { 0 };
            law_len_is_gap(*old(ring));
            assert forall|c: Consumer<T, N>| c.tracks(*old(ring)) implies #[trigger] c.tracks(
                *ring,
            ) by {
                law_enqueue_keeps_consumer_cache(old(ring).head(), ring.tail(), c.cached_head(), n, N);
            }
        }
        result
    }

    /// Appends as many of the items as there is room for and returns how many that is.
    pub fn enqueue_batch(&mut self, ring: &mut SpscRing<T, N>, items: &[T]) -> (n: usize) where T: Copy
        requires
            old(ring).wf(),
            old(self).tracks(*old(ring)),
        ensures
            final(ring).wf(),
            final(self).tracks(*final(ring)),
            (final(ring)@, n as int) == batch_enqueued(old(ring)@, N as int, items@),
            n == 0 ==> *final(ring) == *old(ring),
            final(ring).tail() == old(ring).tail(),
            final(ring).head() == moved(old(ring).head(), n as int),
            final(self).cached_tail() == if N - gap(old(ring).head(), old(self).cached_tail())
                < items@.len() {
                old(ring).tail()
            } else {
                old(self).cached_tail()
            },
            forall|c: Consumer<T, N>| c.tracks(*old(ring)) ==> #[trigger] c.tracks(*final(ring)),
    {
        let n: usize = ring.enqueue_batch(items, &mut self.cached_tail);
        proof {
            law_len_is_gap(*old(ring));
            assert forall|c: Consumer<T, N>| c.tracks(*old(ring)) implies #[trigger] c.tracks(
                *ring,
            ) by {
                law_enqueue_keeps_consumer_cache(
                    old(ring).head(),
                    ring.tail(),
                    c.cached_head(),
                    n as int,
                    N,
                );
            }
        }
        n
    }

    /// Whether the queue is at capacity.
    pub fn is_full(&self, ring: &SpscRing<T, N>) -> (full: bool)
        requires
            ring.wf(),
        ensures
            full == (ring@.len() == N),
        no_unwind
    {
        is_full(ring)
    }
}

} // verus!
