//! The ring: a bounded queue between one producer and one consumer.
use crate::claim::{claim_read, claim_write, grant_read, grant_write, Claim};
use crate::consumer::Consumer;
use crate::cursor::{
    advance, distance, gap, law_moved_slot, lemma_moved, lemma_span_keeps_slot, moved, slot_of,
    valid_capacity,
};
use crate::error::Error;
use crate::producer::Producer;
use crate::queue::{batch_dequeued, batch_enqueued, dequeued, enqueued, least};
use crate::slots::Ring;
use crate::window::{
    in_order, is_window, lemma_owned_empty, lemma_row_in_order, lemma_window_empty,
    lemma_window_owned, lemma_window_pop, lemma_window_push, lemma_window_same_slots, nth_slot,
    owned, window,
};
use vstd::arithmetic::div_mod::lemma_add_mod_noop;
use vstd::multiset::Multiset;
use vstd::prelude::*;

verus! {

/// A bounded queue between one producer and one consumer.
///
/// `head` is where the producer writes next and `tail` where the consumer reads next. Both only
/// move forward and wrap around; the elements in between are the queue.
pub struct SpscRing<T, const N: usize> {
    head: usize,
    tail: usize,
    ring: Ring<T, N>,
}

impl<T, const N: usize> View for SpscRing<T, N> {
    type V = Seq<T>;

    /// The queued elements, oldest first.
    closed spec fn view(&self) -> Seq<T> {
        window(self.ring@, self.tail as int, gap(self.head, self.tail))
    }
}

/// Whether a producer may go by `cached_tail` in place of the tail: it lies at or behind the tail,
/// and not so far behind that the head would be more than `cap` ahead of it.
pub open spec fn producer_cache_ok(head: usize, tail: usize, cached_tail: usize, cap: int) -> bool {
    gap(head, tail) <= gap(head, cached_tail) <= cap
}

/// Whether a consumer may go by `cached_head` in place of the head: it lies between the two.
pub open spec fn consumer_cache_ok(head: usize, tail: usize, cached_head: usize) -> bool {
    gap(cached_head, tail) <= gap(head, tail)
}

impl<T, const N: usize> SpscRing<T, N> {
    /// Where the producer writes next.
    pub closed spec fn head(&self) -> usize {
        self.head
    }

    /// Where the consumer reads next.
    pub closed spec fn tail(&self) -> usize {
        self.tail
    }

    /// The slots, each with the element that it owns.
    pub closed spec fn slots(&self) -> Seq<Option<T>> {
        self.ring@
    }

    /// The elements that will go with the ring, slot by slot. When a ring is dropped, its slots go
    /// from the first to the last.
    pub closed spec fn leaving(&self) -> Seq<Option<T>> {
        self.ring.leaving()
    }

    /// The queue is within capacity, its elements are in the slots from the tail to the head, and
    /// every other slot is empty.
    pub closed spec fn wf(&self) -> bool {
        &&& valid_capacity(N as int)
        &&& self.ring.settled()
        &&& self.ring@.len() == N
        &&& is_window(self.ring@, self.tail as int, gap(self.head, self.tail))
    }

    /// What holds of every ring at any time: the capacity is a valid one, or nothing is queued.
    #[verifier::type_invariant]
    closed spec fn capacity_ok(self) -> bool {
        valid_capacity(N as int) || self.head == self.tail
    }

    /// An empty ring.
    #[must_use]
    pub fn new() -> (ring: Self)
        requires
            valid_capacity(N as int),
        ensures
            ring.wf(),
            ring@ == Seq::<T>::empty(),
            ring.head() == 0,
            ring.tail() == 0,
        no_unwind
    {
        let ring = SpscRing { head: 0, tail: 0, ring: Ring::new() };
        proof {
            lemma_window_empty(ring.ring@, 0);
        }
        ring
    }

    /// Appends an element, or hands it back if the queue is full.
    ///
    /// `cached_tail` is the tail as the producer last saw it. It is brought up to date only when
    /// the queue is full by it.
    pub fn enqueue(&mut self, elem: T, cached_tail: &mut usize) -> (result: Result<(), T>)
        requires
            old(self).wf(),
            producer_cache_ok(old(self).head(), old(self).tail(), *old(cached_tail), N as int),
        ensures
            final(self).wf(),
            (final(self)@, result) == enqueued(old(self)@, N as int, elem),
            final(self).tail() == old(self).tail(),
            final(self).head() == moved(old(self).head(), if result is Ok { 1 } else { 0 }),
            result is Err ==> *final(self) == *old(self),
            *final(cached_tail) == if gap(old(self).head(), *old(cached_tail)) == N {
                old(self).tail()
            } else {
                *old(cached_tail)
            },
            producer_cache_ok(final(self).head(), final(self).tail(), *final(cached_tail), N as int),
        no_unwind
    {
        let head: usize = self.head;
        proof {
            lemma_moved(head, 0);
            lemma_moved(head, 1);
        }
        let n: usize = match claim_write(head, *cached_tail, 1, N) {
            Claim::Go(n) => n,
            Claim::Look => {
                *cached_tail = self.tail;
                grant_write(head, *cached_tail, 1, N)
            },
        };
        if n == 0 {
            return Err(elem);
        }
        proof {
            let len = gap(head, self.tail);
            lemma_window_push(self.ring@, self.tail as int, len, elem);
            law_head_slot(head, self.tail, N);
        }
        self.ring.slot_mut(head).write(elem);
        self.head = advance(head, 1);
        Ok(())
    }

    /// Takes the oldest element, if there is one.
    ///
    /// `cached_head` is the head as the consumer last saw it. It is brought up to date only when
    /// the queue is empty by it.
    pub fn dequeue(&mut self, cached_head: &mut usize) -> (result: Result<T, Error>)
        requires
            old(self).wf(),
            consumer_cache_ok(old(self).head(), old(self).tail(), *old(cached_head)),
        ensures
            final(self).wf(),
            (final(self)@, result) == dequeued(old(self)@),
            final(self).head() == old(self).head(),
            final(self).tail() == moved(old(self).tail(), if result is Ok { 1 } else { 0 }),
            result is Err ==> *final(self) == *old(self),
            *final(cached_head) == if old(self).tail() == *old(cached_head) {
                old(self).head()
            } else {
                *old(cached_head)
            },
            consumer_cache_ok(final(self).head(), final(self).tail(), *final(cached_head)),
        no_unwind
    {
        let tail: usize = self.tail;
        proof {
            lemma_moved(tail, 0);
            lemma_moved(tail, 1);
        }
        let n: usize = match claim_read(tail, *cached_head, 1) {
            Claim::Go(n) => n,
            Claim::Look => {
                *cached_head = self.head;
                grant_read(tail, *cached_head, 1)
            },
        };
        if n == 0 {
            return Err(Error::QueueIsEmpty);
        }
        match take_oldest(&mut self.ring, tail) {
            Some(elem) => {
                self.tail = advance(tail, 1);
                Ok(elem)
            },
            None => {
                assert(false);
                Err(Error::QueueIsEmpty)
            },
        }
    }

    /// Appends as many of the items as there is room for and returns how many that is.
    ///
    /// `cached_tail` is the tail as the producer last saw it. It is brought up to date only when
    /// the items do not all fit by it.
    pub fn enqueue_batch(&mut self, items: &[T], cached_tail: &mut usize) -> (n: usize) where T: Copy
        requires
            old(self).wf(),
            producer_cache_ok(old(self).head(), old(self).tail(), *old(cached_tail), N as int),
        ensures
            final(self).wf(),
            (final(self)@, n as int) == batch_enqueued(old(self)@, N as int, items@),
            final(self).tail() == old(self).tail(),
            final(self).head() == moved(old(self).head(), n as int),
            n == 0 ==> *final(self) == *old(self),
            *final(cached_tail) == if N - gap(old(self).head(), *old(cached_tail)) < items@.len() {
                old(self).tail()
            } else {
                *old(cached_tail)
            },
            producer_cache_ok(final(self).head(), final(self).tail(), *final(cached_tail), N as int),
    {
        self.enqueue_all(items, items.len(), cached_tail)
    }

    /// The work of `enqueue_batch`, given how many items there are. It does not unwind; that
    /// `enqueue_batch` is not marked so is only for asking the slice for its length.
    fn enqueue_all(&mut self, items: &[T], len: usize, cached_tail: &mut usize) -> (n: usize) where
        T: Copy,

        requires
            old(self).wf(),
            len == items@.len(),
            producer_cache_ok(old(self).head(), old(self).tail(), *old(cached_tail), N as int),
        ensures
            final(self).wf(),
            (final(self)@, n as int) == batch_enqueued(old(self)@, N as int, items@),
            final(self).tail() == old(self).tail(),
            final(self).head() == moved(old(self).head(), n as int),
            n == 0 ==> *final(self) == *old(self),
            *final(cached_tail) == if N - gap(old(self).head(), *old(cached_tail)) < items@.len() {
                old(self).tail()
            } else {
                *old(cached_tail)
            },
            producer_cache_ok(final(self).head(), final(self).tail(), *final(cached_tail), N as int),
        no_unwind
    {
        let head: usize = self.head;
        let n: usize = match claim_write(head, *cached_tail, len, N) {
            Claim::Go(n) => n,
            Claim::Look => {
                *cached_tail = self.tail;
                grant_write(head, *cached_tail, len, N)
            },
        };
        let ghost queued = gap(head, self.tail);
        let ghost queue = self@;
        let mut i: usize = 0;
        while i < n
            invariant
                0 <= i <= n <= items@.len(),
                queued + n <= N,
                valid_capacity(N as int),
                self.ring.settled(),
                self.head == head,
                self.tail == old(self).tail,
                queued == gap(head, self.tail),
                self.ring@.len() == N,
                is_window(self.ring@, self.tail as int, queued + i),
                window(self.ring@, self.tail as int, queued + i) == queue + items@.take(i as int),
                i == 0 ==> self.ring == old(self).ring,
            decreases n - i,
        {
            let item: T = items[i];
            proof {
                lemma_window_push(self.ring@, self.tail as int, queued + i, item);
                law_head_slot(head, self.tail, N);
                law_moved_slot(head, i as int, N);
                lemma_same_slot_shifted(head as int, self.tail + queued, i as int, N as int);
                assert((queue + items@.take(i as int)).push(item) =~= queue + items@.take(i + 1));
            }
            self.ring.slot_mut(advance(head, i)).write(item);
            i = i + 1;
        }
        proof {
            lemma_moved(head, n as int);
        }
        if n > 0 {
            self.head = advance(head, n);
        }
        n
    }

    /// Moves the oldest elements, as many as there are but at most `max`, to the end of `dst` and
    /// returns how many that is.
    ///
    /// `cached_head` is the head as the consumer last saw it. It is brought up to date only when
    /// there are fewer than `max` elements by it.
    pub fn dequeue_batch(&mut self, dst: &mut Vec<T>, max: usize, cached_head: &mut usize) -> (n:
        usize)
        requires
            old(self).wf(),
            consumer_cache_ok(old(self).head(), old(self).tail(), *old(cached_head)),
        ensures
            final(self).wf(),
            final(self)@ == batch_dequeued(old(self)@, max as int).0,
            final(dst)@ == old(dst)@ + batch_dequeued(old(self)@, max as int).1,
            n == least(max as int, old(self)@.len() as int),
            final(self).head() == old(self).head(),
            final(self).tail() == moved(old(self).tail(), n as int),
            n == 0 ==> *final(self) == *old(self),
            *final(cached_head) == if gap(*old(cached_head), old(self).tail()) < max {
                old(self).head()
            } else {
                *old(cached_head)
            },
            consumer_cache_ok(final(self).head(), final(self).tail(), *final(cached_head)),
    {
        let tail: usize = self.tail;
        let n: usize = match claim_read(tail, *cached_head, max) {
            Claim::Go(n) => n,
            Claim::Look => {
                *cached_head = self.head;
                grant_read(tail, *cached_head, max)
            },
        };
        let ghost len = gap(self.head, tail);
        let ghost queue = self@;
        let ghost before = dst@;
        let mut i: usize = 0;
        assert(queue.skip(0) =~= queue);
        assert(before + queue.take(0) =~= before);
        while i < n
            invariant
                0 <= i <= n <= len,
                len == queue.len(),
                valid_capacity(N as int),
                self.ring.settled(),
                self.head == old(self).head,
                self.tail == tail,
                tail == old(self).tail,
                self.ring@.len() == N,
                is_window(self.ring@, tail + i, len - i),
                window(self.ring@, tail + i, len - i) == queue.skip(i as int),
                dst@ == before + queue.take(i as int),
                i == 0 ==> self.ring == old(self).ring,
            decreases n - i,
        {
            proof {
                lemma_window_pop(self.ring@, tail + i, len - i);
                law_moved_slot(tail, i as int, N);
                assert(queue.skip(i as int).drop_first() =~= queue.skip(i + 1));
                assert((before + queue.take(i as int)).push(queue[i as int]) =~= before + queue.take(
                    i + 1,
                ));
            }
            let elem = self.ring.slot_mut(advance(tail, i)).take().unwrap();
            dst.push(elem);
            i = i + 1;
        }
        proof {
            lemma_moved(tail, n as int);
            lemma_window_moved(self.ring@, tail, n as int, len - n);
        }
        if n > 0 {
            self.tail = advance(tail, n);
        }
        n
    }
}

impl<T, const N: usize> SpscRing<T, N> {
    /// The handles of the two ends, both up to date. The ring stays as it is.
    pub fn split(&mut self) -> (handles: (Producer<T, N>, Consumer<T, N>))
        ensures
            *final(self) == *old(self),
            old(self).wf() ==> handles.0.tracks(*final(self)) && handles.1.tracks(*final(self)),
            handles.0.cached_tail() == old(self).tail(),
            handles.1.cached_head() == old(self).head(),
        no_unwind
    {
        (Producer::new(self.tail), Consumer::new(self.head))
    }
}

/// Whether the queue has no element.
pub fn is_empty<T, const N: usize>(ring: &SpscRing<T, N>) -> (empty: bool)
    requires
        ring.wf(),
    ensures
        empty == (ring@.len() == 0),
    no_unwind
{
    ring.head == ring.tail
}

/// Whether the queue is at capacity.
pub fn is_full<T, const N: usize>(ring: &SpscRing<T, N>) -> (full: bool)
    requires
        ring.wf(),
    ensures
        full == (ring@.len() == N),
    no_unwind
{
    distance(ring.head, ring.tail) == N
}

impl<T, const N: usize> Default for SpscRing<T, N> {
    /// An empty ring, as from `new`. With a capacity that `new` does not admit it is not well
    /// formed, so no operation takes it.
    fn default() -> (ring: Self)
        ensures
            ring.wf() <==> valid_capacity(N as int),
            ring@ == Seq::<T>::empty(),
            ring.head() == 0,
            ring.tail() == 0,
    {
        let ring = SpscRing { head: 0, tail: 0, ring: Ring::unused() };
        proof {
            if valid_capacity(N as int) {
                lemma_window_empty(ring.ring@, 0);
            }
            assert(ring@ =~= Seq::<T>::empty());
        }
        ring
    }
}

/// Empties the slot at `tail` and returns what was in it: of a window that starts there, the first
/// element, and the window goes on without it one step further.
fn take_oldest<T, const N: usize>(ring: &mut Ring<T, N>, tail: usize) -> (elem: Option<T>)
    requires
        valid_capacity(N as int),
        old(ring)@.len() == N,
    ensures
        final(ring)@.len() == N,
        final(ring).leaving() == old(ring).leaving(),
        forall|len: int|
            0 < len && #[trigger] is_window(old(ring)@, tail as int, len) ==> {
                &&& elem == Some(window(old(ring)@, tail as int, len).first())
                &&& is_window(final(ring)@, moved(tail, 1) as int, len - 1)
                &&& window(final(ring)@, moved(tail, 1) as int, len - 1) == window(
                    old(ring)@,
                    tail as int,
                    len,
                ).drop_first()
            },
    opens_invariants none
    no_unwind
{
    let elem = ring.slot_mut(tail).take();
    proof {
        assert(ring.leaving() =~= old(ring).leaving());
        assert forall|len: int|
            0 < len && #[trigger] is_window(old(ring)@, tail as int, len) implies {
            &&& elem == Some(window(old(ring)@, tail as int, len).first())
            &&& is_window(ring@, moved(tail, 1) as int, len - 1)
            &&& window(ring@, moved(tail, 1) as int, len - 1) == window(
                old(ring)@,
                tail as int,
                len,
            ).drop_first()
        } by {
            lemma_window_pop(old(ring)@, tail as int, len);
            lemma_window_moved(ring@, tail, 1, len - 1);
        }
    }
    elem
}

impl<T, const N: usize> SpscRing<T, N> {
    /// Lines the queue up in the slots, oldest first, for its elements to go with them.
    ///
    /// No element is moved out of the ring. What is left to do is what happens to every value that
    /// is dropped: its slots are dropped, from the first to the last.
    fn release(&mut self) -> (released: Ghost<Seq<T>>)
        ensures
            old(self).wf() ==> released@ == old(self)@,
            old(self).wf() ==> owned(final(self).slots()) == Multiset::<T>::empty(),
            old(self).wf() ==> lets_go(*old(self), *final(self)),
        opens_invariants none
        no_unwind
    {
        proof {
            use_type_invariant(&*self);
            self.ring.lemma_len();
        }
        let ghost queue = self@;
        let ghost slots = self.ring@;
        let ghost len = gap(self.head, self.tail);
        let tail: usize = self.tail;
        let ghost well_formed = self.wf();
        if self.head != tail {
            self.ring.line_up(tail);
        }
        proof {
            self.ring.lemma_len();
            if well_formed {
                assert forall|i: int| 0 <= i < N implies #[trigger] self.ring.leaving()[i]
                    == nth_slot(slots, tail as int, i) by {
                    if len == 0 {
                        assert(nth_slot(slots, tail as int, i) is None);
                    }
                }
                lemma_row_in_order(self.ring.leaving(), queue);
                if len == 0 {
                    lemma_window_owned(slots, tail as int, 0);
                    lemma_seq_empty_multiset(queue);
                } else {
                    lemma_owned_empty(self.ring@);
                }
            }
        }
        Ghost(queue)
    }
}

/// What dropping a ring does: no slot has an element in use any more, and the elements that go with
/// the slots, in the order in which they go, are the queue from the oldest to the newest.
pub open spec fn lets_go<T, const N: usize>(before: SpscRing<T, N>, after: SpscRing<T, N>) -> bool {
    &&& owned(after.slots()) == Multiset::<T>::empty()
    &&& in_order(after.leaving()) == before@
}

impl<T, const N: usize> Drop for SpscRing<T, N> {
    /// Lets the queued elements go with the slots, oldest first.
    fn drop(&mut self)
        ensures
            old(self).wf() ==> owned(final(self).slots()) == Multiset::<T>::empty(),
            old(self).wf() ==> lets_go(*old(self), *final(self)),
        opens_invariants none
        no_unwind
    {
        self.release();
    }
}

/// A sequence of no elements has no elements as a multiset either.
proof fn lemma_seq_empty_multiset<T>(elems: Seq<T>)
    requires
        elems.len() == 0,
    ensures
        elems.to_multiset() == Multiset::<T>::empty(),
{
    broadcast use vstd::seq_lib::group_to_multiset_ensures;

    assert(elems.to_multiset() =~= Multiset::empty());
}

/// A window that starts some steps after a cursor starts at the cursor moved by as many.
proof fn lemma_window_moved<T>(slots: Seq<Option<T>>, pos: usize, n: int, len: int)
    requires
        valid_capacity(slots.len() as int),
        slots.len() <= usize::MAX,
        0 <= n <= usize::MAX,
        is_window(slots, pos + n, len),
    ensures
        is_window(slots, moved(pos, n) as int, len),
        window(slots, moved(pos, n) as int, len) == window(slots, pos + n, len),
{
    let cap = slots.len() as int;
    assert forall|i: int|
        #![trigger slot_of(moved(pos, n) + i, cap)]
        slot_of(pos + n + i, cap) == slot_of(moved(pos, n) + i, cap) by {
        lemma_moved(pos, n);
        lemma_span_keeps_slot(moved(pos, n) + i, 1, cap as usize);
    }
    lemma_window_same_slots(slots, pos + n, moved(pos, n) as int, len);
}

/// Positions on the same slot stay on the same slot when both move alike.
proof fn lemma_same_slot_shifted(a: int, b: int, i: int, cap: int)
    requires
        cap > 0,
        slot_of(a, cap) == slot_of(b, cap),
    ensures
        slot_of(a + i, cap) == slot_of(b + i, cap),
{
    lemma_add_mod_noop(a, i, cap);
    lemma_add_mod_noop(b, i, cap);
}

/// The queue is as long as the head is ahead of the tail, and never longer than the capacity.
pub proof fn law_len_is_gap<T, const N: usize>(ring: SpscRing<T, N>)
    requires
        ring.wf(),
    ensures
        ring@.len() == gap(ring.head(), ring.tail()),
        ring@.len() <= N,
        valid_capacity(N as int),
{
}

/// The slots own the elements of the queue, each once, and nothing else: an element that was
/// handed out is no longer the ring's, and when the ring goes, what goes with it is its queue.
pub proof fn law_ring_owns_its_queue<T, const N: usize>(ring: SpscRing<T, N>)
    requires
        ring.wf(),
    ensures
        owned(ring.slots()) == ring@.to_multiset(),
        owned(ring.leaving()) == Multiset::<T>::empty(),
        forall|i: int|
            0 <= i < ring@.len() ==> ring.slots()[slot_of(ring.tail() + i, N as int)] == Some(
                #[trigger] ring@[i],
            ),
{
    ring.ring.lemma_len();
    lemma_owned_empty(ring.leaving());
    lemma_window_owned(ring.slots(), ring.tail() as int, ring@.len() as int);
    assert forall|i: int| 0 <= i < ring@.len() implies ring.slots()[slot_of(
        ring.tail() + i,
        N as int,
    )] == Some(#[trigger] ring@[i]) by {
        assert(nth_slot(ring.slots(), ring.tail() as int, i) is Some);
    }
}

/// When the producer moves the head on, within the capacity, a consumer can still go by the head
/// that it saw before.
pub proof fn law_enqueue_keeps_consumer_cache(
    head: usize,
    tail: usize,
    cached_head: usize,
    n: int,
    cap: usize,
)
    requires
        consumer_cache_ok(head, tail, cached_head),
        0 <= n,
        gap(head, tail) + n <= cap,
    ensures
        consumer_cache_ok(moved(head, n), tail, cached_head),
{
    lemma_moved(head, n);
}

/// When the consumer moves the tail on, within the queue, a producer can still go by the tail that
/// it saw before.
pub proof fn law_dequeue_keeps_producer_cache(
    head: usize,
    tail: usize,
    cached_tail: usize,
    n: int,
    cap: usize,
)
    requires
        producer_cache_ok(head, tail, cached_tail, cap as int),
        0 <= n <= gap(head, tail),
    ensures
        producer_cache_ok(head, moved(tail, n), cached_tail, cap as int),
{
    lemma_moved(tail, n);
}

/// The head falls on the slot that is one queue length after the tail.
pub proof fn law_head_slot(head: usize, tail: usize, cap: usize)
    requires
        valid_capacity(cap as int),
    ensures
        slot_of(head as int, cap as int) == slot_of(tail + gap(head, tail), cap as int),
{
    lemma_moved(tail, gap(head, tail));
    law_moved_slot(tail, gap(head, tail), cap);
}

} // verus!
