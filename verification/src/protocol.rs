//! How a producer and a consumer on two threads share a ring.
//!
//! Each end of a ring takes several steps for one operation: it may look at the other end's cursor,
//! it claims slots by what it knows of that cursor, it writes or reads the slots one by one, and
//! then publishes its own cursor. The steps of the two ends interleave freely. This module models
//! them one by one and shows that every interleaving keeps the ends off each other's slots and
//! hands the elements over in order.
//!
//! An end that sees a cursor also sees the slots as they were when that cursor was published.
//! Cursors are counted here without wrapping; `law_wrapped_gap` and `law_wrapped_slot` say that
//! the wrapped ones give the same distances and slots.
use crate::cursor::{
    cursor_span, gap, law_slots_distinct, lemma_span_keeps_slot, slot_of, valid_capacity,
};
use crate::queue::{batch_dequeued, batch_enqueued, least};
use vstd::arithmetic::div_mod::{lemma_fundamental_div_mod, lemma_fundamental_div_mod_converse};
use vstd::prelude::*;

verus! {

/// What the producer is doing.
pub enum ProducerPhase<T> {
    /// Nothing.
    Idle,
    /// Writing the claimed slots; the first `written` of them are done.
    Writing { items: Seq<T>, written: int },
}

/// What the consumer is doing.
pub enum ConsumerPhase<T> {
    /// Nothing.
    Idle,
    /// Reading the `count` claimed slots; what was in the first of them is in `read`.
    Reading { count: int, read: Seq<T> },
}

/// A ring in the middle of use by two threads.
pub struct Shared<T> {
    /// What was last written to each slot. Reading does not clear a slot.
    pub slots: Seq<Option<T>>,
    /// The published cursor of the producer.
    pub head: int,
    /// The published cursor of the consumer.
    pub tail: int,
    /// The tail as the producer last saw it.
    pub cached_tail: int,
    /// The head as the consumer last saw it.
    pub cached_head: int,
    /// What the producer is doing.
    pub producer: ProducerPhase<T>,
    /// What the consumer is doing.
    pub consumer: ConsumerPhase<T>,
    /// Every element that was ever published, in order.
    pub sent: Seq<T>,
    /// Every element that was ever handed to the consumer's caller, in order.
    pub received: Seq<T>,
}

/// One step of one end.
pub enum Step<T> {
    /// The producer looks at the tail and sees it at `tail`.
    SeeTail { tail: int },
    /// The producer claims slots for `items`.
    ClaimWrite { items: Seq<T> },
    /// The producer writes the next claimed slot.
    WriteSlot,
    /// The producer publishes its cursor past the slots that it wrote.
    PublishHead,
    /// The consumer looks at the head and sees it at `head`.
    SeeHead { head: int },
    /// The consumer claims `count` slots.
    ClaimRead { count: int },
    /// The consumer reads the next claimed slot.
    ReadSlot,
    /// The consumer publishes its cursor past the slots that it read.
    PublishTail,
}

impl<T> Step<T> {
    /// Whether it is the producer that takes this step.
    pub open spec fn by_producer(self) -> bool {
        self is SeeTail || self is ClaimWrite || self is WriteSlot || self is PublishHead
    }
}

impl<T> Shared<T> {
    /// The capacity.
    pub open spec fn cap(self) -> int {
        self.slots.len() as int
    }

    /// The elements that are published and not yet released, oldest first.
    pub open spec fn queue(self) -> Seq<T> {
        self.sent.subrange(self.tail, self.head)
    }

    /// A ring that nothing has happened to yet.
    pub open spec fn init(self) -> bool {
        &&& self.cap() > 0
        &&& self.head == 0
        &&& self.tail == 0
        &&& self.cached_tail == 0
        &&& self.cached_head == 0
        &&& self.producer is Idle
        &&& self.consumer is Idle
        &&& self.sent.len() == 0
        &&& self.received.len() == 0
    }

    /// Whether a step can be taken now.
    ///
    /// A cursor that is looked at may be seen at any value from the one seen last up to the
    /// present one.
    pub open spec fn enabled(self, step: Step<T>) -> bool {
        match step {
            Step::SeeTail { tail } => self.producer is Idle && self.cached_tail <= tail <= self.tail,
            Step::ClaimWrite { items } => {
                &&& self.producer is Idle
                &&& 0 < items.len() <= self.cap() - (self.head - self.cached_tail)
            },
            Step::WriteSlot => self.writing(),
            Step::PublishHead => self.producer is Writing && !self.writing(),
            Step::SeeHead { head } => self.consumer is Idle && self.cached_head <= head <= self.head,
            Step::ClaimRead { count } => {
                &&& self.consumer is Idle
                &&& 0 < count <= self.cached_head - self.tail
            },
            Step::ReadSlot => self.reading(),
            Step::PublishTail => self.consumer is Reading && !self.reading(),
        }
    }

    /// Whether the producer is about to write a slot.
    pub open spec fn writing(self) -> bool {
        self.producer is Writing && self.producer->written < self.producer->items.len()
    }

    /// The slot that the producer is about to write.
    pub open spec fn write_slot(self) -> int {
        slot_of(self.head + self.producer->written, self.cap())
    }

    /// Whether the consumer is about to read a slot.
    pub open spec fn reading(self) -> bool {
        self.consumer is Reading && self.consumer->read.len() < self.consumer->count
    }

    /// The slot that the consumer is about to read.
    pub open spec fn read_slot(self) -> int {
        slot_of(self.tail + self.consumer->read.len(), self.cap())
    }

    /// The ring after a step.
    pub open spec fn after(self, step: Step<T>) -> Self {
        match step {
            Step::SeeTail { tail } => Shared { cached_tail: tail, ..self },
            Step::ClaimWrite { items } => Shared {
                producer: ProducerPhase::Writing { items, written: 0 },
                ..self
            },
            Step::WriteSlot => Shared {
                slots: self.slots.update(
                    self.write_slot(),
                    Some(self.producer->items[self.producer->written]),
                ),
                producer: ProducerPhase::Writing {
                    items: self.producer->items,
                    written: self.producer->written + 1,
                },
                ..self
            },
            Step::PublishHead => Shared {
                head: self.head + self.producer->items.len(),
                sent: self.sent + self.producer->items,
                producer: ProducerPhase::Idle,
                ..self
            },
            Step::SeeHead { head } => Shared { cached_head: head, ..self },
            Step::ClaimRead { count } => Shared {
                consumer: ConsumerPhase::Reading { count, read: Seq::empty() },
                ..self
            },
            Step::ReadSlot => Shared {
                consumer: ConsumerPhase::Reading {
                    count: self.consumer->count,
                    read: self.consumer->read.push(self.slots[self.read_slot()]->0),
                },
                ..self
            },
            Step::PublishTail => Shared {
                tail: self.tail + self.consumer->count,
                received: self.received + self.consumer->read,
                consumer: ConsumerPhase::Idle,
                ..self
            },
        }
    }

    /// What every step keeps.
    pub open spec fn inv(self) -> bool {
        &&& self.cap() > 0
        &&& 0 <= self.cached_tail <= self.tail <= self.cached_head <= self.head
        &&& self.head - self.cached_tail <= self.cap()
        &&& self.sent.len() == self.head
        &&& self.received == self.sent.take(self.tail)
        &&& forall|p: int|
            self.tail <= p < self.head ==> #[trigger] self.slots[slot_of(p, self.cap())] == Some(
                self.sent[p],
            )
        &&& match self.producer {
            ProducerPhase::Idle => true,
            ProducerPhase::Writing { items, written } => {
                &&& 0 <= written <= items.len()
                &&& self.head + items.len() - self.cached_tail <= self.cap()
                &&& forall|k: int|
                    0 <= k < written ==> #[trigger] self.slots[slot_of(self.head + k, self.cap())]
                        == Some(items[k])
            },
        }
        &&& match self.consumer {
            ConsumerPhase::Idle => true,
            ConsumerPhase::Reading { count, read } => {
                &&& read.len() <= count <= self.cached_head - self.tail
                &&& read == self.sent.subrange(self.tail, self.tail + read.len())
            },
        }
    }
}

/// A fresh ring meets the invariant.
pub proof fn law_init<T>(s: Shared<T>)
    requires
        s.init(),
    ensures
        s.inv(),
{
    assert(s.received =~= s.sent.take(0));
}

/// Every step of either end keeps the invariant, whatever the other end is in the middle of.
pub proof fn law_step<T>(s: Shared<T>, step: Step<T>)
    requires
        s.inv(),
        s.enabled(step),
    ensures
        s.after(step).inv(),
{
    let t = s.after(step);
    match step {
        Step::WriteSlot => {
            let items = s.producer->items;
            let written = s.producer->written;
            assert forall|p: int| s.tail <= p < s.head + written implies slot_of(p, s.cap())
                != s.write_slot() by {
                law_slots_distinct(p, 0, s.head + written - p, s.cap());
            }
            assert forall|p: int| t.tail <= p < t.head implies #[trigger] t.slots[slot_of(
                p,
                t.cap(),
            )] == Some(t.sent[p]) by {
                assert(s.slots[slot_of(p, s.cap())] == Some(s.sent[p]));
            }
            assert forall|k: int| 0 <= k < written + 1 implies #[trigger] t.slots[slot_of(
                t.head + k,
                t.cap(),
            )] == Some(items[k]) by {
                if k < written {
                    assert(s.slots[slot_of(s.head + k, s.cap())] == Some(items[k]));
                }
            }
        },
        Step::PublishHead => {
            let items = s.producer->items;
            assert(t.received =~= t.sent.take(t.tail));
            assert forall|p: int| t.tail <= p < t.head implies #[trigger] t.slots[slot_of(
                p,
                t.cap(),
            )] == Some(t.sent[p]) by {
                if p >= s.head {
                    assert(s.slots[slot_of(s.head + (p - s.head), s.cap())] == Some(
                        items[p - s.head],
                    ));
                }
            }
            if s.consumer is Reading {
                let read = s.consumer->read;
                assert(read =~= t.sent.subrange(t.tail, t.tail + read.len()));
            }
        },
        Step::ClaimRead { count } => {
            assert(Seq::<T>::empty() =~= t.sent.subrange(t.tail, t.tail));
        },
        Step::ReadSlot => {
            let read = s.consumer->read;
            let p = s.tail + read.len();
            assert(s.slots[slot_of(p, s.cap())] == Some(s.sent[p]));
            assert(t.consumer->read =~= t.sent.subrange(t.tail, t.tail + read.len() + 1));
        },
        Step::PublishTail => {
            assert(t.received =~= t.sent.take(t.tail));
        },
        _ => {},
    }
}

/// Whether `states` is what the steps `steps` lead through, from a fresh ring on.
pub open spec fn is_execution<T>(states: Seq<Shared<T>>, steps: Seq<Step<T>>) -> bool {
    &&& states.len() == steps.len() + 1
    &&& states[0].init()
    &&& forall|i: int|
        0 <= i < steps.len() ==> (#[trigger] states[i]).enabled(steps[i]) && states[i + 1]
            == states[i].after(steps[i])
}

/// Every state that any interleaving of the two ends leads to meets the invariant.
pub proof fn law_every_state<T>(states: Seq<Shared<T>>, steps: Seq<Step<T>>, i: int)
    requires
        is_execution(states, steps),
        0 <= i <= steps.len(),
    ensures
        states[i].inv(),
    decreases i,
{
    if i == 0 {
        law_init(states[0]);
    } else {
        law_every_state(states, steps, i - 1);
        assert(states[i - 1].enabled(steps[i - 1]));
        law_step(states[i - 1], steps[i - 1]);
    }
}

/// The two ends are never at the same slot, and the producer is never at a slot that holds an
/// element of the queue.
pub proof fn law_no_race<T>(s: Shared<T>)
    requires
        s.inv(),
        s.writing(),
    ensures
        s.reading() ==> s.write_slot() != s.read_slot(),
        forall|p: int| s.tail <= p < s.head ==> #[trigger] slot_of(p, s.cap()) != s.write_slot(),
{
    assert forall|p: int| s.tail <= p < s.head implies #[trigger] slot_of(p, s.cap())
        != s.write_slot() by {
        law_slots_distinct(p, 0, s.head + s.producer->written - p, s.cap());
    }
}

/// The consumer only reads slots that were written, and finds the element that was sent there.
pub proof fn law_read_is_sent<T>(s: Shared<T>)
    requires
        s.inv(),
        s.reading(),
    ensures
        s.slots[s.read_slot()] == Some(s.sent[s.tail + s.consumer->read.len()]),
{
}

/// What was received is the beginning of what was sent: nothing is lost, doubled or reordered.
pub proof fn law_received_in_order<T>(s: Shared<T>)
    requires
        s.inv(),
    ensures
        s.received + s.queue() == s.sent,
        s.queue().len() <= s.cap(),
{
    assert(s.received + s.queue() =~= s.sent);
}

/// The producer takes the queue to be at least as long as it is and the consumer at most as long,
/// so a claim by a stale cursor is within what a fresh one would allow.
pub proof fn law_stale_cursors_are_safe<T>(s: Shared<T>)
    requires
        s.inv(),
    ensures
        s.cached_head - s.tail <= s.queue().len() <= s.head - s.cached_tail <= s.cap(),
{
}

/// Publishing the head appends the claimed items to the queue, all of them, and publishing the
/// tail takes what was read from its front. No other step changes the queue.
pub proof fn law_queue_changes_on_publish<T>(s: Shared<T>, step: Step<T>)
    requires
        s.inv(),
        s.enabled(step),
    ensures
        match step {
            Step::PublishHead => batch_enqueued(s.queue(), s.cap(), s.producer->items) == (
                s.after(step).queue(),
                s.producer->items.len() as int,
            ),
            Step::PublishTail => batch_dequeued(s.queue(), s.consumer->count) == (
                s.after(step).queue(),
                s.consumer->read,
            ),
            _ => s.after(step).queue() == s.queue(),
        },
{
    let t = s.after(step);
    match step {
        Step::PublishHead => {
            let items = s.producer->items;
            assert(items.take(items.len() as int) =~= items);
            assert(t.queue() =~= s.queue() + items);
        },
        Step::PublishTail => {
            assert(t.queue() =~= s.queue().skip(s.consumer->count));
            assert(s.consumer->read =~= s.queue().take(s.consumer->count));
        },
        _ => {},
    }
}

/// Neither end ever waits for the other: whatever the other end is in the middle of, an end that is
/// idle can look at the other end's cursor, and one that is at work can take its next step.
pub proof fn law_never_waits<T>(s: Shared<T>)
    requires
        s.inv(),
    ensures
        s.producer is Idle ==> s.enabled(Step::SeeTail { tail: s.tail }),
        s.producer is Writing ==> s.enabled(Step::WriteSlot) || s.enabled(Step::PublishHead),
        s.consumer is Idle ==> s.enabled(Step::SeeHead { head: s.head }),
        s.consumer is Reading ==> s.enabled(Step::ReadSlot) || s.enabled(Step::PublishTail),
{
}

/// A step of one end takes no step from the other, and it does not matter which of the two comes
/// first.
pub proof fn law_ends_commute<T>(s: Shared<T>, a: Step<T>, b: Step<T>)
    requires
        s.inv(),
        s.enabled(a),
        s.enabled(b),
        a.by_producer(),
        !b.by_producer(),
    ensures
        s.after(a).enabled(b),
        s.after(b).enabled(a),
        s.after(a).after(b) == s.after(b).after(a),
{
    if a is WriteSlot {
        law_no_race(s);
    }
    assert(s.after(a).after(b) =~= s.after(b).after(a));
}

/// Whether the steps can be taken one after the other.
pub open spec fn can_run<T>(s: Shared<T>, steps: Seq<Step<T>>) -> bool
    decreases steps.len(),
{
    steps.len() == 0 || (s.enabled(steps.first()) && can_run(
        s.after(steps.first()),
        steps.drop_first(),
    ))
}

/// The ring after the steps.
pub open spec fn run<T>(s: Shared<T>, steps: Seq<Step<T>>) -> Shared<T>
    decreases steps.len(),
{
    if steps.len() == 0 {
        s
    } else {
        run(s.after(steps.first()), steps.drop_first())
    }
}

/// The steps that write and publish `n` claimed slots.
pub open spec fn write_steps<T>(n: nat) -> Seq<Step<T>> {
    Seq::new(n, |i: int| Step::<T>::WriteSlot).push(Step::PublishHead)
}

/// The steps that read and release `n` claimed slots.
pub open spec fn read_steps<T>(n: nat) -> Seq<Step<T>> {
    Seq::new(n, |i: int| Step::<T>::ReadSlot).push(Step::PublishTail)
}

/// The steps of a producer that enqueues as many of the items as fit.
pub open spec fn enqueue_steps<T>(s: Shared<T>, items: Seq<T>) -> Seq<Step<T>> {
    let n = least(items.len() as int, s.cap() - s.queue().len());
    seq![Step::SeeTail { tail: s.tail }, Step::ClaimWrite { items: items.take(n) }] + write_steps(
        n as nat,
    )
}

/// The steps of a consumer that dequeues as many elements as there are but at most `max`.
pub open spec fn dequeue_steps<T>(s: Shared<T>, max: int) -> Seq<Step<T>> {
    let n = least(max, s.queue().len() as int);
    seq![Step::SeeHead { head: s.head }, Step::ClaimRead { count: n }] + read_steps(n as nat)
}

/// A producer that has claimed slots can go on to publish them all.
proof fn lemma_write_run<T>(s: Shared<T>, n: nat)
    requires
        s.inv(),
        s.producer is Writing,
        n == s.producer->items.len() - s.producer->written,
    ensures
        can_run(s, write_steps(n)),
        run(s, write_steps(n)).queue() == s.queue() + s.producer->items,
        run(s, write_steps(n)).inv(),
    decreases n,
{
    let steps = write_steps::<T>(n);
    law_step(s, steps.first());
    law_queue_changes_on_publish(s, steps.first());
    let t = s.after(steps.first());
    if n == 0 {
        assert(steps.drop_first() =~= Seq::empty());
        assert(can_run(t, steps.drop_first()));
        assert(run(t, steps.drop_first()) == t);
        let items = s.producer->items;
        assert(items.take(items.len() as int) =~= items);
    } else {
        assert(steps.drop_first() =~= write_steps((n - 1) as nat));
        lemma_write_run(t, (n - 1) as nat);
    }
}

/// A consumer that has claimed slots can go on to release them all.
proof fn lemma_read_run<T>(s: Shared<T>, n: nat)
    requires
        s.inv(),
        s.consumer is Reading,
        n == s.consumer->count - s.consumer->read.len(),
    ensures
        can_run(s, read_steps(n)),
        run(s, read_steps(n)).queue() == s.queue().skip(s.consumer->count),
        run(s, read_steps(n)).received == s.received + s.queue().take(s.consumer->count),
        run(s, read_steps(n)).inv(),
    decreases n,
{
    let steps = read_steps::<T>(n);
    law_step(s, steps.first());
    law_queue_changes_on_publish(s, steps.first());
    let t = s.after(steps.first());
    if n == 0 {
        assert(steps.drop_first() =~= Seq::empty());
        assert(can_run(t, steps.drop_first()));
        assert(run(t, steps.drop_first()) == t);
    } else {
        assert(steps.drop_first() =~= read_steps((n - 1) as nat));
        lemma_read_run(t, (n - 1) as nat);
    }
}

/// An enqueue whose steps are taken in a row does to the queue what the contract of the ring says:
/// as many items as fit are appended.
pub proof fn law_enqueue_run<T>(s: Shared<T>, items: Seq<T>)
    requires
        s.inv(),
        s.producer is Idle,
        items.len() > 0,
        s.queue().len() < s.cap(),
    ensures
        can_run(s, enqueue_steps(s, items)),
        run(s, enqueue_steps(s, items)).queue() == batch_enqueued(s.queue(), s.cap(), items).0,
        run(s, enqueue_steps(s, items)).inv(),
{
    let n = least(items.len() as int, s.cap() - s.queue().len());
    let see = Step::<T>::SeeTail { tail: s.tail };
    let claim = Step::ClaimWrite { items: items.take(n) };
    let steps = enqueue_steps(s, items);
    law_step(s, see);
    law_queue_changes_on_publish(s, see);
    let t = s.after(see);
    assert(steps.drop_first() =~= seq![claim] + write_steps(n as nat));
    law_step(t, claim);
    law_queue_changes_on_publish(t, claim);
    let u = t.after(claim);
    assert(steps.drop_first().drop_first() =~= write_steps(n as nat));
    lemma_write_run(u, n as nat);
    assert(can_run(t, steps.drop_first()));
    assert(run(t, steps.drop_first()) == run(u, write_steps(n as nat)));
}

/// A dequeue whose steps are taken in a row does to the queue what the contract of the ring says:
/// as many elements as there are, but at most `max`, leave it at the front and are received.
pub proof fn law_dequeue_run<T>(s: Shared<T>, max: int)
    requires
        s.inv(),
        s.consumer is Idle,
        max > 0,
        s.queue().len() > 0,
    ensures
        can_run(s, dequeue_steps(s, max)),
        run(s, dequeue_steps(s, max)).queue() == batch_dequeued(s.queue(), max).0,
        run(s, dequeue_steps(s, max)).received == s.received + batch_dequeued(s.queue(), max).1,
        run(s, dequeue_steps(s, max)).inv(),
{
    let n = least(max, s.queue().len() as int);
    let see = Step::<T>::SeeHead { head: s.head };
    let claim = Step::<T>::ClaimRead { count: n };
    let steps = dequeue_steps(s, max);
    law_step(s, see);
    law_queue_changes_on_publish(s, see);
    let t = s.after(see);
    assert(steps.drop_first() =~= seq![claim] + read_steps(n as nat));
    law_step(t, claim);
    law_queue_changes_on_publish(t, claim);
    let u = t.after(claim);
    assert(steps.drop_first().drop_first() =~= read_steps(n as nat));
    lemma_read_run(u, n as nat);
    assert(can_run(t, steps.drop_first()));
    assert(run(t, steps.drop_first()) == run(u, read_steps(n as nat)));
}

/// The cursor value of a position counted without wrapping.
pub open spec fn wrapped(pos: int) -> usize {
    (pos % cursor_span()) as usize
}

/// The wrapped cursors of two positions that are at most one capacity apart are as far apart as
/// the positions.
pub proof fn law_wrapped_gap(newer: int, older: int, cap: usize)
    requires
        0 <= newer - older <= cap,
    ensures
        gap(wrapped(newer), wrapped(older)) == newer - older,
{
    let d = newer - older;
    let q = older / cursor_span();
    let r = older % cursor_span();
    lemma_fundamental_div_mod(older, cursor_span());
    if r + d < cursor_span() {
        assert(newer == q * cursor_span() + (r + d)) by (nonlinear_arith)
            requires
                older == cursor_span() * q + r,
                newer == older + d,
        ;
        lemma_fundamental_div_mod_converse(newer, cursor_span(), q, r + d);
    } else {
        assert(newer == (q + 1) * cursor_span() + (r + d - cursor_span())) by (nonlinear_arith)
            requires
                older == cursor_span() * q + r,
                newer == older + d,
        ;
        lemma_fundamental_div_mod_converse(newer, cursor_span(), q + 1, r + d - cursor_span());
    }
}

/// The wrapped cursor of a position falls on the slot of the position.
pub proof fn law_wrapped_slot(pos: int, cap: usize)
    requires
        valid_capacity(cap as int),
    ensures
        slot_of(wrapped(pos) as int, cap as int) == slot_of(pos, cap as int),
{
    let q = pos / cursor_span();
    lemma_fundamental_div_mod(pos, cursor_span());
    assert(cursor_span() * q == q * cursor_span()) by (nonlinear_arith);
    lemma_span_keeps_slot(wrapped(pos) as int, q, cap);
}

/// Reckoned on wrapped cursors, a producer claims exactly what it can: what `claim_write` and
/// `grant_write` let it go on with is enabled, and nothing larger is.
pub proof fn law_write_claims<T>(s: Shared<T>, items: Seq<T>)
    requires
        s.inv(),
        s.producer is Idle,
        s.cap() <= usize::MAX,
        items.len() > 0,
    ensures
        gap(wrapped(s.head), wrapped(s.cached_tail)) <= s.cap(),
        s.enabled(Step::ClaimWrite { items }) <==> items.len() <= s.cap() - gap(
            wrapped(s.head),
            wrapped(s.cached_tail),
        ),
{
    law_wrapped_gap(s.head, s.cached_tail, s.cap() as usize);
}

/// Reckoned on wrapped cursors, a consumer claims exactly what it can: what `claim_read` and
/// `grant_read` let it go on with is enabled, and nothing larger is.
pub proof fn law_read_claims<T>(s: Shared<T>, count: int)
    requires
        s.inv(),
        s.consumer is Idle,
        s.cap() <= usize::MAX,
        count > 0,
    ensures
        s.enabled(Step::ClaimRead { count }) <==> count <= gap(
            wrapped(s.cached_head),
            wrapped(s.tail),
        ),
{
    law_wrapped_gap(s.cached_head, s.tail, s.cap() as usize);
}

/// An end that looks again loses nothing: it knows of at least as many free slots, or elements, as
/// before. A producer that then has no slot left has seen the queue full, and a consumer that has
/// no element left has seen it empty.
pub proof fn law_looking_again<T>(s: Shared<T>, step: Step<T>)
    requires
        s.inv(),
        s.enabled(step),
    ensures
        match step {
            Step::SeeTail { tail } => {
                &&& s.after(step).head - s.after(step).cached_tail <= s.head - s.cached_tail
                &&& tail == s.tail ==> s.after(step).head - s.after(step).cached_tail
                    == s.queue().len()
            },
            Step::SeeHead { head } => {
                &&& s.after(step).cached_head - s.after(step).tail >= s.cached_head - s.tail
                &&& head == s.head ==> s.after(step).cached_head - s.after(step).tail
                    == s.queue().len()
            },
            _ => true,
        },
{
}

} // verus!
