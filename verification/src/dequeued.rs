//! The elements of one batch, out of the ring.
use crate::slots::Slot;
use core::ops::{Deref, DerefMut};
use vstd::prelude::*;
use vstd::std_specs::iter::{DoubleEndedIteratorSpecImpl, IteratorSpecImpl};

verus! {

/// A batch of elements that were dequeued together, oldest first. It owns them.
pub struct Dequeued<T> {
    items: Vec<T>,
}

impl<T> View for Dequeued<T> {
    type V = Seq<T>;

    /// The elements, oldest first.
    closed spec fn view(&self) -> Seq<T> {
        self.items@
    }
}

impl<T> Dequeued<T> {
    /// A batch of the given elements.
    pub fn new(items: Vec<T>) -> (batch: Self)
        ensures
            batch@ == items@,
        no_unwind
    {
        Dequeued { items }
    }

    /// How many elements the batch has.
    pub fn len(&self) -> (len: usize)
        ensures
            len == self@.len(),
        no_unwind
    {
        self.items.len()
    }

    /// Whether the batch has no element.
    pub fn is_empty(&self) -> (empty: bool)
        ensures
            empty == (self@.len() == 0),
        no_unwind
    {
        self.items.len() == 0
    }

    /// The elements as a slice.
    pub fn as_slice(&self) -> (slice: &[T])
        ensures
            slice@ == self@,
    {
        self.items.as_slice()
    }

    /// The elements as a slice that they can be changed through.
    pub fn as_mut_slice(&mut self) -> (slice: &mut [T])
        ensures
            slice@ == old(self)@,
            final(self)@ == final(slice)@,
    {
        self.items.as_mut_slice()
    }
}

impl<T> Deref for Dequeued<T> {
    type Target = [T];

    fn deref(&self) -> (slice: &[T])
        ensures
            slice@ == self@,
    {
        self.as_slice()
    }
}

impl<T> DerefMut for Dequeued<T> {
    fn deref_mut(&mut self) -> (slice: &mut [T])
        ensures
            slice@ == old(self)@,
            final(self)@ == final(slice)@,
    {
        self.as_mut_slice()
    }
}

impl<T> IntoIterator for Dequeued<T> {
    type Item = T;

    type IntoIter = DequeuedIntoIter<T>;

    /// Hands the elements over to an iterator.
    fn into_iter(self) -> (iter: DequeuedIntoIter<T>)
        ensures
            iter@ == self@,
    {
        let ghost all = self.items@;
        let mut slots: Vec<Slot<T>> = Vec::with_capacity(self.items.len());
        for item in it: self.items
            invariant
                it.seq() == all,
                slots@.len() == it.index(),
                forall|i: int| 0 <= i < slots@.len() ==> (#[trigger] slots@[i])@ == Some(all[i]),
        {
            let mut slot = Slot::new();
            slot.write(item);
            slots.push(slot);
        }
        let back: usize = slots.len();
        let iter = DequeuedIntoIter { span: Span { front: 0, back, slots } };
        assert(iter@ =~= all);
        iter
    }
}

/// A row of slots of which those from `front` up to `back` are occupied and no others.
struct Span<T> {
    front: usize,
    back: usize,
    slots: Vec<Slot<T>>,
}

impl<T> Span<T> {
    spec fn wf(self) -> bool {
        &&& self.front <= self.back <= self.slots@.len()
        &&& forall|i: int| self.front <= i < self.back ==> (#[trigger] self.slots@[i])@ is Some
        &&& forall|i: int|
            0 <= i < self.slots@.len() && !(self.front <= i < self.back) ==> (
            #[trigger] self.slots@[i])@ is None
    }

    spec fn elems(self) -> Seq<T> {
        Seq::new((self.back - self.front) as nat, |i: int| self.slots@[self.front + i]@->0)
    }

    fn take_front(&mut self) -> (elem: Option<T>)
        requires
            old(self).wf(),
            old(self).front < old(self).back,
        ensures
            final(self).wf(),
            elem == Some(old(self).elems().first()),
            final(self).elems() == old(self).elems().drop_first(),
        no_unwind
    {
        let i: usize = self.front;
        self.front = self.front + 1;
        let elem = self.slots[i].take();
        assert(self.elems() =~= old(self).elems().drop_first());
        elem
    }

    fn take_back(&mut self) -> (elem: Option<T>)
        requires
            old(self).wf(),
            old(self).front < old(self).back,
        ensures
            final(self).wf(),
            elem == Some(old(self).elems().last()),
            final(self).elems() == old(self).elems().drop_last(),
        no_unwind
    {
        self.back = self.back - 1;
        let i: usize = self.back;
        let elem = self.slots[i].take();
        assert(self.elems() =~= old(self).elems().drop_last());
        elem
    }
}

/// An iterator over the elements of a batch, from either end. It owns those that are left.
pub struct DequeuedIntoIter<T> {
    span: Span<T>,
}

impl<T> View for DequeuedIntoIter<T> {
    type V = Seq<T>;

    /// The elements that are left, oldest first.
    closed spec fn view(&self) -> Seq<T> {
        self.span.elems()
    }
}

impl<T> DequeuedIntoIter<T> {
    #[verifier::type_invariant]
    closed spec fn wf(self) -> bool {
        self.span.wf()
    }
}

impl<T> Iterator for DequeuedIntoIter<T> {
    type Item = T;

    /// Takes the oldest of the elements that are left.
    fn next(&mut self) -> (elem: Option<T>)
        ensures
            elem == if old(self)@.len() > 0 { Some(old(self)@.first()) } else { None },
            final(self)@ == if old(self)@.len() > 0 { old(self)@.drop_first() } else { old(self)@ },
    {
        proof {
            use_type_invariant(&*self);
        }
        if self.span.front == self.span.back {
            return None;
        }
        self.span.take_front()
    }

    /// How many elements are left, as both bounds.
    fn size_hint(&self) -> (hint: (usize, Option<usize>))
        ensures
            hint.0 == self@.len(),
            hint.1 == Some(hint.0),
    {
        proof {
            use_type_invariant(self);
        }
        let len: usize = self.span.back - self.span.front;
        (len, Some(len))
    }
}

impl<T> IteratorSpecImpl for DequeuedIntoIter<T> {
    open spec fn obeys_prophetic_iter_laws(&self) -> bool {
        true
    }

    open spec fn remaining(&self) -> Seq<T> {
        self@
    }

    open spec fn will_return_none(&self) -> bool {
        true
    }

    open spec fn decrease(&self) -> Option<nat> {
        Some(self@.len())
    }

    open spec fn initial_value_relation(&self, init: &Self) -> bool {
        init@ == self@
    }

    open spec fn peek(&self, index: int) -> Option<T> {
        if 0 <= index < self@.len() {
            Some(self@[index])
        } else {
            None
        }
    }
}

impl<T> DoubleEndedIterator for DequeuedIntoIter<T> {
    /// Takes the newest of the elements that are left.
    fn next_back(&mut self) -> (elem: Option<T>)
        ensures
            elem == if old(self)@.len() > 0 { Some(old(self)@.last()) } else { None },
            final(self)@ == if old(self)@.len() > 0 { old(self)@.drop_last() } else { old(self)@ },
    {
        proof {
            use_type_invariant(&*self);
        }
        if self.span.front == self.span.back {
            return None;
        }
        self.span.take_back()
    }
}

impl<T> DoubleEndedIteratorSpecImpl for DequeuedIntoIter<T> {
    open spec fn peek_back(&self, index: int) -> Option<T> {
        if 0 <= index < self@.len() {
            Some(self@[self@.len() - index - 1])
        } else {
            None
        }
    }
}

impl<T> ExactSizeIterator for DequeuedIntoIter<T> {
    /// How many elements are left.
    fn len(&self) -> (len: usize)
        ensures
            len == self@.len(),
    {
        proof {
            use_type_invariant(self);
        }
        self.span.back - self.span.front
    }
}

} // verus!
