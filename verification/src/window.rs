//! A run of occupied slots in a circle of slots.
//!
//! The queue of a ring is the window of `len` slots that starts where the consumer stands. This
//! module says what a window holds and how writing behind it and reading in front of it change it.
use crate::cursor::{lemma_slot_periodic, law_slots_distinct, slot_of};
use vstd::arithmetic::div_mod::{lemma_add_mod_noop_right, lemma_small_mod};
use vstd::multiset::Multiset;
use vstd::prelude::*;

verus! {

/// The slot that is `i` places after position `start`.
pub open spec fn nth_slot<T>(slots: Seq<Option<T>>, start: int, i: int) -> Option<T> {
    slots[slot_of(start + i, slots.len() as int)]
}

/// Going round once from position `start`, the first `len` slots are occupied and all others are
/// empty.
pub open spec fn is_window<T>(slots: Seq<Option<T>>, start: int, len: int) -> bool {
    &&& 0 <= len <= slots.len()
    &&& forall|i: int| 0 <= i < len ==> (#[trigger] nth_slot(slots, start, i)) is Some
    &&& forall|i: int| len <= i < slots.len() ==> (#[trigger] nth_slot(slots, start, i)) is None
}

/// The elements in the first `len` slots from position `start`, in that order.
pub open spec fn window<T>(slots: Seq<Option<T>>, start: int, len: int) -> Seq<T> {
    Seq::new(len as nat, |i: int| nth_slot(slots, start, i)->0)
}

/// A circle of empty slots is a window of no elements.
pub proof fn lemma_window_empty<T>(slots: Seq<Option<T>>, start: int)
    requires
        slots.len() > 0,
        forall|j: int| 0 <= j < slots.len() ==> slots[j] is None,
    ensures
        is_window(slots, start, 0),
        window(slots, start, 0) =~= Seq::<T>::empty(),
{
}

/// Writing the first slot after a window appends to it.
pub proof fn lemma_window_push<T>(slots: Seq<Option<T>>, start: int, len: int, elem: T)
    requires
        is_window(slots, start, len),
        len < slots.len(),
    ensures
        ({
            let filled = slots.update(slot_of(start + len, slots.len() as int), Some(elem));
            &&& is_window(filled, start, len + 1)
            &&& window(filled, start, len + 1) =~= window(slots, start, len).push(elem)
        }),
{
    let cap = slots.len() as int;
    let filled = slots.update(slot_of(start + len, cap), Some(elem));
    assert forall|i: int| 0 <= i < cap && i != len implies #[trigger] nth_slot(filled, start, i)
        == nth_slot(slots, start, i) by {
        if i < len {
            law_slots_distinct(start, i, len, cap);
        } else {
            law_slots_distinct(start, len, i, cap);
        }
    }
    assert(nth_slot(filled, start, len) == Some(elem));
}

/// Emptying the first slot of a window removes its first element.
pub proof fn lemma_window_pop<T>(slots: Seq<Option<T>>, start: int, len: int)
    requires
        is_window(slots, start, len),
        len > 0,
    ensures
        nth_slot(slots, start, 0) == Some(window(slots, start, len).first()),
        ({
            let emptied = slots.update(slot_of(start, slots.len() as int), None);
            &&& is_window(emptied, start + 1, len - 1)
            &&& window(emptied, start + 1, len - 1) =~= window(slots, start, len).drop_first()
        }),
{
    let cap = slots.len() as int;
    let emptied = slots.update(slot_of(start, cap), None);
    assert(nth_slot(slots, start, 0) is Some);
    assert forall|i: int| 0 <= i < cap - 1 implies #[trigger] nth_slot(emptied, start + 1, i)
        == nth_slot(slots, start, i + 1) by {
        law_slots_distinct(start, 0, i + 1, cap);
    }
    lemma_slot_periodic(start, cap);
    assert(nth_slot(emptied, start + 1, cap - 1) is None);
}

/// A window depends on where it starts only through the slots that it visits.
pub proof fn lemma_window_same_slots<T>(slots: Seq<Option<T>>, a: int, b: int, len: int)
    requires
        is_window(slots, a, len),
        forall|i: int|
            #![trigger slot_of(b + i, slots.len() as int)]
            slot_of(a + i, slots.len() as int) == slot_of(b + i, slots.len() as int),
    ensures
        is_window(slots, b, len),
        window(slots, b, len) =~= window(slots, a, len),
{
    assert forall|i: int| #[trigger] nth_slot(slots, b, i) == nth_slot(slots, a, i) by {
        assert(slot_of(a + i, slots.len() as int) == slot_of(b + i, slots.len() as int));
    }
}

/// The elements that the slots own, each as often as it is there.
pub open spec fn owned<T>(slots: Seq<Option<T>>) -> Multiset<T>
    decreases slots.len(),
{
    if slots.len() == 0 {
        Multiset::empty()
    } else {
        match slots.last() {
            Some(elem) => owned(slots.drop_last()).insert(elem),
            None => owned(slots.drop_last()),
        }
    }
}

/// Emptying a slot gives up the element that was in it and no other.
proof fn lemma_owned_emptied<T>(slots: Seq<Option<T>>, j: int)
    requires
        0 <= j < slots.len(),
        slots[j] is Some,
    ensures
        owned(slots) == owned(slots.update(j, None)).insert(slots[j]->0),
    decreases slots.len(),
{
    let emptied = slots.update(j, None);
    if j == slots.len() - 1 {
        assert(emptied.drop_last() =~= slots.drop_last());
    } else {
        lemma_owned_emptied(slots.drop_last(), j);
        assert(emptied.drop_last() =~= slots.drop_last().update(j, None));
        assert(owned(slots) =~= owned(emptied).insert(slots[j]->0));
    }
}

/// Empty slots own nothing.
pub proof fn lemma_owned_empty<T>(slots: Seq<Option<T>>)
    requires
        forall|j: int| 0 <= j < slots.len() ==> slots[j] is None,
    ensures
        owned(slots) == Multiset::<T>::empty(),
    decreases slots.len(),
{
    if slots.len() > 0 {
        lemma_owned_empty(slots.drop_last());
    }
}

/// Every slot is met once when going round from any start.
pub proof fn lemma_slot_reached(start: int, j: int, cap: int)
    requires
        0 <= j < cap,
    ensures
        0 <= slot_of(j - start, cap) < cap,
        slot_of(start + slot_of(j - start, cap), cap) == j,
{
    lemma_add_mod_noop_right(start, j - start, cap);
    lemma_small_mod(j as nat, cap as nat);
}

/// A circle of slots with a window owns exactly the elements of the window.
pub proof fn lemma_window_owned<T>(slots: Seq<Option<T>>, start: int, len: int)
    requires
        slots.len() > 0,
        is_window(slots, start, len),
    ensures
        owned(slots) == window(slots, start, len).to_multiset(),
    decreases len,
{
    let cap = slots.len() as int;
    let elems = window(slots, start, len);
    broadcast use vstd::seq_lib::group_to_multiset_ensures;

    if len == 0 {
        assert forall|j: int| 0 <= j < cap implies slots[j] is None by {
            lemma_slot_reached(start, j, cap);
            assert(nth_slot(slots, start, slot_of(j - start, cap)) is None);
        }
        lemma_owned_empty(slots);
        assert(elems.to_multiset() =~= Multiset::empty());
    } else {
        let j = slot_of(start, cap);
        lemma_window_pop(slots, start, len);
        lemma_window_owned(slots.update(j, None), start + 1, len - 1);
        lemma_owned_emptied(slots, j);
        assert(elems.drop_first() =~= elems.remove(0));
        assert(elems.contains(elems[0]));
        assert(elems.remove(0).to_multiset().insert(elems[0]) =~= elems.to_multiset());
    }
}

/// The elements in the slots, from the first slot to the last.
pub open spec fn in_order<T>(slots: Seq<Option<T>>) -> Seq<T>
    decreases slots.len(),
{
    if slots.len() == 0 {
        Seq::empty()
    } else {
        match slots.last() {
            Some(elem) => in_order(slots.drop_last()).push(elem),
            None => in_order(slots.drop_last()),
        }
    }
}

/// Slots that hold the elements of a sequence from the first slot on, and nothing after them, hold
/// that sequence.
pub proof fn lemma_row_in_order<T>(slots: Seq<Option<T>>, elems: Seq<T>)
    requires
        elems.len() <= slots.len(),
        forall|i: int| 0 <= i < elems.len() ==> #[trigger] slots[i] == Some(elems[i]),
        forall|i: int| elems.len() <= i < slots.len() ==> (#[trigger] slots[i]) is None,
    ensures
        in_order(slots) == elems,
    decreases slots.len(),
{
    if slots.len() == 0 {
        assert(elems =~= Seq::empty());
    } else if elems.len() == slots.len() {
        lemma_row_in_order(slots.drop_last(), elems.drop_last());
        assert(slots[slots.len() - 1] == Some(elems[slots.len() - 1]));
        assert(elems =~= elems.drop_last().push(elems.last()));
    } else {
        assert(slots[slots.len() - 1] is None);
        lemma_row_in_order(slots.drop_last(), elems);
    }
}

/// What slots hold in order is what they own.
pub proof fn lemma_in_order_owned<T>(slots: Seq<Option<T>>)
    ensures
        owned(slots) == in_order(slots).to_multiset(),
    decreases slots.len(),
{
    broadcast use vstd::seq_lib::group_to_multiset_ensures;

    if slots.len() == 0 {
        assert(in_order(slots).to_multiset() =~= Multiset::empty());
    } else {
        lemma_in_order_owned(slots.drop_last());
    }
}

} // verus!
