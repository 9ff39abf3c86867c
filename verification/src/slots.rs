//! The storage of a ring: a fixed circle of slots.
use crate::cursor::{slot_index, slot_of, valid_capacity};
use vstd::arithmetic::div_mod::{lemma_fundamental_div_mod, lemma_fundamental_div_mod_converse};
use vstd::prelude::*;

verus! {

/// What is in a slot.
enum Entry<T> {
    /// Nothing.
    Empty,
    /// An element in use.
    Held(T),
    /// An element that stays where it is until the slot is dropped, and goes with it.
    Leaving(T),
}

/// One place of a ring. It owns an element or is empty.
pub struct Slot<T> {
    entry: Entry<T>,
}

impl<T> View for Slot<T> {
    type V = Option<T>;

    /// The element in use.
    closed spec fn view(&self) -> Option<T> {
        match self.entry {
            Entry::Held(elem) => Some(elem),
            _ => None,
        }
    }
}

impl<T> Slot<T> {
    /// The element that will go with the slot.
    pub closed spec fn leaving(&self) -> Option<T> {
        match self.entry {
            Entry::Leaving(elem) => Some(elem),
            _ => None,
        }
    }

    /// An empty slot.
    pub fn new() -> (slot: Self)
        ensures
            slot@ is None,
            slot.leaving() is None,
        opens_invariants none
        no_unwind
    {
        Slot { entry: Entry::Empty }
    }

    /// Puts an element in, in place of what was there.
    pub fn write(&mut self, elem: T)
        ensures
            final(self)@ == Some(elem),
            final(self).leaving() is None,
        no_unwind
    {
        self.entry = Entry::Held(elem);
    }

    /// Moves the element out, if one is in use, and leaves none in use.
    pub fn take(&mut self) -> (elem: Option<T>)
        ensures
            elem == old(self)@,
            final(self)@ is None,
            final(self).leaving() == old(self).leaving(),
        opens_invariants none
        no_unwind
    {
        let mut entry: Entry<T> = Entry::Empty;
        core::mem::swap(&mut entry, &mut self.entry);
        match entry {
            Entry::Held(elem) => Some(elem),
            Entry::Leaving(elem) => {
                self.entry = Entry::Leaving(elem);
                None
            },
            Entry::Empty => None,
        }
    }

    /// Lets the element in use, if there is one, go with the slot.
    fn retire(&mut self)
        ensures
            final(self)@ is None,
            final(self).leaving() == if old(self)@ is Some {
                old(self)@
            } else {
                old(self).leaving()
            },
        opens_invariants none
        no_unwind
    {
        let mut entry: Entry<T> = Entry::Empty;
        core::mem::swap(&mut entry, &mut self.entry);
        match entry {
            Entry::Held(elem) => {
                self.entry = Entry::Leaving(elem);
            },
            Entry::Leaving(elem) => {
                self.entry = Entry::Leaving(elem);
            },
            Entry::Empty => {},
        }
    }
}

/// `N` empty slots.
///
/// Calls `core::array::from_fn`, which fills an array by calling a function once for each index.
/// The function is `Slot::new`, so what is claimed of every element is what `Slot::new` ensures,
/// and since `Slot::new` does not unwind, neither does filling the array.
#[verifier::external_body]
fn empty_slots<T, const N: usize>() -> (slots: [Slot<T>; N])
    ensures
        forall|j: int|
            0 <= j < N ==> (#[trigger] slots@[j])@ is None && slots@[j].leaving() is None,
    no_unwind
{
    core::array::from_fn(|_| Slot::new())
}

/// A circle of `N` slots.
pub struct Ring<T, const N: usize> {
    slots: [Slot<T>; N],
}

impl<T, const N: usize> View for Ring<T, N> {
    type V = Seq<Option<T>>;

    /// The elements in use, slot by slot.
    closed spec fn view(&self) -> Seq<Option<T>> {
        self.slots@.map_values(|slot: Slot<T>| slot@)
    }
}

impl<T, const N: usize> Ring<T, N> {
    /// The elements that will go with the ring, slot by slot. The slots are dropped from the first
    /// to the last.
    pub closed spec fn leaving(&self) -> Seq<Option<T>> {
        self.slots@.map_values(|slot: Slot<T>| slot.leaving())
    }

    /// No element is leaving.
    pub open spec fn settled(&self) -> bool {
        forall|j: int| 0 <= j < N ==> (#[trigger] self.leaving()[j]) is None
    }

    /// `N` empty slots, of a capacity that a ring can have.
    pub fn new() -> (ring: Self)
        requires
            valid_capacity(N as int),
        ensures
            ring@.len() == N,
            forall|j: int| 0 <= j < N ==> (#[trigger] ring@[j]) is None,
            ring.settled(),
        no_unwind
    {
        Self::unused()
    }

    /// `N` empty slots, whatever `N` is. Unless it is a valid capacity, no operation takes them.
    pub fn unused() -> (ring: Self)
        ensures
            ring@.len() == N,
            forall|j: int| 0 <= j < N ==> (#[trigger] ring@[j]) is None,
            ring.settled(),
        no_unwind
    {
        Ring { slots: empty_slots() }
    }

    /// A ring has as many slots as its type says.
    pub proof fn lemma_len(&self)
        ensures
            self@.len() == N,
            self.leaving().len() == N,
    {
    }

    /// The slot that the cursor `pos` falls on.
    pub fn slot_mut(&mut self, pos: usize) -> (slot: &mut Slot<T>)
        requires
            valid_capacity(N as int),
        ensures
            0 <= slot_of(pos as int, N as int) < N,
            old(self).leaving().len() == N,
            slot@ == old(self)@[slot_of(pos as int, N as int)],
            slot.leaving() == old(self).leaving()[slot_of(pos as int, N as int)],
            final(self)@ == old(self)@.update(slot_of(pos as int, N as int), final(slot)@),
            final(self).leaving() == old(self).leaving().update(
                slot_of(pos as int, N as int),
                final(slot).leaving(),
            ),
        opens_invariants none
        no_unwind
    {
        let i: usize = slot_index(pos, N);
        let ghost before = self.slots@;
        let slot = &mut self.slots[i];
        assert(before.update(i as int, *final(slot)).map_values(|s: Slot<T>| s@)
            =~= before.map_values(|s: Slot<T>| s@).update(i as int, final(slot)@));
        assert(before.update(i as int, *final(slot)).map_values(|s: Slot<T>| s.leaving())
            =~= before.map_values(|s: Slot<T>| s.leaving()).update(
            i as int,
            final(slot).leaving(),
        ));
        slot
    }

    /// Exchanges two slots.
    fn exchange(&mut self, i: usize, j: usize)
        requires
            i < j < N,
        ensures
            final(self).slots@ == old(self).slots@.update(i as int, old(self).slots@[j as int]).update(
                j as int,
                old(self).slots@[i as int],
            ),
        opens_invariants none
        no_unwind
    {
        let mut held: Slot<T> = Slot::new();
        core::mem::swap(&mut held, &mut self.slots[i]);
        core::mem::swap(&mut held, &mut self.slots[j]);
        core::mem::swap(&mut held, &mut self.slots[i]);
        assert(self.slots@ =~= old(self).slots@.update(i as int, old(self).slots@[j as int]).update(
            j as int,
            old(self).slots@[i as int],
        ));
    }

    /// Turns the slots from `lo` up to `hi` round.
    fn turn(&mut self, lo: usize, hi: usize)
        requires
            lo <= hi <= N,
        ensures
            forall|k: int|
                0 <= k < N ==> #[trigger] final(self).slots@[k] == old(self).slots@[if lo <= k < hi {
                    lo + hi - 1 - k
                } else {
                    k
                }],
        opens_invariants none
        no_unwind
    {
        let mut i: usize = lo;
        let mut j: usize = hi;
        while i < j && i < j - 1
            invariant
                lo <= i,
                j <= hi <= N,
                i <= j,
                i - lo == hi - j,
                forall|k: int|
                    0 <= k < N ==> #[trigger] self.slots@[k] == old(self).slots@[if lo <= k < i || j
                        <= k < hi {
                        lo + hi - 1 - k
                    } else {
                        k
                    }],
            decreases j - i,
        {
            j = j - 1;
            self.exchange(i, j);
            i = i + 1;
        }
    }

    /// Lines the slots up from position `pos` on, and lets the elements in use go with them: the
    /// slot that position `pos` falls on becomes the first, the one after it the second, and so on.
    pub fn line_up(&mut self, pos: usize)
        requires
            valid_capacity(N as int),
        ensures
            old(self).settled() ==> forall|i: int|
                0 <= i < N ==> #[trigger] final(self).leaving()[i] == old(self)@[slot_of(
                    pos + i,
                    N as int,
                )],
            forall|i: int| 0 <= i < N ==> (#[trigger] final(self)@[i]) is None,
        opens_invariants none
        no_unwind
    {
        let start: usize = slot_index(pos, N);
        self.turn(0, start);
        self.turn(start, N);
        self.turn(0, N);
        let ghost lined = self.slots@;
        proof {
            assert forall|i: int| 0 <= i < N implies #[trigger] lined[i] == old(self).slots@[slot_of(
                pos + i,
                N as int,
            )] && (old(self).settled() ==> lined[i].leaving() is None) by {
                lemma_slot_from(pos as int, i, N as int);
                if old(self).settled() {
                    assert(old(self).leaving()[slot_of(pos + i, N as int)] is None);
                }
            }
        }
        let mut i: usize = 0;
        while i < N
            invariant
                0 <= i <= N,
                lined.len() == N,
                old(self).settled() ==> forall|k: int|
                    0 <= k < N ==> (#[trigger] lined[k]).leaving() is None,
                forall|k: int| 0 <= k < i ==> (#[trigger] self.slots@[k])@ is None,
                old(self).settled() ==> forall|k: int|
                    0 <= k < i ==> (#[trigger] self.slots@[k]).leaving() == lined[k]@,
                forall|k: int| i <= k < N ==> #[trigger] self.slots@[k] == lined[k],
            decreases N - i,
        {
            self.slots[i].retire();
            i = i + 1;
        }
    }
}

/// The slot some places after that of a position, without a second division.
proof fn lemma_slot_from(pos: int, i: int, cap: int)
    requires
        0 <= i < cap,
    ensures
        slot_of(pos + i, cap) == if slot_of(pos, cap) + i < cap {
            slot_of(pos, cap) + i
        } else {
            slot_of(pos, cap) + i - cap
        },
{
    let q = pos / cap;
    let r = pos % cap;
    lemma_fundamental_div_mod(pos, cap);
    if r + i < cap {
        assert(pos + i == q * cap + (r + i)) by (nonlinear_arith)
            requires
                pos == cap * q + r,
        ;
        lemma_fundamental_div_mod_converse(pos + i, cap, q, r + i);
    } else {
        assert(pos + i == (q + 1) * cap + (r + i - cap)) by (nonlinear_arith)
            requires
                pos == cap * q + r,
        ;
        lemma_fundamental_div_mod_converse(pos + i, cap, q + 1, r + i - cap);
    }
}

} // verus!
