//! Arithmetic on ring cursors.
//!
//! A cursor is a `usize` that only ever moves forward and wraps around at the top of its range.
//! What matters of two cursors is how far apart they are, and of one cursor which slot it falls
//! on. Both survive the wrap because the capacity divides the number of cursor values.
use vstd::arithmetic::div_mod::{
    lemma_fundamental_div_mod, lemma_fundamental_div_mod_converse,
    lemma_mod_multiples_vanish, lemma_small_mod,
};
use vstd::arithmetic::power2::{
    lemma2_to64, lemma2_to64_rest, lemma_pow2_adds, lemma_pow2_pos, lemma_pow2_strictly_increases,
    lemma_pow2_unfold, pow2,
};
use vstd::bits::{lemma_u64_low_bits_mask_is_mod, low_bits_mask};
use vstd::prelude::*;

verus! {

/// The capacities a ring can have: the powers of two from two upwards.
///
/// They are stated as the divisors of the largest power of two that a cursor can hold, which a
/// concrete capacity is checked against by one division; `law_capacity_is_power_of_two` gives the
/// exponent.
pub open spec fn valid_capacity(cap: int) -> bool {
    cap >= 2 && 0x8000_0000_0000_0000int % cap == 0
}

/// How many values a cursor can take.
pub open spec fn cursor_span() -> int {
    usize::MAX + 1
}

/// How many steps lead from the cursor `older` to the cursor `newer`.
pub open spec fn gap(newer: usize, older: usize) -> int {
    if newer >= older {
        newer - older
    } else {
        newer - older + cursor_span()
    }
}

/// The cursor `n` steps after `pos`.
pub open spec fn moved(pos: usize, n: int) -> usize {
    ((pos + n) % cursor_span()) as usize
}

/// The slot that position `pos` falls on in a ring of `cap` slots.
pub open spec fn slot_of(pos: int, cap: int) -> int {
    pos % cap
}

/// How far the cursor `newer` is ahead of the cursor `older`.
pub fn distance(newer: usize, older: usize) -> (steps: usize)
    ensures
        steps == gap(newer, older),
    no_unwind
{
    if newer >= older {
        newer - older
    } else {
        newer + (usize::MAX - older) + 1
    }
}

/// The cursor `n` steps after `pos`.
pub fn advance(pos: usize, n: usize) -> (next: usize)
    ensures
        next == moved(pos, n as int),
    no_unwind
{
    proof {
        lemma_moved(pos, n as int);
    }
    if n <= usize::MAX - pos {
        pos + n
    } else {
        n - (usize::MAX - pos) - 1
    }
}

/// How many slots of a ring of `cap` slots are free, between a producer at `head` and a consumer
/// at `tail`.
pub fn room(head: usize, tail: usize, cap: usize) -> (free: usize)
    requires
        gap(head, tail) <= cap,
    ensures
        free == cap - gap(head, tail),
    no_unwind
{
    cap - distance(head, tail)
}

/// The slot that the cursor `pos` falls on.
pub fn slot_index(pos: usize, cap: usize) -> (slot: usize)
    requires
        valid_capacity(cap as int),
    ensures
        slot == slot_of(pos as int, cap as int),
        slot < cap,
    opens_invariants none
    no_unwind
{
    proof {
        lemma_mask_is_mod(pos, cap);
    }
    pos & (cap - 1)
}

/// A divisor of a power of two is a power of two.
proof fn lemma_divisor_of_pow2(n: int, m: nat)
    requires
        n >= 1,
        pow2(m) as int % n == 0,
    ensures
        exists|k: nat| k <= m && #[trigger] pow2(k) == n,
    decreases m,
{
    let q = pow2(m) as int / n;
    lemma_fundamental_div_mod(pow2(m) as int, n);
    assert(n * q == pow2(m));
    if m == 0 {
        lemma2_to64();
        assert(n == 1) by (nonlinear_arith)
            requires
                n * q == 1,
                n >= 1,
        ;
        assert(pow2(0) == n);
    } else {
        let half = pow2((m - 1) as nat) as int;
        lemma_pow2_unfold(m);
        assert(n * q == 2 * half);
        if n % 2 == 0 {
            let h = n / 2;
            assert(h * q == half) by (nonlinear_arith)
                requires
                    n * q == 2 * half,
                    n == 2 * h,
            ;
            assert(half % h == 0) by {
                assert(half == q * h + 0) by (nonlinear_arith)
                    requires
                        h * q == half,
                ;
                lemma_fundamental_div_mod_converse(half, h, q, 0);
            }
            lemma_divisor_of_pow2(h, (m - 1) as nat);
            let k = choose|k: nat| k <= m - 1 && #[trigger] pow2(k) == h;
            lemma_pow2_unfold(k + 1);
            assert(pow2(k + 1) == n);
        } else {
            let h = n / 2;
            let r = q / 2;
            assert(q % 2 == 0) by (nonlinear_arith)
                requires
                    n * q == 2 * half,
                    n == 2 * h + 1,
            {
                assert(q == 2 * (half - h * q));
            }
            assert(half == r * n + 0) by (nonlinear_arith)
                requires
                    n * q == 2 * half,
                    q == 2 * r,
            ;
            lemma_fundamental_div_mod_converse(half, n, r, 0);
            lemma_divisor_of_pow2(n, (m - 1) as nat);
            let k = choose|k: nat| k <= m - 1 && #[trigger] pow2(k) == n;
            assert(k <= m && pow2(k) == n);
        }
    }
}

/// The valid capacities are exactly the powers of two from two to the largest that 64 bits hold.
pub proof fn law_capacity_is_power_of_two(cap: int)
    ensures
        valid_capacity(cap) <==> exists|k: nat| 1 <= k <= 63 && #[trigger] pow2(k) == cap,
{
    lemma2_to64();
    lemma2_to64_rest();
    if valid_capacity(cap) {
        lemma_divisor_of_pow2(cap, 63);
        let k = choose|k: nat| k <= 63 && #[trigger] pow2(k) == cap;
        assert(1 <= k <= 63 && pow2(k) == cap);
    }
    if exists|k: nat| 1 <= k <= 63 && #[trigger] pow2(k) == cap {
        let k = choose|k: nat| 1 <= k <= 63 && #[trigger] pow2(k) == cap;
        let rest = (63 - k) as nat;
        lemma_pow2_adds(k, rest);
        lemma_pow2_pos(k);
        lemma_pow2_unfold(k);
        lemma_pow2_pos((k - 1) as nat);
        assert(pow2(63) == pow2(rest) * cap + 0) by (nonlinear_arith)
            requires
                pow2(k) * pow2(rest) == pow2(63),
                pow2(k) == cap,
        ;
        lemma_fundamental_div_mod_converse(pow2(63) as int, cap, pow2(rest) as int, 0);
    }
}

/// `moved` written without a division, for a move of less than one turn of the cursor range.
pub proof fn lemma_moved(pos: usize, n: int)
    requires
        0 <= n <= usize::MAX,
    ensures
        moved(pos, n) == if pos + n > usize::MAX {
            pos + n - cursor_span()
        } else {
            pos + n
        },
        gap(moved(pos, n), pos) == n,
{
    if pos + n > usize::MAX {
        lemma_fundamental_div_mod_converse(pos + n, cursor_span(), 1, pos + n - cursor_span());
    } else {
        lemma_small_mod((pos + n) as nat, cursor_span() as nat);
    }
}

/// A mask of one less than the capacity takes the remainder by the capacity.
proof fn lemma_mask_is_mod(pos: usize, cap: usize)
    requires
        valid_capacity(cap as int),
    ensures
        pos & ((cap - 1) as usize) == slot_of(pos as int, cap as int),
{
    law_capacity_is_power_of_two(cap as int);
    let k = choose|k: nat| 1 <= k <= 63 && #[trigger] pow2(k) == cap;
    lemma_u64_low_bits_mask_is_mod(pos as u64, k);
    assert(low_bits_mask(k) == cap - 1);
}

/// The capacity divides the number of cursor values.
pub proof fn lemma_capacity_divides_span(cap: usize)
    requires
        valid_capacity(cap as int),
    ensures
        cursor_span() % (cap as int) == 0,
{
    law_capacity_is_power_of_two(cap as int);
    let k = choose|k: nat| 1 <= k <= 63 && #[trigger] pow2(k) == cap;
    let bits = usize::BITS as nat;
    lemma2_to64();
    lemma2_to64_rest();
    assert(pow2(bits) == cursor_span());
    if k >= bits {
        if k > bits {
            lemma_pow2_strictly_increases(bits, k);
        }
    }
    let rest = (bits - k) as nat;
    lemma_pow2_adds(k, rest);
    assert(pow2(bits) == pow2(rest) * cap + 0) by (nonlinear_arith)
        requires
            pow2(k) * pow2(rest) == pow2(bits),
            pow2(k) == cap,
    ;
    lemma_fundamental_div_mod_converse(pow2(bits) as int, cap as int, pow2(rest) as int, 0);
}

/// Going once or more round the cursor range does not change the slot.
pub proof fn lemma_span_keeps_slot(pos: int, turns: int, cap: usize)
    requires
        valid_capacity(cap as int),
    ensures
        slot_of(pos + turns * cursor_span(), cap as int) == slot_of(pos, cap as int),
{
    lemma_capacity_divides_span(cap);
    let q = cursor_span() / (cap as int);
    lemma_fundamental_div_mod(cursor_span(), cap as int);
    assert(turns * cursor_span() == cap * (turns * q)) by (nonlinear_arith)
        requires
            cursor_span() == cap * q,
    ;
    lemma_mod_multiples_vanish(turns * q, pos, cap as int);
}

/// The slot of a cursor that has moved, reckoned from where it started.
pub proof fn law_moved_slot(pos: usize, n: int, cap: usize)
    requires
        valid_capacity(cap as int),
    ensures
        slot_of(moved(pos, n) as int, cap as int) == slot_of(pos + n, cap as int),
{
    let turns = (pos + n) / cursor_span();
    lemma_fundamental_div_mod(pos + n, cursor_span());
    lemma_span_keeps_slot(moved(pos, n) as int, turns, cap);
    assert(turns * cursor_span() == cursor_span() * turns) by (nonlinear_arith);
}

/// Two positions that lie less than one capacity apart fall on different slots.
pub proof fn law_slots_distinct(pos: int, i: int, j: int, cap: int)
    requires
        0 <= i < j < cap,
    ensures
        slot_of(pos + i, cap) != slot_of(pos + j, cap),
{
    if slot_of(pos + i, cap) == slot_of(pos + j, cap) {
        let a = (pos + i) / cap;
        let b = (pos + j) / cap;
        lemma_fundamental_div_mod(pos + i, cap);
        lemma_fundamental_div_mod(pos + j, cap);
        assert(j - i == cap * (b - a)) by (nonlinear_arith)
            requires
                pos + i == cap * a + (pos + i) % cap,
                pos + j == cap * b + (pos + j) % cap,
                (pos + i) % cap == (pos + j) % cap,
        ;
        assert(false) by (nonlinear_arith)
            requires
                0 < j - i < cap,
                j - i == cap * (b - a),
        ;
    }
}

/// One capacity further on, a position falls on the same slot again.
pub proof fn lemma_slot_periodic(pos: int, cap: int)
    requires
        cap > 0,
    ensures
        slot_of(pos + cap, cap) == slot_of(pos, cap),
{
    lemma_mod_multiples_vanish(1, pos, cap);
}

} // verus!
