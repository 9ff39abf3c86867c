//! How many slots an end of a ring may use, by what it knows of the other end.
//!
//! An end goes by the other end's cursor as it last saw it, and looks again only when that is not
//! enough. The functions here decide; the loads and stores are their callers'.
use crate::cursor::{distance, gap, room};
use crate::queue::least;
use vstd::prelude::*;

verus! {

/// What an end that wants some slots is to do.
pub enum Claim {
    /// Use this many slots.
    Go(usize),
    /// Look at the other end's cursor first.
    Look,
}

/// What a producer at `head` that wants to write `want` slots is to do, when it last saw the tail
/// at `cached_tail`.
pub fn claim_write(head: usize, cached_tail: usize, want: usize, cap: usize) -> (claim: Claim)
    requires
        gap(head, cached_tail) <= cap,
    ensures
        claim == if cap - gap(head, cached_tail) < want {
            Claim::Look
        } else {
            Claim::Go(want)
        },
    no_unwind
{
    if room(head, cached_tail, cap) < want {
        Claim::Look
    } else {
        Claim::Go(want)
    }
}

/// How many slots a producer at `head` that wants to write `want` slots may write, when it has just
/// seen the tail at `tail`.
pub fn grant_write(head: usize, tail: usize, want: usize, cap: usize) -> (n: usize)
    requires
        gap(head, tail) <= cap,
    ensures
        n == least(want as int, cap - gap(head, tail)),
    no_unwind
{
    let free: usize = room(head, tail, cap);
    if want <= free {
        want
    } else {
        free
    }
}

/// What a consumer at `tail` that wants to read `want` slots is to do, when it last saw the head at
/// `cached_head`.
pub fn claim_read(tail: usize, cached_head: usize, want: usize) -> (claim: Claim)
    ensures
        claim == if gap(cached_head, tail) < want {
            Claim::Look
        } else {
            Claim::Go(want)
        },
    no_unwind
{
    if distance(cached_head, tail) < want {
        Claim::Look
    } else {
        Claim::Go(want)
    }
}

/// How many slots a consumer at `tail` that wants to read `want` slots may read, when it has just
/// seen the head at `head`.
pub fn grant_read(tail: usize, head: usize, want: usize) -> (n: usize)
    ensures
        n == least(want as int, gap(head, tail)),
    no_unwind
{
    let available: usize = distance(head, tail);
    if want <= available {
        want
    } else {
        available
    }
}

} // verus!
