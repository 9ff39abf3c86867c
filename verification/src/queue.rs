//! The bounded first-in first-out queue that a ring is, as functions on sequences.
//!
//! Each function gives the queue after an operation and what the operation returns. The contracts
//! of the ring and of its two handles are stated with them.
use crate::error::Error;
use vstd::prelude::*;

verus! {

/// The smaller of two numbers.
pub open spec fn least(a: int, b: int) -> int {
    if a <= b {
        a
    } else {
        b
    }
}

/// Appending one element: a full queue stays as it is and the element comes back.
pub open spec fn enqueued<T>(queue: Seq<T>, cap: int, elem: T) -> (Seq<T>, Result<(), T>) {
    if queue.len() < cap {
        (queue.push(elem), Ok(()))
    } else {
        (queue, Err(elem))
    }
}

/// Taking the oldest element: of an empty queue there is none.
pub open spec fn dequeued<T>(queue: Seq<T>) -> (Seq<T>, Result<T, Error>) {
    if queue.len() > 0 {
        (queue.drop_first(), Ok(queue.first()))
    } else {
        (queue, Err(Error::QueueIsEmpty))
    }
}

/// Appending as many of the items, from the first on, as there is room for.
pub open spec fn batch_enqueued<T>(queue: Seq<T>, cap: int, items: Seq<T>) -> (Seq<T>, int) {
    let n = least(items.len() as int, cap - queue.len());
    (queue + items.take(n), n)
}

/// Taking the oldest elements, as many as there are but at most `max`.
pub open spec fn batch_dequeued<T>(queue: Seq<T>, max: int) -> (Seq<T>, Seq<T>) {
    let n = least(max, queue.len() as int);
    (queue.skip(n), queue.take(n))
}

} // verus!
