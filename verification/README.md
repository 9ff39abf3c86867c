# lib_spsc_ring

A bounded first-in first-out queue between one producer and one consumer, kept in a ring of slots
whose number is a power of two.

```rust
let mut ring = SpscRing::<u32, 16>::new();
let (mut producer, mut consumer) = ring.split();
producer.enqueue(&mut ring, 7).unwrap();
assert_eq!(consumer.dequeue(&mut ring).unwrap(), 7);
```

`src/` is verified with Verus. Outside `vstd` it trusts one function of the standard library,
`core::array::from_fn`, which makes the slots. Its modules:

- `cursor`: wrapping cursors, their distances and slots
- `claim`: how many slots an end may use, by what it last saw of the other end
- `window`: runs of occupied slots in a circle of slots
- `queue`: the bounded queue as functions on sequences, which the contracts are stated with
- `spsc`, `producer`, `consumer`: the ring and the handles of its two ends
- `dequeued`: the elements of one batch and the iterator over them
- `laws`: what holds over several operations
- `protocol`: what holds when the two ends interleave step by step on two threads

A handle does not borrow the ring. It is passed the ring with each operation, so a contract can
speak of the queue before and after, and it `tracks` the ring as long as what it remembers of the
other end is safe to go by.

`app/` holds the ring that two threads share: atomic cursors, slots behind shared references and
handles that borrow the ring. It takes every decision from `claim` and `cursor`.
