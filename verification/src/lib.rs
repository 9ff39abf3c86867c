//! A bounded queue between one producer and one consumer, kept in a ring of slots.
//!
//! `SpscRing` holds the slots and the two cursors. `split` gives the handles of its two ends: a
//! `Producer`, which appends elements, and a `Consumer`, which takes them in the same order. An
//! operation is given the handle and the ring.
//!
//! The contracts describe a ring by its view, the sequence of queued elements, and the operations
//! by the functions of `queue`. `laws` states what follows over several operations, and `protocol`
//! what holds when the two ends work on two threads.
pub mod claim;
pub mod consumer;
pub mod cursor;
pub mod dequeued;
pub mod error;
pub mod laws;
pub mod producer;
pub mod protocol;
pub mod queue;
mod slots;
pub mod spsc;
pub mod window;

pub use consumer::Consumer;
pub use dequeued::{Dequeued, DequeuedIntoIter};
pub use error::Error;
pub use producer::Producer;
pub use spsc::SpscRing;
