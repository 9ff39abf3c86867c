//! What a consumer is told when there is nothing to take.
use vstd::prelude::*;

verus! {

/// Why a dequeue gave no element.
#[derive(Debug)]
pub enum Error {
    /// The queue held no element.
    QueueIsEmpty,
}

impl Error {
    /// The error in words.
    pub fn message(&self) -> (text: &'static str)
        ensures
            text@ == "spsc ring queue is empty"@,
        no_unwind
    {
        match self {
            Error::QueueIsEmpty => "spsc ring queue is empty",
        }
    }
}

} // verus!
