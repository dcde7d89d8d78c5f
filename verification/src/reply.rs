//! Answers of the kernel, the clock and the event loop.

use vstd::prelude::*;

use crate::error::Error;
use crate::request::{IoEvent, Span};

verus! {

/// What came of asking whether an eventfd can be read.
#[derive(Debug)]
pub enum Readiness {
    /// It could not be found out.
    Failed(Error),
    /// It cannot be read yet; the task will be woken when it can.
    Pending,
    /// It can be read. This is what reading it gave, nothing if it would have
    /// blocked after all.
    Readable(Option<Result<u64, Error>>),
}

/// Answer to what a transfer or a cancellation is waiting for.
#[derive(Debug)]
pub enum Reply {
    /// The transfer is run, or polled.
    Begin,
    /// Whether the end of the timeout can be expressed as a point in time.
    Deadline(bool),
    /// How many control blocks the kernel accepted.
    Submitted(Result<i64, Error>),
    /// How much time is left.
    Remaining(Span),
    /// How many completion events the kernel put into the batch.
    Reaped(Result<i64, Error>, Vec<IoEvent>),
    /// The eventfd was drained.
    Drained(Result<(), Error>),
    /// Whether the eventfd can be read.
    Ready(Readiness),
    /// Whether the kernel has cancelled the operation.
    Cancelled(bool),
}

} // verus!
