//! Cooperative cancellation flag for one class of operations.
//!
//! The flag is advisory: executors consult it at explicit checkpoints (for
//! example before starting a new helper process); setting it never preempts
//! work already in flight. The process-wide atomic cell that shares one token
//! between threads is plumbing outside this library; every store and load of
//! it is a single atomic operation on the value modelled here.

use vstd::prelude::*;

verus! {

/// Shared stop flag for one operation class.
pub struct CancellationToken {
    cancelled: bool,
}

impl CancellationToken {
    /// A fresh token: no cancellation requested.
    pub fn new() -> (t: CancellationToken)
        ensures
            !t.is_set(),
    {
        CancellationToken { cancelled: false }
    }

    /// Whether cancellation has been requested.
    pub closed spec fn is_set(&self) -> bool {
        self.cancelled
    }

    /// Clear the flag before starting a new operation of this class.
    pub fn reset(&mut self)
        ensures
            !final(self).is_set(),
    {
        self.cancelled = false;
    }

    /// Request that no new work of this class be started.
    pub fn cancel(&mut self)
        ensures
            final(self).is_set(),
    {
        self.cancelled = true;
    }

    /// Cheap, non-blocking read of the flag.
    pub fn is_cancelled(&self) -> (r: bool)
        ensures
            r == self.is_set(),
    {
        self.cancelled
    }

    /// Checkpoint decision: new work may start only while the flag is clear.
    pub fn may_start_work(&self) -> (r: bool)
        ensures
            r == !self.is_set(),
    {
        !self.cancelled
    }
}

} // verus!
