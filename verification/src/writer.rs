//! The write-side byte budget: a writer that accepts at most `limit` bytes
//! and then reports completion, so a restore never writes past a row's
//! range. The decisions live here; the part that moves bytes to an actual
//! sink stays outside the library and consults this state machine.

use vstd::prelude::*;

verus! {

/// A writer's remaining byte budget.
pub struct SliceAsyncWriter {
    remaining: u64,
}

impl SliceAsyncWriter {
    /// How many bytes may still be written.
    pub closed spec fn spec_remaining(&self) -> u64 {
        self.remaining
    }

    /// A budget of `limit` bytes.
    pub fn new(limit: u64) -> (r: Self)
        ensures
            r.spec_remaining() == limit,
    {
        SliceAsyncWriter { remaining: limit }
    }

    /// How many of the next `buf_len` offered bytes may be written: all of
    /// them up to the remaining budget. Zero exactly when the budget is
    /// spent or nothing is offered.
    pub fn write_budget(&self, buf_len: u64) -> (n: u64)
        ensures
            n == if self.spec_remaining() < buf_len {
                self.spec_remaining()
            } else {
                buf_len
            },
    {
        if self.remaining < buf_len {
            self.remaining
        } else {
            buf_len
        }
    }

    /// Accounts for `n` bytes actually written.
    pub fn record_written(&mut self, n: u64)
        requires
            n <= old(self).spec_remaining(),
        ensures
            final(self).spec_remaining() == old(self).spec_remaining() - n,
    {
        self.remaining = self.remaining - n;
    }

    /// Whether the budget is spent.
    pub fn is_done(&self) -> (r: bool)
        ensures
            r == (self.spec_remaining() == 0),
    {
        self.remaining == 0
    }
}

} // verus!
