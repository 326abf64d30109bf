//! Allocation accounting for the evaluator: a running count of allocated
//! items with a hard limit, and a count of large allocations that asks for
//! a cleanup after every fifth one.

use vstd::prelude::*;
use crate::errors::InterpreterError;
use crate::text::{append_str, decimal, usize_to_string};

verus! {

/// An allocation of more than this many items is a large one.
pub const LARGE_ALLOCATION: usize = 100;

/// Large allocations between two forced cleanups.
pub const CLEANUP_EVERY: usize = 5;

/// Above this many items allocated, a finished call asks for a cleanup.
pub const CALL_CLEANUP_THRESHOLD: usize = 5000;

/// The message refusing an allocation beyond the limit.
pub open spec fn limit_message(max: usize, current: usize) -> Seq<char> {
    "Memory allocation limit ("@ + decimal(max as nat) + ") exceeded. Current allocations: "@ + decimal(
        current as nat,
    ) + ". This prevents memory corruption."@
}

/// The evaluator's allocation counters.
pub struct MemoryTracker {
    pub memory_allocations: usize,
    pub max_memory_allocations: usize,
    pub large_allocation_count: usize,
    pub last_cleanup_operation: usize,
}

impl MemoryTracker {
    /// The last cleanup never lies ahead of the large allocations counted.
    pub open spec fn wf(&self) -> bool {
        self.last_cleanup_operation <= self.large_allocation_count
    }

    /// Nothing allocated yet; at most ten thousand items.
    pub fn new() -> (t: Self)
        ensures
            t.wf(),
            t.memory_allocations == 0,
            t.max_memory_allocations == 10000,
            t.large_allocation_count == 0,
            t.last_cleanup_operation == 0,
    {
        MemoryTracker {
            memory_allocations: 0,
            max_memory_allocations: 10000,
            large_allocation_count: 0,
            last_cleanup_operation: 0,
        }
    }

    /// Accounts for an allocation of `size` items. A large allocation that
    /// is the fifth since the last cleanup forces one: the count of
    /// allocated items restarts from zero and `Ok(true)` asks the caller to
    /// clear its caches. Past the limit, the allocation is refused.
    pub fn track_allocation(&mut self, size: usize) -> (r: Result<bool, InterpreterError>)
        requires
            old(self).wf(),
            old(self).memory_allocations + size <= usize::MAX,
            old(self).large_allocation_count < usize::MAX,
        ensures
            final(self).wf(),
            final(self).max_memory_allocations == old(self).max_memory_allocations,
            ({
                let large = size > LARGE_ALLOCATION;
                let count = if large {
                    old(self).large_allocation_count + 1
                } else {
                    old(self).large_allocation_count as int
                };
                let cleanup = large && count - old(self).last_cleanup_operation >= CLEANUP_EVERY;
                let allocated = if cleanup {
                    0
                } else {
                    old(self).memory_allocations + size
                };
                &&& final(self).large_allocation_count == count
                &&& final(self).last_cleanup_operation == (if cleanup {
                    count
                } else {
                    old(self).last_cleanup_operation as int
                })
                &&& final(self).memory_allocations == allocated
                &&& match r {
                    Ok(c) => c == cleanup && allocated <= old(self).max_memory_allocations,
                    Err(e) => allocated > old(self).max_memory_allocations && (e matches InterpreterError::RuntimeError {
                        message: m,
                    } && m@ == limit_message(old(self).max_memory_allocations, allocated as usize)),
                }
            }),
    {
        self.memory_allocations = self.memory_allocations + size;
        let mut cleanup = false;
        if size > LARGE_ALLOCATION {
            self.large_allocation_count = self.large_allocation_count + 1;
            if self.large_allocation_count - self.last_cleanup_operation >= CLEANUP_EVERY {
                self.memory_allocations = 0;
                self.last_cleanup_operation = self.large_allocation_count;
                cleanup = true;
            }
        }
        if self.memory_allocations > self.max_memory_allocations {
            let mut message = String::new();
            append_str(&mut message, "Memory allocation limit (");
            let max = usize_to_string(self.max_memory_allocations);
            append_str(&mut message, max.as_str());
            append_str(&mut message, ") exceeded. Current allocations: ");
            let current = usize_to_string(self.memory_allocations);
            append_str(&mut message, current.as_str());
            append_str(&mut message, ". This prevents memory corruption.");
            proof {
                reveal_strlit("Memory allocation limit (");
                reveal_strlit(") exceeded. Current allocations: ");
                reveal_strlit(". This prevents memory corruption.");
            }
            return Err(InterpreterError::RuntimeError { message });
        }
        Ok(cleanup)
    }

    /// Forgets the items allocated so far (between calls).
    pub fn reset_memory_tracking(&mut self)
        ensures
            final(self).memory_allocations == 0,
            final(self).max_memory_allocations == old(self).max_memory_allocations,
            final(self).large_allocation_count == old(self).large_allocation_count,
            final(self).last_cleanup_operation == old(self).last_cleanup_operation,
    {
        self.memory_allocations = 0;
    }

    /// Whether a finished call has left enough allocated to ask for a
    /// cleanup.
    pub fn cleanup_after_call(&self) -> (r: bool)
        ensures
            r == (self.memory_allocations > CALL_CLEANUP_THRESHOLD),
    {
        self.memory_allocations > CALL_CLEANUP_THRESHOLD
    }
}

} // verus!
