//! Approximate heap-usage accounting.
//!
//! The scheduler can report how many heap bytes are held by the accumulating
//! batch, by dispatched batches that have not finished, and by pending result
//! receivers.  The numbers are diagnostics for a caller that wants to bound
//! memory during a long scan; they are never used for correctness decisions.
//! All sums saturate at `usize::MAX` instead of wrapping.
//!
//! The estimates rest on named constants so that they can be audited and
//! swapped for a target allocator's real behaviour.

use vstd::prelude::*;

verus! {

/// Result items queued for one transaction are modelled as stored in a
/// linked list of fixed-size blocks holding this many items each.
pub const ITEMS_PER_BLOCK: usize = 31;

/// Estimated size in bytes of one pointer (the link to the next block).
pub const POINTER_SIZE: usize = 8;

/// Estimated size in bytes of the per-slot state word kept beside each item
/// of a block.
pub const SLOT_STATE_SIZE: usize = 8;

/// Estimated size in bytes of one queued result item inside a block.
pub const RESULT_ITEM_SIZE: usize = 128;

/// Estimated fixed overhead in bytes charged when a batch is wrapped into a
/// task and scheduled: the task structure itself plus the closure
/// environment that carries it onto the work queue.
pub const TASK_OVERHEAD: usize = 64;

/// `a + b`, saturating at `usize::MAX`.
pub open spec fn spec_sat_add(a: usize, b: usize) -> usize {
    if a + b <= usize::MAX {
        (a + b) as usize
    } else {
        usize::MAX
    }
}

/// `a - b`, saturating at zero.
pub open spec fn spec_sat_sub(a: usize, b: usize) -> usize {
    if a >= b {
        (a - b) as usize
    } else {
        0
    }
}

/// Adds two byte counts, saturating at `usize::MAX`.
pub fn sat_add(a: usize, b: usize) -> (r: usize)
    ensures
        r == spec_sat_add(a, b),
{
    if a <= usize::MAX - b {
        a + b
    } else {
        usize::MAX
    }
}

/// Subtracts a byte count, saturating at zero.
pub fn sat_sub(a: usize, b: usize) -> (r: usize)
    ensures
        r == spec_sat_sub(a, b),
{
    if a >= b {
        a - b
    } else {
        0
    }
}

/// Types that can report the approximate number of heap bytes they hold.
///
/// Mirrors the instrumentation contract of the scheduler: `dynamic_usage`
/// returns the estimate and `dynamic_usage_bounds` brackets it.  The
/// estimate is exact with respect to `spec_usage`, the type's own
/// mathematical statement of its footprint.
pub trait DynamicUsage: Sized {
    /// The footprint the type claims, as a specification-level value.
    spec fn spec_usage(&self) -> usize;

    /// Reports the approximate number of heap bytes held by `self`.
    fn dynamic_usage(&self) -> (r: usize)
        ensures
            r == self.spec_usage(),
    ;

    /// Lower and optional upper bound on the heap bytes held by `self`.
    fn dynamic_usage_bounds(&self) -> (r: (usize, Option<usize>))
        ensures
            r.0 <= self.spec_usage(),
            r.1 matches Some(hi) ==> self.spec_usage() <= hi,
    ;
}

impl DynamicUsage for u8 {
    /// A plain integer holds no heap memory.
    open spec fn spec_usage(&self) -> usize {
        0
    }

    fn dynamic_usage(&self) -> usize {
        0
    }

    fn dynamic_usage_bounds(&self) -> (usize, Option<usize>) {
        (0, Some(0))
    }
}

impl DynamicUsage for u16 {
    /// A plain integer holds no heap memory.
    open spec fn spec_usage(&self) -> usize {
        0
    }

    fn dynamic_usage(&self) -> usize {
        0
    }

    fn dynamic_usage_bounds(&self) -> (usize, Option<usize>) {
        (0, Some(0))
    }
}

impl DynamicUsage for u32 {
    /// A plain integer holds no heap memory.
    open spec fn spec_usage(&self) -> usize {
        0
    }

    fn dynamic_usage(&self) -> usize {
        0
    }

    fn dynamic_usage_bounds(&self) -> (usize, Option<usize>) {
        (0, Some(0))
    }
}

impl DynamicUsage for u64 {
    /// A plain integer holds no heap memory.
    open spec fn spec_usage(&self) -> usize {
        0
    }

    fn dynamic_usage(&self) -> usize {
        0
    }

    fn dynamic_usage_bounds(&self) -> (usize, Option<usize>) {
        (0, Some(0))
    }
}

impl DynamicUsage for usize {
    /// A plain integer holds no heap memory.
    open spec fn spec_usage(&self) -> usize {
        0
    }

    fn dynamic_usage(&self) -> usize {
        0
    }

    fn dynamic_usage_bounds(&self) -> (usize, Option<usize>) {
        (0, Some(0))
    }
}

/// Total claimed footprint of a sequence of values, saturating.
pub open spec fn seq_usage<T: DynamicUsage>(s: Seq<T>) -> usize
    decreases s.len(),
{
    if s.len() == 0 {
        0
    } else {
        spec_sat_add(seq_usage(s.drop_last()), s.last().spec_usage())
    }
}

/// Sums the claimed footprints of the elements of a vector, saturating.
pub fn vec_usage<T: DynamicUsage>(v: &Vec<T>) -> (r: usize)
    ensures
        r == seq_usage(v@),
{
    let mut total: usize = 0;
    let mut i: usize = 0;
    while i < v.len()
        invariant
            0 <= i <= v@.len(),
            total == seq_usage(v@.take(i as int)),
        decreases v@.len() - i,
    {
        total = sat_add(total, v[i].dynamic_usage());
        proof {
            assert(v@.take(i + 1).drop_last() =~= v@.take(i as int));
            assert(v@.take(i + 1).last() == v@[i as int]);
        }
        i += 1;
    }
    proof {
        assert(v@.take(v@.len() as int) =~= v@);
    }
    total
}

} // verus!
