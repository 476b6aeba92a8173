//! Pluggable instrumentation for dispatched batches.
//!
//! A [`Tasks`] strategy wraps every batch submitted to the work queue and
//! tracks zero or more bytes of heap usage for as long as the batch runs:
//! [`Untracked`] is the zero-overhead pass-through, and [`WithUsage`]
//! charges an estimated footprint to a counter when a task is created and
//! credits it back when the task finishes.
//!
//! A task's footprint is fixed at creation and never changes; this avoids
//! a feedback channel from a running task back to the tracker.

use vstd::prelude::*;

use crate::usage::{sat_add, spec_sat_add, spec_sat_sub, DynamicUsage, TASK_OVERHEAD};

verus! {

/// A tracker for the batch scanning tasks that are currently running.
///
/// `add_task` wraps an item for dispatch and charges its footprint;
/// `split_task` unwraps it for execution; `task_finished` credits the
/// footprint back once the run is over.  `spec_usage` is the number of
/// bytes currently charged, reported by `dynamic_usage`.
pub trait Tasks<Item>: Sized {
    /// The wrapped form in which a submitted item waits to be run.
    type Task;

    /// Bytes currently charged for dispatched, unfinished tasks.
    spec fn spec_usage(&self) -> usize;

    /// The item carried by a task.
    spec fn task_item(t: Self::Task) -> Item;

    /// The footprint that was recorded in a task at its creation.
    spec fn task_cost(t: Self::Task) -> usize;

    /// A fresh tracker with nothing charged.
    fn new() -> (s: Self)
        ensures
            s.spec_usage() == 0,
    ;

    /// Wraps `item` for dispatch, charging its footprint.
    fn add_task(&mut self, item: Item) -> (t: Self::Task)
        ensures
            Self::task_item(t) == item,
            final(self).spec_usage() == spec_sat_add(
                old(self).spec_usage(),
                Self::task_cost(t),
            ),
    ;

    /// A view of the item carried by a queued task, for a driver that
    /// must read a dispatched batch before running it.
    fn item_of(t: &Self::Task) -> (r: &Item)
        ensures
            *r == Self::task_item(*t),
    ;

    /// Unwraps a task for execution, yielding the item and the footprint
    /// to credit back through [`Self::task_finished`] once the run is
    /// over.
    fn split_task(t: Self::Task) -> (r: (Item, usize))
        ensures
            r.0 == Self::task_item(t),
            r.1 == Self::task_cost(t),
    ;

    /// Credits back the footprint of a task whose run has completed.
    fn task_finished(&mut self, cost: usize)
        ensures
            final(self).spec_usage() == spec_sat_sub(old(self).spec_usage(), cost),
    ;

    /// Reports the bytes currently charged.
    fn dynamic_usage(&self) -> (r: usize)
        ensures
            r == self.spec_usage(),
    ;
}

/// The pass-through strategy: items run as they are and no usage is
/// tracked; usage queries report zero.
pub struct Untracked;

impl<Item> Tasks<Item> for Untracked {
    type Task = Item;

    open spec fn spec_usage(&self) -> usize {
        0
    }

    open spec fn task_item(t: Item) -> Item {
        t
    }

    open spec fn task_cost(t: Item) -> usize {
        0
    }

    fn new() -> Untracked {
        Untracked
    }

    fn add_task(&mut self, item: Item) -> Item {
        item
    }

    fn item_of(t: &Item) -> &Item {
        t
    }

    fn split_task(t: Item) -> (Item, usize) {
        (t, 0)
    }

    fn task_finished(&mut self, cost: usize) {
    }

    fn dynamic_usage(&self) -> usize {
        0
    }
}

/// A dispatched item wrapped with the footprint charged for it.
pub struct WithUsageTask<Item> {
    /// The item being run.
    pub item: Item,
    /// Bytes charged when the item was dispatched.  A task's footprint
    /// is assumed fixed from then on.
    pub own_usage: usize,
}

/// The usage-tracking strategy: keeps a counter of bytes charged to
/// running tasks.
///
/// Each task's footprint is the item's own claimed usage plus
/// [`TASK_OVERHEAD`] for the wrapper and the closure environment that
/// carries it onto the work queue.
pub struct WithUsage {
    /// The current heap usage of all running tasks.
    running_usage: usize,
}

impl<Item: DynamicUsage> Tasks<Item> for WithUsage {
    type Task = WithUsageTask<Item>;

    closed spec fn spec_usage(&self) -> usize {
        self.running_usage
    }

    open spec fn task_item(t: WithUsageTask<Item>) -> Item {
        t.item
    }

    open spec fn task_cost(t: WithUsageTask<Item>) -> usize {
        t.own_usage
    }

    fn new() -> WithUsage {
        WithUsage { running_usage: 0 }
    }

    fn add_task(&mut self, item: Item) -> (t: WithUsageTask<Item>)
        ensures
            t.own_usage == spec_sat_add(item.spec_usage(), TASK_OVERHEAD),
    {
        let own_usage = sat_add(item.dynamic_usage(), TASK_OVERHEAD);
        self.running_usage = sat_add(self.running_usage, own_usage);
        WithUsageTask { item, own_usage }
    }

    fn item_of(t: &WithUsageTask<Item>) -> &Item {
        &t.item
    }

    fn split_task(t: WithUsageTask<Item>) -> (Item, usize) {
        let WithUsageTask { item, own_usage } = t;
        (item, own_usage)
    }

    fn task_finished(&mut self, cost: usize) {
        self.running_usage = crate::usage::sat_sub(self.running_usage, cost);
    }

    fn dynamic_usage(&self) -> usize {
        self.running_usage
    }
}

} // verus!
