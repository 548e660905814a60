//! The kernel scheduler over a run queue: strict priority with round-robin
//! inside a level.
use vstd::prelude::*;
pub use crate::kernel_scheduler_tests::{Pid, Priority, RunQueue};
use crate::kernel_scheduler_tests::{dequeue_spec, enqueue_spec, level_of, quantum_spec, tick_spec};

verus! {

/// Queue a process at its priority; false when that level is full.
pub fn enqueue(rq: &mut RunQueue, pid: Pid, priority: Priority) -> (r: bool)
    requires
        old(rq).wf(),
    ensures
        final(rq).wf(),
        (final(rq).view(), r) == enqueue_spec(old(rq).view(), pid, priority),
{
    rq.enqueue(pid, priority)
}

/// Remove a process from the run queue.
pub fn dequeue(rq: &mut RunQueue, pid: Pid)
    requires
        old(rq).wf(),
    ensures
        final(rq).wf(),
        final(rq).view() == dequeue_spec(old(rq).view(), pid),
{
    rq.dequeue_pid(pid)
}

/// Account elapsed time; returns the process switched to, if any.
pub fn tick(rq: &mut RunQueue, elapsed_us: u32) -> (r: Option<Pid>)
    requires
        old(rq).wf(),
    ensures
        final(rq).wf(),
        (final(rq).view(), r) == tick_spec(old(rq).view(), elapsed_us),
{
    rq.tick(elapsed_us)
}

/// Time quantum of a priority, in microseconds.
pub fn quantum_us(priority: Priority) -> (r: u32)
    ensures
        r == quantum_spec(level_of(priority)),
{
    let level: usize = match priority {
        Priority::Realtime => 0,
        Priority::High => 1,
        Priority::Normal => 2,
        Priority::Low => 3,
        Priority::Idle => 4,
    };
    RunQueue::quantum_for(level)
}

} // verus!
