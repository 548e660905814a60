//! Saved CPU context of a kernel thread (callee-saved registers, frame
//! pointer, link register and stack pointer).
use vstd::prelude::*;

verus! {

/// Saved CPU context of one kernel thread.
pub struct CpuContext {
    pub x19: u64,
    pub x20: u64,
    pub x21: u64,
    pub x22: u64,
    pub x23: u64,
    pub x24: u64,
    pub x25: u64,
    pub x26: u64,
    pub x27: u64,
    pub x28: u64,
    pub fp: u64,
    pub lr: u64,
    pub sp: u64,
}

impl CpuContext {
    /// All registers zero.
    pub open spec fn is_zeroed_except(&self, lr: u64, sp: u64) -> bool {
        &&& self.x19 == 0 && self.x20 == 0 && self.x21 == 0 && self.x22 == 0 && self.x23 == 0
        &&& self.x24 == 0 && self.x25 == 0 && self.x26 == 0 && self.x27 == 0 && self.x28 == 0
        &&& self.fp == 0
        &&& self.lr == lr
        &&& self.sp == sp
    }

    /// A context with every register zero.
    pub fn zeroed() -> (c: Self)
        ensures
            c.is_zeroed_except(0, 0),
    {
        Self {
            x19: 0,
            x20: 0,
            x21: 0,
            x22: 0,
            x23: 0,
            x24: 0,
            x25: 0,
            x26: 0,
            x27: 0,
            x28: 0,
            fp: 0,
            lr: 0,
            sp: 0,
        }
    }

    /// The context of a new thread: it resumes at `entry` (the address of its
    /// entry function) on the stack whose top is `stack_top`; every other
    /// register is zero, so nothing leaks from a previous occupant.
    pub fn prepare(entry: u64, stack_top: u64) -> (c: Self)
        ensures
            c.is_zeroed_except(entry, stack_top),
    {
        Self {
            x19: 0,
            x20: 0,
            x21: 0,
            x22: 0,
            x23: 0,
            x24: 0,
            x25: 0,
            x26: 0,
            x27: 0,
            x28: 0,
            fp: 0,
            lr: entry,
            sp: stack_top,
        }
    }
}

} // verus!
