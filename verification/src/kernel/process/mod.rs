//! Capability-based process model: process descriptors and the process table.
//!
//! The table is a fixed array of 64 slots.  Its model is the sequence of slot
//! contents; a process is found by the first slot that holds its pid.
pub mod capability;
pub mod context;

use vstd::prelude::*;
use capability::{Capability, CapabilitySet};
use context::CpuContext;
use crate::buddy_allocator::{BuddyAllocator, bsize, PAGE_SIZE, MAX_ORDER};
pub use crate::kernel_ipc_tests::Pid;
pub use crate::kernel_scheduler_tests::Priority;
use crate::kernel_scheduler_tests::level_of;

verus! {

/// Slots in the process table.
pub const MAX_PROCESSES: usize = 64;
/// A kernel stack is an order-2 block (4 pages, 16 KiB).
pub const KERNEL_STACK_ORDER: usize = 2;
pub const KERNEL_STACK_SIZE: u64 = 16384;

/// Process lifecycle state.
#[derive(Clone, Copy, Debug, PartialEq, Eq, Structural)]
pub enum ProcessState {
    Ready,
    Running,
    Blocked,
    Zombie,
}

/// A process descriptor.
pub struct Process {
    pub pid: Pid,
    pub name: &'static str,
    pub state: ProcessState,
    pub priority: Priority,
    pub context: CpuContext,
    pub capabilities: CapabilitySet,
    pub stack_base: u64,
}

fn priority_level(p: Priority) -> (l: u8)
    ensures
        l == level_of(p),
{
    match p {
        Priority::Realtime => 0,
        Priority::High => 1,
        Priority::Normal => 2,
        Priority::Low => 3,
        Priority::Idle => 4,
    }
}

impl Process {
    /// A Ready process whose context starts at `entry` (the address of its
    /// entry function) on the kernel stack `[stack_base, stack_base + 16 KiB)`.
    pub fn new(
        pid: Pid,
        name: &'static str,
        priority: Priority,
        entry: u64,
        stack_base: u64,
        capabilities: CapabilitySet,
    ) -> (p: Self)
        requires
            stack_base + KERNEL_STACK_SIZE <= u64::MAX,
        ensures
            p.pid == pid,
            p.name == name,
            p.state == ProcessState::Ready,
            p.priority == priority,
            p.context.is_zeroed_except(entry, (stack_base + KERNEL_STACK_SIZE) as u64),
            p.capabilities == capabilities,
            p.stack_base == stack_base,
    {
        let stack_top = stack_base + KERNEL_STACK_SIZE;
        Self {
            pid,
            name,
            state: ProcessState::Ready,
            priority,
            context: CpuContext::prepare(entry, stack_top),
            capabilities,
            stack_base,
        }
    }

    /// Grant a capability (false when the set is full).
    pub fn grant(&mut self, cap: Capability) -> (r: bool)
        requires
            old(self).capabilities.wf(),
        ensures
            final(self).capabilities.wf(),
            r == (old(self).capabilities@.len() < capability::MAX_CAPS),
            r && old(self).capabilities@.contains(cap) ==> final(self).capabilities@ == old(self).capabilities@,
            r && !old(self).capabilities@.contains(cap) ==> final(self).capabilities@ == old(self).capabilities@.push(cap),
            !r ==> final(self).capabilities@ == old(self).capabilities@,
            final(self).pid == old(self).pid,
            final(self).state == old(self).state,
            final(self).priority == old(self).priority,
            final(self).stack_base == old(self).stack_base,
    {
        self.capabilities.grant(cap)
    }

    /// Revoke a capability; true if it was held.
    pub fn revoke(&mut self, cap: &Capability) -> (r: bool)
        requires
            old(self).capabilities.wf(),
        ensures
            final(self).capabilities.wf(),
            r == old(self).capabilities@.contains(*cap),
            !final(self).capabilities@.contains(*cap),
            !r ==> final(self).capabilities@ == old(self).capabilities@,
            final(self).capabilities@.len() == old(self).capabilities@.len() - (if r { 1int } else { 0int }),
            final(self).pid == old(self).pid,
            final(self).state == old(self).state,
            final(self).priority == old(self).priority,
            final(self).stack_base == old(self).stack_base,
    {
        self.capabilities.revoke(cap)
    }

    pub fn can_send(&self, endpoint_id: u32) -> (r: bool)
        requires
            self.capabilities.wf(),
        ensures
            r == self.capabilities@.contains(Capability::IpcSend { endpoint_id }),
    {
        self.capabilities.can_send(endpoint_id)
    }

    pub fn can_recv(&self, endpoint_id: u32) -> (r: bool)
        requires
            self.capabilities.wf(),
        ensures
            r == self.capabilities@.contains(Capability::IpcRecv { endpoint_id }),
    {
        self.capabilities.can_recv(endpoint_id)
    }

    pub fn can_mmio(&self, addr: u64) -> (r: bool)
        requires
            self.capabilities.wf(),
            capability::mmio_in_range(self.capabilities@),
        ensures
            r == exists|i: int|
                0 <= i < self.capabilities@.len() && capability::mmio_covers(
                    #[trigger] self.capabilities@[i],
                    addr,
                ),
    {
        self.capabilities.can_mmio(addr)
    }
}

/// Number of occupied slots among the first `n`.
pub open spec fn occupied(s: Seq<Option<Process>>, n: int) -> nat
    decreases n,
{
    if n <= 0 {
        0
    } else {
        occupied(s, n - 1) + if s[n - 1] is Some {
            1nat
        } else {
            0nat
        }
    }
}

/// Slot `i` holds the process `pid`.
pub open spec fn holds(s: Seq<Option<Process>>, i: int, pid: Pid) -> bool {
    s[i] matches Some(p) && p.pid == pid
}

/// The first slot at or after `i` that holds `pid` (`s.len()` when none does).
pub open spec fn find_spec(s: Seq<Option<Process>>, pid: Pid, i: int) -> int
    decreases s.len() - i,
{
    if i >= s.len() {
        s.len() as int
    } else if holds(s, i, pid) {
        i
    } else {
        find_spec(s, pid, i + 1)
    }
}

/// The first empty slot at or after `i` (`s.len()` when there is none).
pub open spec fn first_free(s: Seq<Option<Process>>, i: int) -> int
    decreases s.len() - i,
{
    if i >= s.len() {
        s.len() as int
    } else if s[i] is None {
        i
    } else {
        first_free(s, i + 1)
    }
}

/// Slot `i` holds a Ready process.
pub open spec fn is_ready(s: Seq<Option<Process>>, i: int) -> bool {
    s[i] matches Some(p) && p.state == ProcessState::Ready
}

/// Level of the process in an occupied slot.
pub open spec fn slot_level(s: Seq<Option<Process>>, i: int) -> int {
    level_of(s[i].unwrap().priority)
}

/// Slot `i` is the one `next_ready` picks: a Ready process of the best
/// priority, the first such slot.
pub open spec fn best_ready(s: Seq<Option<Process>>, i: int) -> bool {
    &&& 0 <= i < s.len()
    &&& is_ready(s, i)
    &&& forall|j: int| 0 <= j < s.len() && is_ready(s, j) ==> slot_level(s, i) <= slot_level(s, j)
    &&& forall|j: int| 0 <= j < i && is_ready(s, j) ==> slot_level(s, i) < slot_level(s, j)
}

/// `find_spec` returns a slot holding the pid, or the length when none does.
pub proof fn lemma_find_holds(s: Seq<Option<Process>>, pid: Pid, from: int)
    requires
        0 <= from <= s.len(),
    ensures
        from <= find_spec(s, pid, from) <= s.len(),
        find_spec(s, pid, from) < s.len() ==> holds(s, find_spec(s, pid, from), pid),
    decreases s.len() - from,
{
    if from < s.len() && !holds(s, from, pid) {
        lemma_find_holds(s, pid, from + 1);
    }
}

proof fn lemma_find_spec(s: Seq<Option<Process>>, pid: Pid, from: int, i: int)
    requires
        0 <= from <= i <= s.len(),
        i == s.len() || holds(s, i, pid),
        forall|j: int| from <= j < i ==> !holds(s, j, pid),
    ensures
        find_spec(s, pid, from) == i,
    decreases i - from,
{
    if from < i {
        lemma_find_spec(s, pid, from + 1, i);
    }
}

proof fn lemma_first_free(s: Seq<Option<Process>>, from: int, i: int)
    requires
        0 <= from <= i <= s.len(),
        i == s.len() || s[i] is None,
        forall|j: int| from <= j < i ==> s[j] is Some,
    ensures
        first_free(s, from) == i,
    decreases i - from,
{
    if from < i {
        lemma_first_free(s, from + 1, i);
    }
}

proof fn lemma_occupied_update(s: Seq<Option<Process>>, i: int, v: Option<Process>, n: int)
    requires
        0 <= i < s.len(),
        0 <= n <= s.len(),
    ensures
        occupied(s.update(i, v), n) + (if i < n && s[i] is Some {
            1int
        } else {
            0int
        }) == occupied(s, n) + (if i < n && v is Some {
            1int
        } else {
            0int
        }),
    decreases n,
{
    if n > 0 {
        lemma_occupied_update(s, i, v, n - 1);
    }
}

proof fn lemma_occupied_bound(s: Seq<Option<Process>>, n: int)
    requires
        0 <= n,
    ensures
        occupied(s, n) <= n,
    decreases n,
{
    if n > 0 {
        lemma_occupied_bound(s, n - 1);
    }
}

proof fn lemma_occupied_pos(s: Seq<Option<Process>>, i: int, n: int)
    requires
        0 <= i < n <= s.len(),
        s[i] is Some,
    ensures
        occupied(s, n) >= 1,
    decreases n,
{
    if n - 1 > i {
        lemma_occupied_pos(s, i, n - 1);
    }
}

/// The process table.
pub struct ProcessTable {
    slots: Vec<Option<Process>>,
    count: usize,
    next_pid: u32,
    running: Option<usize>,
}

impl ProcessTable {
    /// Contents of the slots.
    pub closed spec fn slots_spec(&self) -> Seq<Option<Process>> {
        self.slots@
    }

    /// Processes counted as live (at least the occupied slots).
    pub closed spec fn count_spec(&self) -> int {
        self.count as int
    }

    /// The pid the next spawned process gets.
    pub closed spec fn next_pid_spec(&self) -> u32 {
        self.next_pid
    }

    /// Every held capability set is valid, and the live count covers the
    /// occupied slots.
    pub closed spec fn wf(&self) -> bool {
        &&& self.slots.len() == MAX_PROCESSES
        &&& self.count <= MAX_PROCESSES
        &&& occupied(self.slots@, MAX_PROCESSES as int) <= self.count
        &&& forall|i: int|
            0 <= i < MAX_PROCESSES ==> (#[trigger] self.slots@[i] matches Some(p) ==> p.capabilities.wf())
    }

    /// An empty table whose first pid is 1.
    pub fn new() -> (t: Self)
        ensures
            t.wf(),
            t.slots_spec() == Seq::new(MAX_PROCESSES as nat, |i: int| None::<Process>),
            t.count_spec() == 0,
            t.next_pid_spec() == 1,
    {
        let mut slots: Vec<Option<Process>> = Vec::new();
        let mut i: usize = 0;
        while i < MAX_PROCESSES
            invariant
                i <= MAX_PROCESSES,
                slots.len() == i,
                forall|j: int| 0 <= j < i ==> slots@[j] is None,
            decreases MAX_PROCESSES - i,
        {
            slots.push(None);
            i += 1;
        }
        let t = Self { slots, count: 0, next_pid: 1, running: None };
        proof {
            assert(t.slots@ =~= Seq::new(MAX_PROCESSES as nat, |i: int| None::<Process>));
            assert(occupied(t.slots@, MAX_PROCESSES as int) == 0) by {
                lemma_occupied_zero(t.slots@, MAX_PROCESSES as int);
            }
        }
        t
    }

    /// Reserve the first free slot and the next pid.
    fn allocate_slot(&mut self) -> (r: Option<(usize, Pid)>)
        requires
            old(self).wf(),
            old(self).next_pid < u32::MAX,
        ensures
            final(self).wf(),
            final(self).slots@ == old(self).slots@,
            final(self).running == old(self).running,
            old(self).count >= MAX_PROCESSES || first_free(old(self).slots@, 0) >= MAX_PROCESSES
                ==> r is None && *final(self) == *old(self),
            r matches Some((i, pid)) ==> {
                &&& old(self).count < MAX_PROCESSES
                &&& i == first_free(old(self).slots@, 0)
                &&& i < MAX_PROCESSES
                &&& pid == Pid(old(self).next_pid)
                &&& final(self).next_pid == old(self).next_pid + 1
                &&& final(self).count == old(self).count + 1
            },
            r is None ==> *final(self) == *old(self),
            r is Some <==> (old(self).count < MAX_PROCESSES && first_free(old(self).slots@, 0) < MAX_PROCESSES),
    {
        if self.count >= MAX_PROCESSES {
            return None;
        }
        let mut i: usize = 0;
        while i < MAX_PROCESSES
            invariant
                self.wf(),
                self == old(self),
                self.count < MAX_PROCESSES,
                self.next_pid < u32::MAX,
                i <= MAX_PROCESSES,
                forall|j: int| 0 <= j < i ==> self.slots@[j] is Some,
            decreases MAX_PROCESSES - i,
        {
            if self.slots[i].is_none() {
                proof {
                    lemma_first_free(self.slots@, 0, i as int);
                }
                let pid = Pid(self.next_pid);
                self.next_pid += 1;
                self.count += 1;
                return Some((i, pid));
            }
            i += 1;
        }
        proof {
            lemma_first_free(self.slots@, 0, MAX_PROCESSES as int);
        }
        None
    }

    /// The first slot holding `pid`.
    fn find(&self, pid: Pid) -> (r: Option<usize>)
        requires
            self.wf(),
        ensures
            r is None ==> find_spec(self.slots@, pid, 0) == MAX_PROCESSES,
            r matches Some(i) ==> i == find_spec(self.slots@, pid, 0) && i < MAX_PROCESSES && holds(self.slots@, i as int, pid),
    {
        let mut i: usize = 0;
        while i < MAX_PROCESSES
            invariant
                self.wf(),
                i <= MAX_PROCESSES,
                forall|j: int| 0 <= j < i ==> !holds(self.slots@, j, pid),
            decreases MAX_PROCESSES - i,
        {
            match &self.slots[i] {
                Some(p) => {
                    if p.pid == pid {
                        proof {
                            lemma_find_spec(self.slots@, pid, 0, i as int);
                        }
                        return Some(i);
                    }
                },
                None => {},
            }
            i += 1;
        }
        proof {
            lemma_find_spec(self.slots@, pid, 0, MAX_PROCESSES as int);
        }
        None
    }

    /// The slot of the highest-priority Ready process (the first such slot).
    pub fn next_ready(&self) -> (r: Option<usize>)
        requires
            self.wf(),
        ensures
            r is None <==> forall|j: int| 0 <= j < MAX_PROCESSES ==> !is_ready(self.slots_spec(), j),
            r matches Some(i) ==> best_ready(self.slots_spec(), i as int),
    {
        let mut best: Option<(usize, u8)> = None;
        let mut i: usize = 0;
        while i < MAX_PROCESSES
            invariant
                self.wf(),
                i <= MAX_PROCESSES,
                best is None <==> forall|j: int| 0 <= j < i ==> !is_ready(self.slots@, j),
                best matches Some((b, bl)) ==> {
                    &&& b < i
                    &&& is_ready(self.slots@, b as int)
                    &&& bl == slot_level(self.slots@, b as int)
                    &&& forall|j: int| 0 <= j < i && is_ready(self.slots@, j) ==> bl <= slot_level(self.slots@, j)
                    &&& forall|j: int| 0 <= j < b && is_ready(self.slots@, j) ==> bl < slot_level(self.slots@, j)
                },
            decreases MAX_PROCESSES - i,
        {
            match &self.slots[i] {
                Some(p) => {
                    if p.state == ProcessState::Ready {
                        assert(is_ready(self.slots@, i as int));
                        let pl = priority_level(p.priority);
                        match best {
                            None => {
                                best = Some((i, pl));
                            },
                            Some((_, bp)) => {
                                if pl < bp {
                                    best = Some((i, pl));
                                }
                            },
                        }
                    }
                },
                None => {},
            }
            i += 1;
        }
        match best {
            Some((b, _)) => {
                assert(is_ready(self.slots_spec(), b as int));
                Some(b)
            },
            None => None,
        }
    }

    /// Start a process in the first free slot with a fresh order-2 kernel
    /// stack from `mem`.  `None` when the table is full or no stack could be
    /// allocated (the pid and the live count are consumed in that case).
    pub fn spawn(
        &mut self,
        mem: &mut BuddyAllocator,
        name: &'static str,
        priority: Priority,
        entry: u64,
        capabilities: CapabilitySet,
    ) -> (r: Option<Pid>)
        requires
            old(self).wf(),
            old(mem).wf(),
            old(self).next_pid_spec() < u32::MAX,
            capabilities.wf(),
        ensures
            final(self).wf(),
            final(mem).wf(),
            old(self).count_spec() >= MAX_PROCESSES || first_free(old(self).slots_spec(), 0)
                >= MAX_PROCESSES ==> r is None && *final(self) == *old(self) && *final(mem) == *old(mem),
            r matches Some(pid) ==> {
                let i = first_free(old(self).slots_spec(), 0);
                &&& pid == Pid(old(self).next_pid_spec())
                &&& 0 <= i < MAX_PROCESSES
                &&& final(self).slots_spec() == old(self).slots_spec().update(i, final(self).slots_spec()[i])
                &&& final(self).slots_spec()[i] matches Some(p) && {
                    &&& p.pid == pid
                    &&& p.name == name
                    &&& p.state == ProcessState::Ready
                    &&& p.priority == priority
                    &&& p.capabilities == capabilities
                    &&& BuddyAllocator::allocated_block(old(mem), final(mem), KERNEL_STACK_ORDER, p.stack_base)
                    &&& p.context.is_zeroed_except(entry, (p.stack_base + KERNEL_STACK_SIZE) as u64)
                }
            },
            r is None ==> final(self).slots_spec() == old(self).slots_spec() && *final(mem) == *old(mem),
            r is Some <==> (old(self).count_spec() < MAX_PROCESSES && first_free(old(self).slots_spec(), 0)
                < MAX_PROCESSES && old(mem).initialized_spec() && !(forall|k: int|
                KERNEL_STACK_ORDER <= k < MAX_ORDER ==> #[trigger] old(mem).free_list(k).len() == 0)),
            (r is None && old(self).count_spec() < MAX_PROCESSES && first_free(old(self).slots_spec(), 0)
                < MAX_PROCESSES) ==> final(self).count_spec() == old(self).count_spec() + 1
                && final(self).next_pid_spec() == old(self).next_pid_spec() + 1,
            r is Some ==> final(self).count_spec() == old(self).count_spec() + 1 && final(self).next_pid_spec()
                == old(self).next_pid_spec() + 1,
    {
        let (slot, pid) = match self.allocate_slot() {
            Some(x) => x,
            None => {
                return None;
            },
        };
        let stack_base = match mem.alloc_block(KERNEL_STACK_ORDER) {
            Some(a) => a,
            None => {
                return None;
            },
        };
        proof {
            old(mem).lemma_used_le_total();
            assert(bsize(2) == 4) by {
                reveal_with_fuel(bsize, 3);
            }
        }
        let process = Process::new(pid, name, priority, entry, stack_base, capabilities);
        let ghost s0 = self.slots@;
        proof {
            lemma_occupied_update(s0, slot as int, Some(process), MAX_PROCESSES as int);
            lemma_occupied_bound(s0, MAX_PROCESSES as int);
        }
        self.slots.set(slot, Some(process));
        proof {
            assert forall|i: int| 0 <= i < MAX_PROCESSES implies (#[trigger] self.slots@[i] matches Some(
                p,
            ) ==> p.capabilities.wf()) by {
                if i != slot as int {
                    assert(self.slots@[i] == s0[i]);
                }
            }
            assert(self.slots@ == s0.update(slot as int, self.slots@[slot as int]));
        }
        Some(pid)
    }

    /// Stacks of live processes are allocated blocks of `mem`.
    pub open spec fn stacks_allocated(&self, mem: &BuddyAllocator) -> bool {
        forall|i: int|
            0 <= i < MAX_PROCESSES ==> (#[trigger] self.slots_spec()[i] matches Some(p) ==> (
            mem.free_releases(p.stack_base, KERNEL_STACK_ORDER) ==> {
                &&& mem.pfn_of(p.stack_base) + bsize(KERNEL_STACK_ORDER as int) <= mem.total()
                &&& mem.range_allocated(mem.pfn_of(p.stack_base), bsize(KERNEL_STACK_ORDER as int))
            }))
    }

    /// Terminate the process `pid` and give its kernel stack back to `mem`.
    pub fn terminate(&mut self, mem: &mut BuddyAllocator, pid: Pid)
        requires
            old(self).wf(),
            old(mem).wf(),
            old(self).stacks_allocated(old(mem)),
        ensures
            final(self).wf(),
            final(mem).wf(),
            ({
                let i = find_spec(old(self).slots_spec(), pid, 0);
                if i >= MAX_PROCESSES {
                    *final(self) == *old(self) && *final(mem) == *old(mem)
                } else {
                    let sb = old(self).slots_spec()[i].unwrap().stack_base;
                    &&& final(self).slots_spec() == old(self).slots_spec().update(i, None)
                    &&& final(self).count_spec() == old(self).count_spec() - 1
                    &&& (old(mem).free_releases(sb, KERNEL_STACK_ORDER) ==> BuddyAllocator::released_block(
                        old(mem),
                        final(mem),
                        KERNEL_STACK_ORDER,
                        sb,
                    ))
                    &&& (!old(mem).free_releases(sb, KERNEL_STACK_ORDER) ==> *final(mem) == *old(mem))
                }
            }),
    {
        match self.find(pid) {
            Some(i) => {
                let stack_base = match &self.slots[i] {
                    Some(p) => p.stack_base,
                    None => {
                        return;
                    },
                };
                let ghost s0 = self.slots@;
                proof {
                    lemma_occupied_update(s0, i as int, None, MAX_PROCESSES as int);
                    lemma_occupied_pos(s0, i as int, MAX_PROCESSES as int);
                    assert(s0[i as int] matches Some(p) ==> (mem.free_releases(p.stack_base, KERNEL_STACK_ORDER) ==> {
                        &&& mem.pfn_of(p.stack_base) + bsize(KERNEL_STACK_ORDER as int) <= mem.total()
                        &&& mem.range_allocated(mem.pfn_of(p.stack_base), bsize(KERNEL_STACK_ORDER as int))
                    }));
                }
                self.slots.set(i, None);
                self.count -= 1;
                proof {
                    assert forall|k: int| 0 <= k < MAX_PROCESSES implies (#[trigger] self.slots@[k] matches Some(
                        p,
                    ) ==> p.capabilities.wf()) by {
                        if k != i as int {
                            assert(self.slots@[k] == s0[k]);
                        }
                    }
                }
                mem.free(stack_base, KERNEL_STACK_ORDER);
            },
            None => {},
        }
    }

    /// Mark the process `pid` Blocked.
    pub fn block(&mut self, pid: Pid)
        requires
            old(self).wf(),
        ensures
            final(self).wf(),
            final(self).count_spec() == old(self).count_spec(),
            final(self).next_pid_spec() == old(self).next_pid_spec(),
            ({
                let i = find_spec(old(self).slots_spec(), pid, 0);
                if i >= MAX_PROCESSES {
                    final(self).slots_spec() == old(self).slots_spec()
                } else {
                    final(self).slots_spec() == old(self).slots_spec().update(
                        i,
                        Some(Process { state: ProcessState::Blocked, ..old(self).slots_spec()[i].unwrap() }),
                    )
                }
            }),
    {
        self.set_state_if(pid, ProcessState::Blocked, false);
    }

    /// Mark the process `pid` Ready again if it is Blocked.
    pub fn unblock(&mut self, pid: Pid)
        requires
            old(self).wf(),
        ensures
            final(self).wf(),
            final(self).count_spec() == old(self).count_spec(),
            final(self).next_pid_spec() == old(self).next_pid_spec(),
            ({
                let i = find_spec(old(self).slots_spec(), pid, 0);
                if i >= MAX_PROCESSES || old(self).slots_spec()[i].unwrap().state != ProcessState::Blocked {
                    final(self).slots_spec() == old(self).slots_spec()
                } else {
                    final(self).slots_spec() == old(self).slots_spec().update(
                        i,
                        Some(Process { state: ProcessState::Ready, ..old(self).slots_spec()[i].unwrap() }),
                    )
                }
            }),
    {
        self.set_state_if(pid, ProcessState::Ready, true);
    }

    /// Set the state of the process `pid` (only when it is Blocked, if `only_blocked`).
    fn set_state_if(&mut self, pid: Pid, state: ProcessState, only_blocked: bool)
        requires
            old(self).wf(),
        ensures
            final(self).wf(),
            final(self).count == old(self).count,
            final(self).next_pid == old(self).next_pid,
            ({
                let i = find_spec(old(self).slots@, pid, 0);
                if i >= MAX_PROCESSES || (only_blocked && old(self).slots@[i].unwrap().state != ProcessState::Blocked) {
                    final(self).slots@ == old(self).slots@
                } else {
                    final(self).slots@ == old(self).slots@.update(
                        i,
                        Some(Process { state, ..old(self).slots@[i].unwrap() }),
                    )
                }
            }),
    {
        match self.find(pid) {
            Some(i) => {
                let ghost s0 = self.slots@;
                match &mut self.slots[i] {
                    Some(p) => {
                        if !only_blocked || p.state == ProcessState::Blocked {
                            p.state = state;
                        }
                    },
                    None => {},
                }
                proof {
                    let np = self.slots@[i as int];
                    assert(self.slots@ =~= s0.update(i as int, np));
                    lemma_occupied_update(s0, i as int, np, MAX_PROCESSES as int);
                    assert forall|k: int| 0 <= k < MAX_PROCESSES implies (#[trigger] self.slots@[k] matches Some(
                        q,
                    ) ==> q.capabilities.wf()) by {
                        if k != i as int {
                            assert(self.slots@[k] == s0[k]);
                        }
                    }
                    if only_blocked && s0[i as int].unwrap().state != ProcessState::Blocked {
                        assert(self.slots@ =~= s0);
                    }
                }
            },
            None => {},
        }
    }

    /// Whether the process `pid` holds `cap` (false for an unknown pid).
    pub fn check_capability(&self, pid: Pid, cap: &Capability) -> (r: bool)
        requires
            self.wf(),
        ensures
            ({
                let i = find_spec(self.slots_spec(), pid, 0);
                r == (i < MAX_PROCESSES && self.slots_spec()[i].unwrap().capabilities@.contains(*cap))
            }),
    {
        match self.find(pid) {
            Some(i) => match &self.slots[i] {
                Some(p) => p.capabilities.has(cap),
                None => false,
            },
            None => false,
        }
    }
}

proof fn lemma_occupied_zero(s: Seq<Option<Process>>, n: int)
    requires
        0 <= n <= s.len(),
        forall|j: int| 0 <= j < n ==> s[j] is None,
    ensures
        occupied(s, n) == 0,
    decreases n,
{
    if n > 0 {
        lemma_occupied_zero(s, n - 1);
    }
}

/// Start a process (see `ProcessTable::spawn`).
pub fn spawn(
    table: &mut ProcessTable,
    mem: &mut BuddyAllocator,
    name: &'static str,
    priority: Priority,
    entry: u64,
    capabilities: CapabilitySet,
) -> (r: Option<Pid>)
    requires
        old(table).wf(),
        old(mem).wf(),
        old(table).next_pid_spec() < u32::MAX,
        capabilities.wf(),
    ensures
        final(table).wf(),
        final(mem).wf(),
        r matches Some(pid) ==> pid == Pid(old(table).next_pid_spec()) && {
            let i = first_free(old(table).slots_spec(), 0);
            &&& 0 <= i < MAX_PROCESSES
            &&& final(table).slots_spec()[i] matches Some(p) && p.pid == pid && p.state == ProcessState::Ready
        },
        r is None ==> final(table).slots_spec() == old(table).slots_spec() && *final(mem) == *old(mem),
{
    table.spawn(mem, name, priority, entry, capabilities)
}

/// Terminate a process (see `ProcessTable::terminate`).
pub fn terminate(table: &mut ProcessTable, mem: &mut BuddyAllocator, pid: Pid)
    requires
        old(table).wf(),
        old(mem).wf(),
        old(table).stacks_allocated(old(mem)),
    ensures
        final(table).wf(),
        final(mem).wf(),
        find_spec(old(table).slots_spec(), pid, 0) >= MAX_PROCESSES ==> *final(table) == *old(table),
        find_spec(old(table).slots_spec(), pid, 0) < MAX_PROCESSES ==> final(table).slots_spec()
            == old(table).slots_spec().update(find_spec(old(table).slots_spec(), pid, 0), None),
{
    proof {
        lemma_find_holds(old(table).slots_spec(), pid, 0);
    }
    table.terminate(mem, pid)
}

/// The pid of the process `next_ready` picks.
pub fn next_ready(table: &ProcessTable) -> (r: Option<Pid>)
    requires
        table.wf(),
    ensures
        r is None <==> forall|j: int| 0 <= j < MAX_PROCESSES ==> !is_ready(table.slots_spec(), j),
        r is Some ==> exists|i: int|
            #[trigger] best_ready(table.slots_spec(), i) && holds(table.slots_spec(), i, r.unwrap()),
{
    match table.next_ready() {
        Some(i) => match &table.slots[i] {
            Some(p) => {
                assert(best_ready(table.slots_spec(), i as int));
                assert(holds(table.slots_spec(), i as int, p.pid));
                Some(p.pid)
            },
            None => None,
        },
        None => None,
    }
}

/// Block a process (see `ProcessTable::block`).
pub fn block(table: &mut ProcessTable, pid: Pid)
    requires
        old(table).wf(),
    ensures
        final(table).wf(),
        find_spec(old(table).slots_spec(), pid, 0) >= MAX_PROCESSES ==> final(table).slots_spec() == old(table).slots_spec(),
        find_spec(old(table).slots_spec(), pid, 0) < MAX_PROCESSES ==> final(table).slots_spec()[find_spec(old(table).slots_spec(), pid, 0)].unwrap().state == ProcessState::Blocked,
{
    proof {
        lemma_find_holds(old(table).slots_spec(), pid, 0);
    }
    table.block(pid)
}

/// Unblock a process (see `ProcessTable::unblock`).
pub fn unblock(table: &mut ProcessTable, pid: Pid)
    requires
        old(table).wf(),
    ensures
        final(table).wf(),
        find_spec(old(table).slots_spec(), pid, 0) >= MAX_PROCESSES ==> final(table).slots_spec() == old(table).slots_spec(),
        ({
            let i = find_spec(old(table).slots_spec(), pid, 0);
            i < MAX_PROCESSES && old(table).slots_spec()[i].unwrap().state == ProcessState::Blocked
                ==> final(table).slots_spec()[i].unwrap().state == ProcessState::Ready
        }),
{
    proof {
        lemma_find_holds(old(table).slots_spec(), pid, 0);
    }
    table.unblock(pid)
}

/// Whether a process holds a capability: the single point where every
/// resource access is checked.
pub fn check_capability(table: &ProcessTable, pid: Pid, cap: &Capability) -> (r: bool)
    requires
        table.wf(),
    ensures
        ({
            let i = find_spec(table.slots_spec(), pid, 0);
            r == (i < MAX_PROCESSES && table.slots_spec()[i].unwrap().capabilities@.contains(*cap))
        }),
{
    proof {
        lemma_find_holds(table.slots_spec(), pid, 0);
    }
    table.check_capability(pid, cap)
}

} // verus!
