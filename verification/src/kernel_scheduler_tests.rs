//! Kernel run queue: strict priority between five levels, round-robin
//! (first in, first out) within a level, per-level time quanta, and a "beam
//! switch" mode in which the Normal level is not scheduled.
//!
//! Each level is a ring buffer of 16 slots.  The model of the run queue
//! (`RunQueueView`) holds one sequence of process ids per level, front first.
use vstd::prelude::*;

verus! {

const MAX_PER_LEVEL: usize = 16;
const NUM_PRIORITIES: usize = 5;

const QUANTUM_US_P0: u32 = 2_000;
const QUANTUM_US_P1: u32 = 8_000;
const QUANTUM_US_P2: u32 = 20_000;
const QUANTUM_US_P3: u32 = 50_000;
const QUANTUM_US_P4: u32 = 0xFFFF_FFFF;

/// Scheduling priority; a lower level runs first.
#[derive(Clone, Copy, PartialEq, Eq, Debug, PartialOrd, Ord, Structural)]
pub enum Priority {
    Realtime,
    High,
    Normal,
    Low,
    Idle,
}

/// The level (0 to 4) of a priority.
pub open spec fn level_of(p: Priority) -> int {
    match p {
        Priority::Realtime => 0,
        Priority::High => 1,
        Priority::Normal => 2,
        Priority::Low => 3,
        Priority::Idle => 4,
    }
}

fn level_index(p: Priority) -> (l: usize)
    ensures
        l == level_of(p),
{
    match p {
        Priority::Realtime => 0,
        Priority::High => 1,
        Priority::Normal => 2,
        Priority::Low => 3,
        Priority::Idle => 4,
    }
}

/// Process identifier.
#[derive(Clone, Copy, PartialEq, Eq, Debug, Structural)]
pub struct Pid(pub u32);

/// Time quantum of a level, in microseconds.
pub open spec fn quantum_spec(level: int) -> u32 {
    if level == 0 {
        2_000u32
    } else if level == 1 {
        8_000u32
    } else if level == 2 {
        20_000u32
    } else if level == 3 {
        50_000u32
    } else {
        0xFFFF_FFFFu32
    }
}

/// The model of a run queue.
pub struct RunQueueView {
    /// One queue per level, front first.
    pub queues: Seq<Seq<u32>>,
    pub running_pid: u32,
    /// The level of the running process (5 when none runs).
    pub running_level: int,
    pub remaining_us: u32,
    pub beam_switch_active: bool,
}

/// Level `l` may be scheduled and has a process waiting.
pub open spec fn eligible(v: RunQueueView, l: int) -> bool {
    !(v.beam_switch_active && l == 2) && v.queues[l].len() > 0
}

/// The first eligible level at or after `l` (5 when there is none).
pub open spec fn first_eligible(v: RunQueueView, l: int) -> int
    decreases 5 - l,
{
    if l >= 5 {
        5
    } else if eligible(v, l) {
        l
    } else {
        first_eligible(v, l + 1)
    }
}

/// Effect of `enqueue`: the process joins the back of its level, unless that
/// level is full.
pub open spec fn enqueue_spec(v: RunQueueView, pid: Pid, p: Priority) -> (RunQueueView, bool) {
    let l = level_of(p);
    if v.queues[l].len() >= 16 {
        (v, false)
    } else {
        (RunQueueView { queues: v.queues.update(l, v.queues[l].push(pid.0)), ..v }, true)
    }
}

/// Effect of `pick_next`: the front of the first eligible level leaves it.
pub open spec fn pick_spec(v: RunQueueView) -> (RunQueueView, Option<(Pid, usize)>) {
    let l = first_eligible(v, 0);
    if l >= 5 {
        (v, None)
    } else {
        (
            RunQueueView { queues: v.queues.update(l, v.queues[l].drop_first()), ..v },
            Some((Pid(v.queues[l][0]), l as usize)),
        )
    }
}

/// Effect of `tick`: a waiting process of a higher priority than the
/// running one takes over at once; otherwise the running process keeps
/// running while it has quantum left, and when the quantum is used up the
/// next process is picked.  A process that takes over gets its level's
/// quantum.
pub open spec fn tick_spec(v: RunQueueView, elapsed_us: u32) -> (RunQueueView, Option<Pid>) {
    if first_eligible(v, 0) >= v.running_level && v.remaining_us > elapsed_us {
        (RunQueueView { remaining_us: (v.remaining_us - elapsed_us) as u32, ..v }, None)
    } else {
        let (v1, picked) = pick_spec(v);
        match picked {
            Some((pid, l)) => (
                RunQueueView { running_pid: pid.0, running_level: l as int, remaining_us: quantum_spec(l as int), ..v1 },
                Some(pid),
            ),
            None => (v1, None),
        }
    }
}

/// The first level at or after `l` whose queue holds `x` (5 when none does).
pub open spec fn first_level_with(v: RunQueueView, x: u32, l: int) -> int
    decreases 5 - l,
{
    if l >= 5 {
        5
    } else if v.queues[l].contains(x) {
        l
    } else {
        first_level_with(v, x, l + 1)
    }
}

/// The first index at or after `i` where `s` holds `x` (`s.len()` when none).
pub open spec fn first_index(s: Seq<u32>, x: u32, i: int) -> int
    decreases s.len() - i,
{
    if i >= s.len() {
        s.len() as int
    } else if s[i] == x {
        i
    } else {
        first_index(s, x, i + 1)
    }
}

/// Effect of `dequeue_pid`: the first occurrence of the process, in the first
/// level that holds it, leaves the queue; the order of the others is kept.
pub open spec fn dequeue_spec(v: RunQueueView, pid: Pid) -> RunQueueView {
    let l = first_level_with(v, pid.0, 0);
    if l >= 5 {
        v
    } else {
        RunQueueView {
            queues: v.queues.update(l, v.queues[l].remove(first_index(v.queues[l], pid.0, 0))),
            ..v
        }
    }
}

/// Sum of the queue lengths of levels `0..n`.
pub open spec fn queued_total(v: RunQueueView, n: int) -> int
    decreases n,
{
    if n <= 0 {
        0
    } else {
        queued_total(v, n - 1) + v.queues[n - 1].len()
    }
}

pub struct RunQueue {
    pids: [[u32; MAX_PER_LEVEL]; NUM_PRIORITIES],
    count: [usize; NUM_PRIORITIES],
    head: [usize; NUM_PRIORITIES],
    pub running_pid: u32,
    running_level: usize,
    remaining_us: u32,
    beam_switch_active: bool,
}

impl RunQueue {
    spec fn queue(&self, l: int) -> Seq<u32> {
        ring_view(self.pids[l]@, self.head[l] as int, self.count[l] as int)
    }

    pub closed spec fn view(&self) -> RunQueueView {
        RunQueueView {
            queues: Seq::new(NUM_PRIORITIES as nat, |l: int| self.queue(l)),
            running_pid: self.running_pid,
            running_level: self.running_level as int,
            remaining_us: self.remaining_us,
            beam_switch_active: self.beam_switch_active,
        }
    }

    /// Every level holds at most 16 processes and its head is a valid slot.
    pub closed spec fn wf(&self) -> bool {
        &&& forall|l: int|
            0 <= l < NUM_PRIORITIES ==> #[trigger] self.count[l] <= MAX_PER_LEVEL && self.head[l]
                < MAX_PER_LEVEL
        &&& self.running_level <= NUM_PRIORITIES
    }

    /// A well-formed run queue has five levels of at most 16 processes each,
    /// and the running level is a level or 5 (none).
    pub proof fn lemma_levels(&self)
        requires
            self.wf(),
        ensures
            self.view().queues.len() == 5,
            forall|l: int| 0 <= l < 5 ==> #[trigger] self.view().queues[l].len() <= 16,
            0 <= self.view().running_level <= 5,
    {
    }

    /// The process now running (0 before any was picked).
    pub fn running(&self) -> (r: u32)
        ensures
            r == self.view().running_pid,
    {
        self.running_pid
    }

    pub fn new() -> (q: Self)
        ensures
            q.wf(),
            q.view().queues == Seq::new(5, |l: int| Seq::<u32>::empty()),
            q.view().running_pid == 0,
            q.view().running_level == 5,
            q.view().remaining_us == 0,
            !q.view().beam_switch_active,
    {
        let q = Self {
            pids: [[0u32; MAX_PER_LEVEL]; NUM_PRIORITIES],
            count: [0; NUM_PRIORITIES],
            head: [0; NUM_PRIORITIES],
            running_pid: 0,
            running_level: NUM_PRIORITIES,
            remaining_us: 0,
            beam_switch_active: false,
        };
        assert forall|l: int| 0 <= l < 5 implies #[trigger] q.view().queues[l] =~= Seq::<u32>::empty() by {}
        assert(q.view().queues =~= Seq::new(5, |l: int| Seq::<u32>::empty()));
        q
    }

    /// Quantum of a level, in microseconds (levels past 4 are unlimited).
    pub fn quantum_for(level: usize) -> (r: u32)
        ensures
            r == quantum_spec(level as int),
    {
        match level {
            0 => QUANTUM_US_P0,
            1 => QUANTUM_US_P1,
            2 => QUANTUM_US_P2,
            3 => QUANTUM_US_P3,
            _ => QUANTUM_US_P4,
        }
    }

    /// Put a process at the back of its priority level; false if that level is full.
    pub fn enqueue(&mut self, pid: Pid, priority: Priority) -> (r: bool)
        requires
            old(self).wf(),
        ensures
            final(self).wf(),
            (final(self).view(), r) == enqueue_spec(old(self).view(), pid, priority),
            old(self).view().queues.len() == 5 && final(self).view().queues.len() == 5,
    {
        let level = level_index(priority);
        if self.count[level] >= MAX_PER_LEVEL {
            return false;
        }
        let ghost v0 = self.view();
        let tail = (self.head[level] + self.count[level]) % MAX_PER_LEVEL;
        self.pids[level][tail] = pid.0;
        self.count[level] += 1;
        proof {
            let l = level as int;
            assert(self.queue(l) =~= v0.queues[l].push(pid.0));
            assert forall|k: int| 0 <= k < 5 && k != l implies #[trigger] self.queue(k) == v0.queues[k] by {
                assert(self.queue(k) =~= v0.queues[k]);
            }
            assert(self.view().queues =~= v0.queues.update(l, v0.queues[l].push(pid.0)));
        }
        true
    }

    /// Remove the first occurrence of a process from the first level holding it.
    pub fn dequeue_pid(&mut self, pid: Pid)
        requires
            old(self).wf(),
        ensures
            final(self).wf(),
            final(self).view() == dequeue_spec(old(self).view(), pid),
    {
        let ghost v0 = self.view();
        let mut level: usize = 0;
        while level < NUM_PRIORITIES
            invariant
                self.wf(),
                self.view() == v0,
                old(self).view() == v0,
                level <= NUM_PRIORITIES,
                first_level_with(v0, pid.0, 0) == first_level_with(v0, pid.0, level as int),
            decreases NUM_PRIORITIES - level,
        {
            let mut i: usize = 0;
            while i < self.count[level]
                invariant
                    self.wf(),
                    self.view() == v0,
                    old(self).view() == v0,
                    level < NUM_PRIORITIES,
                    i <= self.count[level as int],
                    first_level_with(v0, pid.0, 0) == first_level_with(v0, pid.0, level as int),
                    forall|j: int| 0 <= j < i ==> v0.queues[level as int][j] != pid.0,
                decreases self.count[level as int] - i,
            {
                let slot = (self.head[level] + i) % MAX_PER_LEVEL;
                if self.pids[level][slot] == pid.0 {
                    proof {
                        let l = level as int;
                        assert(v0.queues[l][i as int] == pid.0);
                        assert(v0.queues[l].contains(pid.0));
                        assert(first_level_with(v0, pid.0, l) == l);
                        lemma_first_index(v0.queues[l], pid.0, 0, i as int);
                    }
                    self.shift_out(level, i);
                    return;
                }
                i += 1;
            }
            proof {
                let l = level as int;
                assert(!v0.queues[l].contains(pid.0)) by {
                    if v0.queues[l].contains(pid.0) {
                        let j = choose|j: int| 0 <= j < v0.queues[l].len() && v0.queues[l][j] == pid.0;
                        assert(v0.queues[l][j] != pid.0);
                    }
                }
            }
            level += 1;
        }
    }

    /// Remove entry `i` of level `level`, moving the later entries forward.
    fn shift_out(&mut self, level: usize, i: usize)
        requires
            old(self).wf(),
            level < NUM_PRIORITIES,
            i < old(self).count[level as int],
        ensures
            final(self).wf(),
            final(self).view() == (RunQueueView {
                queues: old(self).view().queues.update(
                    level as int,
                    old(self).view().queues[level as int].remove(i as int),
                ),
                ..old(self).view()
            }),
    {
        let ghost v0 = self.view();
        let ghost q0 = v0.queues[level as int];
        let ghost h = self.head[level as int] as int;
        let ghost n = self.count[level as int] as int;
        assert(q0 == ring_view(self.pids[level as int]@, h, n));
        let mut j = i;
        while j + 1 < self.count[level]
            invariant
                self.wf(),
                level < NUM_PRIORITIES,
                i <= j < n,
                n == self.count[level as int],
                n == q0.len(),
                h == self.head[level as int],
                self.head == old(self).head,
                self.count == old(self).count,
                self.running_pid == old(self).running_pid,
                self.running_level == old(self).running_level,
                self.remaining_us == old(self).remaining_us,
                self.beam_switch_active == old(self).beam_switch_active,
                forall|k: int| 0 <= k < 5 && k != level ==> #[trigger] self.pids[k] == old(self).pids[k],
                ring_view(self.pids[level as int]@, h, n) == shifted(q0, i as int, j as int),
            decreases n - j,
        {
            let cur = (self.head[level] + j) % MAX_PER_LEVEL;
            let next = (self.head[level] + j + 1) % MAX_PER_LEVEL;
            let v = self.pids[level][next];
            let ghost row = self.pids[level as int]@;
            proof {
                assert(v == ring_view(row, h, n)[j + 1]);
                lemma_ring_update(row, h, n, j as int, v);
            }
            self.pids[level][cur] = v;
            proof {
                assert(self.pids[level as int]@ == row.update(cur as int, v));
                assert(shifted(q0, i as int, j as int).update(j as int, v) =~= shifted(q0, i as int, j + 1));
            }
            j += 1;
        }
        self.count[level] -= 1;
        proof {
            let l = level as int;
            assert(self.queue(l) =~= ring_view(self.pids[l]@, h, n - 1));
            assert(ring_view(self.pids[l]@, h, n - 1) =~= shifted(q0, i as int, n - 1).take(n - 1));
            assert(shifted(q0, i as int, n - 1).take(n - 1) =~= q0.remove(i as int));
            assert forall|k: int| 0 <= k < 5 && k != l implies #[trigger] self.queue(k) == v0.queues[k] by {
                assert(self.queue(k) =~= v0.queues[k]);
            }
            assert(self.view().queues =~= v0.queues.update(l, q0.remove(i as int)));
        }
    }

    /// Take the front process of the first eligible level (the Normal level is
    /// skipped while a beam switch is active).
    pub fn pick_next(&mut self) -> (r: Option<(Pid, usize)>)
        requires
            old(self).wf(),
        ensures
            final(self).wf(),
            (final(self).view(), r) == pick_spec(old(self).view()),
    {
        let ghost v0 = self.view();
        let mut level: usize = 0;
        while level < NUM_PRIORITIES
            invariant
                self.wf(),
                self.view() == v0,
                old(self).view() == v0,
                level <= NUM_PRIORITIES,
                first_eligible(v0, 0) == first_eligible(v0, level as int),
            decreases NUM_PRIORITIES - level,
        {
            if self.beam_switch_active && level == 2 {
                level += 1;
                continue;
            }
            if self.count[level] > 0 {
                let ghost cnt = self.count;
                let ghost hd = self.head;
                let slot = self.head[level] % MAX_PER_LEVEL;
                let pid = self.pids[level][slot];
                self.head[level] = (self.head[level] + 1) % MAX_PER_LEVEL;
                self.count[level] -= 1;
                proof {
                    let l = level as int;
                    assert(pid == v0.queues[l][0]);
                    assert(self.queue(l) =~= v0.queues[l].drop_first());
                    assert forall|k: int| 0 <= k < 5 && k != l implies #[trigger] self.queue(k)
                        == v0.queues[k] by {
                        assert(self.queue(k) =~= v0.queues[k]);
                    }
                    assert(self.view().queues =~= v0.queues.update(l, v0.queues[l].drop_first()));
                    assert forall|k: int| 0 <= k < NUM_PRIORITIES implies #[trigger] self.count[k] <= MAX_PER_LEVEL
                        && self.head[k] < MAX_PER_LEVEL by {
                        if k != l {
                            assert(self.count[k] == cnt[k]);
                            assert(self.head[k] == hd[k]);
                        }
                    }
                }
                return Some((Pid(pid), level));
            }
            level += 1;
        }
        None
    }

    /// The first level that may be scheduled and has a process waiting (5
    /// when none has).
    fn first_ready(&self) -> (l: usize)
        requires
            self.wf(),
        ensures
            l == first_eligible(self.view(), 0),
    {
        let mut level: usize = 0;
        while level < NUM_PRIORITIES
            invariant
                self.wf(),
                level <= NUM_PRIORITIES,
                first_eligible(self.view(), 0) == first_eligible(self.view(), level as int),
            decreases NUM_PRIORITIES - level,
        {
            if !(self.beam_switch_active && level == 2) && self.count[level] > 0 {
                assert(eligible(self.view(), level as int));
                return level;
            }
            assert(!eligible(self.view(), level as int));
            level += 1;
        }
        NUM_PRIORITIES
    }

    /// Account `elapsed_us` of CPU time.  A waiting process of a higher
    /// priority than the running one takes over at once (a ready realtime
    /// process always preempts); otherwise, when the quantum is used up,
    /// switch to the next process.  Returns the process switched to.
    pub fn tick(&mut self, elapsed_us: u32) -> (r: Option<Pid>)
        requires
            old(self).wf(),
        ensures
            final(self).wf(),
            (final(self).view(), r) == tick_spec(old(self).view(), elapsed_us),
    {
        let top = self.first_ready();
        if top >= self.running_level && self.remaining_us > elapsed_us {
            self.remaining_us -= elapsed_us;
            assert(self.view().queues =~= old(self).view().queues);
            return None;
        }
        match self.pick_next() {
            Some((pid, level)) => {
                let ghost v1 = self.view();
                self.running_pid = pid.0;
                self.running_level = level;
                self.remaining_us = Self::quantum_for(level);
                assert(self.view().queues =~= v1.queues);
                Some(pid)
            },
            None => None,
        }
    }

    pub fn beam_switch_start(&mut self)
        requires
            old(self).wf(),
        ensures
            final(self).wf(),
            final(self).view() == (RunQueueView { beam_switch_active: true, ..old(self).view() }),
    {
        self.beam_switch_active = true;
        assert(self.view().queues =~= old(self).view().queues);
    }

    pub fn beam_switch_end(&mut self)
        requires
            old(self).wf(),
        ensures
            final(self).wf(),
            final(self).view() == (RunQueueView { beam_switch_active: false, ..old(self).view() }),
    {
        self.beam_switch_active = false;
        assert(self.view().queues =~= old(self).view().queues);
    }

    /// Number of queued processes over all levels.
    pub fn total_queued(&self) -> (r: usize)
        requires
            self.wf(),
        ensures
            r == queued_total(self.view(), 5),
    {
        let mut sum: usize = 0;
        let mut l: usize = 0;
        while l < NUM_PRIORITIES
            invariant
                self.wf(),
                l <= NUM_PRIORITIES,
                sum == queued_total(self.view(), l as int),
                sum <= l * MAX_PER_LEVEL,
            decreases NUM_PRIORITIES - l,
        {
            sum = sum + self.count[l];
            l += 1;
        }
        sum
    }

    /// Number of processes queued at a priority.
    pub fn queued_at(&self, p: Priority) -> (r: usize)
        requires
            self.wf(),
        ensures
            r == self.view().queues[level_of(p)].len(),
    {
        self.count[level_index(p)]
    }
}

/// The `n` entries of a ring buffer `row` that start at slot `h`.
pub open spec fn ring_view(row: Seq<u32>, h: int, n: int) -> Seq<u32> {
    Seq::new(n as nat, |i: int| row[(h + i) % 16])
}

/// `q` with the entries `i..j` replaced by their successors.
pub open spec fn shifted(q: Seq<u32>, i: int, j: int) -> Seq<u32> {
    Seq::new(q.len(), |p: int| if i <= p < j { q[p + 1] } else { q[p] })
}

proof fn lemma_ring_update(row: Seq<u32>, h: int, n: int, j: int, v: u32)
    requires
        row.len() == 16,
        0 <= h < 16,
        0 <= j < n <= 16,
    ensures
        ring_view(row.update((h + j) % 16, v), h, n) == ring_view(row, h, n).update(j, v),
{
    let a = ring_view(row.update((h + j) % 16, v), h, n);
    let b = ring_view(row, h, n).update(j, v);
    assert forall|p: int| 0 <= p < n implies a[p] == b[p] by {
        if p != j {
            assert((h + p) % 16 != (h + j) % 16);
        }
    }
    assert(a =~= b);
}

proof fn lemma_first_index(s: Seq<u32>, x: u32, from: int, i: int)
    requires
        0 <= from <= i < s.len(),
        s[i] == x,
        forall|j: int| from <= j < i ==> s[j] != x,
    ensures
        first_index(s, x, from) == i,
    decreases i - from,
{
    if from < i {
        lemma_first_index(s, x, from + 1, i);
    }
}

/// A process enqueued on an empty level, with every level before it empty,
/// is the next one picked (unless its level is Normal during a beam switch).
pub proof fn law_enqueue_then_pick(v: RunQueueView, pid: Pid, p: Priority)
    requires
        v.queues.len() == 5,
        v.queues[level_of(p)].len() == 0,
        forall|l: int| 0 <= l < level_of(p) ==> #[trigger] v.queues[l].len() == 0,
        !(v.beam_switch_active && p == Priority::Normal),
    ensures
        enqueue_spec(v, pid, p).1,
        pick_spec(enqueue_spec(v, pid, p).0).1 == Some((pid, level_of(p) as usize)),
{
    let v1 = enqueue_spec(v, pid, p).0;
    let lp = level_of(p);
    assert(v1.queues[lp] =~= seq![pid.0]);
    assert forall|l: int| 0 <= l <= lp implies first_eligible(v1, l) == lp by {
        lemma_first_eligible_from(v1, l, lp);
    }
}

proof fn lemma_first_eligible_from(v: RunQueueView, l: int, target: int)
    requires
        0 <= l <= target < 5,
        eligible(v, target),
        forall|k: int| l <= k < target ==> !#[trigger] eligible(v, k),
    ensures
        first_eligible(v, l) == target,
    decreases target - l,
{
    if l < target {
        lemma_first_eligible_from(v, l + 1, target);
    }
}

/// During a beam switch the Normal level is never picked.
pub proof fn law_beam_switch_skips_normal(v: RunQueueView)
    requires
        v.beam_switch_active,
    ensures
        pick_spec(v).1 matches Some((_, l)) ==> l != 2,
{
    lemma_first_eligible_bound(v, 0);
}

proof fn lemma_first_eligible_bound(v: RunQueueView, l: int)
    requires
        0 <= l <= 5,
    ensures
        first_eligible(v, l) >= l,
        first_eligible(v, l) < 5 ==> eligible(v, first_eligible(v, l)),
        first_eligible(v, l) <= 5,
    decreases 5 - l,
{
    if l < 5 && !eligible(v, l) {
        lemma_first_eligible_bound(v, l + 1);
    }
}

/// A realtime process waiting is always picked before any other.
pub proof fn law_realtime_first(v: RunQueueView)
    requires
        v.queues.len() == 5,
        v.queues[0].len() > 0,
    ensures
        pick_spec(v).1 == Some((Pid(v.queues[0][0]), 0usize)),
{
}

/// A waiting realtime process preempts whatever runs below it on the very
/// next tick, however much quantum the running process has left; it then
/// runs with the realtime quantum.
pub proof fn law_realtime_preempts(v: RunQueueView, elapsed_us: u32)
    requires
        v.queues.len() == 5,
        v.queues[0].len() > 0,
        v.running_level > 0,
    ensures
        tick_spec(v, elapsed_us).1 == Some(Pid(v.queues[0][0])),
        tick_spec(v, elapsed_us).0.running_pid == v.queues[0][0],
        tick_spec(v, elapsed_us).0.running_level == 0,
        tick_spec(v, elapsed_us).0.remaining_us == quantum_spec(0),
{
}

} // verus!
