//! Capability tokens: the only authority a process holds.
//!
//! A capability set is modelled by the sequence of capabilities it holds
//! (`self@`); the set never holds the same capability twice.
use vstd::prelude::*;

verus! {

/// A single capability token.
#[derive(Clone, Copy, Debug, PartialEq, Eq, Structural)]
pub enum Capability {
    /// Access to the physical memory region `[base, base + size)`.
    Memory { base: u64, size: u64 },
    /// Write access to the UART.
    Uart,
    /// Receive one hardware interrupt line.
    Irq { line: u32 },
    /// Send on one IPC endpoint.
    IpcSend { endpoint_id: u32 },
    /// Receive on one IPC endpoint.
    IpcRecv { endpoint_id: u32 },
    /// Access to the MMIO range `[base, base + size)`.
    Mmio { base: u64, size: u64 },
}

/// Maximum capabilities one process holds.
pub const MAX_CAPS: usize = 32;

/// `addr` lies in the MMIO range of capability `c`.
pub open spec fn mmio_covers(c: Capability, addr: u64) -> bool {
    match c {
        Capability::Mmio { base, size } => base <= addr && addr < base + size,
        _ => false,
    }
}

/// The MMIO ranges of the set do not wrap around the address space.
pub open spec fn mmio_in_range(caps: Seq<Capability>) -> bool {
    forall|i: int|
        0 <= i < caps.len() ==> match #[trigger] caps[i] {
            Capability::Mmio { base, size } => base + size <= u64::MAX,
            _ => true,
        }
}

/// The capabilities held by one process.
#[derive(Clone, Copy)]
pub struct CapabilitySet {
    caps: [Option<Capability>; MAX_CAPS],
    count: usize,
}

impl View for CapabilitySet {
    type V = Seq<Capability>;

    closed spec fn view(&self) -> Seq<Capability> {
        Seq::new(self.count as nat, |i: int| self.caps[i].unwrap())
    }
}

impl CapabilitySet {
    /// Entries below `count` are held capabilities, each one once; the rest are empty.
    pub closed spec fn wf(&self) -> bool {
        &&& self.count <= MAX_CAPS
        &&& forall|i: int| 0 <= i < self.count ==> (#[trigger] self.caps[i]) is Some
        &&& self@.no_duplicates()
    }

    /// The empty set: no authority whatsoever.
    pub fn empty() -> (s: Self)
        ensures
            s.wf(),
            s@ == Seq::<Capability>::empty(),
    {
        let s = Self { caps: [None; MAX_CAPS], count: 0 };
        assert(s@ =~= Seq::<Capability>::empty());
        s
    }

    /// Grant a capability.  False when the set is full; a capability already
    /// held is not added twice.
    pub fn grant(&mut self, cap: Capability) -> (r: bool)
        requires
            old(self).wf(),
        ensures
            final(self).wf(),
            r == (old(self)@.len() < MAX_CAPS),
            r && old(self)@.contains(cap) ==> final(self)@ == old(self)@,
            r && !old(self)@.contains(cap) ==> final(self)@ == old(self)@.push(cap),
            !r ==> final(self)@ == old(self)@,
            r ==> final(self)@.contains(cap),
    {
        if self.count >= MAX_CAPS {
            return false;
        }
        let mut i: usize = 0;
        while i < self.count
            invariant
                self.wf(),
                self == old(self),
                self.count < MAX_CAPS,
                i <= self.count,
                forall|j: int| 0 <= j < i ==> self@[j] != cap,
            decreases self.count - i,
        {
            if self.caps[i] == Some(cap) {
                assert(self@[i as int] == cap);
                return true;
            }
            i += 1;
        }
        let ghost before = self@;
        self.caps[self.count] = Some(cap);
        self.count += 1;
        proof {
            assert(self@ =~= before.push(cap));
            assert(!before.contains(cap)) by {
                if before.contains(cap) {
                    let j = choose|j: int| 0 <= j < before.len() && before[j] == cap;
                    assert(before[j] != cap);
                }
            }
            assert(self@[before.len() as int] == cap);
        }
        true
    }

    /// Revoke a capability; true if it was held.  The last entry moves into
    /// the freed place.
    pub fn revoke(&mut self, cap: &Capability) -> (r: bool)
        requires
            old(self).wf(),
        ensures
            final(self).wf(),
            r == old(self)@.contains(*cap),
            !final(self)@.contains(*cap),
            r ==> final(self)@.len() == old(self)@.len() - 1 && exists|i: int|
                0 <= i < old(self)@.len() && old(self)@[i] == *cap && final(self)@ == old(
                    self,
                )@.update(i, old(self)@.last()).drop_last(),
            !r ==> final(self)@ == old(self)@,
    {
        let ghost before = self@;
        let mut i: usize = 0;
        while i < self.count
            invariant
                self.wf(),
                self@ == before,
                before == old(self)@,
                i <= self.count,
                forall|j: int| 0 <= j < i ==> before[j] != *cap,
            decreases self.count - i,
        {
            if self.caps[i] == Some(*cap) {
                assert(before[i as int] == *cap);
                self.count -= 1;
                let last = self.caps[self.count];
                self.caps[i] = last;
                self.caps[self.count] = None;
                proof {
                    let n = before.len() - 1;
                    let after = before.update(i as int, before.last()).drop_last();
                    assert(self@ =~= after);
                    assert forall|a: int, b: int|
                        0 <= a < after.len() && 0 <= b < after.len() && a != b implies after[a]
                        != after[b] by {
                        let ia = if a == i { n } else { a };
                        let ib = if b == i { n } else { b };
                        assert(after[a] == before[ia]);
                        assert(after[b] == before[ib]);
                    }
                    assert(!after.contains(*cap)) by {
                        if after.contains(*cap) {
                            let j = choose|j: int| 0 <= j < after.len() && after[j] == *cap;
                            let ij = if j == i { n } else { j };
                            assert(before[ij] == *cap);
                            assert(ij != i as int);
                        }
                    }
                }
                return true;
            }
            i += 1;
        }
        proof {
            assert(!before.contains(*cap)) by {
                if before.contains(*cap) {
                    let j = choose|j: int| 0 <= j < before.len() && before[j] == *cap;
                    assert(before[j] != *cap);
                }
            }
        }
        false
    }

    /// Whether the set holds a capability.
    pub fn has(&self, cap: &Capability) -> (r: bool)
        requires
            self.wf(),
        ensures
            r == self@.contains(*cap),
    {
        let mut i: usize = 0;
        while i < self.count
            invariant
                self.wf(),
                i <= self.count,
                forall|j: int| 0 <= j < i ==> self@[j] != *cap,
            decreases self.count - i,
        {
            if self.caps[i] == Some(*cap) {
                assert(self@[i as int] == *cap);
                return true;
            }
            i += 1;
        }
        proof {
            if self@.contains(*cap) {
                let j = choose|j: int| 0 <= j < self@.len() && self@[j] == *cap;
                assert(self@[j] != *cap);
            }
        }
        false
    }

    /// Whether the set holds send rights on an endpoint.
    pub fn can_send(&self, endpoint_id: u32) -> (r: bool)
        requires
            self.wf(),
        ensures
            r == self@.contains(Capability::IpcSend { endpoint_id }),
    {
        self.has(&Capability::IpcSend { endpoint_id })
    }

    /// Whether the set holds receive rights on an endpoint.
    pub fn can_recv(&self, endpoint_id: u32) -> (r: bool)
        requires
            self.wf(),
        ensures
            r == self@.contains(Capability::IpcRecv { endpoint_id }),
    {
        self.has(&Capability::IpcRecv { endpoint_id })
    }

    /// Whether some MMIO capability of the set covers `addr`.
    pub fn can_mmio(&self, addr: u64) -> (r: bool)
        requires
            self.wf(),
            mmio_in_range(self@),
        ensures
            r == exists|i: int| 0 <= i < self@.len() && mmio_covers(#[trigger] self@[i], addr),
    {
        let mut i: usize = 0;
        while i < self.count
            invariant
                self.wf(),
                mmio_in_range(self@),
                i <= self.count,
                forall|j: int| 0 <= j < i ==> !mmio_covers(#[trigger] self@[j], addr),
            decreases self.count - i,
        {
            if let Some(Capability::Mmio { base, size }) = self.caps[i] {
                assert(self@[i as int] == Capability::Mmio { base, size });
                if addr >= base && addr < base + size {
                    return true;
                }
            }
            i += 1;
        }
        false
    }

    /// Number of capabilities held.
    pub fn count(&self) -> (r: usize)
        ensures
            r == self@.len(),
    {
        self.count
    }
}

} // verus!
