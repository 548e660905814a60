//! Capability-gated rendezvous IPC over a fixed table of endpoints.
//!
//! Every send needs the `IpcSend` capability for the endpoint and every
//! receive the `IpcRecv` one; the endpoint must exist.  Each endpoint holds at
//! most one pending message.
pub mod channel;

use vstd::prelude::*;
use channel::{IpcError, KernelMessage, MAX_PAYLOAD};
use crate::kernel_ipc_tests::message_bytes;
use crate::kernel::process::{Pid, ProcessTable, find_spec, lemma_find_holds, MAX_PROCESSES};
use crate::kernel::process::capability::Capability;

verus! {

// Well-known endpoint ids.
pub const EP_COMPOSITOR: u32 = 0;
pub const EP_VOIP_DAEMON: u32 = 1;
pub const EP_NET_DAEMON: u32 = 2;
pub const EP_ID_DAEMON: u32 = 3;
pub const EP_POWER_DAEMON: u32 = 4;

// Message tags.
pub const TAG_PING: u32 = 1;
pub const TAG_PONG: u32 = 2;
pub const TAG_START_CALL: u32 = 10;
pub const TAG_HANGUP_CALL: u32 = 11;
pub const TAG_MUTE_AUDIO: u32 = 12;
pub const TAG_CALL_STATE: u32 = 13;
pub const TAG_AUDIO_LEVEL: u32 = 14;
pub const TAG_GET_NETWORK_STATUS: u32 = 20;
pub const TAG_NETWORK_STATUS: u32 = 21;
pub const TAG_IP_CHANGED: u32 = 22;
pub const TAG_LOOKUP_CONTACT: u32 = 30;
pub const TAG_CONTACT_INFO: u32 = 31;
pub const TAG_GET_MY_IDENTITY: u32 = 32;
pub const TAG_IDENTITY_INFO: u32 = 33;
pub const TAG_BATTERY_UPDATE: u32 = 40;
pub const TAG_ACQUIRE_WAKE_LOCK: u32 = 41;
pub const TAG_RELEASE_WAKE_LOCK: u32 = 42;
pub const TAG_SHOW_NOTIFICATION: u32 = 50;
pub const TAG_DISMISS_NOTIFICATION: u32 = 51;
pub const TAG_ERROR: u32 = 99;

/// Endpoints in the table.
pub const MAX_ENDPOINTS: usize = 32;

/// Pending state of an endpoint slot.
pub const STATE_EMPTY: u8 = 0;
pub const STATE_SENDER_WAITING: u8 = 1;
pub const STATE_RECEIVER_WAITING: u8 = 2;

/// Whether the process `pid` holds `cap` in the table `t`.
pub open spec fn holds_cap(t: &ProcessTable, pid: Pid, cap: Capability) -> bool {
    let i = find_spec(t.slots_spec(), pid, 0);
    i < MAX_PROCESSES && t.slots_spec()[i].unwrap().capabilities@.contains(cap)
}

/// The endpoint table.
pub struct EndpointTable {
    active: [bool; MAX_ENDPOINTS],
    owner: [u32; MAX_ENDPOINTS],
    state: [u8; MAX_ENDPOINTS],
    sender: [u32; MAX_ENDPOINTS],
    tag: [u32; MAX_ENDPOINTS],
    len: [u32; MAX_ENDPOINTS],
    payload: [[u8; MAX_PAYLOAD]; MAX_ENDPOINTS],
}

/// The model of one endpoint slot.
pub struct EndpointSlot {
    pub active: bool,
    pub owner: u32,
    pub state: u8,
    pub sender: u32,
    pub tag: u32,
    pub len: u32,
    pub payload: Seq<u8>,
}

impl EndpointTable {
    pub closed spec fn slot(&self, i: int) -> EndpointSlot {
        EndpointSlot {
            active: self.active[i],
            owner: self.owner[i],
            state: self.state[i],
            sender: self.sender[i],
            tag: self.tag[i],
            len: self.len[i],
            payload: self.payload[i]@,
        }
    }

    /// Stored lengths never exceed the payload size.
    pub closed spec fn wf(&self) -> bool {
        forall|i: int| 0 <= i < MAX_ENDPOINTS ==> #[trigger] self.len[i] <= MAX_PAYLOAD
    }

    /// Only slot `i` may differ between the two tables.
    pub open spec fn same_except(&self, other: &Self, i: int) -> bool {
        forall|j: int| 0 <= j < MAX_ENDPOINTS && j != i ==> #[trigger] self.slot(j) == other.slot(j)
    }

    /// A table with no endpoint.
    pub fn new() -> (t: Self)
        ensures
            t.wf(),
            forall|i: int| 0 <= i < MAX_ENDPOINTS ==> !(#[trigger] t.slot(i)).active,
    {
        Self {
            active: [false; MAX_ENDPOINTS],
            owner: [0u32; MAX_ENDPOINTS],
            state: [0u8; MAX_ENDPOINTS],
            sender: [0u32; MAX_ENDPOINTS],
            tag: [0u32; MAX_ENDPOINTS],
            len: [0u32; MAX_ENDPOINTS],
            payload: [[0u8; MAX_PAYLOAD]; MAX_ENDPOINTS],
        }
    }

    /// Create the well-known endpoints, owned by the kernel (pid 0).
    pub fn init(&mut self)
        requires
            old(self).wf(),
        ensures
            final(self).wf(),
            forall|i: int| 0 <= i < 5 ==> (#[trigger] final(self).slot(i)).active && final(self).slot(i).owner == 0
                && final(self).slot(i).state == STATE_EMPTY,
    {
        let kernel_pid = Pid(0);
        self.create_endpoint(EP_COMPOSITOR, kernel_pid);
        self.create_endpoint(EP_VOIP_DAEMON, kernel_pid);
        self.create_endpoint(EP_NET_DAEMON, kernel_pid);
        self.create_endpoint(EP_ID_DAEMON, kernel_pid);
        self.create_endpoint(EP_POWER_DAEMON, kernel_pid);
    }

    /// Mark endpoint `id` active, owned by `owner`, with nothing pending
    /// (ignored for an id out of range).
    pub fn create_endpoint(&mut self, id: u32, owner: Pid)
        requires
            old(self).wf(),
        ensures
            final(self).wf(),
            id >= MAX_ENDPOINTS ==> *final(self) == *old(self),
            id < MAX_ENDPOINTS ==> final(self).same_except(old(self), id as int) && final(self).slot(id as int)
                == (EndpointSlot { active: true, owner: owner.0, state: STATE_EMPTY, ..old(self).slot(id as int) }),
    {
        if id as usize >= MAX_ENDPOINTS {
            return;
        }
        let i = id as usize;
        self.active[i] = true;
        self.owner[i] = owner.0;
        self.state[i] = STATE_EMPTY;
    }

    /// Give endpoint `endpoint_id` to a new owner.
    pub fn assign_owner(&mut self, endpoint_id: u32, new_owner: Pid) -> (r: Result<(), IpcError>)
        requires
            old(self).wf(),
        ensures
            final(self).wf(),
            (endpoint_id >= MAX_ENDPOINTS || !old(self).slot(endpoint_id as int).active) ==> r == Err::<(), IpcError>(
                IpcError::InvalidEndpoint,
            ) && *final(self) == *old(self),
            (endpoint_id < MAX_ENDPOINTS && old(self).slot(endpoint_id as int).active) ==> r is Ok
                && final(self).same_except(old(self), endpoint_id as int) && final(self).slot(endpoint_id as int)
                == (EndpointSlot { owner: new_owner.0, ..old(self).slot(endpoint_id as int) }),
    {
        let idx = endpoint_id as usize;
        if idx >= MAX_ENDPOINTS {
            return Err(IpcError::InvalidEndpoint);
        }
        if !self.active[idx] {
            return Err(IpcError::InvalidEndpoint);
        }
        self.owner[idx] = new_owner.0;
        Ok(())
    }

    /// Whether endpoint `id` exists.
    pub fn endpoint_exists(&self, id: u32) -> (r: bool)
        ensures
            r == (id < MAX_ENDPOINTS && self.slot(id as int).active),
    {
        if id as usize >= MAX_ENDPOINTS {
            return false;
        }
        self.active[id as usize]
    }

    /// Send `msg` from `sender` on `endpoint_id`.  `Ok(true)`: a receiver was
    /// waiting; `Ok(false)`: the message is stored and the sender blocks.
    pub fn send(&mut self, procs: &ProcessTable, sender: Pid, endpoint_id: u32, msg: KernelMessage) -> (r: Result<bool, IpcError>)
        requires
            old(self).wf(),
            procs.wf(),
            msg.len <= MAX_PAYLOAD,
        ensures
            final(self).wf(),
            !holds_cap(procs, sender, Capability::IpcSend { endpoint_id }) ==> r == Err::<bool, IpcError>(
                IpcError::NotPermitted,
            ) && *final(self) == *old(self),
            holds_cap(procs, sender, Capability::IpcSend { endpoint_id }) && (endpoint_id >= MAX_ENDPOINTS
                || !old(self).slot(endpoint_id as int).active) ==> r == Err::<bool, IpcError>(
                IpcError::InvalidEndpoint,
            ) && *final(self) == *old(self),
            ({
                let i = endpoint_id as int;
                holds_cap(procs, sender, Capability::IpcSend { endpoint_id }) && endpoint_id < MAX_ENDPOINTS
                    && old(self).slot(i).active ==> {
                    if old(self).slot(i).state == STATE_SENDER_WAITING {
                        r == Err::<bool, IpcError>(IpcError::EndpointFull) && *final(self) == *old(self)
                    } else {
                        &&& r == Ok::<bool, IpcError>(old(self).slot(i).state == STATE_RECEIVER_WAITING)
                        &&& final(self).same_except(old(self), i)
                        &&& final(self).slot(i).active
                        &&& final(self).slot(i).owner == old(self).slot(i).owner
                        &&& final(self).slot(i).state == STATE_SENDER_WAITING
                        &&& final(self).slot(i).sender == sender.0
                        &&& final(self).slot(i).tag == msg.tag
                        &&& final(self).slot(i).len == msg.len
                        &&& final(self).slot(i).payload.take(msg.len as int) == message_bytes(msg)
                    }
                }
            }),
    {
        proof {
            lemma_find_holds(procs.slots_spec(), sender, 0);
        }
        if !procs.check_capability(sender, &Capability::IpcSend { endpoint_id }) {
            return Err(IpcError::NotPermitted);
        }
        let idx = endpoint_id as usize;
        if idx >= MAX_ENDPOINTS {
            return Err(IpcError::InvalidEndpoint);
        }
        if !self.active[idx] {
            return Err(IpcError::InvalidEndpoint);
        }
        if self.state[idx] == STATE_SENDER_WAITING {
            return Err(IpcError::EndpointFull);
        }
        let receiver_waiting = self.state[idx] == STATE_RECEIVER_WAITING;
        self.store(idx, sender, msg);
        Ok(receiver_waiting)
    }

    /// Store a pending message in slot `idx`.
    fn store(&mut self, idx: usize, sender: Pid, msg: KernelMessage)
        requires
            old(self).wf(),
            idx < MAX_ENDPOINTS,
            msg.len <= MAX_PAYLOAD,
        ensures
            final(self).wf(),
            final(self).same_except(old(self), idx as int),
            final(self).slot(idx as int).active == old(self).slot(idx as int).active,
            final(self).slot(idx as int).owner == old(self).slot(idx as int).owner,
            final(self).slot(idx as int).state == STATE_SENDER_WAITING,
            final(self).slot(idx as int).sender == sender.0,
            final(self).slot(idx as int).tag == msg.tag,
            final(self).slot(idx as int).len == msg.len,
            final(self).slot(idx as int).payload.take(msg.len as int) == message_bytes(msg),
    {
        self.tag[idx] = msg.tag;
        self.len[idx] = msg.len;
        let n = msg.len as usize;
        let mut k: usize = 0;
        while k < n
            invariant
                idx < MAX_ENDPOINTS,
                n == msg.len,
                n <= MAX_PAYLOAD,
                k <= n,
                forall|j: int| 0 <= j < k ==> self.payload[idx as int][j] == msg.payload[j],
                forall|e: int| 0 <= e < MAX_ENDPOINTS && e != idx ==> #[trigger] self.payload[e] == old(self).payload[e],
                self.active == old(self).active,
                self.owner == old(self).owner,
                self.state == old(self).state,
                self.sender == old(self).sender,
                self.tag@ == old(self).tag@.update(idx as int, msg.tag),
                self.len@ == old(self).len@.update(idx as int, msg.len),
            decreases n - k,
        {
            self.payload[idx][k] = msg.payload[k];
            k += 1;
        }
        self.sender[idx] = sender.0;
        self.state[idx] = STATE_SENDER_WAITING;
        proof {
            assert(self.payload[idx as int]@.take(n as int) =~= message_bytes(msg));
            assert forall|j: int| 0 <= j < MAX_ENDPOINTS && j != idx implies #[trigger] self.slot(j) == old(self).slot(j) by {
                assert(self.payload[j] == old(self).payload[j]);
            }
            assert forall|j: int| 0 <= j < MAX_ENDPOINTS implies #[trigger] self.len[j] <= MAX_PAYLOAD by {
                if j != idx {
                    assert(self.len[j] == old(self).len[j]);
                }
            }
        }
    }

    /// Receive on `endpoint_id`: the pending sender and message (the payload
    /// past the message length is zero), or `NoMessage` with the receiver
    /// marked waiting.
    pub fn recv(&mut self, procs: &ProcessTable, receiver: Pid, endpoint_id: u32) -> (r: Result<(Pid, KernelMessage), IpcError>)
        requires
            old(self).wf(),
            procs.wf(),
        ensures
            final(self).wf(),
            !holds_cap(procs, receiver, Capability::IpcRecv { endpoint_id }) ==> r == Err::<(Pid, KernelMessage), IpcError>(
                IpcError::NotPermitted,
            ) && *final(self) == *old(self),
            holds_cap(procs, receiver, Capability::IpcRecv { endpoint_id }) && (endpoint_id >= MAX_ENDPOINTS
                || !old(self).slot(endpoint_id as int).active) ==> r == Err::<(Pid, KernelMessage), IpcError>(
                IpcError::InvalidEndpoint,
            ) && *final(self) == *old(self),
            ({
                let i = endpoint_id as int;
                let s = old(self).slot(i);
                holds_cap(procs, receiver, Capability::IpcRecv { endpoint_id }) && endpoint_id < MAX_ENDPOINTS
                    && s.active ==> {
                    &&& final(self).same_except(old(self), i)
                    &&& if s.state == STATE_SENDER_WAITING {
                        &&& final(self).slot(i) == (EndpointSlot { state: STATE_EMPTY, ..s })
                        &&& r matches Ok((pid, m)) && {
                            &&& pid == Pid(s.sender)
                            &&& m.tag == s.tag
                            &&& m.len == s.len
                            &&& message_bytes(m) == s.payload.take(s.len as int)
                            &&& forall|j: int| s.len <= j < MAX_PAYLOAD ==> m.payload@[j] == 0
                        }
                    } else {
                        &&& final(self).slot(i) == (EndpointSlot { state: STATE_RECEIVER_WAITING, ..s })
                        &&& r == Err::<(Pid, KernelMessage), IpcError>(IpcError::NoMessage)
                    }
                }
            }),
    {
        proof {
            lemma_find_holds(procs.slots_spec(), receiver, 0);
        }
        if !procs.check_capability(receiver, &Capability::IpcRecv { endpoint_id }) {
            return Err(IpcError::NotPermitted);
        }
        let idx = endpoint_id as usize;
        if idx >= MAX_ENDPOINTS {
            return Err(IpcError::InvalidEndpoint);
        }
        if !self.active[idx] {
            return Err(IpcError::InvalidEndpoint);
        }
        if self.state[idx] == STATE_SENDER_WAITING {
            let sender_pid = Pid(self.sender[idx]);
            let len = self.len[idx] as usize;
            let mut payload = [0u8; MAX_PAYLOAD];
            let mut k: usize = 0;
            assert(self.len[idx as int] <= MAX_PAYLOAD);
            while k < len
                invariant
                    idx < MAX_ENDPOINTS,
                    len == self.len[idx as int],
                    len <= MAX_PAYLOAD,
                    k <= len,
                    forall|j: int| 0 <= j < k ==> payload@[j] == self.payload[idx as int]@[j],
                    forall|j: int| len <= j < MAX_PAYLOAD ==> payload@[j] == 0,
                decreases len - k,
            {
                payload[k] = self.payload[idx][k];
                k += 1;
            }
            let msg = KernelMessage { tag: self.tag[idx], len: self.len[idx], payload };
            self.state[idx] = STATE_EMPTY;
            proof {
                assert(message_bytes(msg) =~= self.payload[idx as int]@.take(len as int));
                assert forall|j: int| 0 <= j < MAX_ENDPOINTS && j != idx implies #[trigger] self.slot(j) == old(self).slot(j) by {}
            }
            Ok((sender_pid, msg))
        } else {
            self.state[idx] = STATE_RECEIVER_WAITING;
            proof {
                assert forall|j: int| 0 <= j < MAX_ENDPOINTS && j != idx implies #[trigger] self.slot(j) == old(self).slot(j) by {}
            }
            Err(IpcError::NoMessage)
        }
    }
}

} // verus!
