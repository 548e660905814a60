//! Kernel IPC primitives: fixed-size messages and rendezvous endpoints.
//!
//! An endpoint has a single pending slot: either one blocked sender with its
//! message, or one blocked receiver, never both.  A send is rejected while a
//! message is pending; a receive picks the pending message up and empties the
//! endpoint.
use vstd::prelude::*;

verus! {

/// Maximum inline payload, in bytes.
pub const MAX_PAYLOAD: usize = 128;

/// Process identifier.
#[derive(Clone, Copy, PartialEq, Eq, Debug, Structural)]
pub struct Pid(pub u32);

/// A fixed-size message: a tag, a length and an inline payload.
#[derive(Clone, Copy, Debug)]
pub struct KernelMessage {
    pub tag: u32,
    pub len: u32,
    pub payload: [u8; MAX_PAYLOAD],
}

/// The valid bytes of a message: the first `len` payload bytes (all of them
/// when `len` exceeds the payload).
pub open spec fn message_bytes(m: KernelMessage) -> Seq<u8> {
    m.payload@.take(if m.len > MAX_PAYLOAD {
        MAX_PAYLOAD as int
    } else {
        m.len as int
    })
}

/// Two messages are equal when tag, length and valid bytes agree.
pub open spec fn message_eq(a: KernelMessage, b: KernelMessage) -> bool {
    a.tag == b.tag && a.len == b.len && message_bytes(a) == message_bytes(b)
}

impl PartialEq for KernelMessage {
    fn eq(&self, other: &Self) -> (r: bool) {
        if self.tag != other.tag || self.len != other.len {
            return false;
        }
        let n: usize = if self.len as usize > MAX_PAYLOAD {
            MAX_PAYLOAD
        } else {
            self.len as usize
        };
        let mut i: usize = 0;
        while i < n
            invariant
                n <= MAX_PAYLOAD,
                self.len == other.len,
                self.tag == other.tag,
                i <= n,
                n == (if self.len > MAX_PAYLOAD {
                    MAX_PAYLOAD as int
                } else {
                    self.len as int
                }),
                forall|j: int| 0 <= j < i ==> self.payload@[j] == other.payload@[j],
            decreases n - i,
        {
            if self.payload[i] != other.payload[i] {
                assert(message_bytes(*self)[i as int] != message_bytes(*other)[i as int]);
                return false;
            }
            i += 1;
        }
        assert(message_bytes(*self) =~= message_bytes(*other));
        true
    }
}

impl vstd::std_specs::cmp::PartialEqSpecImpl for KernelMessage {
    open spec fn obeys_eq_spec() -> bool {
        true
    }

    open spec fn eq_spec(&self, other: &Self) -> bool {
        message_eq(*self, *other)
    }
}

impl KernelMessage {
    /// A message with the first `min(data.len(), MAX_PAYLOAD)` bytes of `data`;
    /// the rest of the payload is zero.
    pub fn new(tag: u32, data: &[u8]) -> (m: Self)
        ensures
            m.tag == tag,
            m.len == if data@.len() > MAX_PAYLOAD {
                MAX_PAYLOAD as int
            } else {
                data@.len() as int
            },
            message_bytes(m) == data@.take(m.len as int),
            forall|i: int| m.len <= i < MAX_PAYLOAD ==> m.payload@[i] == 0,
    {
        let len = if data.len() > MAX_PAYLOAD {
            MAX_PAYLOAD
        } else {
            data.len()
        };
        let mut payload = [0u8; MAX_PAYLOAD];
        let mut i: usize = 0;
        while i < len
            invariant
                len <= MAX_PAYLOAD,
                len <= data@.len(),
                i <= len,
                forall|j: int| 0 <= j < i ==> payload@[j] == data@[j],
                forall|j: int| len <= j < MAX_PAYLOAD ==> payload@[j] == 0,
            decreases len - i,
        {
            payload[i] = data[i];
            i += 1;
        }
        let m = Self { tag, len: len as u32, payload };
        assert(message_bytes(m) =~= data@.take(len as int));
        m
    }

    /// A message with a tag and no payload.
    pub fn tag_only(tag: u32) -> (m: Self)
        ensures
            m.tag == tag,
            m.len == 0,
            message_bytes(m) == Seq::<u8>::empty(),
            forall|i: int| 0 <= i < MAX_PAYLOAD ==> m.payload@[i] == 0,
    {
        let m = Self { tag, len: 0, payload: [0u8; MAX_PAYLOAD] };
        assert(message_bytes(m) =~= Seq::<u8>::empty());
        m
    }

    /// The valid payload bytes.
    pub fn data(&self) -> (r: &[u8])
        requires
            self.len <= MAX_PAYLOAD,
        ensures
            r@ == message_bytes(*self),
    {
        let n = self.len as usize;
        let s: &[u8] = self.payload.as_slice();
        let r = &s[0..n];
        r
    }
}

/// IPC error codes.
#[derive(Debug, Clone, Copy, PartialEq, Eq, Structural)]
pub enum IpcError {
    NotPermitted,
    InvalidEndpoint,
    EndpointFull,
    NoMessage,
    AlreadyExists,
}

#[derive(Clone, Copy, PartialEq, Eq, Structural)]
enum PendingState {
    Empty,
    WaitingForReceiver,
    WaitingForSender,
}

/// What an endpoint holds: nothing, a blocked sender with its message, or a
/// blocked receiver.
pub enum Rendezvous {
    Empty,
    SenderWaiting { sender: Pid, msg: KernelMessage },
    ReceiverWaiting,
}

/// The model of an endpoint.
pub struct EndpointView {
    pub id: u32,
    pub owner: Pid,
    pub slot: Rendezvous,
}

/// Effect of a send on an endpoint: the new endpoint and the result.
pub open spec fn send_spec(v: EndpointView, sender: Pid, msg: KernelMessage) -> (EndpointView, Result<bool, IpcError>) {
    match v.slot {
        Rendezvous::SenderWaiting { .. } => (v, Err(IpcError::EndpointFull)),
        Rendezvous::ReceiverWaiting => (
            EndpointView { slot: Rendezvous::SenderWaiting { sender, msg }, ..v },
            Ok(true),
        ),
        Rendezvous::Empty => (
            EndpointView { slot: Rendezvous::SenderWaiting { sender, msg }, ..v },
            Ok(false),
        ),
    }
}

/// Effect of a receive on an endpoint: the new endpoint and the result.
pub open spec fn recv_spec(v: EndpointView) -> (EndpointView, Result<(Pid, KernelMessage), IpcError>) {
    match v.slot {
        Rendezvous::SenderWaiting { sender, msg } => (
            EndpointView { slot: Rendezvous::Empty, ..v },
            Ok((sender, msg)),
        ),
        Rendezvous::ReceiverWaiting => (v, Err(IpcError::NoMessage)),
        Rendezvous::Empty => (
            EndpointView { slot: Rendezvous::ReceiverWaiting, ..v },
            Err(IpcError::NoMessage),
        ),
    }
}

/// A rendezvous endpoint.
pub struct IpcEndpoint {
    pub id: u32,
    pub owner: Pid,
    state: PendingState,
    pending_msg: KernelMessage,
    pending_sender: Pid,
}

impl View for IpcEndpoint {
    type V = EndpointView;

    closed spec fn view(&self) -> EndpointView {
        EndpointView {
            id: self.id,
            owner: self.owner,
            slot: match self.state {
                PendingState::Empty => Rendezvous::Empty,
                PendingState::WaitingForReceiver => Rendezvous::SenderWaiting {
                    sender: self.pending_sender,
                    msg: self.pending_msg,
                },
                PendingState::WaitingForSender => Rendezvous::ReceiverWaiting,
            },
        }
    }
}

impl IpcEndpoint {
    pub fn new(id: u32, owner: Pid) -> (e: Self)
        ensures
            e@ == (EndpointView { id, owner, slot: Rendezvous::Empty }),
    {
        Self {
            id,
            owner,
            state: PendingState::Empty,
            pending_msg: KernelMessage::tag_only(0),
            pending_sender: Pid(0),
        }
    }

    /// Send a message.  `Ok(true)`: a receiver was waiting; `Ok(false)`: the
    /// message is stored and the sender blocks; `Err(EndpointFull)`: another
    /// sender is already blocked here.
    pub fn send(&mut self, sender: Pid, msg: KernelMessage) -> (r: Result<bool, IpcError>)
        ensures
            (final(self)@, r) == send_spec(old(self)@, sender, msg),
    {
        match self.state {
            PendingState::WaitingForReceiver => Err(IpcError::EndpointFull),
            PendingState::WaitingForSender => {
                self.pending_msg = msg;
                self.pending_sender = sender;
                self.state = PendingState::WaitingForReceiver;
                Ok(true)
            },
            PendingState::Empty => {
                self.pending_msg = msg;
                self.pending_sender = sender;
                self.state = PendingState::WaitingForReceiver;
                Ok(false)
            },
        }
    }

    /// Receive a message: the pending sender and message, or `NoMessage`
    /// (the receiver is then marked as waiting).
    pub fn recv(&mut self, _receiver: Pid) -> (r: Result<(Pid, KernelMessage), IpcError>)
        ensures
            (final(self)@, r) == recv_spec(old(self)@),
    {
        match self.state {
            PendingState::WaitingForReceiver => {
                let sender = self.pending_sender;
                let msg = self.pending_msg;
                self.state = PendingState::Empty;
                Ok((sender, msg))
            },
            PendingState::WaitingForSender => Err(IpcError::NoMessage),
            PendingState::Empty => {
                self.state = PendingState::WaitingForSender;
                Err(IpcError::NoMessage)
            },
        }
    }

    /// A message is pending for pickup.
    pub fn has_pending(&self) -> (r: bool)
        ensures
            r == self@.slot is SenderWaiting,
    {
        self.state == PendingState::WaitingForReceiver
    }

    /// A receiver is blocked on this endpoint.
    pub fn has_waiting_receiver(&self) -> (r: bool)
        ensures
            r == self@.slot is ReceiverWaiting,
    {
        self.state == PendingState::WaitingForSender
    }

    pub fn is_empty(&self) -> (r: bool)
        ensures
            r == self@.slot is Empty,
    {
        self.state == PendingState::Empty
    }
}

/// A receive right after a successful send hands the receiver exactly the
/// sender and message that were sent, and leaves the endpoint empty.
pub proof fn law_send_then_recv(v: EndpointView, sender: Pid, msg: KernelMessage)
    requires
        !(v.slot is SenderWaiting),
    ensures
        send_spec(v, sender, msg).1 is Ok,
        recv_spec(send_spec(v, sender, msg).0).1 == Ok::<(Pid, KernelMessage), IpcError>((sender, msg)),
        recv_spec(send_spec(v, sender, msg).0).0.slot is Empty,
        recv_spec(send_spec(v, sender, msg).0).0.id == v.id,
        recv_spec(send_spec(v, sender, msg).0).0.owner == v.owner,
{
}

/// While a message is pending, further sends are refused and change nothing.
pub proof fn law_busy_endpoint_refuses(v: EndpointView, sender: Pid, msg: KernelMessage)
    requires
        v.slot is SenderWaiting,
    ensures
        send_spec(v, sender, msg) == (v, Err::<bool, IpcError>(IpcError::EndpointFull)),
{
}

/// A receive on an endpoint with no sender fails, and a second one changes nothing.
pub proof fn law_recv_without_sender(v: EndpointView)
    requires
        !(v.slot is SenderWaiting),
    ensures
        recv_spec(v).1 == Err::<(Pid, KernelMessage), IpcError>(IpcError::NoMessage),
        recv_spec(v).0.slot is ReceiverWaiting,
        recv_spec(recv_spec(v).0) == recv_spec(v),
{
}

} // verus!
