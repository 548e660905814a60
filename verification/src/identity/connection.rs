//! Connection requests: the only way two devices come to reach each other.
//! The requester signs a request; the target device queues it; accepting
//! adds the requester to the contact book and answers with a signed
//! acceptance, declining drops it without a word.
use vstd::prelude::*;
use vstd::bytes::{spec_u64_to_le_bytes, u64_to_le_bytes};
use vstd::utf8::encode_utf8;
use crate::camera::append;
use crate::clock::now_secs;
use crate::identity::contact::{
    contains_key, distinct_keys, is_permutation, key_index, lemma_key_index, lemma_upsert_distinct, upsert, Contact,
    ContactBook, ContactView, EntryView,
};
use crate::identity::keypair::{ed25519_public_spec, ed25519_sign_spec, ed25519_verify_spec, IdentityKey, KeyPair};
use crate::push_notification::hex_spec;
use crate::sorting::{order_desc, sorted_desc_order};
use crate::text::{chars_eq, chars_of, string_of, trim, trim_spec};

verus! {

/// A request expires a day after it was made.
pub const REQUEST_TTL_SECS: u64 = 86400;

/// One request per requester per hour.
pub const REQUEST_RATE_SECS: u64 = 3600;

/// The most requests kept waiting.
pub const MAX_PENDING: usize = 50;

/// The longest introduction message, in bytes.
pub const MAX_MESSAGE_LEN: usize = 140;

/// Why a request or response was refused.
#[derive(Debug, Clone, Copy, PartialEq, Eq, Structural)]
pub enum ConnectionError {
    MessageTooLong,
    InvalidDisplayName,
    InvalidSignature,
    Expired,
    RateLimited,
    RequestNotFound,
    QueueFull,
}

impl ConnectionError {
    /// The error in words.
    pub fn message(&self) -> (s: &'static str)
        ensures
            s@ == match *self {
                ConnectionError::MessageTooLong => "message too long (max 140 chars)"@,
                ConnectionError::InvalidDisplayName => "display name cannot be empty"@,
                ConnectionError::InvalidSignature => "invalid signature"@,
                ConnectionError::Expired => "request expired"@,
                ConnectionError::RateLimited => "rate limited -- one request per hour"@,
                ConnectionError::RequestNotFound => "request not found"@,
                ConnectionError::QueueFull => "request queue full"@,
            },
    {
        match self {
            ConnectionError::MessageTooLong => "message too long (max 140 chars)",
            ConnectionError::InvalidDisplayName => "display name cannot be empty",
            ConnectionError::InvalidSignature => "invalid signature",
            ConnectionError::Expired => "request expired",
            ConnectionError::RateLimited => "rate limited -- one request per hour",
            ConnectionError::RequestNotFound => "request not found",
            ConnectionError::QueueFull => "request queue full",
        }
    }
}

/// A signed request from one user to connect with another.
#[derive(Debug, Clone, PartialEq)]
pub struct ConnectionRequest {
    pub requester_key: IdentityKey,
    pub target_key: IdentityKey,
    pub display_name: String,
    /// Optional introduction, at most 140 bytes.
    pub message: String,
    pub timestamp: u64,
    pub expires_at: u64,
    /// Ed25519 signature over the request payload.
    pub signature: Vec<u8>,
}

/// The bytes a request's signature covers.
pub open spec fn request_payload(requester: Seq<u8>, target: Seq<u8>, message: Seq<char>, timestamp: u64) -> Seq<u8> {
    requester + target + encode_utf8(message) + spec_u64_to_le_bytes(timestamp) + encode_utf8("theos-conn-v1"@)
}

/// The bytes an acceptance's signature covers.
pub open spec fn accept_payload(responder: Seq<u8>, requester: Seq<u8>, timestamp: u64) -> Seq<u8> {
    responder + requester + spec_u64_to_le_bytes(timestamp) + encode_utf8("theos-conn-accept-v1"@)
}

/// The request carries a valid signature of its requester.
pub open spec fn request_signed(r: ConnectionRequest) -> bool {
    r.signature@.len() == 64 && ed25519_verify_spec(
        r.requester_key.0@,
        request_payload(r.requester_key.0@, r.target_key.0@, r.message@, r.timestamp),
        r.signature@,
    )
}

/// What checking a request at `now` gives.
pub open spec fn verify_spec(r: ConnectionRequest, now: u64) -> Result<(), ConnectionError> {
    if now > r.expires_at {
        Err(ConnectionError::Expired)
    } else if request_signed(r) {
        Ok(())
    } else {
        Err(ConnectionError::InvalidSignature)
    }
}

/// `r` is the request `kp` makes to `target` at `now`.
pub open spec fn made_request(
    r: ConnectionRequest,
    kp: KeyPair,
    target: IdentityKey,
    name: Seq<char>,
    message: Seq<char>,
    now: u64,
) -> bool {
    &&& r.requester_key.0@ == kp.public_spec()
    &&& r.target_key == target
    &&& r.display_name@ == trim_spec(name)
    &&& r.message@ == trim_spec(message)
    &&& r.timestamp == now
    &&& r.expires_at == now + REQUEST_TTL_SECS
    &&& r.signature@ == ed25519_sign_spec(
        kp.secret_spec(),
        request_payload(kp.public_spec(), target.0@, trim_spec(message), now),
    )
    &&& r.signature@.len() == 64
}

fn trimmed(s: &str) -> (r: String)
    ensures
        r@ == trim_spec(s@),
{
    let t = trim(chars_of(s).as_slice());
    string_of(t.as_slice())
}

fn request_signing_payload(requester: &IdentityKey, target: &IdentityKey, message: &str, timestamp: u64) -> (p: Vec<u8>)
    ensures
        p@ == request_payload(requester.0@, target.0@, message@, timestamp),
{
    let mut p: Vec<u8> = Vec::new();
    append(&mut p, &requester.0);
    append(&mut p, &target.0);
    append(&mut p, message.as_bytes());
    let t = u64_to_le_bytes(timestamp);
    append(&mut p, t.as_slice());
    append(&mut p, "theos-conn-v1".as_bytes());
    p
}

fn accept_signing_payload(responder: &IdentityKey, requester: &IdentityKey, timestamp: u64) -> (p: Vec<u8>)
    ensures
        p@ == accept_payload(responder.0@, requester.0@, timestamp),
{
    let mut p: Vec<u8> = Vec::new();
    append(&mut p, &responder.0);
    append(&mut p, &requester.0);
    let t = u64_to_le_bytes(timestamp);
    append(&mut p, t.as_slice());
    append(&mut p, "theos-conn-accept-v1".as_bytes());
    p
}

/// Request `r` has expired at `now`.
pub open spec fn request_expired(r: ConnectionRequest, now: u64) -> bool {
    now > r.expires_at
}

impl ConnectionRequest {
    /// A request signed by `keypair` at `now`: refused when the message is
    /// over 140 bytes or the display name is blank.  Name and message are
    /// trimmed; the signature covers the trimmed message.
    pub fn new_at(keypair: &KeyPair, target_key: &IdentityKey, display_name: &str, message: &str, now: u64) -> (r:
        Result<Self, ConnectionError>)
        requires
            now <= u64::MAX - REQUEST_TTL_SECS,
        ensures
            encode_utf8(message@).len() > MAX_MESSAGE_LEN ==> r == Err::<Self, ConnectionError>(
                ConnectionError::MessageTooLong,
            ),
            encode_utf8(message@).len() <= MAX_MESSAGE_LEN && trim_spec(display_name@).len() == 0 ==> r == Err::<
                Self,
                ConnectionError,
            >(ConnectionError::InvalidDisplayName),
            encode_utf8(message@).len() <= MAX_MESSAGE_LEN && trim_spec(display_name@).len() > 0 ==> r is Ok
                && made_request(r->Ok_0, *keypair, *target_key, display_name@, message@, now),
    {
        if message.as_bytes().len() > MAX_MESSAGE_LEN {
            return Err(ConnectionError::MessageTooLong);
        }
        let name = trimmed(display_name);
        if name.as_str().is_empty() {
            return Err(ConnectionError::InvalidDisplayName);
        }
        let msg = trimmed(message);
        let requester = keypair.public_key();
        let target = IdentityKey(target_key.0);
        let payload = request_signing_payload(&requester, &target, msg.as_str(), now);
        let signature = keypair.sign(payload.as_slice());
        Ok(ConnectionRequest {
            requester_key: requester,
            target_key: target,
            display_name: name,
            message: msg,
            timestamp: now,
            expires_at: now + REQUEST_TTL_SECS,
            signature,
        })
    }

    /// A request signed now.  A clock so late that the expiry time would
    /// not fit in 64 bits gives `Expired`.
    pub fn new(keypair: &KeyPair, target_key: &IdentityKey, display_name: &str, message: &str) -> (r: Result<
        Self,
        ConnectionError,
    >)
        ensures
            encode_utf8(message@).len() > MAX_MESSAGE_LEN ==> r == Err::<Self, ConnectionError>(
                ConnectionError::MessageTooLong,
            ),
            encode_utf8(message@).len() <= MAX_MESSAGE_LEN && trim_spec(display_name@).len() == 0 ==> r == Err::<
                Self,
                ConnectionError,
            >(ConnectionError::InvalidDisplayName),
            encode_utf8(message@).len() <= MAX_MESSAGE_LEN && trim_spec(display_name@).len() > 0 ==> (r is Ok
                && made_request(r->Ok_0, *keypair, *target_key, display_name@, message@, r->Ok_0.timestamp)) || r
                == Err::<Self, ConnectionError>(ConnectionError::Expired),
    {
        let now = now_secs();
        if now > u64::MAX - REQUEST_TTL_SECS {
            if message.as_bytes().len() > MAX_MESSAGE_LEN {
                return Err(ConnectionError::MessageTooLong);
            }
            let name = trimmed(display_name);
            if name.as_str().is_empty() {
                return Err(ConnectionError::InvalidDisplayName);
            }
            return Err(ConnectionError::Expired);
        }
        Self::new_at(keypair, target_key, display_name, message, now)
    }

    /// Check the request at `now`: not expired, and signed by the holder of
    /// its requester key.  Whether that key is legitimate is for the caller
    /// to decide.  A request made with the key pair of its requester key
    /// passes until it expires.
    pub fn verify_at(&self, now: u64) -> (r: Result<(), ConnectionError>)
        ensures
            r == verify_spec(*self, now),
            forall|seed: Seq<u8>|
                !(now > self.expires_at) && seed.len() == 32 && self.signature@.len() == 64
                    && self.requester_key.0@ == ed25519_public_spec(seed) && self.signature@ == ed25519_sign_spec(
                    seed,
                    request_payload(self.requester_key.0@, self.target_key.0@, self.message@, self.timestamp),
                ) ==> r is Ok,
    {
        if self.is_expired_at(now) {
            return Err(ConnectionError::Expired);
        }
        let payload = request_signing_payload(
            &self.requester_key,
            &self.target_key,
            self.message.as_str(),
            self.timestamp,
        );
        if !KeyPair::verify(&self.requester_key, payload.as_slice(), self.signature.as_slice()) {
            return Err(ConnectionError::InvalidSignature);
        }
        Ok(())
    }

    /// Check the request now.
    pub fn verify(&self) -> (r: Result<(), ConnectionError>)
        ensures
            r == Err::<(), ConnectionError>(ConnectionError::Expired) || r == (if request_signed(*self) {
                Ok::<(), ConnectionError>(())
            } else {
                Err(ConnectionError::InvalidSignature)
            }),
    {
        self.verify_at(now_secs())
    }

    /// Whether the request has expired at `now`.
    pub fn is_expired_at(&self, now: u64) -> (b: bool)
        ensures
            b == (now > self.expires_at),
    {
        now > self.expires_at
    }

    /// Whether the request has expired.
    pub fn is_expired(&self) -> (b: bool)
        ensures
            exists|now: u64| #[trigger] request_expired(*self, now) == b,
    {
        let now = now_secs();
        let b = self.is_expired_at(now);
        assert(request_expired(*self, now) == b);
        b
    }
}

/// The answer to a request.  A declined request is dropped silently.
#[derive(Debug, Clone, PartialEq)]
pub enum ConnectionResponse {
    Accepted {
        responder_key: IdentityKey,
        requester_key: IdentityKey,
        display_name: String,
        timestamp: u64,
        signature: Vec<u8>,
    },
    Declined,
}

/// `resp` is the acceptance `kp` signs for `requester` at `now`.
pub open spec fn made_accept(resp: ConnectionResponse, kp: KeyPair, requester: IdentityKey, name: Seq<char>, now: u64) -> bool {
    &&& resp is Accepted
    &&& resp->responder_key.0@ == kp.public_spec()
    &&& resp->requester_key == requester
    &&& resp->display_name@ == trim_spec(name)
    &&& resp->timestamp == now
    &&& resp->signature@ == ed25519_sign_spec(kp.secret_spec(), accept_payload(kp.public_spec(), requester.0@, now))
    &&& resp->signature@.len() == 64
}

/// The acceptance carries a valid signature of its responder; a decline
/// has nothing to check.
pub open spec fn response_ok(resp: ConnectionResponse) -> bool {
    match resp {
        ConnectionResponse::Declined => true,
        ConnectionResponse::Accepted { responder_key, requester_key, timestamp, signature, .. } => signature@.len()
            == 64 && ed25519_verify_spec(
            responder_key.0@,
            accept_payload(responder_key.0@, requester_key.0@, timestamp),
            signature@,
        ),
    }
}

impl ConnectionResponse {
    /// The acceptance of `request`, signed by `keypair` at `now`; refused
    /// when the display name is blank.
    pub fn accept_at(keypair: &KeyPair, request: &ConnectionRequest, display_name: &str, now: u64) -> (r: Result<
        Self,
        ConnectionError,
    >)
        ensures
            trim_spec(display_name@).len() == 0 ==> r == Err::<Self, ConnectionError>(
                ConnectionError::InvalidDisplayName,
            ),
            trim_spec(display_name@).len() > 0 ==> r is Ok && made_accept(
                r->Ok_0,
                *keypair,
                request.requester_key,
                display_name@,
                now,
            ),
    {
        let name = trimmed(display_name);
        if name.as_str().is_empty() {
            return Err(ConnectionError::InvalidDisplayName);
        }
        let responder = keypair.public_key();
        let requester = IdentityKey(request.requester_key.0);
        let payload = accept_signing_payload(&responder, &requester, now);
        let signature = keypair.sign(payload.as_slice());
        Ok(ConnectionResponse::Accepted {
            responder_key: responder,
            requester_key: requester,
            display_name: name,
            timestamp: now,
            signature,
        })
    }

    /// The acceptance of `request`, signed now.
    pub fn accept(keypair: &KeyPair, request: &ConnectionRequest, display_name: &str) -> (r: Result<
        Self,
        ConnectionError,
    >)
        ensures
            trim_spec(display_name@).len() == 0 ==> r == Err::<Self, ConnectionError>(
                ConnectionError::InvalidDisplayName,
            ),
            trim_spec(display_name@).len() > 0 ==> r is Ok && made_accept(
                r->Ok_0,
                *keypair,
                request.requester_key,
                display_name@,
                r->Ok_0->timestamp,
            ),
    {
        Self::accept_at(keypair, request, display_name, now_secs())
    }

    /// Check an acceptance's signature; a decline always passes.  An
    /// acceptance made with the key pair of its responder key passes.
    pub fn verify(&self) -> (r: Result<(), ConnectionError>)
        ensures
            r == (if response_ok(*self) {
                Ok::<(), ConnectionError>(())
            } else {
                Err(ConnectionError::InvalidSignature)
            }),
            forall|seed: Seq<u8>|
                #![trigger ed25519_public_spec(seed)]
                self is Accepted && seed.len() == 32 && self->signature@.len() == 64 && self->responder_key.0@
                    == ed25519_public_spec(seed) && self->signature@ == ed25519_sign_spec(
                    seed,
                    accept_payload(self->responder_key.0@, self->requester_key.0@, self->timestamp),
                ) ==> r is Ok,
    {
        match self {
            ConnectionResponse::Declined => Ok(()),
            ConnectionResponse::Accepted { responder_key, requester_key, timestamp, signature, .. } => {
                let payload = accept_signing_payload(responder_key, requester_key, *timestamp);
                if !KeyPair::verify(responder_key, payload.as_slice(), signature.as_slice()) {
                    return Err(ConnectionError::InvalidSignature);
                }
                Ok(())
            },
        }
    }
}

/// The position of the first request with the smallest timestamp.
pub open spec fn oldest_index(v: Seq<(Seq<char>, ConnectionRequest)>) -> int
    decreases v.len(),
{
    if v.len() <= 1 {
        0
    } else {
        let i = oldest_index(v.drop_last());
        if v.last().1.timestamp < v[i].1.timestamp {
            v.len() - 1
        } else {
            i
        }
    }
}

pub proof fn lemma_oldest_index(v: Seq<(Seq<char>, ConnectionRequest)>)
    requires
        v.len() > 0,
    ensures
        0 <= oldest_index(v) < v.len(),
        forall|k: int| 0 <= k < v.len() ==> v[oldest_index(v)].1.timestamp <= #[trigger] v[k].1.timestamp,
    decreases v.len(),
{
    if v.len() > 1 {
        lemma_oldest_index(v.drop_last());
        let i = oldest_index(v.drop_last());
        assert(v.drop_last()[i] == v[i]);
        assert forall|k: int| 0 <= k < v.len() implies v[oldest_index(v)].1.timestamp <= #[trigger] v[k].1.timestamp by {
            if k < v.len() - 1 {
                assert(v.drop_last()[k] == v[k]);
            }
        }
    }
}

/// The queue with room for one more: the oldest request dropped when full.
pub open spec fn make_room(v: Seq<(Seq<char>, ConnectionRequest)>) -> Seq<(Seq<char>, ConnectionRequest)> {
    if v.len() >= MAX_PENDING {
        v.remove(oldest_index(v))
    } else {
        v
    }
}

/// The requester already asked within the last hour.
pub open spec fn rate_limited(lasts: Seq<(Seq<char>, u64)>, k: Seq<char>, now: u64) -> bool {
    let i = key_index(lasts, k);
    i >= 0 && now - lasts[i].1 < REQUEST_RATE_SECS
}

/// The last request recorded for `k`, if any, is not later than `now`.
pub open spec fn clock_ok(lasts: Seq<(Seq<char>, u64)>, k: Seq<char>, now: u64) -> bool {
    let i = key_index(lasts, k);
    i >= 0 ==> lasts[i].1 <= now
}

/// The contact book after an in-memory add: unchanged when the key is
/// already in it.
pub open spec fn add_in_memory_spec(v: Seq<EntryView>, c: ContactView) -> Seq<EntryView> {
    if contains_key(v, hex_spec(c.key)) {
        v
    } else {
        v.push((hex_spec(c.key), c))
    }
}

/// Requests still fresh at `now`.
pub open spec fn fresh_at(now: u64) -> spec_fn((Seq<char>, ConnectionRequest)) -> bool {
    |e: (Seq<char>, ConnectionRequest)| !(now > e.1.expires_at)
}

pub proof fn lemma_remove_distinct<K, T>(v: Seq<(K, T)>, i: int)
    requires
        distinct_keys(v),
        0 <= i < v.len(),
    ensures
        distinct_keys(v.remove(i)),
        forall|j: int| 0 <= j < v.remove(i).len() ==> #[trigger] v.remove(i)[j].0 != v[i].0,
{
    let w = v.remove(i);
    assert forall|a: int, b: int| 0 <= a < b < w.len() implies w[a].0 != w[b].0 by {
        let ia = if a < i { a } else { a + 1 };
        let ib = if b < i { b } else { b + 1 };
        assert(w[a] == v[ia] && w[b] == v[ib]);
    }
    assert forall|j: int| 0 <= j < w.len() implies #[trigger] w[j].0 != v[i].0 by {
        let ij = if j < i { j } else { j + 1 };
        assert(w[j] == v[ij]);
    }
}

/// Declining a request just queued from a new requester, while the queue
/// had room, leaves the queue as it was before.
pub proof fn law_decline_undoes_receive(reqs: Seq<(Seq<char>, ConnectionRequest)>, k: Seq<char>, r: ConnectionRequest)
    requires
        distinct_keys(reqs),
        !contains_key(reqs, k),
        reqs.len() < MAX_PENDING,
    ensures
        ({
            let after = upsert(make_room(reqs), k, r);
            &&& key_index(after, k) == reqs.len()
            &&& after.remove(key_index(after, k)) == reqs
        }),
{
    lemma_key_index(reqs, k);
    let after = reqs.push((k, r));
    assert(after.drop_last() =~= reqs);
    assert(after.remove(reqs.len() as int) =~= reqs);
}

impl ContactBook {
    /// Add a contact without storing the book; a key already in it is left
    /// as it is.
    pub fn add_in_memory(&mut self, contact: Contact)
        requires
            old(self).wf(),
        ensures
            final(self).wf(),
            final(self)@ == add_in_memory_spec(old(self)@, contact@),
    {
        if !self.is_trusted(&contact.key) {
            let r = self.add(contact);
        }
    }
}

/// Requests waiting for the user to accept or decline.
pub struct PendingRequests {
    /// Requests filed under the hex text of their requester key.
    pub requests: Vec<(String, ConnectionRequest)>,
    /// When each requester last got a request queued.
    pub last_request: Vec<(String, u64)>,
}

/// What queueing `request` at `now` does to `s`, giving `s2` and `r`: a
/// request that does not verify is refused with its error, one from a
/// requester queued within the hour is rate limited, both leaving the queue
/// as it was; otherwise the request is queued (the oldest making room when
/// full, an earlier one from the requester replaced) and the time recorded.
pub open spec fn received_at(
    s: PendingRequests,
    s2: PendingRequests,
    request: ConnectionRequest,
    now: u64,
    r: Result<(), ConnectionError>,
) -> bool {
    let k = hex_spec(request.requester_key.0@);
    &&& verify_spec(request, now) is Err ==> r == verify_spec(request, now) && s2.reqs() == s.reqs() && s2.lasts()
        == s.lasts()
    &&& verify_spec(request, now) is Ok && rate_limited(s.lasts(), k, now) ==> r == Err::<(), ConnectionError>(
        ConnectionError::RateLimited,
    ) && s2.reqs() == s.reqs() && s2.lasts() == s.lasts()
    &&& verify_spec(request, now) is Ok && !rate_limited(s.lasts(), k, now) ==> r is Ok && s2.lasts() == upsert(
        s.lasts(),
        k,
        now,
    ) && s2.reqs() == upsert(make_room(s.reqs()), k, request)
}

impl PendingRequests {
    pub open spec fn reqs(&self) -> Seq<(Seq<char>, ConnectionRequest)> {
        Seq::new(self.requests@.len(), |i: int| (self.requests@[i].0@, self.requests@[i].1))
    }

    pub open spec fn lasts(&self) -> Seq<(Seq<char>, u64)> {
        Seq::new(self.last_request@.len(), |i: int| (self.last_request@[i].0@, self.last_request@[i].1))
    }

    /// No requester filed twice.
    pub open spec fn wf(&self) -> bool {
        distinct_keys(self.reqs()) && distinct_keys(self.lasts())
    }

    /// An empty queue.
    pub fn new() -> (p: Self)
        ensures
            p.wf(),
            p.reqs() == Seq::<(Seq<char>, ConnectionRequest)>::empty(),
            p.lasts() == Seq::<(Seq<char>, u64)>::empty(),
    {
        let p = PendingRequests { requests: Vec::new(), last_request: Vec::new() };
        assert(p.reqs() =~= Seq::<(Seq<char>, ConnectionRequest)>::empty());
        assert(p.lasts() =~= Seq::<(Seq<char>, u64)>::empty());
        p
    }

    fn request_position(&self, k: &[char]) -> (r: Option<usize>)
        ensures
            match r {
                Some(i) => i == key_index(self.reqs(), k@),
                None => key_index(self.reqs(), k@) == -1,
            },
    {
        let mut i = self.requests.len();
        assert(self.reqs().take(i as int) =~= self.reqs());
        while i > 0
            invariant
                i <= self.reqs().len(),
                key_index(self.reqs(), k@) == key_index(self.reqs().take(i as int), k@),
            decreases i,
        {
            let name = chars_of(self.requests[i - 1].0.as_str());
            proof {
                assert(self.reqs().take(i as int).drop_last() =~= self.reqs().take(i - 1));
            }
            if chars_eq(name.as_slice(), k) {
                return Some(i - 1);
            }
            i -= 1;
        }
        None
    }

    fn last_position(&self, k: &[char]) -> (r: Option<usize>)
        ensures
            match r {
                Some(i) => i == key_index(self.lasts(), k@),
                None => key_index(self.lasts(), k@) == -1,
            },
    {
        let mut i = self.last_request.len();
        assert(self.lasts().take(i as int) =~= self.lasts());
        while i > 0
            invariant
                i <= self.lasts().len(),
                key_index(self.lasts(), k@) == key_index(self.lasts().take(i as int), k@),
            decreases i,
        {
            let name = chars_of(self.last_request[i - 1].0.as_str());
            proof {
                assert(self.lasts().take(i as int).drop_last() =~= self.lasts().take(i - 1));
            }
            if chars_eq(name.as_slice(), k) {
                return Some(i - 1);
            }
            i -= 1;
        }
        None
    }

    fn oldest(&self) -> (r: usize)
        requires
            self.requests@.len() > 0,
        ensures
            r == oldest_index(self.reqs()),
    {
        let ghost v = self.reqs();
        let mut best: usize = 0;
        let mut j: usize = 1;
        proof {
            assert(v.take(1).len() == 1);
        }
        while j < self.requests.len()
            invariant
                v == self.reqs(),
                1 <= j <= v.len(),
                best == oldest_index(v.take(j as int)),
                best < j,
            decreases v.len() - j,
        {
            proof {
                let t = v.take(j + 1);
                assert(t.drop_last() =~= v.take(j as int));
                assert(t[best as int] == v[best as int]);
                assert(t.last() == v[j as int]);
            }
            if self.requests[j].1.timestamp < self.requests[best].1.timestamp {
                best = j;
            }
            j += 1;
        }
        proof {
            assert(v.take(j as int) =~= v);
        }
        best
    }

    /// Queue a request at `now`: it must verify, and its requester must not
    /// have had one queued within the hour.  When the queue is full the
    /// oldest request makes room; a request from the same requester
    /// replaces the earlier one.
    pub fn receive_at(&mut self, request: ConnectionRequest, now: u64) -> (r: Result<(), ConnectionError>)
        requires
            old(self).wf(),
            clock_ok(old(self).lasts(), hex_spec(request.requester_key.0@), now),
        ensures
            final(self).wf(),
            received_at(*old(self), *final(self), request, now, r),
    {
        let checked = request.verify_at(now);
        if checked.is_err() {
            return checked;
        }
        let key_hex = request.requester_key.to_hex();
        let k = chars_of(key_hex.as_str());
        proof {
            lemma_key_index(self.lasts(), k@);
        }
        match self.last_position(k.as_slice()) {
            Some(i) => {
                if now - self.last_request[i].1 < REQUEST_RATE_SECS {
                    return Err(ConnectionError::RateLimited);
                }
            },
            None => {},
        }
        let ghost r0 = self.reqs();
        if self.requests.len() >= MAX_PENDING {
            let o = self.oldest();
            proof {
                lemma_oldest_index(r0);
                lemma_remove_distinct(r0, o as int);
            }
            let _ = self.requests.remove(o);
            proof {
                assert(self.reqs() =~= r0.remove(o as int));
            }
        }
        assert(self.reqs() == make_room(r0));
        let ghost l0 = self.lasts();
        proof {
            lemma_key_index(l0, k@);
            lemma_upsert_distinct(l0, k@, now);
        }
        match self.last_position(k.as_slice()) {
            Some(i) => {
                self.last_request.set(i, (key_hex.clone(), now));
                proof {
                    assert(self.lasts() =~= l0.update(i as int, (k@, now)));
                }
            },
            None => {
                self.last_request.push((key_hex.clone(), now));
                proof {
                    assert(self.lasts() =~= l0.push((k@, now)));
                }
            },
        }
        let ghost q0 = self.reqs();
        proof {
            lemma_key_index(q0, k@);
            lemma_upsert_distinct(q0, k@, request);
        }
        match self.request_position(k.as_slice()) {
            Some(i) => {
                self.requests.set(i, (key_hex, request));
                proof {
                    assert(self.reqs() =~= q0.update(i as int, (k@, request)));
                }
            },
            None => {
                self.requests.push((key_hex, request));
                proof {
                    assert(self.reqs() =~= q0.push((k@, request)));
                }
            },
        }
        Ok(())
    }

    /// Queue a request now.  A last request recorded later than the clock
    /// reads counts as too recent.
    pub fn receive(&mut self, request: ConnectionRequest) -> (r: Result<(), ConnectionError>)
        requires
            old(self).wf(),
        ensures
            final(self).wf(),
            r is Err ==> final(self).reqs() == old(self).reqs() && final(self).lasts() == old(self).lasts(),
            r is Ok ==> request_signed(request) && final(self).reqs() == upsert(
                make_room(old(self).reqs()),
                hex_spec(request.requester_key.0@),
                request,
            ),
            key_index(old(self).lasts(), hex_spec(request.requester_key.0@)) < 0 ==> exists|now: u64| #[trigger]
                received_at(*old(self), *final(self), request, now, r),
            (r == Err::<(), ConnectionError>(ConnectionError::RateLimited) && final(self).reqs() == old(self).reqs()
                && final(self).lasts() == old(self).lasts()) || exists|now: u64| #[trigger]
                received_at(*old(self), *final(self), request, now, r),
    {
        let now = now_secs();
        let key_hex = request.requester_key.to_hex();
        let k = chars_of(key_hex.as_str());
        proof {
            lemma_key_index(self.lasts(), k@);
        }
        match self.last_position(k.as_slice()) {
            Some(i) => {
                if self.last_request[i].1 > now {
                    return Err(ConnectionError::RateLimited);
                }
            },
            None => {},
        }
        let r = self.receive_at(request, now);
        proof {
            assert(received_at(*old(self), *self, request, now, r));
        }
        r
    }

    /// Accept the request filed under `requester_key` at `now`: it leaves
    /// the queue, its requester joins the contact book, and the signed
    /// acceptance is returned.  The request leaves the queue even when the
    /// acceptance is refused for a blank name.
    pub fn accept_at(
        &mut self,
        requester_key: &IdentityKey,
        my_keypair: &KeyPair,
        my_name: &str,
        contacts: &mut ContactBook,
        now: u64,
    ) -> (r: Result<ConnectionResponse, ConnectionError>)
        requires
            old(self).wf(),
            old(contacts).wf(),
        ensures
            final(self).wf(),
            final(contacts).wf(),
            final(self).lasts() == old(self).lasts(),
            key_index(old(self).reqs(), hex_spec(requester_key.0@)) == -1 ==> r == Err::<
                ConnectionResponse,
                ConnectionError,
            >(ConnectionError::RequestNotFound) && final(self).reqs() == old(self).reqs() && final(contacts)@ == old(
                contacts,
            )@,
            ({
                let i = key_index(old(self).reqs(), hex_spec(requester_key.0@));
                let req = old(self).reqs()[i].1;
                i >= 0 ==> final(self).reqs() == old(self).reqs().remove(i) && final(contacts)@ == add_in_memory_spec(
                    old(contacts)@,
                    ContactView {
                        name: req.display_name@,
                        key: req.requester_key.0@,
                        added_at: now,
                        last_seen: None,
                        trusted: true,
                    },
                ) && (trim_spec(my_name@).len() == 0 ==> r == Err::<ConnectionResponse, ConnectionError>(
                    ConnectionError::InvalidDisplayName,
                )) && (trim_spec(my_name@).len() > 0 ==> r is Ok && made_accept(
                    r->Ok_0,
                    *my_keypair,
                    req.requester_key,
                    my_name@,
                    now,
                ))
            }),
    {
        let key_hex = requester_key.to_hex();
        let k = chars_of(key_hex.as_str());
        proof {
            lemma_key_index(self.reqs(), k@);
        }
        let ghost r0 = self.reqs();
        match self.request_position(k.as_slice()) {
            None => Err(ConnectionError::RequestNotFound),
            Some(i) => {
                proof {
                    lemma_remove_distinct(r0, i as int);
                }
                let (_, request) = self.requests.remove(i);
                proof {
                    assert(self.reqs() =~= r0.remove(i as int));
                }
                let contact = Contact::new_at(request.display_name.as_str(), IdentityKey(request.requester_key.0), now);
                contacts.add_in_memory(contact);
                ConnectionResponse::accept_at(my_keypair, &request, my_name, now)
            },
        }
    }

    /// Accept the request filed under `requester_key` now.
    pub fn accept(
        &mut self,
        requester_key: &IdentityKey,
        my_keypair: &KeyPair,
        my_name: &str,
        contacts: &mut ContactBook,
    ) -> (r: Result<ConnectionResponse, ConnectionError>)
        requires
            old(self).wf(),
            old(contacts).wf(),
        ensures
            final(self).wf(),
            final(contacts).wf(),
            final(self).lasts() == old(self).lasts(),
            key_index(old(self).reqs(), hex_spec(requester_key.0@)) == -1 ==> r == Err::<
                ConnectionResponse,
                ConnectionError,
            >(ConnectionError::RequestNotFound) && final(self).reqs() == old(self).reqs() && final(contacts)@ == old(
                contacts,
            )@,
            ({
                let i = key_index(old(self).reqs(), hex_spec(requester_key.0@));
                let req = old(self).reqs()[i].1;
                i >= 0 ==> final(self).reqs() == old(self).reqs().remove(i) && contains_key(
                    final(contacts)@,
                    hex_spec(req.requester_key.0@),
                ) && (trim_spec(my_name@).len() == 0 ==> r == Err::<ConnectionResponse, ConnectionError>(
                    ConnectionError::InvalidDisplayName,
                )) && (trim_spec(my_name@).len() > 0 ==> r is Ok && made_accept(
                    r->Ok_0,
                    *my_keypair,
                    req.requester_key,
                    my_name@,
                    r->Ok_0->timestamp,
                ))
            }),
    {
        let now = now_secs();
        let r = self.accept_at(requester_key, my_keypair, my_name, contacts, now);
        proof {
            let i = key_index(old(self).reqs(), hex_spec(requester_key.0@));
            if i >= 0 {
                let req = old(self).reqs()[i].1;
                let cv = ContactView {
                    name: req.display_name@,
                    key: req.requester_key.0@,
                    added_at: now,
                    last_seen: None,
                    trusted: true,
                };
                let v0 = old(contacts)@;
                if !contains_key(v0, hex_spec(cv.key)) {
                    assert(contacts@[v0.len() as int].0 == hex_spec(cv.key));
                }
            }
        }
        r
    }

    /// Decline the request filed under `requester_key`: it is dropped and
    /// the requester is not told.
    pub fn decline(&mut self, requester_key: &IdentityKey) -> (r: Result<(), ConnectionError>)
        requires
            old(self).wf(),
        ensures
            final(self).wf(),
            final(self).lasts() == old(self).lasts(),
            key_index(old(self).reqs(), hex_spec(requester_key.0@)) == -1 ==> r == Err::<(), ConnectionError>(
                ConnectionError::RequestNotFound,
            ) && final(self).reqs() == old(self).reqs(),
            key_index(old(self).reqs(), hex_spec(requester_key.0@)) >= 0 ==> r is Ok && final(self).reqs() == old(
                self,
            ).reqs().remove(key_index(old(self).reqs(), hex_spec(requester_key.0@))),
    {
        let key_hex = requester_key.to_hex();
        let k = chars_of(key_hex.as_str());
        proof {
            lemma_key_index(self.reqs(), k@);
        }
        let ghost r0 = self.reqs();
        match self.request_position(k.as_slice()) {
            None => Err(ConnectionError::RequestNotFound),
            Some(i) => {
                proof {
                    lemma_remove_distinct(r0, i as int);
                }
                let _ = self.requests.remove(i);
                proof {
                    assert(self.reqs() =~= r0.remove(i as int));
                }
                Ok(())
            },
        }
    }

    /// Drop the requests expired at `now`.
    pub fn gc_at(&mut self, now: u64)
        requires
            old(self).wf(),
        ensures
            final(self).wf(),
            final(self).lasts() == old(self).lasts(),
            final(self).reqs() == old(self).reqs().filter(fresh_at(now)),
    {
        let ghost src = self.reqs();
        let ghost keep = fresh_at(now);
        let mut kept: Vec<(String, ConnectionRequest)> = Vec::new();
        let mut all: Vec<(String, ConnectionRequest)> = Vec::new();
        std::mem::swap(&mut all, &mut self.requests);
        let ghost mut src_idx: Seq<int> = Seq::empty();
        let mut i: usize = 0;
        let n = all.len();
        while all.len() > 0
            invariant
                src.len() == n,
                distinct_keys(src),
                forall|e: (Seq<char>, ConnectionRequest)| #[trigger] keep(e) == !(now > e.1.expires_at),
                i + all@.len() == n,
                forall|k: int| 0 <= k < all@.len() ==> (#[trigger] all@[k].0@, all@[k].1) == src[i + k],
                Seq::new(kept@.len(), |k: int| (kept@[k].0@, kept@[k].1)) == src.take(i as int).filter(keep),
                src_idx.len() == kept@.len(),
                forall|k: int| 0 <= k < src_idx.len() ==> 0 <= #[trigger] src_idx[k] < i,
                forall|a: int, b: int| 0 <= a < b < src_idx.len() ==> src_idx[a] < src_idx[b],
                forall|k: int| 0 <= k < kept@.len() ==> #[trigger] kept@[k].0@ == src[src_idx[k]].0,
                self.last_request == old(self).last_request,
            decreases all@.len(),
        {
            let ghost a0 = all@;
            let ghost k0 = Seq::new(kept@.len(), |k: int| (kept@[k].0@, kept@[k].1));
            let e = all.remove(0);
            proof {
                assert((e.0@, e.1) == src[i as int]);
                assert forall|k: int| 0 <= k < all@.len() implies (#[trigger] all@[k].0@, all@[k].1) == src[i + 1 + k] by {
                    assert(all@[k] == a0[k + 1]);
                }
                assert(src.take(i + 1).drop_last() =~= src.take(i as int));
                reveal(Seq::filter);
            }
            if !(now > e.1.expires_at) {
                kept.push(e);
                proof {
                    assert(Seq::new(kept@.len(), |k: int| (kept@[k].0@, kept@[k].1)) =~= k0.push(src[i as int]));
                    src_idx = src_idx.push(i as int);
                }
            } else {
                proof {
                    assert(Seq::new(kept@.len(), |k: int| (kept@[k].0@, kept@[k].1)) =~= k0);
                }
            }
            i += 1;
        }
        self.requests = kept;
        proof {
            assert(src.take(n as int) =~= src);
            let v = self.reqs();
            assert forall|a: int, b: int| 0 <= a < b < v.len() implies v[a].0 != v[b].0 by {
                assert(v[a].0 == src[src_idx[a]].0);
                assert(v[b].0 == src[src_idx[b]].0);
            }
        }
    }

    /// Drop the requests that have expired.
    pub fn gc(&mut self)
        requires
            old(self).wf(),
        ensures
            final(self).wf(),
            final(self).lasts() == old(self).lasts(),
            exists|now: u64| final(self).reqs() == old(self).reqs().filter(#[trigger] fresh_at(now)),
    {
        let now = now_secs();
        self.gc_at(now);
    }

    /// Number of waiting requests.
    pub fn count(&self) -> (n: usize)
        ensures
            n == self.reqs().len(),
    {
        self.requests.len()
    }

    /// Every waiting request, oldest first.
    pub fn all(&self) -> (r: Vec<&ConnectionRequest>)
        ensures
            r@.len() == self.reqs().len(),
            exists|idx: Seq<int>|
                is_permutation(idx, self.reqs().len() as int) && forall|k: int|
                    0 <= k < r@.len() ==> *#[trigger] r@[k] == self.reqs()[idx[k]].1,
            forall|a: int, b: int| 0 <= a < b < r@.len() ==> r@[a].timestamp <= r@[b].timestamp,
    {
        let n = self.requests.len();
        let mut keys: Vec<u64> = Vec::new();
        let mut i: usize = 0;
        while i < n
            invariant
                n == self.requests@.len(),
                i <= n,
                keys@.len() == i,
                forall|k: int| 0 <= k < i ==> #[trigger] keys@[k] == self.requests@[k].1.timestamp,
            decreases n - i,
        {
            keys.push(self.requests[i].1.timestamp);
            i += 1;
        }
        let order = order_desc(keys.as_slice());
        let ghost d = Seq::new(order@.len(), |k: int| order@[k] as int);
        let ghost idx = Seq::new(n as nat, |k: int| d[n - 1 - k]);
        proof {
            assert(sorted_desc_order(keys@, d));
            assert forall|a: int, b: int| 0 <= a < idx.len() && 0 <= b < idx.len() && a != b implies idx[a]
                != idx[b] by {
                assert(d[n - 1 - a] != d[n - 1 - b]);
            }
            assert forall|k: int| 0 <= k < idx.len() implies 0 <= #[trigger] idx[k] < n by {
                assert(0 <= d[n - 1 - k] < n);
            }
        }
        let mut r: Vec<&ConnectionRequest> = Vec::new();
        let mut j: usize = 0;
        while j < n
            invariant
                n == self.requests@.len(),
                n == order@.len(),
                d == Seq::new(order@.len(), |k: int| order@[k] as int),
                idx == Seq::new(n as nat, |k: int| d[n - 1 - k]),
                forall|k: int| 0 <= k < n ==> 0 <= #[trigger] idx[k] < n,
                j <= n,
                r@.len() == j,
                forall|k: int| 0 <= k < j ==> *#[trigger] r@[k] == self.reqs()[idx[k]].1,
            decreases n - j,
        {
            assert(0 <= idx[j as int] < n);
            r.push(&self.requests[order[n - 1 - j]].1);
            j += 1;
        }
        proof {
            assert(is_permutation(idx, n as int));
            assert forall|a: int, b: int| 0 <= a < b < r@.len() implies r@[a].timestamp <= r@[b].timestamp by {
                assert(r@[a].timestamp == keys@[idx[a]]);
                assert(r@[b].timestamp == keys@[idx[b]]);
                assert(idx[a] == d[n - 1 - a] && idx[b] == d[n - 1 - b]);
            }
        }
        r
    }

    /// Whether a request from this key is waiting.
    pub fn has_request_from(&self, key: &IdentityKey) -> (b: bool)
        ensures
            b == contains_key(self.reqs(), hex_spec(key.0@)),
    {
        let key_hex = key.to_hex();
        let k = chars_of(key_hex.as_str());
        proof {
            lemma_key_index(self.reqs(), k@);
        }
        self.request_position(k.as_slice()).is_some()
    }
}

} // verus!
