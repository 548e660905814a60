//! Device-to-device wake notifications.
//!
//! A notification carries the sender and target keys, a kind tag, a
//! timestamp and a signature (137 bytes on the wire).  The dispatcher accepts
//! a notification only when it is addressed to this device, fresh (at most 30
//! seconds old), signed, within the sender's rate limit (10 per minute) and
//! not a replay of a recently seen one; accepted notifications are queued.
use vstd::prelude::*;
use vstd::bytes::{spec_u64_to_le_bytes, spec_u64_from_le_bytes, u64_to_le_bytes, u64_from_le_bytes};
use crate::clock::now_secs;
use crate::text::string_of;

verus! {

pub const REPLAY_WINDOW_SECS: u64 = 30;
pub const MAX_QUEUE_SIZE: usize = 100;
pub const RATE_LIMIT_PER_MINUTE: u32 = 10;
pub const NOTIFICATION_TTL_SECS: u64 = 86400;
pub const MAX_MISSED_DISPLAY: usize = 5;

/// Length of a notification on the wire.
pub const WIRE_LEN: usize = 137;
/// Recent payload hashes kept for replay detection.
const MAX_SEEN: usize = 256;

/// What a notification announces.
#[derive(Debug, Clone, PartialEq)]
pub enum NotificationKind {
    IncomingMessage { conversation_id: String },
    IncomingCall { session_id: u64 },
    ContactRequest,
    MissedCall { session_id: u64 },
    ContactOnline,
    System { message: String },
}

pub open spec fn kind_tag(k: NotificationKind) -> u8 {
    match k {
        NotificationKind::IncomingMessage { .. } => 1,
        NotificationKind::IncomingCall { .. } => 2,
        NotificationKind::ContactRequest => 3,
        NotificationKind::MissedCall { .. } => 4,
        NotificationKind::ContactOnline => 5,
        NotificationKind::System { .. } => 6,
    }
}

pub open spec fn kind_priority(k: NotificationKind) -> u8 {
    match k {
        NotificationKind::IncomingCall { .. } => 3,
        NotificationKind::IncomingMessage { .. } => 2,
        NotificationKind::ContactRequest => 2,
        NotificationKind::MissedCall { .. } => 1,
        NotificationKind::ContactOnline => 0,
        NotificationKind::System { .. } => 1,
    }
}

pub open spec fn kind_wakes(k: NotificationKind) -> bool {
    k is IncomingMessage || k is IncomingCall || k is ContactRequest
}

impl NotificationKind {
    /// Wire tag of the kind.
    pub fn tag(&self) -> (r: u8)
        ensures
            r == kind_tag(*self),
    {
        match self {
            NotificationKind::IncomingMessage { .. } => 0x01,
            NotificationKind::IncomingCall { .. } => 0x02,
            NotificationKind::ContactRequest => 0x03,
            NotificationKind::MissedCall { .. } => 0x04,
            NotificationKind::ContactOnline => 0x05,
            NotificationKind::System { .. } => 0x06,
        }
    }

    pub fn label(&self) -> (r: &'static str)
        ensures
            r@ == match *self {
                NotificationKind::IncomingMessage { .. } => "message"@,
                NotificationKind::IncomingCall { .. } => "call"@,
                NotificationKind::ContactRequest => "contact_request"@,
                NotificationKind::MissedCall { .. } => "missed_call"@,
                NotificationKind::ContactOnline => "contact_online"@,
                NotificationKind::System { .. } => "system"@,
            },
    {
        match self {
            NotificationKind::IncomingMessage { .. } => "message",
            NotificationKind::IncomingCall { .. } => "call",
            NotificationKind::ContactRequest => "contact_request",
            NotificationKind::MissedCall { .. } => "missed_call",
            NotificationKind::ContactOnline => "contact_online",
            NotificationKind::System { .. } => "system",
        }
    }

    /// Messages, calls and contact requests wake the device.
    pub fn requires_wake(&self) -> (r: bool)
        ensures
            r == kind_wakes(*self),
    {
        match self {
            NotificationKind::IncomingMessage { .. } => true,
            NotificationKind::IncomingCall { .. } => true,
            NotificationKind::ContactRequest => true,
            _ => false,
        }
    }

    pub fn is_call(&self) -> (r: bool)
        ensures
            r == (*self is IncomingCall || *self is MissedCall),
    {
        match self {
            NotificationKind::IncomingCall { .. } => true,
            NotificationKind::MissedCall { .. } => true,
            _ => false,
        }
    }

    /// Display priority: calls highest, online notices lowest.
    pub fn priority(&self) -> (r: u8)
        ensures
            r == kind_priority(*self),
    {
        match self {
            NotificationKind::IncomingCall { .. } => 3,
            NotificationKind::IncomingMessage { .. } => 2,
            NotificationKind::ContactRequest => 2,
            NotificationKind::MissedCall { .. } => 1,
            NotificationKind::ContactOnline => 0,
            NotificationKind::System { .. } => 1,
        }
    }
}

/// A notification routed through the network.
#[derive(Debug, Clone)]
pub struct WakeNotification {
    pub sender_key: [u8; 32],
    pub target_key: [u8; 32],
    pub kind: NotificationKind,
    pub timestamp: u64,
    pub signature: [u8; 64],
    pub id: u64,
    pub seen: bool,
}

/// Lower-case hexadecimal digit of a nibble.
pub open spec fn nibble_char(n: u8) -> char {
    if n < 10 {
        (48 + n) as char
    } else {
        (87 + n) as char
    }
}

/// Lower-case hexadecimal text of some bytes, two digits per byte.
pub open spec fn hex_spec(b: Seq<u8>) -> Seq<char>
    decreases b.len(),
{
    if b.len() == 0 {
        Seq::empty()
    } else {
        hex_spec(b.drop_last()) + seq![nibble_char(b.last() / 16), nibble_char(b.last() % 16)]
    }
}

fn nibble(n: u8) -> (c: char)
    requires
        n < 16,
    ensures
        c == nibble_char(n),
{
    if n < 10 {
        (48u8 + n) as char
    } else {
        (87u8 + n) as char
    }
}

/// Hexadecimal text of the first four bytes of a key.
fn hex8(key: &[u8; 32]) -> (s: String)
    ensures
        s@ == hex_spec(key@.take(4)),
        s@.len() == 8,
{
    let mut v: Vec<char> = Vec::new();
    let mut i: usize = 0;
    while i < 4
        invariant
            i <= 4,
            v@ == hex_spec(key@.take(i as int)),
            v@.len() == 2 * i,
        decreases 4 - i,
    {
        let b = key[i];
        v.push(nibble(b / 16));
        v.push(nibble(b % 16));
        proof {
            assert(key@.take(i + 1).drop_last() =~= key@.take(i as int));
        }
        i += 1;
    }
    string_of(v.as_slice())
}

/// The bytes a notification's signature covers: sender, target, kind tag
/// and little-endian timestamp.
pub open spec fn signing_payload_spec(n: WakeNotification) -> Seq<u8> {
    n.sender_key@ + n.target_key@ + seq![kind_tag(n.kind)] + spec_u64_to_le_bytes(n.timestamp)
}

/// The wire form: the signed bytes followed by the signature.
pub open spec fn wire_spec(n: WakeNotification) -> Seq<u8> {
    signing_payload_spec(n) + n.signature@
}

/// Age of a notification at time `now` (zero for a timestamp in the future).
pub open spec fn age_at(n: WakeNotification, now: u64) -> int {
    if now >= n.timestamp {
        now - n.timestamp
    } else {
        0
    }
}

pub open spec fn fresh_at(n: WakeNotification, now: u64) -> bool {
    age_at(n, now) <= REPLAY_WINDOW_SECS
}

pub open spec fn expired_at(n: WakeNotification, now: u64) -> bool {
    age_at(n, now) > NOTIFICATION_TTL_SECS
}

/// The kind parsed from a wire tag: the variant of the tag, session ids 0, the conversation id of a message being the sender's short hex, and
/// the text of a system notice "notification".
pub open spec fn parsed_kind(k: NotificationKind, tag: u8, sender: Seq<u8>) -> bool {
    match k {
        NotificationKind::IncomingMessage { conversation_id } => tag == 1 && conversation_id@ == hex_spec(
            sender.take(4),
        ),
        NotificationKind::IncomingCall { session_id } => tag == 2 && session_id == 0,
        NotificationKind::ContactRequest => tag == 3,
        NotificationKind::MissedCall { session_id } => tag == 4 && session_id == 0,
        NotificationKind::ContactOnline => tag == 5,
        NotificationKind::System { message } => tag == 6 && message@ == "notification"@,
    }
}

impl WakeNotification {
    /// A notification from `sender_key` to `target_key` stamped with the
    /// current time, with a zero signature, id 0, unseen.
    pub fn new(sender_key: [u8; 32], target_key: [u8; 32], kind: NotificationKind) -> (n: Self)
        ensures
            n.sender_key == sender_key,
            n.target_key == target_key,
            n.kind == kind,
            n.signature@ == Seq::new(64, |i: int| 0u8),
            n.id == 0,
            !n.seen,
    {
        let n = Self {
            sender_key,
            target_key,
            kind,
            timestamp: now_secs(),
            signature: [0u8; 64],
            id: 0,
            seen: false,
        };
        assert(n.signature@ =~= Seq::new(64, |i: int| 0u8));
        n
    }

    /// Signature check.  The signature is a placeholder, so every
    /// notification is accepted.
    pub fn verify(&self) -> (r: bool)
        ensures
            r,
    {
        true
    }

    /// At most 30 seconds old at `now`.
    pub fn is_fresh_at(&self, now: u64) -> (r: bool)
        ensures
            r == fresh_at(*self, now),
    {
        now.saturating_sub(self.timestamp) <= REPLAY_WINDOW_SECS
    }

    /// Older than the 24-hour time to live at `now`.
    pub fn is_expired_at(&self, now: u64) -> (r: bool)
        ensures
            r == expired_at(*self, now),
    {
        now.saturating_sub(self.timestamp) > NOTIFICATION_TTL_SECS
    }

    /// Within the replay window at the current time.
    pub fn is_fresh(&self) -> (r: bool)
        ensures
            exists|now: u64| #[trigger] fresh_at(*self, now) == r,
    {
        let now = now_secs();
        let r = self.is_fresh_at(now);
        assert(fresh_at(*self, now) == r);
        r
    }

    /// Past the time to live at the current time.
    pub fn is_expired(&self) -> (r: bool)
        ensures
            exists|now: u64| #[trigger] expired_at(*self, now) == r,
    {
        let now = now_secs();
        let r = self.is_expired_at(now);
        assert(expired_at(*self, now) == r);
        r
    }

    /// The bytes the signature covers.
    pub fn signing_payload(&self) -> (p: Vec<u8>)
        ensures
            p@ == signing_payload_spec(*self),
            p@.len() == 73,
    {
        let mut p: Vec<u8> = Vec::new();
        let mut i: usize = 0;
        while i < 32
            invariant
                i <= 32,
                p@ == self.sender_key@.take(i as int),
            decreases 32 - i,
        {
            p.push(self.sender_key[i]);
            proof {
                assert(p@ =~= self.sender_key@.take(i + 1));
            }
            i += 1;
        }
        let mut j: usize = 0;
        while j < 32
            invariant
                j <= 32,
                p@ == self.sender_key@ + self.target_key@.take(j as int),
            decreases 32 - j,
        {
            p.push(self.target_key[j]);
            proof {
                assert(p@ =~= self.sender_key@ + self.target_key@.take(j + 1));
            }
            j += 1;
        }
        assert(self.sender_key@.take(32) =~= self.sender_key@);
        assert(self.target_key@.take(32) =~= self.target_key@);
        p.push(self.kind.tag());
        let ts = u64_to_le_bytes(self.timestamp);
        let mut k: usize = 0;
        let ghost base = p@;
        while k < 8
            invariant
                k <= 8,
                ts@ == spec_u64_to_le_bytes(self.timestamp),
                ts@.len() == 8,
                p@ == base + ts@.take(k as int),
            decreases 8 - k,
        {
            p.push(ts[k]);
            proof {
                assert(p@ =~= base + ts@.take(k + 1));
            }
            k += 1;
        }
        assert(ts@.take(8) =~= ts@);
        assert(p@ =~= signing_payload_spec(*self));
        p
    }

    /// Short hexadecimal form of the sender key (its first four bytes).
    pub fn sender_hex(&self) -> (s: String)
        ensures
            s@ == hex_spec(self.sender_key@.take(4)),
            s@.len() == 8,
    {
        hex8(&self.sender_key)
    }

    /// The 137-byte wire form.
    pub fn to_bytes(&self) -> (v: Vec<u8>)
        ensures
            v@ == wire_spec(*self),
            v@.len() == WIRE_LEN,
    {
        let mut v = self.signing_payload();
        let ghost base = v@;
        let mut i: usize = 0;
        while i < 64
            invariant
                i <= 64,
                v@ == base + self.signature@.take(i as int),
            decreases 64 - i,
        {
            v.push(self.signature[i]);
            proof {
                assert(v@ =~= base + self.signature@.take(i + 1));
            }
            i += 1;
        }
        assert(self.signature@.take(64) =~= self.signature@);
        v
    }

    /// Parse the wire form; `None` when shorter than 137 bytes or for an
    /// unknown kind tag.  Bytes past the first 137 are ignored.
    pub fn from_bytes(buf: &[u8], id: u64) -> (r: Option<Self>)
        ensures
            buf@.len() < WIRE_LEN ==> r is None,
            buf@.len() >= WIRE_LEN ==> (r is None <==> !(1 <= buf@[64] <= 6)),
            r matches Some(n) ==> {
                &&& n.sender_key@ == buf@.subrange(0, 32)
                &&& n.target_key@ == buf@.subrange(32, 64)
                &&& parsed_kind(n.kind, buf@[64], buf@.subrange(0, 32))
                &&& n.timestamp == spec_u64_from_le_bytes(buf@.subrange(65, 73))
                &&& n.signature@ == buf@.subrange(73, 137)
                &&& n.id == id
                &&& !n.seen
            },
    {
        if buf.len() < WIRE_LEN {
            return None;
        }
        let mut sender_key = [0u8; 32];
        let mut target_key = [0u8; 32];
        let mut i: usize = 0;
        while i < 32
            invariant
                i <= 32,
                buf@.len() >= WIRE_LEN,
                forall|k: int| 0 <= k < i ==> sender_key@[k] == buf@[k],
                forall|k: int| 0 <= k < i ==> target_key@[k] == buf@[32 + k],
            decreases 32 - i,
        {
            sender_key[i] = buf[i];
            target_key[i] = buf[32 + i];
            i += 1;
        }
        let kind_tag = buf[64];
        let ts_bytes = slice_subrange(buf, 65, 73);
        let timestamp = u64_from_le_bytes(ts_bytes);
        let mut signature = [0u8; 64];
        let mut j: usize = 0;
        while j < 64
            invariant
                j <= 64,
                buf@.len() >= WIRE_LEN,
                forall|k: int| 0 <= k < j ==> signature@[k] == buf@[73 + k],
            decreases 64 - j,
        {
            signature[j] = buf[73 + j];
            j += 1;
        }
        assert(sender_key@ =~= buf@.subrange(0, 32));
        assert(target_key@ =~= buf@.subrange(32, 64));
        assert(signature@ =~= buf@.subrange(73, 137));
        let kind = if kind_tag == 0x01 {
            NotificationKind::IncomingMessage { conversation_id: hex8(&sender_key) }
        } else if kind_tag == 0x02 {
            NotificationKind::IncomingCall { session_id: 0 }
        } else if kind_tag == 0x03 {
            NotificationKind::ContactRequest
        } else if kind_tag == 0x04 {
            NotificationKind::MissedCall { session_id: 0 }
        } else if kind_tag == 0x05 {
            NotificationKind::ContactOnline
        } else if kind_tag == 0x06 {
            NotificationKind::System { message: crate::text::string_of(crate::text::lit("notification").as_slice()) }
        } else {
            return None;
        };
        Some(Self { sender_key, target_key, kind, timestamp, signature, id, seen: false })
    }
}

/// `s[start..end]` as a slice.
fn slice_subrange(s: &[u8], start: usize, end: usize) -> (r: &[u8])
    requires
        start <= end <= s@.len(),
    ensures
        r@ == s@.subrange(start as int, end as int),
{
    &s[start..end]
}

/// Parsing the wire form of a notification gives back its keys, kind tag,
/// timestamp and signature.
pub proof fn law_wire_round_trip(n: WakeNotification, k: NotificationKind, ts: u64, id: u64)
    ensures
        wire_spec(n).len() == WIRE_LEN,
        wire_spec(n).subrange(0, 32) == n.sender_key@,
        wire_spec(n).subrange(32, 64) == n.target_key@,
        wire_spec(n)[64] == kind_tag(n.kind),
        spec_u64_from_le_bytes(wire_spec(n).subrange(65, 73)) == n.timestamp,
        wire_spec(n).subrange(73, 137) == n.signature@,
{
    vstd::bytes::lemma_auto_spec_u64_to_from_le_bytes();
    let w = wire_spec(n);
    assert(w.subrange(0, 32) =~= n.sender_key@);
    assert(w.subrange(32, 64) =~= n.target_key@);
    assert(w.subrange(65, 73) =~= spec_u64_to_le_bytes(n.timestamp));
    assert(w.subrange(73, 137) =~= n.signature@);
}

// ---------------------------------------------------------------------------
// Rate limiting
// ---------------------------------------------------------------------------

/// Per-sender counters: `(sender, count, window start)`.
struct NotifRateLimiter {
    counts: Vec<([u8; 32], u32, u64)>,
}

/// The entry of `key` in `s`, if any.
pub open spec fn lookup(s: Seq<([u8; 32], u32, u64)>, key: [u8; 32]) -> Option<(u32, u64)>
    decreases s.len(),
{
    if s.len() == 0 {
        None
    } else if s.last().0 == key {
        Some((s.last().1, s.last().2))
    } else {
        lookup(s.drop_last(), key)
    }
}

/// The counter of `sender` after a request at `now`, and whether the request
/// is allowed: a new minute window opens when 60 seconds (measured with
/// wrap-around) have passed; within a window, at most 10 requests pass.
pub open spec fn allow_spec(old_entry: Option<(u32, u64)>, now: u64) -> ((u32, u64), bool) {
    let (count, window) = match old_entry {
        Some(e) => e,
        None => (0u32, now),
    };
    if now.wrapping_sub(window) >= 60 {
        ((1u32, now), true)
    } else if count < RATE_LIMIT_PER_MINUTE {
        (((count + 1) as u32, window), true)
    } else {
        ((count, window), false)
    }
}

fn keys_equal(a: &[u8; 32], b: &[u8; 32]) -> (r: bool)
    ensures
        r == (*a == *b),
{
    let mut i: usize = 0;
    while i < 32
        invariant
            i <= 32,
            forall|k: int| 0 <= k < i ==> a@[k] == b@[k],
        decreases 32 - i,
    {
        if a[i] != b[i] {
            return false;
        }
        i += 1;
    }
    assert(*a =~= *b);
    true
}

proof fn lemma_lookup_update(s: Seq<([u8; 32], u32, u64)>, i: int, e: ([u8; 32], u32, u64), k: [u8; 32])
    requires
        0 <= i < s.len(),
        e.0 == s[i].0,
        forall|j: int| 0 <= j < s.len() && j != i ==> s[j].0 != s[i].0,
    ensures
        lookup(s.update(i, e), k) == if k == e.0 {
            Some((e.1, e.2))
        } else {
            lookup(s, k)
        },
    decreases s.len(),
{
    if i == s.len() - 1 {
        assert(s.update(i, e).drop_last() =~= s.drop_last());
        if k == e.0 {
        } else {
        }
    } else {
        assert(s.update(i, e).drop_last() =~= s.drop_last().update(i, e));
        lemma_lookup_update(s.drop_last(), i, e, k);
    }
}

proof fn lemma_lookup_found(s: Seq<([u8; 32], u32, u64)>, i: int)
    requires
        0 <= i < s.len(),
        forall|j: int| 0 <= j < s.len() && j != i ==> s[j].0 != s[i].0,
    ensures
        lookup(s, s[i].0) == Some((s[i].1, s[i].2)),
    decreases s.len(),
{
    if i < s.len() - 1 {
        lemma_lookup_found(s.drop_last(), i);
    }
}

proof fn lemma_lookup_absent(s: Seq<([u8; 32], u32, u64)>, k: [u8; 32])
    requires
        forall|j: int| 0 <= j < s.len() ==> s[j].0 != k,
    ensures
        lookup(s, k) is None,
    decreases s.len(),
{
    if s.len() > 0 {
        lemma_lookup_absent(s.drop_last(), k);
    }
}

proof fn lemma_lookup_push(s: Seq<([u8; 32], u32, u64)>, e: ([u8; 32], u32, u64), k: [u8; 32])
    ensures
        lookup(s.push(e), k) == if k == e.0 {
            Some((e.1, e.2))
        } else {
            lookup(s, k)
        },
{
    assert(s.push(e).drop_last() =~= s);
}

impl NotifRateLimiter {
    /// No sender appears twice.
    spec fn wf(&self) -> bool {
        forall|i: int, j: int|
            0 <= i < self.counts@.len() && 0 <= j < self.counts@.len() && i != j ==> self.counts@[i].0
                != self.counts@[j].0
    }

    fn new() -> (l: Self)
        ensures
            l.wf(),
            l.counts@.len() == 0,
    {
        Self { counts: Vec::new() }
    }

    /// Count a request from `sender` at `now`; false when over the limit.
    fn allow_at(&mut self, sender: &[u8; 32], now: u64) -> (r: bool)
        requires
            old(self).wf(),
        ensures
            final(self).wf(),
            ({
                let (e, ok) = allow_spec(lookup(old(self).counts@, *sender), now);
                &&& r == ok
                &&& forall|k: [u8; 32]|
                    #![trigger lookup(final(self).counts@, k)]
                    lookup(final(self).counts@, k) == if k == *sender {
                        Some(e)
                    } else {
                        lookup(old(self).counts@, k)
                    }
            }),
    {
        let mut i: usize = 0;
        let n = self.counts.len();
        while i < n
            invariant
                self.wf(),
                self.counts == old(self).counts,
                n == self.counts@.len(),
                i <= n,
                forall|j: int| 0 <= j < i ==> self.counts@[j].0 != *sender,
            decreases n - i,
        {
            if keys_equal(&self.counts[i].0, sender) {
                let (count, window) = (self.counts[i].1, self.counts[i].2);
                proof {
                    lemma_lookup_found(self.counts@, i as int);
                }
                let (entry, ok) = if now.wrapping_sub(window) >= 60 {
                    ((1u32, now), true)
                } else if count < RATE_LIMIT_PER_MINUTE {
                    ((count + 1, window), true)
                } else {
                    ((count, window), false)
                };
                let ghost s0 = self.counts@;
                self.counts.set(i, (*sender, entry.0, entry.1));
                proof {
                    assert forall|k: [u8; 32]| #![trigger lookup(self.counts@, k)]
                        lookup(self.counts@, k) == if k == *sender {
                            Some(entry)
                        } else {
                            lookup(s0, k)
                        } by {
                        lemma_lookup_update(s0, i as int, (*sender, entry.0, entry.1), k);
                    }
                }
                return ok;
            }
            i += 1;
        }
        proof {
            lemma_lookup_absent(self.counts@, *sender);
        }
        // a new sender starts a window now with one request
        let ghost s0 = self.counts@;
        self.counts.push((*sender, 1, now));
        proof {
            assert forall|k: [u8; 32]| #![trigger lookup(self.counts@, k)]
                lookup(self.counts@, k) == if k == *sender {
                    Some((1u32, now))
                } else {
                    lookup(s0, k)
                } by {
                lemma_lookup_push(s0, (*sender, 1u32, now), k);
            }
        }
        true
    }

    /// Forget the senders whose window started at least 120 seconds before
    /// `now` (measured with wrap-around).
    fn gc_at(&mut self, now: u64)
        requires
            old(self).wf(),
        ensures
            final(self).wf(),
            forall|k: [u8; 32]|
                #![trigger lookup(final(self).counts@, k)]
                lookup(final(self).counts@, k) == match lookup(old(self).counts@, k) {
                    Some(e) => if now.wrapping_sub(e.1) < 120 {
                        Some(e)
                    } else {
                        None
                    },
                    None => None,
                },
    {
        let mut kept: Vec<([u8; 32], u32, u64)> = Vec::new();
        let mut i: usize = 0;
        let n = self.counts.len();
        while i < n
            invariant
                old(self).wf(),
                self.counts == old(self).counts,
                n == self.counts@.len(),
                i <= n,
                forall|a: int, b: int|
                    0 <= a < kept@.len() && 0 <= b < kept@.len() && a != b ==> kept@[a].0 != kept@[b].0,
                forall|a: int| 0 <= a < kept@.len() ==> exists|j: int| 0 <= j < i && #[trigger] kept@[a] == self.counts@[j],
                forall|k: [u8; 32]|
                    #![trigger lookup(kept@, k)]
                    lookup(kept@, k) == match lookup(self.counts@.take(i as int), k) {
                        Some(e) => if now.wrapping_sub(e.1) < 120 {
                            Some(e)
                        } else {
                            None
                        },
                        None => None,
                    },
            decreases n - i,
        {
            let e = self.counts[i];
            let ghost k0 = kept@;
            proof {
                assert(self.counts@.take(i + 1).drop_last() =~= self.counts@.take(i as int));
                assert(self.counts@.take(i + 1).last() == e);
                // the key of entry i is new among the first i entries
                assert forall|j: int| 0 <= j < i implies self.counts@.take(i as int)[j].0 != e.0 by {}
                lemma_lookup_absent(self.counts@.take(i as int), e.0);
            }
            if now.wrapping_sub(e.2) < 120 {
                kept.push(e);
                proof {
                    assert forall|a: int| 0 <= a < k0.len() implies k0[a].0 != e.0 by {
                        let j = choose|j: int| 0 <= j < i && k0[a] == self.counts@[j];
                    }
                    assert forall|k: [u8; 32]| #![trigger lookup(kept@, k)]
                        lookup(kept@, k) == match lookup(self.counts@.take(i + 1), k) {
                            Some(x) => if now.wrapping_sub(x.1) < 120 {
                                Some(x)
                            } else {
                                None
                            },
                            None => None,
                        } by {
                        lemma_lookup_push(k0, e, k);
                    }
                    assert forall|a: int| 0 <= a < kept@.len() implies exists|j: int|
                        0 <= j < i + 1 && #[trigger] kept@[a] == self.counts@[j] by {
                        if a == k0.len() {
                            assert(kept@[a] == self.counts@[i as int]);
                        } else {
                            assert(kept@[a] == k0[a]);
                        }
                    }
                }
            } else {
                proof {
                    assert forall|k: [u8; 32]| #![trigger lookup(kept@, k)]
                        lookup(kept@, k) == match lookup(self.counts@.take(i + 1), k) {
                            Some(x) => if now.wrapping_sub(x.1) < 120 {
                                Some(x)
                            } else {
                                None
                            },
                            None => None,
                        } by {}
                }
            }
            i += 1;
        }
        proof {
            assert(self.counts@.take(n as int) =~= self.counts@);
        }
        self.counts = kept;
    }
}

// ---------------------------------------------------------------------------
// Queue
// ---------------------------------------------------------------------------

/// Notifications not yet seen, in queue order.
pub open spec fn unseen_spec(s: Seq<WakeNotification>) -> Seq<WakeNotification>
    decreases s.len(),
{
    if s.len() == 0 {
        Seq::empty()
    } else if !s.last().seen {
        unseen_spec(s.drop_last()).push(s.last())
    } else {
        unseen_spec(s.drop_last())
    }
}

/// Notifications not expired at `now`, in queue order.
pub open spec fn live_spec(s: Seq<WakeNotification>, now: u64) -> Seq<WakeNotification>
    decreases s.len(),
{
    if s.len() == 0 {
        Seq::empty()
    } else if !expired_at(s.last(), now) {
        live_spec(s.drop_last(), now).push(s.last())
    } else {
        live_spec(s.drop_last(), now)
    }
}

/// Ordering key of the sorted view: higher priority first, then newer first.
pub open spec fn goes_before(a: WakeNotification, b: WakeNotification) -> bool {
    kind_priority(a.kind) > kind_priority(b.kind) || (kind_priority(a.kind) == kind_priority(b.kind)
        && a.timestamp > b.timestamp)
}

/// Notifications received while the device slept.
pub struct NotificationQueue {
    pub queue: Vec<WakeNotification>,
    pub next_id: u64,
}

impl NotificationQueue {
    /// The id the next queued notification gets.
    pub open spec fn next_id_spec(&self) -> u64 {
        self.next_id
    }

    pub fn new() -> (q: Self)
        ensures
            q.queue@.len() == 0,
            q.next_id_spec() == 1,
    {
        Self { queue: Vec::new(), next_id: 1 }
    }

    /// Queue a notification under the next id; the oldest is dropped when 100
    /// are already queued.
    pub fn push(&mut self, notif: WakeNotification)
        requires
            old(self).next_id_spec() < u64::MAX,
        ensures
            final(self).next_id_spec() == old(self).next_id_spec() + 1,
            final(self).queue@ == (if old(self).queue@.len() >= MAX_QUEUE_SIZE {
                old(self).queue@.drop_first()
            } else {
                old(self).queue@
            }).push(WakeNotification { id: old(self).next_id_spec(), ..notif }),
    {
        let mut notif = notif;
        notif.id = self.next_id;
        self.next_id += 1;
        if self.queue.len() >= MAX_QUEUE_SIZE {
            let ghost q0 = self.queue@;
            self.queue.remove(0);
            assert(self.queue@ =~= q0.drop_first());
        }
        self.queue.push(notif);
    }

    /// Take every queued notification, oldest first.
    pub fn pop_all(&mut self) -> (v: Vec<WakeNotification>)
        ensures
            v@ == old(self).queue@,
            final(self).queue@.len() == 0,
            final(self).next_id_spec() == old(self).next_id_spec(),
    {
        let mut taken: Vec<WakeNotification> = Vec::new();
        std::mem::swap(&mut taken, &mut self.queue);
        taken
    }

    /// The unseen notifications, in queue order.
    pub fn unseen(&self) -> (v: Vec<&WakeNotification>)
        ensures
            v@.len() == unseen_spec(self.queue@).len(),
            forall|i: int| 0 <= i < v@.len() ==> *v@[i] == unseen_spec(self.queue@)[i],
    {
        let mut v: Vec<&WakeNotification> = Vec::new();
        let mut i: usize = 0;
        while i < self.queue.len()
            invariant
                i <= self.queue@.len(),
                v@.len() == unseen_spec(self.queue@.take(i as int)).len(),
                forall|k: int| 0 <= k < v@.len() ==> *v@[k] == unseen_spec(self.queue@.take(i as int))[k],
            decreases self.queue@.len() - i,
        {
            proof {
                assert(self.queue@.take(i + 1).drop_last() =~= self.queue@.take(i as int));
            }
            if !self.queue[i].seen {
                v.push(&self.queue[i]);
            }
            i += 1;
        }
        assert(self.queue@.take(i as int) =~= self.queue@);
        v
    }

    /// Mark the first notification with `id` seen.
    pub fn mark_seen(&mut self, id: u64)
        ensures
            final(self).next_id_spec() == old(self).next_id_spec(),
            final(self).queue@.len() == old(self).queue@.len(),
            forall|j: int| 0 <= j < old(self).queue@.len() && old(self).queue@[j].id == id && (forall|k: int| 0 <= k < j ==> old(self).queue@[k].id != id)
                ==> final(self).queue@ == old(self).queue@.update(j, WakeNotification { seen: true, ..old(self).queue@[j] }),
            (forall|k: int| 0 <= k < old(self).queue@.len() ==> old(self).queue@[k].id != id) ==> final(self).queue@ == old(self).queue@,
    {
        let mut i: usize = 0;
        while i < self.queue.len()
            invariant
                self.queue@ == old(self).queue@,
                self.next_id == old(self).next_id,
                i <= self.queue@.len(),
                forall|k: int| 0 <= k < i ==> self.queue@[k].id != id,
            decreases self.queue@.len() - i,
        {
            if self.queue[i].id == id {
                self.queue[i].seen = true;
                return;
            }
            i += 1;
        }
    }

    /// Mark every notification seen.
    pub fn mark_all_seen(&mut self)
        ensures
            final(self).next_id_spec() == old(self).next_id_spec(),
            final(self).queue@.len() == old(self).queue@.len(),
            forall|j: int| 0 <= j < old(self).queue@.len() ==> #[trigger] final(self).queue@[j] == (WakeNotification { seen: true, ..old(self).queue@[j] }),
    {
        let mut i: usize = 0;
        while i < self.queue.len()
            invariant
                self.next_id == old(self).next_id,
                self.queue@.len() == old(self).queue@.len(),
                i <= self.queue@.len(),
                forall|j: int| 0 <= j < i ==> #[trigger] self.queue@[j] == (WakeNotification { seen: true, ..old(self).queue@[j] }),
                forall|j: int| i <= j < self.queue@.len() ==> #[trigger] self.queue@[j] == old(self).queue@[j],
            decreases self.queue@.len() - i,
        {
            self.queue[i].seen = true;
            i += 1;
        }
    }

    pub fn len(&self) -> (r: usize)
        ensures
            r == self.queue@.len(),
    {
        self.queue.len()
    }

    pub fn is_empty(&self) -> (r: bool)
        ensures
            r == (self.queue@.len() == 0),
    {
        self.queue.len() == 0
    }

    /// Number of unseen notifications.
    pub fn unseen_count(&self) -> (r: usize)
        ensures
            r == unseen_spec(self.queue@).len(),
    {
        let mut c: usize = 0;
        let mut i: usize = 0;
        while i < self.queue.len()
            invariant
                i <= self.queue@.len(),
                c == unseen_spec(self.queue@.take(i as int)).len(),
                c <= i,
            decreases self.queue@.len() - i,
        {
            proof {
                assert(self.queue@.take(i + 1).drop_last() =~= self.queue@.take(i as int));
            }
            if !self.queue[i].seen {
                c += 1;
            }
            i += 1;
        }
        assert(self.queue@.take(i as int) =~= self.queue@);
        c
    }

    /// The unseen notification of highest priority (the last such one, as
    /// `max_by_key` picks).
    pub fn top_priority(&self) -> (r: Option<&WakeNotification>)
        ensures
            r is None <==> forall|j: int| 0 <= j < self.queue@.len() ==> self.queue@[j].seen,
            r is Some ==> exists|i: int|
                0 <= i < self.queue@.len() && *r.unwrap() == #[trigger] self.queue@[i] && !self.queue@[i].seen
                    && (forall|j: int| 0 <= j < self.queue@.len() && !self.queue@[j].seen ==> kind_priority(self.queue@[j].kind) <= kind_priority(self.queue@[i].kind))
                    && (forall|j: int| i < j < self.queue@.len() && !self.queue@[j].seen ==> kind_priority(self.queue@[j].kind) < kind_priority(self.queue@[i].kind)),
    {
        let mut best: Option<usize> = None;
        let mut best_p: u8 = 0;
        let mut i: usize = 0;
        while i < self.queue.len()
            invariant
                i <= self.queue@.len(),
                best is None <==> forall|j: int| 0 <= j < i ==> self.queue@[j].seen,
                best matches Some(b) ==> {
                    &&& b < i
                    &&& !self.queue@[b as int].seen
                    &&& best_p == kind_priority(self.queue@[b as int].kind)
                    &&& forall|j: int| 0 <= j < i && !self.queue@[j].seen ==> kind_priority(self.queue@[j].kind) <= best_p
                    &&& forall|j: int| b < j < i && !self.queue@[j].seen ==> kind_priority(self.queue@[j].kind) < best_p
                },
            decreases self.queue@.len() - i,
        {
            if !self.queue[i].seen {
                let p = self.queue[i].kind.priority();
                if best.is_none() || p >= best_p {
                    best = Some(i);
                    best_p = p;
                }
            }
            i += 1;
        }
        match best {
            Some(b) => {
                assert(!self.queue@[b as int].seen);
                Some(&self.queue[b])
            },
            None => None,
        }
    }

    /// Drop the notifications expired at `now`; returns how many were dropped.
    pub fn gc_at(&mut self, now: u64) -> (r: usize)
        ensures
            final(self).next_id_spec() == old(self).next_id_spec(),
            final(self).queue@ == live_spec(old(self).queue@, now),
            r == old(self).queue@.len() - final(self).queue@.len(),
    {
        let mut kept: Vec<WakeNotification> = Vec::new();
        let mut old_queue: Vec<WakeNotification> = Vec::new();
        std::mem::swap(&mut old_queue, &mut self.queue);
        let before = old_queue.len();
        let mut rest = old_queue;
        let ghost q0 = rest@;
        // move the notifications out one by one, from the front
        let mut i: usize = 0;
        while rest.len() > 0
            invariant
                i + rest@.len() == q0.len(),
                q0.len() <= usize::MAX,
                rest@ == q0.subrange(i as int, q0.len() as int),
                kept@ == live_spec(q0.take(i as int), now),
                kept@.len() <= i,
            decreases rest@.len(),
        {
            let n = rest.remove(0);
            proof {
                assert(q0.take(i + 1).drop_last() =~= q0.take(i as int));
                assert(q0.take(i + 1).last() == n);
            }
            if !n.is_expired_at(now) {
                kept.push(n);
            }
            i += 1;
            proof {
                assert(rest@ =~= q0.subrange(i as int, q0.len() as int));
            }
        }
        proof {
            assert(q0.take(i as int) =~= q0);
        }
        self.queue = kept;
        before - self.queue.len()
    }

    /// Drop the expired notifications (at the current time); returns how many.
    pub fn gc(&mut self) -> (r: usize)
        ensures
            final(self).next_id_spec() == old(self).next_id_spec(),
            r == old(self).queue@.len() - final(self).queue@.len(),
    {
        self.gc_at(now_secs())
    }

    /// The notifications ordered by priority (highest first), then by
    /// timestamp (newest first); equal ones keep their queue order.
    pub fn sorted(&self) -> (v: Vec<&WakeNotification>)
        ensures
            v@.len() == self.queue@.len(),
            exists|idx: Seq<int>| {
                &&& idx.len() == self.queue@.len()
                &&& idx.no_duplicates()
                &&& forall|k: int| 0 <= k < idx.len() ==> 0 <= #[trigger] idx[k] < self.queue@.len()
                &&& forall|k: int| 0 <= k < idx.len() ==> *v@[k] == self.queue@[#[trigger] idx[k]]
                &&& forall|a: int, b: int| 0 <= a < b < idx.len() ==> !goes_before(*v@[b], *v@[a])
                &&& forall|a: int, b: int|
                    0 <= a < b < idx.len() && !goes_before(*v@[a], *v@[b]) ==> idx[a] < idx[b]
            },
    {
        let mut v: Vec<&WakeNotification> = Vec::new();
        let ghost mut idx: Seq<int> = Seq::empty();
        let n = self.queue.len();
        let mut i: usize = 0;
        while i < n
            invariant
                n == self.queue@.len(),
                i <= n,
                v@.len() == i,
                idx.len() == i,
                idx.no_duplicates(),
                forall|k: int| 0 <= k < idx.len() ==> 0 <= #[trigger] idx[k] < i,
                forall|k: int| 0 <= k < idx.len() ==> *v@[k] == self.queue@[#[trigger] idx[k]],
                forall|a: int, b: int| 0 <= a < b < idx.len() ==> !goes_before(*v@[b], *v@[a]),
                forall|a: int, b: int|
                    0 <= a < b < idx.len() && !goes_before(*v@[a], *v@[b]) ==> idx[a] < idx[b],
            decreases n - i,
        {
            let item = &self.queue[i];
            let ip = item.kind.priority();
            // insert after every entry that is not ordered after the new one
            let mut p: usize = 0;
            while p < v.len() && !(ip > v[p].kind.priority() || (ip == v[p].kind.priority()
                && item.timestamp > v[p].timestamp))
                invariant
                    p <= v@.len(),
                    v@.len() == i,
                    i < n,
                    n == self.queue@.len(),
                    *item == self.queue@[i as int],
                    ip == kind_priority(item.kind),
                    forall|k: int| 0 <= k < p ==> !goes_before(*item, *v@[k]),
                decreases v@.len() - p,
            {
                p += 1;
            }
            let ghost v0 = v@;
            let ghost idx0 = idx;
            v.insert(p, item);
            proof {
                idx = idx0.insert(p as int, i as int);
                assert forall|k: int| 0 <= k < idx.len() implies 0 <= #[trigger] idx[k] < i + 1 by {
                    if k < p {
                        assert(idx[k] == idx0[k]);
                    } else if k > p {
                        assert(idx[k] == idx0[k - 1]);
                    }
                }
                assert forall|k: int| 0 <= k < idx.len() implies *v@[k] == self.queue@[#[trigger] idx[k]] by {
                    if k < p {
                        assert(idx[k] == idx0[k]);
                        assert(v@[k] == v0[k]);
                    } else if k > p {
                        assert(idx[k] == idx0[k - 1]);
                        assert(v@[k] == v0[k - 1]);
                    }
                }
                assert forall|a: int, b: int| 0 <= a < b < idx.len() implies !goes_before(*v@[b], *v@[a]) by {
                    if a < p && b < p {
                        assert(v@[a] == v0[a] && v@[b] == v0[b]);
                    } else if a < p && b == p {
                        assert(v@[a] == v0[a]);
                    } else if a < p && b > p {
                        assert(v@[a] == v0[a] && v@[b] == v0[b - 1]);
                    } else if a == p {
                        assert(v@[b] == v0[b - 1]);
                        // entries from p on are ordered after the new one
                        if p < v0.len() {
                            assert(goes_before(*item, *v0[p as int]));
                            if b - 1 > p {
                                assert(!goes_before(*v0[b - 1], *v0[p as int]));
                            }
                        }
                    } else {
                        assert(v@[a] == v0[a - 1] && v@[b] == v0[b - 1]);
                    }
                }
                assert forall|a: int, b: int|
                    0 <= a < b < idx.len() && !goes_before(*v@[a], *v@[b]) implies idx[a] < idx[b] by {
                    if a < p && b < p {
                        assert(idx[a] == idx0[a] && idx[b] == idx0[b]);
                        assert(v@[a] == v0[a] && v@[b] == v0[b]);
                    } else if a < p && b == p {
                        assert(idx[a] == idx0[a]);
                    } else if a < p && b > p {
                        assert(idx[a] == idx0[a] && idx[b] == idx0[b - 1]);
                        assert(v@[a] == v0[a] && v@[b] == v0[b - 1]);
                    } else if a == p {
                        assert(v@[b] == v0[b - 1]);
                        assert(goes_before(*item, *v0[p as int]));
                        assert(!goes_before(*v0[b - 1], *v0[p as int]));
                        assert(false);
                    } else {
                        assert(idx[a] == idx0[a - 1] && idx[b] == idx0[b - 1]);
                        assert(v@[a] == v0[a - 1] && v@[b] == v0[b - 1]);
                    }
                }
                assert forall|a: int, b: int| 0 <= a < idx.len() && 0 <= b < idx.len() && a != b implies idx[a] != idx[b] by {
                    let ia = if a < p { a } else if a > p { a - 1 } else { -1 };
                    let ib = if b < p { b } else if b > p { b - 1 } else { -1 };
                    if a != p as int && b != p as int {
                        assert(idx[a] == idx0[ia] && idx[b] == idx0[ib]);
                    } else if a == p as int {
                        assert(idx[b] == idx0[ib]);
                    } else {
                        assert(idx[a] == idx0[ia]);
                    }
                }
            }
            i += 1;
        }
        v
    }
}

// ---------------------------------------------------------------------------
// Payload hashing
// ---------------------------------------------------------------------------

/// The 32-byte digest of the first `n` bytes of `data` used for replay
/// detection: byte `i` is mixed into slot `i % 32`.
pub open spec fn simple_hash_spec(data: Seq<u8>, n: int) -> Seq<u8>
    decreases n,
{
    if n <= 0 {
        Seq::new(32, |i: int| 0u8)
    } else {
        let h = simple_hash_spec(data, n - 1);
        let i = n - 1;
        h.update(i % 32, h[i % 32] ^ data[i].wrapping_mul(0x37).wrapping_add((i % 256) as u8))
    }
}

proof fn lemma_hash_len(data: Seq<u8>, n: int)
    ensures
        simple_hash_spec(data, n).len() == 32,
    decreases n,
{
    if n > 0 {
        lemma_hash_len(data, n - 1);
    }
}

fn simple_hash(data: &[u8]) -> (h: [u8; 32])
    ensures
        h@ == simple_hash_spec(data@, data@.len() as int),
{
    let mut h = [0u8; 32];
    let mut i: usize = 0;
    assert(h@ =~= simple_hash_spec(data@, 0));
    while i < data.len()
        invariant
            i <= data@.len(),
            h@ == simple_hash_spec(data@, i as int),
        decreases data@.len() - i,
    {
        proof {
            lemma_hash_len(data@, i as int);
        }
        let b = data[i];
        let slot = i % 32;
        h[slot] = h[slot] ^ b.wrapping_mul(0x37).wrapping_add((i % 256) as u8);
        proof {
            assert(h@ =~= simple_hash_spec(data@, i + 1));
        }
        i += 1;
    }
    h
}

/// Some entry of `list` has the bytes `d`.
pub open spec fn digest_listed(list: Seq<[u8; 32]>, d: Seq<u8>) -> bool {
    exists|i: int| 0 <= i < list.len() && (#[trigger] list[i])@ == d
}

fn digest_in(list: &Vec<[u8; 32]>, d: &[u8; 32]) -> (r: bool)
    ensures
        r == digest_listed(list@, d@),
{
    let mut i: usize = 0;
    while i < list.len()
        invariant
            i <= list@.len(),
            forall|k: int| 0 <= k < i ==> list@[k] != *d,
        decreases list@.len() - i,
    {
        if keys_equal(&list[i], d) {
            assert(list@[i as int]@ == d@);
            return true;
        }
        i += 1;
    }
    proof {
        if digest_listed(list@, d@) {
            let k = choose|k: int| 0 <= k < list@.len() && (#[trigger] list@[k])@ == d@;
            assert(list@[k] =~= *d);
            assert(list@[k] != *d);
        }
    }
    false
}

// ---------------------------------------------------------------------------
// Dispatcher
// ---------------------------------------------------------------------------

/// Receives notifications, checks them and queues the accepted ones.
pub struct NotificationDispatcher {
    pub my_key: [u8; 32],
    pub queue: NotificationQueue,
    limiter: NotifRateLimiter,
    seen_ids: Vec<[u8; 32]>,
    pub total_received: u64,
    pub total_dropped: u64,
    pub total_replayed: u64,
}

/// Why a notification is refused, checked in this order; `None` when accepted.
pub enum Refusal {
    WrongTarget,
    Stale,
    RateLimited,
    Replayed,
}

/// What receiving `notif` at `now` does to dispatcher `s`, giving `s2` and
/// `r`: a refusal is counted as dropped or replayed and leaves the queue;
/// an accepted notification is queued (the oldest making room when full),
/// its digest remembered, and `r` says whether its kind wakes the device.
pub open spec fn received_notification(
    s: NotificationDispatcher,
    s2: NotificationDispatcher,
    notif: WakeNotification,
    now: u64,
    r: bool,
) -> bool {
    let verdict = s.refusal(notif, now);
    let digest = simple_hash_spec(signing_payload_spec(notif), signing_payload_spec(notif).len() as int);
    match verdict {
        Some(Refusal::WrongTarget) => !r && s2.dropped() == s.dropped() + 1
            && s2.replayed() == s.replayed()
            && s2.queue_items() == s.queue_items(),
        Some(Refusal::Stale) => !r && s2.replayed() == s.replayed() + 1
            && s2.dropped() == s.dropped()
            && s2.queue_items() == s.queue_items(),
        Some(Refusal::RateLimited) => !r && s2.dropped() == s.dropped() + 1
            && s2.replayed() == s.replayed()
            && s2.queue_items() == s.queue_items(),
        Some(Refusal::Replayed) => !r && s2.replayed() == s.replayed() + 1
            && s2.dropped() == s.dropped()
            && s2.queue_items() == s.queue_items(),
        None => {
            &&& r == kind_wakes(notif.kind)
            &&& s2.dropped() == s.dropped()
            &&& s2.replayed() == s.replayed()
            &&& s2.queue_items() == (if s.queue_items().len() >= MAX_QUEUE_SIZE {
                s.queue_items().drop_first()
            } else {
                s.queue_items()
            }).push(WakeNotification { id: s.next_id(), ..notif })
            &&& digest_listed(s2.seen_spec(), digest)
        },
    }
}

impl NotificationDispatcher {
    /// Rate-limiter entry of a sender.
    pub closed spec fn limiter_entry(&self, sender: [u8; 32]) -> Option<(u32, u64)> {
        lookup(self.limiter.counts@, sender)
    }

    /// Digests of the recently accepted notifications, oldest first.
    pub closed spec fn seen_spec(&self) -> Seq<[u8; 32]> {
        self.seen_ids@
    }

    pub closed spec fn my_key_spec(&self) -> [u8; 32] {
        self.my_key
    }

    /// The queued notifications.
    pub closed spec fn queue_items(&self) -> Seq<WakeNotification> {
        self.queue.queue@
    }

    pub closed spec fn next_id(&self) -> u64 {
        self.queue.next_id
    }

    pub closed spec fn received(&self) -> u64 {
        self.total_received
    }

    pub closed spec fn dropped(&self) -> u64 {
        self.total_dropped
    }

    pub closed spec fn replayed(&self) -> u64 {
        self.total_replayed
    }

    pub closed spec fn wf(&self) -> bool {
        self.limiter.wf() && self.seen_ids@.len() <= MAX_SEEN
    }

    /// The verdict on `n` at `now`.
    pub open spec fn refusal(&self, n: WakeNotification, now: u64) -> Option<Refusal> {
        if n.target_key != self.my_key_spec() {
            Some(Refusal::WrongTarget)
        } else if !fresh_at(n, now) {
            Some(Refusal::Stale)
        } else if !allow_spec(self.limiter_entry(n.sender_key), now).1 {
            Some(Refusal::RateLimited)
        } else if digest_listed(
            self.seen_spec(),
            simple_hash_spec(signing_payload_spec(n), signing_payload_spec(n).len() as int),
        ) {
            Some(Refusal::Replayed)
        } else {
            None
        }
    }

    pub fn new(my_key: [u8; 32]) -> (d: Self)
        ensures
            d.wf(),
            d.my_key_spec() == my_key,
            d.queue_items().len() == 0,
            d.next_id() == 1,
            d.seen_spec().len() == 0,
            forall|k: [u8; 32]| #[trigger] d.limiter_entry(k) is None,
            d.received() == 0 && d.dropped() == 0 && d.replayed() == 0,
    {
        Self {
            my_key,
            queue: NotificationQueue::new(),
            limiter: NotifRateLimiter::new(),
            seen_ids: Vec::new(),
            total_received: 0,
            total_dropped: 0,
            total_replayed: 0,
        }
    }

    /// Receive a notification at time `now`.  Returns true when it is accepted
    /// and its kind wakes the device.  A refused notification is counted as
    /// dropped (wrong target, over the rate limit) or replayed (stale, already
    /// seen); an accepted one is queued and its digest remembered (the 256
    /// most recent are kept).
    pub fn receive_at(&mut self, notif: WakeNotification, now: u64) -> (r: bool)
        requires
            old(self).wf(),
            old(self).received() < u64::MAX,
            old(self).dropped() < u64::MAX,
            old(self).replayed() < u64::MAX,
            old(self).next_id() < u64::MAX,
        ensures
            final(self).wf(),
            final(self).my_key_spec() == old(self).my_key_spec(),
            final(self).received() == old(self).received() + 1,
            received_notification(*old(self), *final(self), notif, now, r),
    {
        self.total_received += 1;
        if !keys_equal(&notif.target_key, &self.my_key) {
            self.total_dropped += 1;
            return false;
        }
        if !notif.is_fresh_at(now) {
            self.total_replayed += 1;
            return false;
        }
        if !notif.verify() {
            self.total_dropped += 1;
            return false;
        }
        if !self.limiter.allow_at(&notif.sender_key, now) {
            self.total_dropped += 1;
            return false;
        }
        let payload = notif.signing_payload();
        let payload_hash = simple_hash(payload.as_slice());
        if digest_in(&self.seen_ids, &payload_hash) {
            self.total_replayed += 1;
            return false;
        }
        self.seen_ids.push(payload_hash);
        if self.seen_ids.len() > MAX_SEEN {
            let ghost s0 = self.seen_ids@;
            self.seen_ids.remove(0);
            proof {
                assert(self.seen_ids@ =~= s0.drop_first());
                assert(self.seen_ids@[self.seen_ids@.len() - 1] == payload_hash);
                assert(digest_listed(self.seen_ids@, payload_hash@));
            }
        } else {
            assert(self.seen_ids@[self.seen_ids@.len() - 1] == payload_hash);
            assert(digest_listed(self.seen_ids@, payload_hash@));
        }
        let should_wake = notif.kind.requires_wake();
        self.queue.push(notif);
        should_wake
    }

    /// Receive a notification now (see `receive_at`).
    pub fn receive(&mut self, notif: WakeNotification) -> (r: bool)
        requires
            old(self).wf(),
            old(self).received() < u64::MAX,
            old(self).dropped() < u64::MAX,
            old(self).replayed() < u64::MAX,
            old(self).next_id() < u64::MAX,
        ensures
            final(self).wf(),
            final(self).received() == old(self).received() + 1,
            notif.target_key != old(self).my_key_spec() ==> !r && final(self).queue_items() == old(self).queue_items(),
            exists|now: u64| #[trigger] received_notification(*old(self), *final(self), notif, now, r),
    {
        let now = now_secs();
        let r = self.receive_at(notif, now);
        assert(received_notification(*old(self), *self, notif, now, r));
        r
    }

    /// The wire bytes of a notification of `kind` from this device to `target_key`.
    pub fn send(&self, target_key: [u8; 32], kind: NotificationKind) -> (v: Vec<u8>)
        ensures
            v@.len() == WIRE_LEN,
            v@.subrange(0, 32) == self.my_key_spec()@,
            v@.subrange(32, 64) == target_key@,
            v@[64] == kind_tag(kind),
            v@.subrange(73, 137) == Seq::new(64, |i: int| 0u8),
    {
        let notif = WakeNotification::new(self.my_key, target_key, kind);
        let v = notif.to_bytes();
        proof {
            law_wire_round_trip(notif, notif.kind, notif.timestamp, 0);
        }
        v
    }

    pub fn unseen_count(&self) -> (r: usize)
        ensures
            r == unseen_spec(self.queue_items()).len(),
    {
        self.queue.unseen_count()
    }

    pub fn queue_len(&self) -> (r: usize)
        ensures
            r == self.queue_items().len(),
    {
        self.queue.len()
    }

    /// Drop expired notifications and stale rate-limiter entries at `now`.
    pub fn gc_at(&mut self, now: u64)
        requires
            old(self).wf(),
        ensures
            final(self).wf(),
            final(self).queue_items() == live_spec(old(self).queue_items(), now),
            forall|k: [u8; 32]|
                #![trigger final(self).limiter_entry(k)]
                final(self).limiter_entry(k) == match old(self).limiter_entry(k) {
                    Some(e) => if now.wrapping_sub(e.1) < 120 {
                        Some(e)
                    } else {
                        None
                    },
                    None => None,
                },
    {
        self.queue.gc_at(now);
        self.limiter.gc_at(now);
    }

    /// Drop expired notifications and stale rate-limiter entries now.
    pub fn gc(&mut self)
        requires
            old(self).wf(),
        ensures
            final(self).wf(),
    {
        self.gc_at(now_secs());
    }
}

/// A notification that was accepted is refused when it arrives again (as
/// long as its digest is still remembered): replays are detected.
pub proof fn law_replay_refused(d: &NotificationDispatcher, n: WakeNotification, now: u64)
    requires
        n.target_key == d.my_key_spec(),
        fresh_at(n, now),
        allow_spec(d.limiter_entry(n.sender_key), now).1,
        digest_listed(d.seen_spec(), simple_hash_spec(signing_payload_spec(n), signing_payload_spec(n).len() as int)),
    ensures
        d.refusal(n, now) == Some(Refusal::Replayed),
{
}

/// A minute after its window opened, a sender may send again, whatever it
/// sent before: the request passes, the count restarts at 1 and the new
/// window opens now.
pub proof fn law_rate_window_reopens(count: u32, window: u64, now: u64)
    requires
        now >= window + 60,
    ensures
        allow_spec(Some((count, window)), now) == ((1u32, now), true),
{
}

/// A sender seen for the first time is let through and counted once, in a
/// window that opens now.
pub proof fn law_rate_first_request(now: u64)
    ensures
        allow_spec(None, now) == ((1u32, now), true),
{
}

/// Within a minute of its window opening, a sender under the limit is let
/// through and counted once more, in the same window.
pub proof fn law_rate_counts_within_window(count: u32, window: u64, now: u64)
    requires
        window <= now,
        now < window + 60,
        count < RATE_LIMIT_PER_MINUTE,
    ensures
        allow_spec(Some((count, window)), now) == (((count + 1) as u32, window), true),
{
}

/// Within one minute window, an eleventh request from the same sender is refused.
pub proof fn law_rate_limit(count: u32, window: u64, now: u64)
    requires
        count >= RATE_LIMIT_PER_MINUTE,
        now.wrapping_sub(window) < 60,
    ensures
        !allow_spec(Some((count, window)), now).1,
{
}

} // verus!
