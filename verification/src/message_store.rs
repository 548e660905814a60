//! The encrypted message store: message contents are sealed with
//! ChaCha20-Poly1305 under a key derived from the owner's key, one counter
//! per message.
use vstd::prelude::*;
use vstd::utf8::encode_utf8;
use crate::clock::now_secs;
use crate::crypto::{decrypt, encrypt, hkdf_sha256, hkdf_sha256_spec, nonce_spec};
use crate::primitives::{chacha_seal_spec, sealable};
use crate::sorting::{order_desc, sorted_desc_order};
use crate::text::{chars_eq, chars_of};

verus! {

pub const DEFAULT_DB_PATH: &'static str = "/run/theos/messages.db";

pub const DEFAULT_RETENTION_DAYS: u64 = 90;

pub const MAX_MESSAGE_LEN: usize = 65_536;

/// The session id of at-rest storage ("theos_ms").
pub const STORE_SESSION_ID: u64 = 0x7468_656f_735f_6d73;

#[derive(Debug, Clone, Copy, PartialEq, Eq, Structural)]
pub enum StoredDelivery {
    Sending,
    Sent,
    Delivered,
    Read,
    Failed,
}

pub open spec fn delivery_code(d: StoredDelivery) -> u8 {
    match d {
        StoredDelivery::Sending => 0,
        StoredDelivery::Sent => 1,
        StoredDelivery::Delivered => 2,
        StoredDelivery::Read => 3,
        StoredDelivery::Failed => 4,
    }
}

pub open spec fn delivery_of(v: u8) -> StoredDelivery {
    if v == 1 {
        StoredDelivery::Sent
    } else if v == 2 {
        StoredDelivery::Delivered
    } else if v == 3 {
        StoredDelivery::Read
    } else if v == 4 {
        StoredDelivery::Failed
    } else {
        StoredDelivery::Sending
    }
}

impl StoredDelivery {
    pub fn as_u8(&self) -> (r: u8)
        ensures
            r == delivery_code(*self),
    {
        match self {
            StoredDelivery::Sending => 0,
            StoredDelivery::Sent => 1,
            StoredDelivery::Delivered => 2,
            StoredDelivery::Read => 3,
            StoredDelivery::Failed => 4,
        }
    }

    /// The state of a stored code; an unknown code reads as sending.
    pub fn from_u8(v: u8) -> (r: Self)
        ensures
            r == delivery_of(v),
    {
        if v == 1 {
            StoredDelivery::Sent
        } else if v == 2 {
            StoredDelivery::Delivered
        } else if v == 3 {
            StoredDelivery::Read
        } else if v == 4 {
            StoredDelivery::Failed
        } else {
            StoredDelivery::Sending
        }
    }

    pub fn label(&self) -> (r: &'static str)
        ensures
            r@ == match *self {
                StoredDelivery::Sending => "sending"@,
                StoredDelivery::Sent => "sent"@,
                StoredDelivery::Delivered => "delivered"@,
                StoredDelivery::Read => "read"@,
                StoredDelivery::Failed => "failed"@,
            },
    {
        match self {
            StoredDelivery::Sending => "sending",
            StoredDelivery::Sent => "sent",
            StoredDelivery::Delivered => "delivered",
            StoredDelivery::Read => "read",
            StoredDelivery::Failed => "failed",
        }
    }
}

/// Every state comes back from its code.
pub proof fn law_delivery_code_round_trip(d: StoredDelivery)
    ensures
        delivery_of(delivery_code(d)) == d,
{
}

/// A stored message; its content is sealed.
#[derive(Debug, Clone)]
pub struct StoredMessage {
    pub id: u64,
    pub conversation_id: String,
    pub from_me: bool,
    pub content_enc: Vec<u8>,
    pub timestamp: u64,
    pub delivery: StoredDelivery,
    pub nonce_counter: u64,
}

impl StoredMessage {
    /// A message stamped now, not yet numbered (id 0) and still sending.
    pub fn new(conversation_id: String, from_me: bool, content_enc: Vec<u8>, nonce_counter: u64) -> (m: Self)
        ensures
            m.id == 0,
            m.conversation_id == conversation_id,
            m.from_me == from_me,
            m.content_enc == content_enc,
            m.delivery == StoredDelivery::Sending,
            m.nonce_counter == nonce_counter,
    {
        StoredMessage {
            id: 0,
            conversation_id,
            from_me,
            content_enc,
            timestamp: now_secs(),
            delivery: StoredDelivery::Sending,
            nonce_counter,
        }
    }
}

#[derive(Debug, Clone)]
pub struct StoredConversation {
    pub contact_key_hex: String,
    pub last_message_at: u64,
    pub unread_count: u32,
    pub retention_days: u64,
    pub created_at: u64,
}

impl StoredConversation {
    /// A conversation created now, with no unread messages and the default
    /// retention.
    pub fn new(contact_key_hex: String) -> (c: Self)
        ensures
            c.contact_key_hex == contact_key_hex,
            c.unread_count == 0,
            c.retention_days == DEFAULT_RETENTION_DAYS,
            c.last_message_at == c.created_at,
    {
        let now = now_secs();
        StoredConversation {
            contact_key_hex,
            last_message_at: now,
            unread_count: 0,
            retention_days: DEFAULT_RETENTION_DAYS,
            created_at: now,
        }
    }
}

/// The storage key: HKDF-SHA256 of the owner key with no salt and the
/// store's label.
pub open spec fn store_key_spec(owner: Seq<u8>) -> Seq<u8> {
    hkdf_sha256_spec(None, owner, encode_utf8("theos-message-store-v1"@), 32)
}

/// What a sealed content opens to under `key` and `counter`: the one message
/// that seals to it, if any.
pub open spec fn opened(key: Seq<u8>, counter: u64, ct: Seq<u8>) -> Option<Seq<u8>> {
    if exists|p: Seq<u8>| sealable(p) && chacha_seal_spec(key, nonce_spec(counter, STORE_SESSION_ID), p) == ct {
        Some(choose|p: Seq<u8>| sealable(p) && chacha_seal_spec(key, nonce_spec(counter, STORE_SESSION_ID), p) == ct)
    } else {
        None
    }
}

/// Seals and opens message content.
pub struct MessageEncryptor {
    key: [u8; 32],
}

impl MessageEncryptor {
    pub closed spec fn key_spec(&self) -> Seq<u8> {
        self.key@
    }

    /// The encryptor of an owner key.
    pub fn new(owner_key: &[u8; 32]) -> (e: Self)
        ensures
            e.key_spec() == store_key_spec(owner_key@),
    {
        let okm = hkdf_sha256(None, owner_key.as_slice(), "theos-message-store-v1".as_bytes(), 32);
        let mut key = [0u8; 32];
        let mut i: usize = 0;
        while i < 32
            invariant
                i <= 32,
                okm@.len() == 32,
                forall|k: int| 0 <= k < i ==> key@[k] == okm@[k],
            decreases 32 - i,
        {
            key[i] = okm[i];
            i += 1;
        }
        assert(key@ =~= okm@);
        MessageEncryptor { key }
    }

    /// Seal content under a counter that is unique per message.
    pub fn encrypt(&self, plaintext: &[u8], counter: u64) -> (ct: Vec<u8>)
        requires
            sealable(plaintext@),
        ensures
            ct@ == chacha_seal_spec(self.key_spec(), nonce_spec(counter, STORE_SESSION_ID), plaintext@),
            ct@.len() == plaintext@.len() + 16,
            opened(self.key_spec(), counter, ct@) == Some(plaintext@),
    {
        match encrypt(&self.key, counter, STORE_SESSION_ID, plaintext) {
            Ok(c) => c,
            Err(_) => Vec::new(),
        }
    }

    /// Open and authenticate content: `None` for tampered content, another
    /// key or another counter.
    pub fn decrypt(&self, ciphertext: &[u8], counter: u64) -> (r: Option<Vec<u8>>)
        ensures
            match opened(self.key_spec(), counter, ciphertext@) {
                Some(p) => r is Some && r->0@ == p,
                None => r is None,
            },
            r is Some ==> ciphertext@.len() == r->0@.len() + 16,
            ciphertext@.len() < 16 ==> r is None,
            forall|p: Seq<u8>|
                sealable(p) && chacha_seal_spec(self.key_spec(), nonce_spec(counter, STORE_SESSION_ID), p) == ciphertext@
                    ==> (r is Some && r->0@ == p),
    {
        match decrypt(&self.key, counter, STORE_SESSION_ID, ciphertext) {
            Ok(p) => {
                proof {
                    let q = choose|q: Seq<u8>| sealable(q) && chacha_seal_spec(self.key@, nonce_spec(counter, STORE_SESSION_ID), q) == ciphertext@;
                    assert(sealable(p@) && chacha_seal_spec(self.key@, nonce_spec(counter, STORE_SESSION_ID), p@) == ciphertext@);
                }
                Some(p)
            },
            Err(_) => {
                proof {
                    if exists|q: Seq<u8>| sealable(q) && chacha_seal_spec(self.key@, nonce_spec(counter, STORE_SESSION_ID), q) == ciphertext@ {
                        let q = choose|q: Seq<u8>| sealable(q) && chacha_seal_spec(self.key@, nonce_spec(counter, STORE_SESSION_ID), q) == ciphertext@;
                        assert(false);
                    }
                }
                None
            },
        }
    }
}

/// The messages of a conversation, in order.
pub open spec fn in_conversation(s: Seq<StoredMessage>, c: Seq<char>) -> Seq<StoredMessage>
    decreases s.len(),
{
    if s.len() == 0 {
        Seq::empty()
    } else if s.last().conversation_id@ == c {
        in_conversation(s.drop_last(), c).push(s.last())
    } else {
        in_conversation(s.drop_last(), c)
    }
}

/// What a reader gets of a message.
pub type MessageRow = (u64, bool, Vec<u8>, u64, StoredDelivery);

/// The readable rows of some messages: those that open, in order.
pub open spec fn opened_rows(key: Seq<u8>, s: Seq<StoredMessage>) -> Seq<(u64, bool, Seq<u8>, u64, StoredDelivery)>
    decreases s.len(),
{
    if s.len() == 0 {
        Seq::empty()
    } else {
        let m = s.last();
        let rest = opened_rows(key, s.drop_last());
        match opened(key, m.nonce_counter, m.content_enc@) {
            Some(p) => rest.push((m.id, m.from_me, p, m.timestamp, m.delivery)),
            None => rest,
        }
    }
}

/// The rows `messages_for` returns: the last `limit` messages of the
/// conversation that open.
pub open spec fn rows_for(key: Seq<u8>, s: Seq<StoredMessage>, c: Seq<char>, limit: int) -> Seq<(u64, bool, Seq<u8>, u64, StoredDelivery)> {
    let f = in_conversation(s, c);
    let start = if f.len() > limit { f.len() - limit } else { 0 };
    opened_rows(key, f.skip(start))
}

pub open spec fn row_view(r: MessageRow) -> (u64, bool, Seq<u8>, u64, StoredDelivery) {
    (r.0, r.1, r.2@, r.3, r.4)
}

/// The first message with this id.
pub open spec fn message_index(s: Seq<StoredMessage>, id: u64, i: int) -> Option<int>
    decreases s.len() - i,
{
    if i < 0 || i >= s.len() {
        None
    } else if s[i].id == id {
        Some(i)
    } else {
        message_index(s, id, i + 1)
    }
}

/// A message after its conversation was read.
pub open spec fn read_mark(m: StoredMessage, c: Seq<char>) -> StoredMessage {
    if m.conversation_id@ == c && !m.from_me && m.delivery == StoredDelivery::Delivered {
        StoredMessage { delivery: StoredDelivery::Read, ..m }
    } else {
        m
    }
}

/// How many messages `mark_read` changes among the first `n`.
pub open spec fn read_count(s: Seq<StoredMessage>, c: Seq<char>, n: int) -> int
    decreases n,
{
    if n <= 0 || n > s.len() {
        0
    } else {
        read_count(s, c, n - 1) + if s[n - 1].conversation_id@ == c && !s[n - 1].from_me && s[n - 1].delivery
            == StoredDelivery::Delivered {
            1int
        } else {
            0int
        }
    }
}

/// The messages kept by a filter on `keep`.
pub open spec fn kept(s: Seq<StoredMessage>, keep: spec_fn(StoredMessage) -> bool) -> Seq<StoredMessage>
    decreases s.len(),
{
    if s.len() == 0 {
        Seq::empty()
    } else if keep(s.last()) {
        kept(s.drop_last(), keep).push(s.last())
    } else {
        kept(s.drop_last(), keep)
    }
}

pub open spec fn gc_cutoff(now: u64) -> u64 {
    if now >= DEFAULT_RETENTION_DAYS * 86400 {
        (now - DEFAULT_RETENTION_DAYS * 86400) as u64
    } else {
        0
    }
}

pub open spec fn distinct_convs(s: Seq<StoredConversation>) -> bool {
    forall|i: int, j: int| 0 <= i < j < s.len() ==> s[i].contact_key_hex@ != s[j].contact_key_hex@
}

/// The conversation with this id, at or after `i`.
pub open spec fn conv_index(s: Seq<StoredConversation>, c: Seq<char>, i: int) -> Option<int>
    decreases s.len() - i,
{
    if i < 0 || i >= s.len() {
        None
    } else if s[i].contact_key_hex@ == c {
        Some(i)
    } else {
        conv_index(s, c, i + 1)
    }
}

pub open spec fn unread_total(s: Seq<StoredConversation>) -> int
    decreases s.len(),
{
    if s.len() == 0 {
        0
    } else {
        unread_total(s.drop_last()) + s.last().unread_count
    }
}

/// The row a reader gets of message `m` whose content opens to `p`.
pub open spec fn row_of(m: StoredMessage, p: Seq<u8>) -> (u64, bool, Seq<u8>, u64, StoredDelivery) {
    (m.id, m.from_me, p, m.timestamp, m.delivery)
}

proof fn lemma_opened_rows_all(key: Seq<u8>, w: Seq<StoredMessage>, plain: Seq<Seq<u8>>)
    requires
        plain.len() == w.len(),
        forall|i: int| 0 <= i < w.len() ==> opened(key, #[trigger] w[i].nonce_counter, w[i].content_enc@) == Some(plain[i]),
    ensures
        opened_rows(key, w) == Seq::new(w.len(), |j: int| row_of(w[j], plain[j])),
    decreases w.len(),
{
    if w.len() > 0 {
        let n = w.len() - 1;
        assert forall|i: int| 0 <= i < w.drop_last().len() implies opened(
            key,
            #[trigger] w.drop_last()[i].nonce_counter,
            w.drop_last()[i].content_enc@,
        ) == Some(plain.drop_last()[i]) by {
            assert(w.drop_last()[i] == w[i]);
        }
        lemma_opened_rows_all(key, w.drop_last(), plain.drop_last());
        assert(opened(key, w[n].nonce_counter, w[n].content_enc@) == Some(plain[n]));
        assert(opened_rows(key, w) =~= Seq::new(w.len(), |j: int| row_of(w[j], plain[j])));
    }
}

/// Reading back what was stored: when every message of conversation `c`
/// opens to the content it was stored with (`plain`, in order), the rows
/// `messages_for` gives are the last `limit` of them, oldest first, each
/// with its own content.
pub proof fn law_read_back(key: Seq<u8>, s: Seq<StoredMessage>, c: Seq<char>, limit: int, plain: Seq<Seq<u8>>)
    requires
        0 <= limit,
        plain.len() == in_conversation(s, c).len(),
        forall|i: int|
            0 <= i < plain.len() ==> opened(
                key,
                #[trigger] in_conversation(s, c)[i].nonce_counter,
                in_conversation(s, c)[i].content_enc@,
            ) == Some(plain[i]),
    ensures
        ({
            let f = in_conversation(s, c);
            let start = if f.len() > limit { f.len() - limit } else { 0 };
            rows_for(key, s, c, limit) == Seq::new(
                (f.len() - start) as nat,
                |j: int| row_of(f[start + j], plain[start + j]),
            )
        }),
{
    let f = in_conversation(s, c);
    let start = if f.len() > limit { f.len() - limit } else { 0 };
    let w = f.skip(start);
    let pw = plain.skip(start);
    assert forall|i: int| 0 <= i < w.len() implies opened(key, #[trigger] w[i].nonce_counter, w[i].content_enc@)
        == Some(pw[i]) by {
        assert(w[i] == f[start + i]);
        assert(f[start + i].nonce_counter == w[i].nonce_counter);
    }
    lemma_opened_rows_all(key, w, pw);
    assert(opened_rows(key, w) =~= Seq::new((f.len() - start) as nat, |j: int| row_of(f[start + j], plain[start + j])));
}

/// The message just stored is the last row read back from its conversation,
/// with the content it was stored with.
pub proof fn law_store_then_read_last(key: Seq<u8>, s: Seq<StoredMessage>, m: StoredMessage, p: Seq<u8>, limit: int)
    requires
        1 <= limit,
        opened(key, m.nonce_counter, m.content_enc@) == Some(p),
    ensures
        rows_for(key, s.push(m), m.conversation_id@, limit).len() > 0,
        rows_for(key, s.push(m), m.conversation_id@, limit).last() == row_of(m, p),
{
    let c = m.conversation_id@;
    let t = s.push(m);
    assert(t.drop_last() =~= s);
    let f = in_conversation(t, c);
    assert(f == in_conversation(s, c).push(m));
    let start = if f.len() > limit { f.len() - limit } else { 0 };
    let w = f.skip(start);
    assert(w.len() > 0);
    assert(w.last() == m);
}

proof fn lemma_prefix_step<A>(s: Seq<A>, i: int)
    requires
        0 <= i < s.len(),
    ensures
        s.take(i + 1).drop_last() == s.take(i),
        s.take(i + 1).last() == s[i],
{
    assert(s.take(i + 1).drop_last() =~= s.take(i));
}

proof fn lemma_conv_index(s: Seq<StoredConversation>, c: Seq<char>, i: int)
    requires
        0 <= i,
    ensures
        conv_index(s, c, i) matches Some(j) ==> i <= j < s.len() && s[j].contact_key_hex@ == c,
        conv_index(s, c, i) is None ==> forall|k: int| i <= k < s.len() ==> s[k].contact_key_hex@ != c,
    decreases s.len() - i,
{
    if i < s.len() && s[i].contact_key_hex@ != c {
        lemma_conv_index(s, c, i + 1);
    }
}

proof fn lemma_unread_prefix(s: Seq<StoredConversation>, k: int)
    requires
        0 <= k <= s.len(),
    ensures
        unread_total(s.take(k)) <= unread_total(s),
    decreases s.len(),
{
    if k < s.len() {
        assert(s.drop_last().take(k) =~= s.take(k));
        lemma_unread_prefix(s.drop_last(), k);
    } else {
        assert(s.take(k) =~= s);
    }
}

/// The in-memory message store.
pub struct MessageStore {
    conversations: Vec<StoredConversation>,
    messages: Vec<StoredMessage>,
    encryptor: MessageEncryptor,
    next_id: u64,
    send_counter: u64,
}

impl MessageStore {
    pub closed spec fn convs(&self) -> Seq<StoredConversation> {
        self.conversations@
    }

    pub closed spec fn msgs(&self) -> Seq<StoredMessage> {
        self.messages@
    }

    pub closed spec fn key(&self) -> Seq<u8> {
        self.encryptor.key_spec()
    }

    pub closed spec fn next_id_spec(&self) -> u64 {
        self.next_id
    }

    pub closed spec fn counter_spec(&self) -> u64 {
        self.send_counter
    }

    pub open spec fn wf(&self) -> bool {
        distinct_convs(self.convs())
    }

    /// The last-message times of the conversations.
    pub open spec fn last_times(&self) -> Seq<u64> {
        Seq::new(self.convs().len(), |k: int| self.convs()[k].last_message_at)
    }

    /// An empty store for an owner key.
    pub fn new_memory(owner_key: &[u8; 32]) -> (s: Self)
        ensures
            s.wf(),
            s.convs().len() == 0,
            s.msgs().len() == 0,
            s.key() == store_key_spec(owner_key@),
            s.next_id_spec() == 1,
            s.counter_spec() == 0,
    {
        MessageStore {
            conversations: Vec::new(),
            messages: Vec::new(),
            encryptor: MessageEncryptor::new(owner_key),
            next_id: 1,
            send_counter: 0,
        }
    }

    fn find_conv(&self, c: &str) -> (r: Option<usize>)
        ensures
            match r {
                Some(i) => conv_index(self.convs(), c@, 0) == Some(i as int),
                None => conv_index(self.convs(), c@, 0) is None,
            },
    {
        let target = chars_of(c);
        let mut i: usize = 0;
        while i < self.conversations.len()
            invariant
                target@ == c@,
                i <= self.conversations@.len(),
                conv_index(self.conversations@, c@, 0) == conv_index(self.conversations@, c@, i as int),
            decreases self.conversations@.len() - i,
        {
            let k = chars_of(self.conversations[i].contact_key_hex.as_str());
            if chars_eq(k.as_slice(), target.as_slice()) {
                return Some(i);
            }
            i += 1;
        }
        None
    }

    /// Seal and store a message, creating its conversation when needed; the
    /// message's id comes back.
    pub fn store_message(&mut self, conversation_id: &str, from_me: bool, plaintext: &[u8]) -> (id: u64)
        requires
            old(self).wf(),
            sealable(plaintext@),
            old(self).next_id_spec() < u64::MAX,
            old(self).counter_spec() < u64::MAX,
            forall|i: int| 0 <= i < old(self).convs().len() && old(self).convs()[i].contact_key_hex@ == conversation_id@
                ==> old(self).convs()[i].unread_count < u32::MAX,
        ensures
            final(self).wf(),
            id == old(self).next_id_spec(),
            final(self).next_id_spec() == old(self).next_id_spec() + 1,
            final(self).counter_spec() == old(self).counter_spec() + 1,
            final(self).key() == old(self).key(),
            final(self).msgs().len() == old(self).msgs().len() + 1,
            final(self).msgs().drop_last() == old(self).msgs(),
            final(self).msgs().last().id == id,
            final(self).msgs().last().conversation_id@ == conversation_id@,
            final(self).msgs().last().from_me == from_me,
            final(self).msgs().last().delivery == StoredDelivery::Sending,
            final(self).msgs().last().nonce_counter == old(self).counter_spec(),
            final(self).msgs().last().content_enc@ == chacha_seal_spec(
                old(self).key(),
                nonce_spec(old(self).counter_spec(), STORE_SESSION_ID),
                plaintext@,
            ),
            opened(final(self).key(), final(self).msgs().last().nonce_counter, final(self).msgs().last().content_enc@)
                == Some(plaintext@),
            match conv_index(old(self).convs(), conversation_id@, 0) {
                Some(i) => final(self).convs().len() == old(self).convs().len() && final(self).convs()[i].unread_count
                    == old(self).convs()[i].unread_count + (if from_me { 0int } else { 1int }) && forall|j: int|
                    0 <= j < old(self).convs().len() && j != i ==> final(self).convs()[j] == old(self).convs()[j],
                None => final(self).convs().len() == old(self).convs().len() + 1 && final(self).convs().last().contact_key_hex@
                    == conversation_id@ && final(self).convs().last().unread_count == (if from_me { 0int } else { 1int })
                    && final(self).convs().drop_last() == old(self).convs(),
            },
    {
        let counter = self.send_counter;
        self.send_counter = self.send_counter + 1;
        let encrypted = self.encryptor.encrypt(plaintext, counter);
        let id = self.next_id;
        self.next_id = self.next_id + 1;
        let mut msg = StoredMessage::new(conversation_id.to_owned(), from_me, encrypted, counter);
        msg.id = id;
        proof {
            lemma_conv_index(self.conversations@, conversation_id@, 0);
        }
        let idx = match self.find_conv(conversation_id) {
            Some(i) => i,
            None => {
                self.conversations.push(StoredConversation::new(conversation_id.to_owned()));
                proof {
                    let v = self.conversations@;
                    assert forall|a: int, b: int| 0 <= a < b < v.len() implies v[a].contact_key_hex@
                        != v[b].contact_key_hex@ by {
                        if b < v.len() - 1 {
                            assert(v[a] == old(self).conversations@[a] && v[b] == old(self).conversations@[b]);
                        } else {
                            assert(v[a] == old(self).conversations@[a]);
                        }
                    }
                }
                self.conversations.len() - 1
            },
        };
        let now = now_secs();
        self.conversations[idx].last_message_at = now;
        if !from_me {
            self.conversations[idx].unread_count = self.conversations[idx].unread_count + 1;
        }
        self.messages.push(msg);
        proof {
            assert(self.messages@.drop_last() =~= old(self).messages@);
            let v = self.conversations@;
            assert forall|a: int, b: int| 0 <= a < b < v.len() implies v[a].contact_key_hex@
                != v[b].contact_key_hex@ by {
            }
            if conv_index(old(self).conversations@, conversation_id@, 0) is None {
                assert(v.drop_last() =~= old(self).conversations@);
            }
        }
        id
    }

    /// The last `limit` messages of a conversation that open, oldest first,
    /// as (id, from me, content, timestamp, delivery).
    pub fn messages_for(&self, conversation_id: &str, limit: usize) -> (rows: Vec<MessageRow>)
        ensures
            rows@.len() == rows_for(self.key(), self.msgs(), conversation_id@, limit as int).len(),
            forall|k: int| 0 <= k < rows@.len() ==> row_view(#[trigger] rows@[k]) == rows_for(
                self.key(),
                self.msgs(),
                conversation_id@,
                limit as int,
            )[k],
    {
        let target = chars_of(conversation_id);
        let mut filtered: Vec<&StoredMessage> = Vec::new();
        let mut i: usize = 0;
        while i < self.messages.len()
            invariant
                target@ == conversation_id@,
                i <= self.messages@.len(),
                filtered@.len() == in_conversation(self.messages@.take(i as int), conversation_id@).len(),
                forall|k: int| 0 <= k < filtered@.len() ==> *filtered@[k] == in_conversation(self.messages@.take(i as int), conversation_id@)[k],
            decreases self.messages@.len() - i,
        {
            proof {
                lemma_prefix_step(self.messages@, i as int);
            }
            let c = chars_of(self.messages[i].conversation_id.as_str());
            if chars_eq(c.as_slice(), target.as_slice()) {
                filtered.push(&self.messages[i]);
            }
            i += 1;
        }
        assert(self.messages@.take(self.messages@.len() as int) =~= self.messages@);
        let ghost f = in_conversation(self.messages@, conversation_id@);
        let skip = if filtered.len() > limit {
            filtered.len() - limit
        } else {
            0
        };
        let mut rows: Vec<MessageRow> = Vec::new();
        let mut k = skip;
        while k < filtered.len()
            invariant
                skip <= k <= filtered@.len(),
                filtered@.len() == f.len(),
                forall|j: int| 0 <= j < filtered@.len() ==> *filtered@[j] == f[j],
                rows@.len() == opened_rows(self.key(), f.subrange(skip as int, k as int)).len(),
                forall|j: int| 0 <= j < rows@.len() ==> row_view(#[trigger] rows@[j]) == opened_rows(self.key(), f.subrange(skip as int, k as int))[j],
            decreases filtered@.len() - k,
        {
            let m = filtered[k];
            proof {
                assert(f.subrange(skip as int, k + 1).drop_last() =~= f.subrange(skip as int, k as int));
            }
            match self.encryptor.decrypt(m.content_enc.as_slice(), m.nonce_counter) {
                Some(pt) => {
                    rows.push((m.id, m.from_me, pt, m.timestamp, m.delivery));
                },
                None => {},
            }
            k += 1;
        }
        assert(f.subrange(skip as int, f.len() as int) =~= f.skip(skip as int));
        rows
    }

    /// Set the delivery state of the first message with this id; whether
    /// there was one.
    pub fn update_delivery(&mut self, message_id: u64, delivery: StoredDelivery) -> (r: bool)
        ensures
            final(self).convs() == old(self).convs(),
            final(self).key() == old(self).key(),
            final(self).next_id_spec() == old(self).next_id_spec(),
            final(self).counter_spec() == old(self).counter_spec(),
            match message_index(old(self).msgs(), message_id, 0) {
                Some(i) => r && final(self).msgs() == old(self).msgs().update(
                    i,
                    StoredMessage { delivery, ..old(self).msgs()[i] },
                ),
                None => !r && final(self).msgs() == old(self).msgs(),
            },
    {
        let mut i: usize = 0;
        while i < self.messages.len()
            invariant
                i <= self.messages@.len(),
                self.messages@ == old(self).messages@,
                self.conversations@ == old(self).conversations@,
                self.encryptor == old(self).encryptor,
                self.next_id == old(self).next_id,
                self.send_counter == old(self).send_counter,
                message_index(old(self).messages@, message_id, 0) == message_index(old(self).messages@, message_id, i as int),
            decreases self.messages@.len() - i,
        {
            if self.messages[i].id == message_id {
                let ghost before = self.messages@;
                self.messages[i].delivery = delivery;
                assert(self.messages@ =~= before.update(i as int, StoredMessage { delivery, ..before[i as int] }));
                return true;
            }
            i += 1;
        }
        false
    }

    /// Mark a conversation read: its delivered incoming messages become
    /// read (their number comes back) and its unread count is cleared.
    pub fn mark_read(&mut self, conversation_id: &str) -> (r: u32)
        requires
            old(self).wf(),
            old(self).msgs().len() <= u32::MAX,
        ensures
            final(self).wf(),
            r == read_count(old(self).msgs(), conversation_id@, old(self).msgs().len() as int),
            final(self).msgs().len() == old(self).msgs().len(),
            forall|k: int| 0 <= k < old(self).msgs().len() ==> final(self).msgs()[k] == read_mark(old(self).msgs()[k], conversation_id@),
            final(self).convs().len() == old(self).convs().len(),
            forall|k: int| 0 <= k < old(self).convs().len() ==> final(self).convs()[k] == (if old(self).convs()[k].contact_key_hex@ == conversation_id@ {
                StoredConversation { unread_count: 0, ..old(self).convs()[k] }
            } else {
                old(self).convs()[k]
            }),
            final(self).key() == old(self).key(),
            final(self).next_id_spec() == old(self).next_id_spec(),
            final(self).counter_spec() == old(self).counter_spec(),
    {
        let target = chars_of(conversation_id);
        let mut count: u32 = 0;
        let n = self.messages.len();
        let mut i: usize = 0;
        while i < n
            invariant
                target@ == conversation_id@,
                n == old(self).messages@.len(),
                n <= u32::MAX,
                i <= n,
                self.messages@.len() == n,
                count == read_count(old(self).messages@, conversation_id@, i as int),
                count <= i,
                forall|k: int| 0 <= k < i ==> self.messages@[k] == read_mark(old(self).messages@[k], conversation_id@),
                forall|k: int| i <= k < n ==> self.messages@[k] == old(self).messages@[k],
                self.conversations@ == old(self).conversations@,
                self.encryptor == old(self).encryptor,
                self.next_id == old(self).next_id,
                self.send_counter == old(self).send_counter,
            decreases n - i,
        {
            let c = chars_of(self.messages[i].conversation_id.as_str());
            if chars_eq(c.as_slice(), target.as_slice()) && !self.messages[i].from_me
                && self.messages[i].delivery == StoredDelivery::Delivered {
                self.messages[i].delivery = StoredDelivery::Read;
                count = count + 1;
            }
            i += 1;
        }
        proof {
            lemma_conv_index(self.conversations@, conversation_id@, 0);
        }
        match self.find_conv(conversation_id) {
            Some(j) => {
                self.conversations[j].unread_count = 0;
                proof {
                    let v = self.conversations@;
                    assert forall|k: int| 0 <= k < v.len() implies v[k] == (if old(self).conversations@[k].contact_key_hex@
                        == conversation_id@ {
                        StoredConversation { unread_count: 0, ..old(self).conversations@[k] }
                    } else {
                        old(self).conversations@[k]
                    }) by {
                        if k != j {
                            assert(old(self).conversations@[k].contact_key_hex@ != old(self).conversations@[j as int].contact_key_hex@);
                        }
                    }
                }
            },
            None => {},
        }
        count
    }

    /// Drop messages at or before the retention cutoff of `now`; how many
    /// went.
    pub fn gc_at(&mut self, now: u64) -> (r: usize)
        ensures
            final(self).msgs() == kept(old(self).msgs(), |m: StoredMessage| m.timestamp > gc_cutoff(now)),
            r == old(self).msgs().len() - final(self).msgs().len(),
            final(self).convs() == old(self).convs(),
            final(self).key() == old(self).key(),
            final(self).next_id_spec() == old(self).next_id_spec(),
            final(self).counter_spec() == old(self).counter_spec(),
    {
        let cutoff = now.saturating_sub(DEFAULT_RETENTION_DAYS * 86400);
        let ghost keep = |m: StoredMessage| m.timestamp > gc_cutoff(now);
        let before = self.messages.len();
        let mut out: Vec<StoredMessage> = Vec::new();
        let mut old_msgs: Vec<StoredMessage> = Vec::new();
        std::mem::swap(&mut old_msgs, &mut self.messages);
        let ghost src = old_msgs@;
        let ghost mut i: int = 0;
        while old_msgs.len() > 0
            invariant
                src == old(self).messages@,
                0 <= i <= src.len(),
                old_msgs@ == src.skip(i),
                out@ == kept(src.take(i), keep),
                out@.len() <= i,
                cutoff == gc_cutoff(now),
                forall|m: StoredMessage| #[trigger] keep(m) == (m.timestamp > cutoff),
            decreases old_msgs@.len(),
        {
            proof {
                lemma_prefix_step(src, i);
            }
            let m = old_msgs.remove(0);
            proof {
                assert(m == src[i]);
                assert(kept(src.take(i + 1), keep) == (if keep(src[i]) {
                    kept(src.take(i), keep).push(src[i])
                } else {
                    kept(src.take(i), keep)
                }));
            }
            if m.timestamp > cutoff {
                out.push(m);
            }
            proof {
                assert(old_msgs@ =~= src.skip(i + 1));
                i = i + 1;
            }
        }
        proof {
            assert(src.skip(i).len() == 0);
        }
        assert(src.take(src.len() as int) =~= src);
        self.messages = out;
        before - self.messages.len()
    }

    /// Delete a conversation and all its messages; how many messages went.
    pub fn delete_conversation(&mut self, conversation_id: &str) -> (r: usize)
        requires
            old(self).wf(),
        ensures
            final(self).wf(),
            final(self).msgs() == kept(old(self).msgs(), |m: StoredMessage| m.conversation_id@ != conversation_id@),
            r == old(self).msgs().len() - final(self).msgs().len(),
            conv_index(final(self).convs(), conversation_id@, 0) is None,
            forall|c: Seq<char>| c != conversation_id@ ==> (conv_index(final(self).convs(), c, 0) is Some <==> conv_index(old(self).convs(), c, 0) is Some),
            final(self).key() == old(self).key(),
            final(self).next_id_spec() == old(self).next_id_spec(),
            final(self).counter_spec() == old(self).counter_spec(),
    {
        let target = chars_of(conversation_id);
        let ghost keep = |m: StoredMessage| m.conversation_id@ != conversation_id@;
        let before = self.messages.len();
        let mut out: Vec<StoredMessage> = Vec::new();
        let mut old_msgs: Vec<StoredMessage> = Vec::new();
        std::mem::swap(&mut old_msgs, &mut self.messages);
        let ghost src = old_msgs@;
        let ghost mut i: int = 0;
        while old_msgs.len() > 0
            invariant
                src == old(self).messages@,
                target@ == conversation_id@,
                forall|m: StoredMessage| #[trigger] keep(m) == (m.conversation_id@ != conversation_id@),
                0 <= i <= src.len(),
                old_msgs@ == src.skip(i),
                out@ == kept(src.take(i), keep),
                out@.len() <= i,
            decreases old_msgs@.len(),
        {
            proof {
                lemma_prefix_step(src, i);
            }
            let m = old_msgs.remove(0);
            proof {
                assert(m == src[i]);
                assert(kept(src.take(i + 1), keep) == (if keep(src[i]) {
                    kept(src.take(i), keep).push(src[i])
                } else {
                    kept(src.take(i), keep)
                }));
            }
            let c = chars_of(m.conversation_id.as_str());
            if !chars_eq(c.as_slice(), target.as_slice()) {
                out.push(m);
            }
            proof {
                assert(old_msgs@ =~= src.skip(i + 1));
                i = i + 1;
            }
        }
        proof {
            assert(src.skip(i).len() == 0);
        }
        assert(src.take(src.len() as int) =~= src);
        self.messages = out;
        proof {
            lemma_conv_index(self.conversations@, conversation_id@, 0);
        }
        match self.find_conv(conversation_id) {
            Some(j) => {
                let ghost ov = self.conversations@;
                self.conversations.remove(j);
                proof {
                    let v = self.conversations@;
                    assert(v =~= ov.remove(j as int));
                    assert forall|a: int, b: int| 0 <= a < b < v.len() implies v[a].contact_key_hex@ != v[b].contact_key_hex@ by {
                        let oa = if a < j { a } else { a + 1 };
                        let ob = if b < j { b } else { b + 1 };
                        assert(v[a] == ov[oa] && v[b] == ov[ob]);
                    }
                    lemma_conv_index(v, conversation_id@, 0);
                    assert forall|k: int| 0 <= k < v.len() implies v[k].contact_key_hex@ != conversation_id@ by {
                        let ok = if k < j { k } else { k + 1 };
                        assert(v[k] == ov[ok]);
                    }
                    assert forall|c: Seq<char>| c != conversation_id@ implies (conv_index(v, c, 0) is Some <==> conv_index(ov, c, 0) is Some) by {
                        lemma_conv_index(v, c, 0);
                        lemma_conv_index(ov, c, 0);
                        if conv_index(ov, c, 0) is Some {
                            let k = conv_index(ov, c, 0)->0;
                            assert(k != j);
                            let nk = if k < j { k } else { k - 1 };
                            assert(v[nk] == ov[k]);
                        }
                        if conv_index(v, c, 0) is Some {
                            let k = conv_index(v, c, 0)->0;
                            let ok = if k < j { k } else { k + 1 };
                            assert(v[k] == ov[ok]);
                        }
                    }
                }
            },
            None => {},
        }
        before - self.messages.len()
    }

    /// Drop messages older than the retention period, by the clock.
    pub fn gc(&mut self) -> (r: usize)
        ensures
            r == old(self).msgs().len() - final(self).msgs().len(),
            final(self).convs() == old(self).convs(),
    {
        self.gc_at(now_secs())
    }

    /// Add a message kept elsewhere, with its own id, time, delivery state
    /// and sealed content, after the others; conversations, ids and
    /// counters are left as they are.
    pub fn restore_message(&mut self, msg: StoredMessage)
        ensures
            old(self).wf() ==> final(self).wf(),
            final(self).msgs() == old(self).msgs().push(msg),
            final(self).convs() == old(self).convs(),
            final(self).key() == old(self).key(),
            final(self).next_id_spec() == old(self).next_id_spec(),
            final(self).counter_spec() == old(self).counter_spec(),
    {
        self.messages.push(msg);
    }

    /// Set the last-message time of a conversation; whether it exists.
    pub fn set_last_message_at(&mut self, conversation_id: &str, at: u64) -> (r: bool)
        ensures
            old(self).wf() ==> final(self).wf(),
            final(self).msgs() == old(self).msgs(),
            final(self).key() == old(self).key(),
            final(self).next_id_spec() == old(self).next_id_spec(),
            final(self).counter_spec() == old(self).counter_spec(),
            match conv_index(old(self).convs(), conversation_id@, 0) {
                Some(i) => r && final(self).convs() == old(self).convs().update(
                    i,
                    (StoredConversation { last_message_at: at, ..old(self).convs()[i] }),
                ),
                None => !r && final(self).convs() == old(self).convs(),
            },
    {
        proof {
            lemma_conv_index(self.conversations@, conversation_id@, 0);
        }
        match self.find_conv(conversation_id) {
            Some(i) => {
                self.conversations[i].last_message_at = at;
                true
            },
            None => false,
        }
    }

    pub fn conversation_count(&self) -> (r: usize)
        ensures
            r == self.convs().len(),
    {
        self.conversations.len()
    }

    pub fn message_count(&self) -> (r: usize)
        ensures
            r == self.msgs().len(),
    {
        self.messages.len()
    }

    pub fn total_message_count(&self) -> (r: usize)
        ensures
            r == self.msgs().len(),
    {
        self.messages.len()
    }

    /// The conversation with this id.
    pub fn conversation(&self, id: &str) -> (r: Option<&StoredConversation>)
        ensures
            match conv_index(self.convs(), id@, 0) {
                Some(i) => r is Some && *r->0 == self.convs()[i],
                None => r is None,
            },
    {
        proof {
            lemma_conv_index(self.conversations@, id@, 0);
        }
        match self.find_conv(id) {
            Some(i) => Some(&self.conversations[i]),
            None => None,
        }
    }

    /// The conversations, most recent message first; ties keep their
    /// creation order.
    pub fn conversations_sorted(&self) -> (v: Vec<&StoredConversation>)
        ensures
            exists|idx: Seq<int>| {
                &&& #[trigger] sorted_desc_order(self.last_times(), idx)
                &&& v@.len() == idx.len()
                &&& forall|k: int| 0 <= k < v@.len() ==> *v@[k] == self.convs()[#[trigger] idx[k]]
            },
    {
        let mut keys: Vec<u64> = Vec::new();
        let mut i: usize = 0;
        while i < self.conversations.len()
            invariant
                i <= self.conversations@.len(),
                keys@.len() == i,
                forall|k: int| 0 <= k < i ==> keys@[k] == self.conversations@[k].last_message_at,
            decreases self.conversations@.len() - i,
        {
            keys.push(self.conversations[i].last_message_at);
            i += 1;
        }
        assert(keys@ =~= self.last_times());
        let order = order_desc(keys.as_slice());
        let ghost idx = Seq::new(order@.len(), |k: int| order@[k] as int);
        let mut v: Vec<&StoredConversation> = Vec::new();
        let mut k: usize = 0;
        while k < order.len()
            invariant
                k <= order@.len(),
                idx == Seq::new(order@.len(), |k: int| order@[k] as int),
                sorted_desc_order(keys@, idx),
                keys@.len() == self.conversations@.len(),
                v@.len() == k,
                forall|j: int| 0 <= j < k ==> *v@[j] == self.conversations@[#[trigger] idx[j]],
            decreases order@.len() - k,
        {
            assert(0 <= idx[k as int] < keys@.len());
            v.push(&self.conversations[order[k]]);
            k += 1;
        }
        assert(sorted_desc_order(self.last_times(), idx));
        v
    }

    /// Unread messages over all conversations.
    pub fn total_unread(&self) -> (r: u32)
        requires
            unread_total(self.convs()) <= u32::MAX,
        ensures
            r == unread_total(self.convs()),
    {
        let mut total: u32 = 0;
        let mut i: usize = 0;
        while i < self.conversations.len()
            invariant
                i <= self.conversations@.len(),
                unread_total(self.conversations@) <= u32::MAX,
                total == unread_total(self.conversations@.take(i as int)),
            decreases self.conversations@.len() - i,
        {
            proof {
                lemma_prefix_step(self.conversations@, i as int);
                lemma_unread_prefix(self.conversations@, i + 1);
            }
            total = total + self.conversations[i].unread_count;
            i += 1;
        }
        assert(self.conversations@.take(self.conversations@.len() as int) =~= self.conversations@);
        total
    }
}

} // verus!
