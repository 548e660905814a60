//! The bridge to Signal contacts: registration ids and pre-key bundles
//! derived from the device identity, demonstration ratchet sessions, and
//! routing between the native and the Signal protocol.
use vstd::prelude::*;
use std::collections::HashMap;
use vstd::bytes::{spec_u32_to_le_bytes, u32_to_le_bytes};
use vstd::utf8::encode_utf8;
use crate::clock::now_secs;
use crate::identity::keypair::IdentityKey;
use crate::primitives::{sha256, sha256_spec};

verus! {

pub const SIGNED_PREKEY_ID: u32 = 1;

pub const REGISTRATION_ID_MAX: u32 = 16380;

fn append(out: &mut Vec<u8>, data: &[u8])
    ensures
        final(out)@ == old(out)@ + data@,
{
    let mut i: usize = 0;
    while i < data.len()
        invariant
            i <= data@.len(),
            out@ == old(out)@ + data@.take(i as int),
        decreases data@.len() - i,
    {
        out.push(data[i]);
        proof {
            assert(out@ =~= old(out)@ + data@.take(i + 1));
        }
        i += 1;
    }
    assert(data@.take(data@.len() as int) =~= data@);
}

/// SHA-256 of two parts.
fn hash2(a: &[u8], b: &[u8]) -> (h: [u8; 32])
    ensures
        h@ == sha256_spec(a@ + b@),
{
    let mut m: Vec<u8> = Vec::new();
    append(&mut m, a);
    append(&mut m, b);
    sha256(m.as_slice())
}

/// SHA-256 of three parts.
fn hash3(a: &[u8], b: &[u8], c: &[u8]) -> (h: [u8; 32])
    ensures
        h@ == sha256_spec(a@ + b@ + c@),
{
    let mut m: Vec<u8> = Vec::new();
    append(&mut m, a);
    append(&mut m, b);
    append(&mut m, c);
    sha256(m.as_slice())
}

/// The registration id of a key: the first two bytes of SHA-256 over the
/// key and a label, little-endian, reduced to 1..=16380.
pub open spec fn registration_id_spec(pubkey: Seq<u8>) -> u32 {
    let h = sha256_spec(pubkey + encode_utf8("theos-signal-regid-v1"@));
    (((h[0] + 256 * h[1]) % (REGISTRATION_ID_MAX as int)) + 1) as u32
}

pub fn derive_registration_id(pubkey: &IdentityKey) -> (r: u32)
    ensures
        r == registration_id_spec(pubkey.0@),
        1 <= r <= REGISTRATION_ID_MAX,
{
    let h = hash2(&pubkey.0, "theos-signal-regid-v1".as_bytes());
    let raw: u32 = h[0] as u32 + 256 * (h[1] as u32);
    (raw % REGISTRATION_ID_MAX) + 1
}

/// A demonstration pre-key bundle.
#[derive(Debug, Clone)]
pub struct PreKeyBundle {
    pub registration_id: u32,
    pub device_id: u32,
    pub prekey_id: u32,
    pub prekey_public: [u8; 32],
    pub signed_prekey_id: u32,
    pub signed_prekey: [u8; 32],
    pub signed_prekey_sig: Vec<u8>,
    pub identity_key: IdentityKey,
}

impl PreKeyBundle {
    /// The demonstration bundle of an identity: pre-keys are hashes of the
    /// identity (not secure; real X3DH needs the private key).
    pub fn new_demo(identity: &IdentityKey, prekey_id: u32) -> (b: Self)
        ensures
            b.registration_id == registration_id_spec(identity.0@),
            b.device_id == 1,
            b.prekey_id == prekey_id,
            b.prekey_public@ == sha256_spec(identity.0@ + encode_utf8("theos-prekey-demo"@) + spec_u32_to_le_bytes(prekey_id)),
            b.signed_prekey_id == SIGNED_PREKEY_ID,
            b.signed_prekey@ == sha256_spec(identity.0@ + encode_utf8("theos-signed-prekey-demo"@)),
            b.signed_prekey_sig@ == Seq::new(64, |i: int| 0u8),
            b.identity_key == *identity,
    {
        let id_bytes = u32_to_le_bytes(prekey_id);
        let prekey_public = hash3(&identity.0, "theos-prekey-demo".as_bytes(), id_bytes.as_slice());
        let signed_prekey = hash2(&identity.0, "theos-signed-prekey-demo".as_bytes());
        let sig = vec![0u8; 64];
        assert(sig@ =~= Seq::new(64, |i: int| 0u8));
        PreKeyBundle {
            registration_id: derive_registration_id(identity),
            device_id: 1,
            prekey_id,
            prekey_public,
            signed_prekey_id: SIGNED_PREKEY_ID,
            signed_prekey,
            signed_prekey_sig: sig,
            identity_key: IdentityKey(identity.0),
        }
    }
}

#[derive(Debug, Clone, PartialEq)]
pub enum RatchetState {
    Uninitialized,
    Active {
        send_chain_key: [u8; 32],
        recv_chain_key: [u8; 32],
        send_message_num: u32,
        recv_message_num: u32,
        prev_send_count: u32,
    },
    Closed,
}

/// A session with one Signal contact.
#[derive(Debug, Clone)]
pub struct SignalSession {
    pub contact_key: IdentityKey,
    pub state: RatchetState,
    pub skipped_keys: HashMap<u32, [u8; 32]>,
    pub created_at: u64,
    pub last_message_at: Option<u64>,
}

/// The sending chain key a session starts with.
pub open spec fn send_chain_spec(mine: Seq<u8>, theirs: Seq<u8>) -> Seq<u8> {
    sha256_spec(mine + theirs + encode_utf8("theos-x3dh-demo-send"@))
}

/// The receiving chain key a session starts with.
pub open spec fn recv_chain_spec(mine: Seq<u8>, theirs: Seq<u8>) -> Seq<u8> {
    sha256_spec(theirs + mine + encode_utf8("theos-x3dh-demo-recv"@))
}

/// The message key of a sending step.
pub open spec fn msg_key_spec(chain: Seq<u8>) -> Seq<u8> {
    sha256_spec(chain + encode_utf8("theos-msg-key"@))
}

/// The chain key after a sending step.
pub open spec fn chain_advance_spec(chain: Seq<u8>) -> Seq<u8> {
    sha256_spec(chain + encode_utf8("theos-chain-advance"@))
}

impl SignalSession {
    /// A session not yet initialized, created now.
    pub fn new(contact_key: IdentityKey) -> (s: Self)
        ensures
            s.contact_key == contact_key,
            s.state == RatchetState::Uninitialized,
            s.skipped_keys@ == Map::<u32, [u8; 32]>::empty(),
            s.last_message_at is None,
    {
        SignalSession {
            contact_key,
            state: RatchetState::Uninitialized,
            skipped_keys: HashMap::new(),
            created_at: now_secs(),
            last_message_at: None,
        }
    }

    pub fn is_active(&self) -> (r: bool)
        ensures
            r == (self.state is Active),
    {
        match self.state {
            RatchetState::Active { .. } => true,
            _ => false,
        }
    }

    /// Start the ratchet from a bundle: both chain keys are hashes of the
    /// two identities (demonstration only).
    pub fn initialize_from_bundle(&mut self, bundle: &PreKeyBundle, my_key: &IdentityKey)
        ensures
            final(self).state is Active,
            final(self).state->send_chain_key@ == send_chain_spec(my_key.0@, bundle.identity_key.0@),
            final(self).state->recv_chain_key@ == recv_chain_spec(my_key.0@, bundle.identity_key.0@),
            final(self).state->send_message_num == 0,
            final(self).state->recv_message_num == 0,
            final(self).state->prev_send_count == 0,
            final(self).contact_key == old(self).contact_key,
            final(self).created_at == old(self).created_at,
            final(self).last_message_at == old(self).last_message_at,
            final(self).skipped_keys == old(self).skipped_keys,
    {
        let send_chain = hash3(&my_key.0, &bundle.identity_key.0, "theos-x3dh-demo-send".as_bytes());
        let recv_chain = hash3(&bundle.identity_key.0, &my_key.0, "theos-x3dh-demo-recv".as_bytes());
        self.state = RatchetState::Active {
            send_chain_key: send_chain,
            recv_chain_key: recv_chain,
            send_message_num: 0,
            recv_message_num: 0,
            prev_send_count: 0,
        };
    }

    /// The next sending key and its number: an active session hashes its
    /// chain key into the message key and rolls the chain forward; another
    /// gives none.
    pub fn next_send_key(&mut self) -> (r: Option<([u8; 32], u32)>)
        requires
            old(self).state is Active ==> old(self).state->send_message_num < u32::MAX,
        ensures
            final(self).contact_key == old(self).contact_key,
            final(self).created_at == old(self).created_at,
            final(self).skipped_keys == old(self).skipped_keys,
            !(old(self).state is Active) ==> r is None && final(self).state == old(self).state
                && final(self).last_message_at == old(self).last_message_at,
            old(self).state is Active ==> {
                &&& r is Some
                &&& (r->0).0@ == msg_key_spec(old(self).state->send_chain_key@)
                &&& (r->0).1 == old(self).state->send_message_num
                &&& final(self).state is Active
                &&& final(self).state->send_chain_key@ == chain_advance_spec(old(self).state->send_chain_key@)
                &&& final(self).state->send_message_num == old(self).state->send_message_num + 1
                &&& final(self).state->recv_chain_key == old(self).state->recv_chain_key
                &&& final(self).state->recv_message_num == old(self).state->recv_message_num
                &&& final(self).state->prev_send_count == old(self).state->prev_send_count
                &&& final(self).last_message_at is Some
            },
    {
        match self.state {
            RatchetState::Active { send_chain_key, recv_chain_key, send_message_num, recv_message_num, prev_send_count } => {
                let msg_key = hash2(&send_chain_key, "theos-msg-key".as_bytes());
                let next = hash2(&send_chain_key, "theos-chain-advance".as_bytes());
                self.state = RatchetState::Active {
                    send_chain_key: next,
                    recv_chain_key,
                    send_message_num: send_message_num + 1,
                    recv_message_num,
                    prev_send_count,
                };
                self.last_message_at = Some(now_secs());
                Some((msg_key, send_message_num))
            },
            _ => None,
        }
    }
}

#[derive(Debug, Clone, Copy, PartialEq, Eq, Structural)]
pub enum MessageProtocol {
    TheOsNative,
    Signal,
}

fn keys_equal(a: &IdentityKey, b: &IdentityKey) -> (r: bool)
    ensures
        r == (*a == *b),
{
    let mut i: usize = 0;
    while i < 32
        invariant
            i <= 32,
            forall|k: int| 0 <= k < i ==> a.0@[k] == b.0@[k],
        decreases 32 - i,
    {
        if a.0[i] != b.0[i] {
            return false;
        }
        i += 1;
    }
    assert(a.0 =~= b.0);
    true
}

/// The session with a contact, at or after position `i`.
pub open spec fn session_index(s: Seq<SignalSession>, key: IdentityKey, i: int) -> Option<int>
    decreases s.len() - i,
{
    if i < 0 || i >= s.len() {
        None
    } else if s[i].contact_key == key {
        Some(i)
    } else {
        session_index(s, key, i + 1)
    }
}

proof fn lemma_session_index(s: Seq<SignalSession>, key: IdentityKey, i: int)
    requires
        0 <= i,
    ensures
        session_index(s, key, i) matches Some(j) ==> i <= j < s.len() && s[j].contact_key == key,
        session_index(s, key, i) is None ==> forall|k: int| i <= k < s.len() ==> s[k].contact_key != key,
    decreases s.len() - i,
{
    if i < s.len() && s[i].contact_key != key {
        lemma_session_index(s, key, i + 1);
    }
}

/// Routes messages to Signal contacts and holds their sessions.
pub struct SignalBridge {
    pub my_identity: IdentityKey,
    pub registration_id: u32,
    pub sessions: Vec<SignalSession>,
    pub signal_contacts: Vec<IdentityKey>,
}

impl SignalBridge {
    pub closed spec fn sessions_spec(&self) -> Seq<SignalSession> {
        self.sessions@
    }

    pub closed spec fn contacts_spec(&self) -> Set<IdentityKey> {
        self.signal_contacts@.to_set()
    }

    pub open spec fn wf(&self) -> bool {
        forall|i: int, j: int|
            0 <= i < j < self.sessions_spec().len() ==> self.sessions_spec()[i].contact_key
                != self.sessions_spec()[j].contact_key
    }

    pub fn new(identity: IdentityKey) -> (b: Self)
        ensures
            b.wf(),
            b.registration_id == registration_id_spec(identity.0@),
            b.my_identity == identity,
            b.sessions_spec().len() == 0,
            b.contacts_spec() == Set::<IdentityKey>::empty(),
    {
        let reg_id = derive_registration_id(&identity);
        let b = SignalBridge { registration_id: reg_id, my_identity: identity, sessions: Vec::new(), signal_contacts: Vec::new() };
        assert(b.signal_contacts@.to_set() =~= Set::<IdentityKey>::empty());
        b
    }

    /// Mark a contact as reached through Signal.
    pub fn register_signal_contact(&mut self, key: &IdentityKey)
        ensures
            final(self).contacts_spec() == old(self).contacts_spec().insert(*key),
            final(self).sessions_spec() == old(self).sessions_spec(),
            final(self).my_identity == old(self).my_identity,
            final(self).registration_id == old(self).registration_id,
    {
        let ghost before = self.signal_contacts@;
        if !self.is_signal_contact(key) {
            self.signal_contacts.push(IdentityKey(key.0));
            assert(self.signal_contacts@.to_set() =~= before.to_set().insert(*key)) by {
                assert forall|k: IdentityKey| self.signal_contacts@.to_set().contains(k) <==> before.to_set().insert(*key).contains(k) by {
                    if self.signal_contacts@.contains(k) && k != *key {
                        let i = choose|i: int| 0 <= i < self.signal_contacts@.len() && self.signal_contacts@[i] == k;
                        assert(i < before.len());
                        assert(before[i] == k);
                    }
                    if before.contains(k) {
                        let i = choose|i: int| 0 <= i < before.len() && before[i] == k;
                        assert(self.signal_contacts@[i] == k);
                    }
                    if k == *key {
                        assert(self.signal_contacts@[before.len() as int] == k);
                    }
                }
            }
        } else {
            assert(before.to_set().insert(*key) =~= before.to_set());
        }
    }

    pub fn is_signal_contact(&self, key: &IdentityKey) -> (r: bool)
        ensures
            r == self.contacts_spec().contains(*key),
    {
        let mut i: usize = 0;
        while i < self.signal_contacts.len()
            invariant
                i <= self.signal_contacts@.len(),
                forall|k: int| 0 <= k < i ==> self.signal_contacts@[k] != *key,
            decreases self.signal_contacts@.len() - i,
        {
            if keys_equal(&self.signal_contacts[i], key) {
                assert(self.signal_contacts@[i as int] == *key);
                return true;
            }
            i += 1;
        }
        false
    }

    /// Signal for registered Signal contacts, the native protocol otherwise.
    pub fn protocol_for(&self, key: &IdentityKey) -> (r: MessageProtocol)
        ensures
            r == (if self.contacts_spec().contains(*key) { MessageProtocol::Signal } else { MessageProtocol::TheOsNative }),
    {
        if self.is_signal_contact(key) {
            MessageProtocol::Signal
        } else {
            MessageProtocol::TheOsNative
        }
    }

    fn find(&self, key: &IdentityKey) -> (r: Option<usize>)
        ensures
            match r {
                Some(i) => session_index(self.sessions_spec(), *key, 0) == Some(i as int),
                None => session_index(self.sessions_spec(), *key, 0) is None,
            },
    {
        let mut i: usize = 0;
        while i < self.sessions.len()
            invariant
                i <= self.sessions@.len(),
                session_index(self.sessions@, *key, 0) == session_index(self.sessions@, *key, i as int),
            decreases self.sessions@.len() - i,
        {
            if keys_equal(&self.sessions[i].contact_key, key) {
                return Some(i);
            }
            i += 1;
        }
        None
    }

    /// Start (or restart) the session with a bundle's identity.
    pub fn establish_session(&mut self, bundle: &PreKeyBundle)
        requires
            old(self).wf(),
        ensures
            final(self).wf(),
            final(self).contacts_spec() == old(self).contacts_spec(),
            final(self).my_identity == old(self).my_identity,
            final(self).registration_id == old(self).registration_id,
            session_index(final(self).sessions_spec(), bundle.identity_key, 0) matches Some(i) && {
                let s = final(self).sessions_spec()[i];
                &&& s.contact_key == bundle.identity_key
                &&& s.state is Active
                &&& s.state->send_chain_key@ == send_chain_spec(old(self).my_identity.0@, bundle.identity_key.0@)
                &&& s.state->recv_chain_key@ == recv_chain_spec(old(self).my_identity.0@, bundle.identity_key.0@)
                &&& s.state->send_message_num == 0
            },
            final(self).sessions_spec().len() == old(self).sessions_spec().len() + (if session_index(old(self).sessions_spec(), bundle.identity_key, 0) is Some { 0int } else { 1int }),
    {
        let mut session = SignalSession::new(IdentityKey(bundle.identity_key.0));
        session.initialize_from_bundle(bundle, &self.my_identity);
        proof {
            lemma_session_index(self.sessions@, bundle.identity_key, 0);
        }
        let ghost ov = self.sessions@;
        match self.find(&bundle.identity_key) {
            Some(i) => {
                self.sessions.set(i, session);
                proof {
                    let v = self.sessions@;
                    assert forall|a: int, b: int| 0 <= a < b < v.len() implies v[a].contact_key != v[b].contact_key by {
                        if a != i && b != i {
                            assert(v[a] == ov[a] && v[b] == ov[b]);
                        } else if a == i {
                            assert(v[b] == ov[b]);
                        } else {
                            assert(v[a] == ov[a]);
                        }
                    }
                    assert forall|k: int| 0 <= k < i implies v[k].contact_key != bundle.identity_key by {
                        assert(v[k] == ov[k]);
                    }
                    lemma_session_found_at(v, bundle.identity_key, i as int);
                }
            },
            None => {
                self.sessions.push(session);
                proof {
                    let v = self.sessions@;
                    assert forall|a: int, b: int| 0 <= a < b < v.len() implies v[a].contact_key != v[b].contact_key by {
                        if b < ov.len() {
                            assert(v[a] == ov[a] && v[b] == ov[b]);
                        } else {
                            assert(v[a] == ov[a]);
                        }
                    }
                    assert forall|k: int| 0 <= k < ov.len() implies v[k].contact_key != bundle.identity_key by {
                        assert(v[k] == ov[k]);
                    }
                    lemma_session_found_at(v, bundle.identity_key, ov.len() as int);
                }
            },
        }
    }

    /// The session with a contact, to change.
    pub fn session_mut(&mut self, key: &IdentityKey) -> (r: Option<&mut SignalSession>)
        ensures
            match session_index(old(self).sessions_spec(), *key, 0) {
                Some(i) => r is Some && *r->0 == old(self).sessions_spec()[i],
                None => r is None,
            },
    {
        proof {
            lemma_session_index(self.sessions@, *key, 0);
        }
        match self.find(key) {
            Some(i) => Some(&mut self.sessions[i]),
            None => None,
        }
    }

    /// The session with a contact.
    pub fn session(&self, key: &IdentityKey) -> (r: Option<&SignalSession>)
        ensures
            match session_index(self.sessions_spec(), *key, 0) {
                Some(i) => r is Some && *r->0 == self.sessions_spec()[i],
                None => r is None,
            },
    {
        proof {
            lemma_session_index(self.sessions@, *key, 0);
        }
        match self.find(key) {
            Some(i) => Some(&self.sessions[i]),
            None => None,
        }
    }

    pub fn session_count(&self) -> (r: usize)
        ensures
            r == self.sessions_spec().len(),
    {
        self.sessions.len()
    }
}

proof fn lemma_session_found_at(s: Seq<SignalSession>, key: IdentityKey, i: int)
    requires
        0 <= i < s.len(),
        s[i].contact_key == key,
        forall|k: int| 0 <= k < i ==> s[k].contact_key != key,
    ensures
        session_index(s, key, 0) == Some(i),
{
    lemma_session_from(s, key, 0, i);
}

proof fn lemma_session_from(s: Seq<SignalSession>, key: IdentityKey, j: int, i: int)
    requires
        0 <= j <= i < s.len(),
        s[i].contact_key == key,
        forall|k: int| j <= k < i ==> s[k].contact_key != key,
    ensures
        session_index(s, key, j) == Some(i),
    decreases i - j,
{
    if j < i {
        lemma_session_from(s, key, j + 1, i);
    }
}

} // verus!
