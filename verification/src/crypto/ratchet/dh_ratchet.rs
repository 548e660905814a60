//! The DH ratchet: a root key, a sending and a receiving chain, this side's
//! ratchet key pair and the peer's ratchet key.  Messages in one direction
//! only advance the chains; a new peer ratchet key triggers a DH step (new
//! key pair, two DH outputs through the root-key KDF), which heals the
//! session after a compromise.  Keys of messages skipped over are kept, up
//! to a limit, for out-of-order delivery.
use vstd::prelude::*;
use crate::crypto::ratchet::dh::{kdf_rk, kdf_rk_okm, x25519_dh_spec, x25519_public_spec, DhKeyPair, DhPublic};
use crate::crypto::ratchet::dh::kdf_ck_okm;
use crate::crypto::ratchet::symmetric::{ChainKey, MessageKey};
use crate::identity::connection::lemma_remove_distinct;
use crate::identity::contact::{distinct_keys, key_index, lemma_key_index, lemma_upsert_distinct, upsert};

verus! {

/// The most message keys kept for out-of-order delivery.
pub const MAX_SKIP: u32 = 2000;

/// The largest forward jump one message may ask for.
pub const MAX_JUMP: u32 = 2000;

/// Why no key could be given for a received message.
#[derive(Debug, Clone, Copy, PartialEq, Eq, Structural)]
pub enum RatchetError {
    /// Too many keys would be skipped or kept (likely a forged index).
    SkipLimitExceeded,
    /// The key for this message is gone: in the past and not kept.
    MessageKeyGone,
}

/// Sent with each message so the receiver can ratchet along.
#[derive(Debug, Clone, Copy, PartialEq, Eq)]
pub struct RatchetHeader {
    /// The sender's current ratchet public key.
    pub ratchet_pub: DhPublic,
    /// The message's index in the sender's sending chain.
    pub msg_index: u32,
    /// The length of the sender's previous sending chain.
    pub pn: u32,
}

/// A chain as plain values: its key and the index of its next message.
pub struct ChainState {
    pub key: Seq<u8>,
    pub index: u32,
}

/// The ratchet as plain values.
pub struct RatchetState {
    pub root: Seq<u8>,
    pub self_secret: Seq<u8>,
    pub peer: Option<Seq<u8>>,
    pub send: Option<ChainState>,
    pub recv: Option<ChainState>,
    /// Kept keys, filed under (peer ratchet key, message index).
    pub skipped: Seq<((Seq<u8>, u32), Seq<u8>)>,
    pub pn: u32,
}

pub open spec fn chain_state(c: ChainKey) -> ChainState {
    ChainState { key: c.key_spec(), index: c.index_spec() }
}

pub open spec fn opt_chain(c: Option<ChainKey>) -> Option<ChainState> {
    match c {
        Some(k) => Some(chain_state(k)),
        None => None,
    }
}

/// The chain one message later.
pub open spec fn step_chain(c: ChainState) -> ChainState {
    ChainState { key: kdf_ck_okm(c.key).take(32), index: (c.index + 1) as u32 }
}

/// The message key a chain gives next.
pub open spec fn chain_msg(c: ChainState) -> Seq<u8> {
    kdf_ck_okm(c.key).skip(32)
}

/// Keep the next `n` message keys of chain `c`, filed under `peer`; when
/// the store is full the chain still steps once and the result says so.
pub open spec fn stash_n(c: ChainState, store: Seq<((Seq<u8>, u32), Seq<u8>)>, peer: Seq<u8>, n: nat) -> (
    ChainState,
    Seq<((Seq<u8>, u32), Seq<u8>)>,
    bool,
)
    decreases n,
{
    if n == 0 {
        (c, store, true)
    } else if store.len() >= MAX_SKIP {
        (step_chain(c), store, false)
    } else {
        stash_n(step_chain(c), upsert(store, (peer, c.index), chain_msg(c)), peer, (n - 1) as nat)
    }
}

/// The state with other chain, store and error.
pub open spec fn with_recv(s: RatchetState, c: ChainState, store: Seq<((Seq<u8>, u32), Seq<u8>)>) -> RatchetState {
    RatchetState {
        root: s.root,
        self_secret: s.self_secret,
        peer: s.peer,
        send: s.send,
        recv: Some(c),
        skipped: store,
        pn: s.pn,
    }
}

/// Advance the receiving chain to index `until`, keeping the keys passed.
pub open spec fn advance_stash_spec(s: RatchetState, until: u32) -> (RatchetState, Result<(), RatchetError>) {
    match (s.peer, s.recv) {
        (Some(p), Some(c)) => if until <= c.index {
            (s, Ok(()))
        } else if until - c.index > MAX_SKIP {
            (s, Err(RatchetError::SkipLimitExceeded))
        } else {
            let t = stash_n(c, s.skipped, p, (until - c.index) as nat);
            (with_recv(s, t.0, t.1), if t.2 {
                Ok(())
            } else {
                Err(RatchetError::SkipLimitExceeded)
            })
        },
        _ => (s, Err(RatchetError::MessageKeyGone)),
    }
}

/// The DH step on a new peer ratchet key, with `fresh` as this side's new
/// ratchet secret.
pub open spec fn dh_step_spec(s: RatchetState, peer_new: Seq<u8>, fresh: Seq<u8>) -> RatchetState {
    let rk1 = kdf_rk_okm(s.root, x25519_dh_spec(s.self_secret, peer_new));
    let rk2 = kdf_rk_okm(rk1.take(32), x25519_dh_spec(fresh, peer_new));
    RatchetState {
        root: rk2.take(32),
        self_secret: fresh,
        peer: Some(peer_new),
        send: Some(ChainState { key: rk2.skip(32), index: 0 }),
        recv: Some(ChainState { key: rk1.skip(32), index: 0 }),
        skipped: s.skipped,
        pn: match s.send {
            Some(c) => c.index,
            None => s.pn,
        },
    }
}

/// The header's ratchet key is not the peer key in use.
pub open spec fn is_new_peer(s: RatchetState, hp: Seq<u8>) -> bool {
    match s.peer {
        Some(p) => p != hp,
        None => true,
    }
}

/// Step 1 of receiving: before a DH step, keep the rest of the old
/// receiving chain up to the header's `pn`.
pub open spec fn pre_rotation(s: RatchetState, hp: Seq<u8>, hpn: u32) -> (RatchetState, Result<(), RatchetError>) {
    if is_new_peer(s, hp) && s.recv is Some {
        advance_stash_spec(s, hpn)
    } else {
        (s, Ok(()))
    }
}

/// The final step of receiving: take the message key of chain `c`.
pub open spec fn take_key(s: RatchetState, c: ChainState) -> (RatchetState, Result<Seq<u8>, RatchetError>) {
    (with_recv(s, step_chain(c), s.skipped), Ok(chain_msg(c)))
}

/// Receiving at the current receiving chain, after any DH step.
pub open spec fn receive_in_chain(s: RatchetState, hidx: u32) -> (RatchetState, Result<Seq<u8>, RatchetError>) {
    match s.recv {
        None => (s, Err(RatchetError::MessageKeyGone)),
        Some(c) => if hidx > c.index {
            if hidx - c.index > MAX_JUMP {
                (s, Err(RatchetError::SkipLimitExceeded))
            } else {
                let t = advance_stash_spec(s, hidx);
                if t.1 is Err {
                    (t.0, Err(t.1->Err_0))
                } else {
                    take_key(t.0, t.0.recv->0)
                }
            }
        } else if hidx < c.index {
            (s, Err(RatchetError::MessageKeyGone))
        } else {
            take_key(s, c)
        },
    }
}

/// What receiving a message with header (`hp`, `hidx`, `hpn`) does, with
/// `fresh` as the new ratchet secret if a DH step happens: the new state
/// and the message key or the error.
pub open spec fn receive_spec(s: RatchetState, hp: Seq<u8>, hidx: u32, hpn: u32, fresh: Seq<u8>) -> (
    RatchetState,
    Result<Seq<u8>, RatchetError>,
) {
    let i = key_index(s.skipped, (hp, hidx));
    if i >= 0 {
        (
            RatchetState {
                root: s.root,
                self_secret: s.self_secret,
                peer: s.peer,
                send: s.send,
                recv: s.recv,
                skipped: s.skipped.remove(i),
                pn: s.pn,
            },
            Ok(s.skipped[i].1),
        )
    } else {
        let t = pre_rotation(s, hp, hpn);
        if t.1 is Err {
            (t.0, Err(t.1->Err_0))
        } else if is_new_peer(s, hp) {
            receive_in_chain(dh_step_spec(t.0, hp, fresh), hidx)
        } else {
            receive_in_chain(t.0, hidx)
        }
    }
}

/// Receiving would step a chain past the last index (the original
/// arithmetic overflows there): a kept key is not found, the header's key
/// is the peer key in use, and the chain would have to reach index
/// `u32::MAX` and step once more.
pub open spec fn receive_overflows(s: RatchetState, hp: Seq<u8>, hidx: u32) -> bool {
    &&& hidx == u32::MAX
    &&& key_index(s.skipped, (hp, hidx)) < 0
    &&& !is_new_peer(s, hp)
    &&& s.recv is Some
    &&& (s.recv->0.index == u32::MAX || (u32::MAX - s.recv->0.index <= MAX_JUMP && advance_stash_spec(s, hidx).1 is Ok))
}

/// A kept key as plain values.
pub open spec fn kept_view(e: ((DhPublic, u32), MessageKey)) -> ((Seq<u8>, u32), Seq<u8>) {
    let (k, m) = e;
    let (p, i) = k;
    ((p@, i), m.0@)
}

/// The ratchet.
pub struct DhRatchet {
    pub root_key: [u8; 32],
    pub self_kp: DhKeyPair,
    pub peer_pub: Option<DhPublic>,
    pub send_chain: Option<ChainKey>,
    pub recv_chain: Option<ChainKey>,
    /// Kept keys for out-of-order delivery, filed under (peer ratchet key,
    /// message index).
    pub skipped: Vec<((DhPublic, u32), MessageKey)>,
    /// Messages sent on the previous sending chain.
    pub prev_send_count: u32,
}

impl View for DhRatchet {
    type V = RatchetState;

    open spec fn view(&self) -> RatchetState {
        RatchetState {
            root: self.root_key@,
            self_secret: self.self_kp.secret_spec(),
            peer: match self.peer_pub {
                Some(p) => Some(p@),
                None => None,
            },
            send: opt_chain(self.send_chain),
            recv: opt_chain(self.recv_chain),
            skipped: Seq::new(self.skipped@.len(), |i: int| kept_view(self.skipped@[i])),
            pn: self.prev_send_count,
        }
    }
}

fn same_key(a: &[u8; 32], b: &[u8; 32]) -> (r: bool)
    ensures
        r == (a@ == b@),
{
    let mut i: usize = 0;
    while i < 32
        invariant
            i <= 32,
            forall|k: int| 0 <= k < i ==> a@[k] == b@[k],
        decreases 32 - i,
    {
        if a[i] != b[i] {
            return false;
        }
        i += 1;
    }
    assert(a@ =~= b@);
    true
}

proof fn lemma_stash_bounds(c: ChainState, store: Seq<((Seq<u8>, u32), Seq<u8>)>, peer: Seq<u8>, n: nat)
    requires
        c.index + n <= u32::MAX,
        distinct_keys(store),
    ensures
        distinct_keys(stash_n(c, store, peer, n).1),
        stash_n(c, store, peer, n).2 ==> stash_n(c, store, peer, n).0.index == c.index + n,
        !stash_n(c, store, peer, n).2 ==> stash_n(c, store, peer, n).0.index <= c.index + n,
    decreases n,
{
    if n > 0 && store.len() < MAX_SKIP {
        lemma_upsert_distinct(store, (peer, c.index), chain_msg(c));
        lemma_stash_bounds(step_chain(c), upsert(store, (peer, c.index), chain_msg(c)), peer, (n - 1) as nat);
    }
}

/// `st` is a state `new_initiator` gives for a root key and the peer's
/// ratchet key: a fresh ratchet secret, one DH step done.  The DH output is
/// also what the peer's secret gives against this side's public key.
pub open spec fn initiator_made(st: RatchetState, root: Seq<u8>, peer: Seq<u8>) -> bool {
    &&& st.self_secret.len() == 32
    &&& st.root == kdf_rk_okm(root, x25519_dh_spec(st.self_secret, peer)).take(32)
    &&& st.send == Some(ChainState { key: kdf_rk_okm(root, x25519_dh_spec(st.self_secret, peer)).skip(32), index: 0 })
    &&& st.recv is None
    &&& st.peer == Some(peer)
    &&& st.skipped == Seq::<((Seq<u8>, u32), Seq<u8>)>::empty()
    &&& st.pn == 0
    &&& forall|q: Seq<u8>|
        #![trigger x25519_public_spec(q)]
        q.len() == 32 && peer == x25519_public_spec(q) ==> x25519_dh_spec(st.self_secret, peer) == x25519_dh_spec(
            q,
            x25519_public_spec(st.self_secret),
        )
}

/// The state `new_responder` gives.
pub open spec fn responder_state(root: Seq<u8>, secret: Seq<u8>) -> RatchetState {
    RatchetState { root, self_secret: secret, peer: None, send: None, recv: None, skipped: Seq::empty(), pn: 0 }
}

/// The first message key the initiator sends is the key the responder
/// derives from that message's header, when the initiator was given the
/// responder's ratchet public key and both hold the same root key; after
/// it the responder's receiving chain matches the initiator's sending
/// chain.
pub proof fn law_first_message_key_agrees(alice: RatchetState, bob_secret: Seq<u8>, root: Seq<u8>, fresh: Seq<u8>)
    requires
        bob_secret.len() == 32,
        initiator_made(alice, root, x25519_public_spec(bob_secret)),
    ensures
        receive_spec(responder_state(root, bob_secret), x25519_public_spec(alice.self_secret), 0, 0, fresh).1
            == Ok::<Seq<u8>, RatchetError>(chain_msg(alice.send->0)),
        receive_spec(responder_state(root, bob_secret), x25519_public_spec(alice.self_secret), 0, 0, fresh).0.recv
            == Some(step_chain(alice.send->0)),
        receive_spec(responder_state(root, bob_secret), x25519_public_spec(alice.self_secret), 0, 0, fresh).0.peer
            == Some(x25519_public_spec(alice.self_secret)),
{
    let bob = responder_state(root, bob_secret);
    let hp = x25519_public_spec(alice.self_secret);
    assert(key_index(bob.skipped, (hp, 0u32)) == -1);
    assert(x25519_dh_spec(alice.self_secret, x25519_public_spec(bob_secret)) == x25519_dh_spec(bob_secret, hp));
}

/// Once the receiving chain matches the sender's sending chain, receiving
/// the sender's next message gives the key it was sent under, and the
/// receiving chain steps exactly as the sending chain did, so the two stay
/// matched message after message.
pub proof fn law_in_order_receive_stays_in_sync(
    bob: RatchetState,
    sender_pub: Seq<u8>,
    c: ChainState,
    pn: u32,
    fresh: Seq<u8>,
)
    requires
        bob.peer == Some(sender_pub),
        bob.recv == Some(c),
        key_index(bob.skipped, (sender_pub, c.index)) < 0,
    ensures
        receive_spec(bob, sender_pub, c.index, pn, fresh).1 == Ok::<Seq<u8>, RatchetError>(chain_msg(c)),
        receive_spec(bob, sender_pub, c.index, pn, fresh).0.recv == Some(step_chain(c)),
        receive_spec(bob, sender_pub, c.index, pn, fresh).0.peer == Some(sender_pub),
        receive_spec(bob, sender_pub, c.index, pn, fresh).0.skipped == bob.skipped,
{
}

/// Chain `c` after `n` messages.
pub open spec fn step_n(c: ChainState, n: nat) -> ChainState
    decreases n,
{
    if n == 0 {
        c
    } else {
        step_n(step_chain(c), (n - 1) as nat)
    }
}

/// The key kept under `k`, if any.
pub open spec fn kept_key(store: Seq<((Seq<u8>, u32), Seq<u8>)>, k: (Seq<u8>, u32)) -> Option<Seq<u8>> {
    let i = key_index(store, k);
    if i >= 0 {
        Some(store[i].1)
    } else {
        None
    }
}

proof fn lemma_upsert_kept(store: Seq<((Seq<u8>, u32), Seq<u8>)>, k: (Seq<u8>, u32), mk: Seq<u8>, k2: (Seq<u8>, u32))
    requires
        distinct_keys(store),
    ensures
        kept_key(upsert(store, k, mk), k2) == (if k2 == k {
            Some(mk)
        } else {
            kept_key(store, k2)
        }),
        upsert(store, k, mk).len() <= store.len() + 1,
{
    let u = upsert(store, k, mk);
    lemma_key_index(store, k);
    lemma_key_index(store, k2);
    lemma_upsert_distinct(store, k, mk);
    lemma_key_index(u, k2);
    let i = key_index(store, k);
    if i >= 0 {
        assert(u[i].0 == k);
        if k2 == k {
            assert(u[i].0 == k2);
        } else {
            let j = key_index(store, k2);
            if j >= 0 {
                assert(u[j] == store[j]);
                assert(u[j].0 == k2);
            } else {
                assert forall|x: int| 0 <= x < u.len() implies #[trigger] u[x].0 != k2 by {
                    if x != i {
                        assert(u[x] == store[x]);
                    }
                }
            }
        }
    } else {
        assert(u[store.len() as int].0 == k);
        if k2 == k {
            assert(u[store.len() as int].0 == k2);
        } else {
            let j = key_index(store, k2);
            if j >= 0 {
                assert(u[j] == store[j]);
                assert(u[j].0 == k2);
            } else {
                assert forall|x: int| 0 <= x < u.len() implies #[trigger] u[x].0 != k2 by {
                    if x < store.len() {
                        assert(u[x] == store[x]);
                    }
                }
            }
        }
    }
}

proof fn lemma_stash_keeps(c: ChainState, store: Seq<((Seq<u8>, u32), Seq<u8>)>, peer: Seq<u8>, n: nat)
    requires
        distinct_keys(store),
        store.len() + n <= MAX_SKIP,
        c.index + n <= u32::MAX,
    ensures
        stash_n(c, store, peer, n).2,
        stash_n(c, store, peer, n).0 == step_n(c, n),
        step_n(c, n).index == c.index + n,
        distinct_keys(stash_n(c, store, peer, n).1),
        forall|idx: u32|
            c.index <= idx < c.index + n ==> #[trigger] kept_key(stash_n(c, store, peer, n).1, (peer, idx)) == Some(
                chain_msg(step_n(c, (idx - c.index) as nat)),
            ),
        forall|k: (Seq<u8>, u32)|
            !(k.0 == peer && c.index <= k.1 < c.index + n) ==> #[trigger] kept_key(stash_n(c, store, peer, n).1, k)
                == kept_key(store, k),
    decreases n,
{
    if n > 0 {
        let c1 = step_chain(c);
        let s1 = upsert(store, (peer, c.index), chain_msg(c));
        lemma_upsert_distinct(store, (peer, c.index), chain_msg(c));
        lemma_upsert_kept(store, (peer, c.index), chain_msg(c), (peer, c.index));
        assert(c1.index == c.index + 1);
        lemma_stash_keeps(c1, s1, peer, (n - 1) as nat);
        let r = stash_n(c, store, peer, n);
        assert(r == stash_n(c1, s1, peer, (n - 1) as nat));
        assert forall|idx: u32| c.index <= idx < c.index + n implies #[trigger] kept_key(r.1, (peer, idx)) == Some(
            chain_msg(step_n(c, (idx - c.index) as nat)),
        ) by {
            if idx == c.index {
                assert(kept_key(r.1, (peer, idx)) == kept_key(s1, (peer, idx)));
                assert(step_n(c, 0) == c);
            } else {
                assert(kept_key(r.1, (peer, idx)) == Some(chain_msg(step_n(c1, (idx - c1.index) as nat))));
                assert(step_n(c, (idx - c.index) as nat) == step_n(c1, (idx - c1.index) as nat));
            }
        }
        assert forall|k: (Seq<u8>, u32)| !(k.0 == peer && c.index <= k.1 < c.index + n) implies #[trigger] kept_key(
            r.1,
            k,
        ) == kept_key(store, k) by {
            assert(kept_key(r.1, k) == kept_key(s1, k));
            lemma_upsert_kept(store, (peer, c.index), chain_msg(c), k);
        }
    }
}

/// Out-of-order delivery within a chain: when a message arrives ahead of
/// ones before it on the same chain (the store having room for the keys
/// passed), it gets the key the chain gives at its index, and each message
/// passed over, arriving later, still gets the key the chain gave at its
/// own index.
pub proof fn law_out_of_order_within_chain(
    bob: RatchetState,
    sender_pub: Seq<u8>,
    c: ChainState,
    ahead: u32,
    late: u32,
    pn: u32,
    fresh: Seq<u8>,
    fresh_later: Seq<u8>,
)
    requires
        distinct_keys(bob.skipped),
        bob.peer == Some(sender_pub),
        bob.recv == Some(c),
        kept_key(bob.skipped, (sender_pub, ahead)) is None,
        c.index <= late < ahead,
        ahead - c.index <= MAX_JUMP,
        bob.skipped.len() + (ahead - c.index) <= MAX_SKIP,
    ensures
        receive_spec(bob, sender_pub, ahead, pn, fresh).1 == Ok::<Seq<u8>, RatchetError>(
            chain_msg(step_n(c, (ahead - c.index) as nat)),
        ),
        receive_spec(receive_spec(bob, sender_pub, ahead, pn, fresh).0, sender_pub, late, pn, fresh_later).1
            == Ok::<Seq<u8>, RatchetError>(chain_msg(step_n(c, (late - c.index) as nat))),
{
    let n = (ahead - c.index) as nat;
    lemma_key_index(bob.skipped, (sender_pub, ahead));
    lemma_stash_keeps(c, bob.skipped, sender_pub, n);
    let t = stash_n(c, bob.skipped, sender_pub, n);
    let b1 = receive_spec(bob, sender_pub, ahead, pn, fresh).0;
    assert(b1.skipped == t.1);
    assert(kept_key(t.1, (sender_pub, late)) == Some(chain_msg(step_n(c, (late - c.index) as nat))));
    lemma_key_index(t.1, (sender_pub, late));
}

proof fn lemma_step_n_add(c: ChainState, a: nat, b: nat)
    ensures
        step_n(c, a + b) == step_n(step_n(c, a), b),
    decreases a,
{
    if a > 0 {
        lemma_step_n_add(step_chain(c), (a - 1) as nat, b);
        assert((a + b - 1) as nat == (a - 1) as nat + b);
    }
}

proof fn lemma_step_one(c: ChainState)
    ensures
        step_n(c, 1) == step_chain(c),
{
    assert(step_n(step_chain(c), 0) == step_chain(c));
}

proof fn lemma_step_n_index(c: ChainState, n: nat)
    requires
        c.index + n <= u32::MAX,
    ensures
        step_n(c, n).index == c.index + n,
    decreases n,
{
    if n > 0 {
        lemma_step_n_index(step_chain(c), (n - 1) as nat);
    }
}

proof fn lemma_remove_kept(store: Seq<((Seq<u8>, u32), Seq<u8>)>, i: int, k2: (Seq<u8>, u32))
    requires
        distinct_keys(store),
        0 <= i < store.len(),
    ensures
        kept_key(store.remove(i), k2) == (if k2 == store[i].0 {
            None
        } else {
            kept_key(store, k2)
        }),
{
    let w = store.remove(i);
    lemma_remove_distinct(store, i);
    lemma_key_index(store, k2);
    lemma_key_index(w, k2);
    let j = key_index(w, k2);
    if k2 == store[i].0 {
        if j >= 0 {
            assert(w[j].0 != store[i].0);
        }
    } else {
        let j0 = key_index(store, k2);
        if j >= 0 {
            let jj = if j < i { j } else { j + 1 };
            assert(w[j] == store[jj]);
            assert(store[jj].0 == k2);
        } else if j0 >= 0 {
            let jw = if j0 < i { j0 } else { j0 - 1 };
            assert(j0 != i);
            assert(w[jw] == store[j0]);
            assert(w[jw].0 == k2);
        }
    }
}

/// `b` receives from peer key `peer` on the chain that stood at `c0` and has
/// gone `m` steps along it: each kept key of an index passed is the key the
/// chain gave there, and no key is kept for an index not yet reached.
pub open spec fn chain_synced(b: RatchetState, peer: Seq<u8>, c0: ChainState, m: nat) -> bool {
    &&& b.peer == Some(peer)
    &&& b.recv == Some(step_n(c0, m))
    &&& c0.index + m <= u32::MAX
    &&& distinct_keys(b.skipped)
    &&& forall|i: u32|
        c0.index <= i < c0.index + m && (#[trigger] kept_key(b.skipped, (peer, i))) is Some ==> kept_key(
            b.skipped,
            (peer, i),
        ) == Some(chain_msg(step_n(c0, (i - c0.index) as nat)))
    &&& forall|i: u32| c0.index + m <= i ==> (#[trigger] kept_key(b.skipped, (peer, i))) is None
}

/// Delivery in any order within a chain: while the receiver is in step with
/// the sender's chain, a message whose key is still owed (kept for an index
/// passed, or ahead on the chain within the skip limits) gets the key the
/// chain gives at its index; afterwards the receiver is still in step, that
/// key is no longer owed, every other passed index keeps its state, and the
/// indices jumped over are now owed.  Applied message by message, every
/// message of the chain gets its own key whatever the order of arrival.
pub proof fn law_any_order_within_chain(
    b: RatchetState,
    peer: Seq<u8>,
    c0: ChainState,
    m: nat,
    idx: u32,
    pn: u32,
    fresh: Seq<u8>,
)
    requires
        chain_synced(b, peer, c0, m),
        c0.index <= idx,
        idx < c0.index + m ==> kept_key(b.skipped, (peer, idx)) is Some,
        idx >= c0.index + m ==> {
            &&& idx < u32::MAX
            &&& idx - (c0.index + m) <= MAX_JUMP
            &&& b.skipped.len() + (idx - (c0.index + m)) <= MAX_SKIP
        },
    ensures
        ({
            let r = receive_spec(b, peer, idx, pn, fresh);
            let m2: nat = if idx < c0.index + m {
                m
            } else {
                (idx + 1 - c0.index) as nat
            };
            &&& r.1 == Ok::<Seq<u8>, RatchetError>(chain_msg(step_n(c0, (idx - c0.index) as nat)))
            &&& chain_synced(r.0, peer, c0, m2)
            &&& kept_key(r.0.skipped, (peer, idx)) is None
            &&& forall|i: u32|
                c0.index <= i < c0.index + m && i != idx ==> #[trigger] kept_key(r.0.skipped, (peer, i))
                    == kept_key(b.skipped, (peer, i))
            &&& forall|i: u32| c0.index + m <= i < idx ==> (#[trigger] kept_key(r.0.skipped, (peer, i))) is Some
        }),
{
    let r = receive_spec(b, peer, idx, pn, fresh);
    let s = b.skipped;
    lemma_key_index(s, (peer, idx));
    lemma_step_n_index(c0, m);
    let c = step_n(c0, m);
    if idx < c0.index + m {
        let i = key_index(s, (peer, idx));
        assert(i >= 0);
        assert(r.1 == Ok::<Seq<u8>, RatchetError>(s[i].1));
        lemma_remove_distinct(s, i);
        assert(r.0.skipped == s.remove(i));
        assert forall|k2: (Seq<u8>, u32)| #[trigger] kept_key(r.0.skipped, k2) == (if k2 == (peer, idx) {
            None
        } else {
            kept_key(s, k2)
        }) by {
            lemma_remove_kept(s, i, k2);
        }
        assert(kept_key(s, (peer, idx)) == Some(chain_msg(step_n(c0, (idx - c0.index) as nat))));
    } else {
        let n = (idx - c.index) as nat;
        assert(kept_key(s, (peer, idx)) is None);
        assert(!is_new_peer(b, peer));
        assert(pre_rotation(b, peer, pn) == (b, Ok::<(), RatchetError>(())));
        lemma_step_n_add(c0, m, n);
        lemma_step_n_add(c0, m + n, 1);
        assert((idx - c0.index) as nat == m + n);
        if idx == c.index {
            assert(n == 0);
            assert(step_n(c, 0) == c);
            assert(step_n(c0, m + 1) == step_n(step_n(c0, m), 1));
            lemma_step_one(c);
            assert(r.0 == with_recv(b, step_chain(c), s));
        } else {
            lemma_stash_keeps(c, s, peer, n);
            let t = stash_n(c, s, peer, n);
            assert(advance_stash_spec(b, idx) == (with_recv(b, t.0, t.1), Ok::<(), RatchetError>(())));
            assert(t.0 == step_n(c, n));
            lemma_step_one(step_n(c, n));
            assert(r.0 == with_recv(b, step_chain(step_n(c, n)), t.1));
            assert(r.1 == Ok::<Seq<u8>, RatchetError>(chain_msg(step_n(c, n))));
            assert forall|j: u32|
                c0.index <= j < idx + 1 && (#[trigger] kept_key(r.0.skipped, (peer, j))) is Some implies kept_key(
                r.0.skipped,
                (peer, j),
            ) == Some(chain_msg(step_n(c0, (j - c0.index) as nat))) by {
                if c.index <= j < c.index + n {
                    lemma_step_n_add(c0, m, (j - c.index) as nat);
                    assert((j - c0.index) as nat == m + (j - c.index) as nat);
                }
            }
        }
        lemma_step_n_index(c0, m + n + 1);
    }
}

proof fn lemma_stash_other(c: ChainState, store: Seq<((Seq<u8>, u32), Seq<u8>)>, peer: Seq<u8>, n: nat, k: (Seq<u8>, u32))
    requires
        distinct_keys(store),
        k.0 != peer,
    ensures
        distinct_keys(stash_n(c, store, peer, n).1),
        kept_key(stash_n(c, store, peer, n).1, k) == kept_key(store, k),
    decreases n,
{
    if n > 0 && store.len() < MAX_SKIP {
        let s1 = upsert(store, (peer, c.index), chain_msg(c));
        lemma_upsert_distinct(store, (peer, c.index), chain_msg(c));
        lemma_upsert_kept(store, (peer, c.index), chain_msg(c), k);
        lemma_stash_other(step_chain(c), s1, peer, (n - 1) as nat, k);
    }
}

/// A kept key is handed out for its message, whatever else the receiver
/// holds, and is then forgotten; the chains and every other kept key stay.
pub proof fn law_kept_key_delivered(b: RatchetState, hp: Seq<u8>, idx: u32, pn: u32, fresh: Seq<u8>)
    requires
        distinct_keys(b.skipped),
        kept_key(b.skipped, (hp, idx)) is Some,
    ensures
        ({
            let r = receive_spec(b, hp, idx, pn, fresh);
            &&& r.1 == Ok::<Seq<u8>, RatchetError>(kept_key(b.skipped, (hp, idx))->0)
            &&& kept_key(r.0.skipped, (hp, idx)) is None
            &&& forall|k2: (Seq<u8>, u32)| k2 != (hp, idx) ==> #[trigger] kept_key(r.0.skipped, k2) == kept_key(b.skipped, k2)
            &&& distinct_keys(r.0.skipped)
            &&& r.0.recv == b.recv
            &&& r.0.peer == b.peer
            &&& r.0.send == b.send
        }),
{
    let s = b.skipped;
    lemma_key_index(s, (hp, idx));
    let i = key_index(s, (hp, idx));
    lemma_remove_distinct(s, i);
    lemma_remove_kept(s, i, (hp, idx));
    assert forall|k2: (Seq<u8>, u32)| k2 != (hp, idx) implies #[trigger] kept_key(s.remove(i), k2) == kept_key(s, k2) by {
        lemma_remove_kept(s, i, k2);
    }
}

/// On a DH rotation (a header under a new peer key) the rest of the old
/// receiving chain, up to the sender's count `pn`, is kept: every message of
/// the old chain not yet delivered has its own key kept, whatever becomes of
/// the new message.  With `law_kept_key_delivered`, late messages of the old
/// chain get their keys in any order.
pub proof fn law_rotation_keeps_old_chain(
    b: RatchetState,
    peer: Seq<u8>,
    c0: ChainState,
    m: nat,
    new_peer: Seq<u8>,
    idx: u32,
    pn: u32,
    fresh: Seq<u8>,
)
    requires
        chain_synced(b, peer, c0, m),
        new_peer != peer,
        kept_key(b.skipped, (new_peer, idx)) is None,
        c0.index + m <= pn,
        b.skipped.len() + (pn - (c0.index + m)) <= MAX_SKIP,
    ensures
        ({
            let r = receive_spec(b, new_peer, idx, pn, fresh);
            &&& distinct_keys(r.0.skipped)
            &&& forall|i: u32|
                c0.index <= i < pn && (c0.index + m <= i || kept_key(b.skipped, (peer, i)) is Some)
                    ==> #[trigger] kept_key(r.0.skipped, (peer, i)) == Some(
                    chain_msg(step_n(c0, (i - c0.index) as nat)),
                )
        }),
{
    let s = b.skipped;
    let r = receive_spec(b, new_peer, idx, pn, fresh);
    lemma_key_index(s, (new_peer, idx));
    lemma_step_n_index(c0, m);
    let c = step_n(c0, m);
    let n = (pn - c.index) as nat;
    assert(is_new_peer(b, new_peer));
    let t = pre_rotation(b, new_peer, pn);
    // the old chain's rest is kept
    let s1 = t.0.skipped;
    if pn <= c.index {
        assert(t == (b, Ok::<(), RatchetError>(())));
    } else {
        lemma_stash_keeps(c, s, peer, n);
    }
    assert(t.1 is Ok);
    assert(distinct_keys(s1));
    assert forall|i: u32|
        c0.index <= i < pn && (c0.index + m <= i || kept_key(s, (peer, i)) is Some) implies #[trigger] kept_key(
        s1,
        (peer, i),
    ) == Some(chain_msg(step_n(c0, (i - c0.index) as nat))) by {
        if c.index <= i {
            lemma_step_n_add(c0, m, (i - c.index) as nat);
            assert((i - c0.index) as nat == m + (i - c.index) as nat);
        }
    }
    // the new chain touches only keys filed under the new peer key
    let s2 = dh_step_spec(t.0, new_peer, fresh);
    assert(s2.skipped == s1);
    let c2 = s2.recv->0;
    if idx > c2.index && idx - c2.index <= MAX_JUMP {
        let n2 = (idx - c2.index) as nat;
        assert forall|i: u32| true implies #[trigger] kept_key(stash_n(c2, s1, new_peer, n2).1, (peer, i)) == kept_key(
            s1,
            (peer, i),
        ) by {
            lemma_stash_other(c2, s1, new_peer, n2, (peer, i));
        }
        lemma_stash_other(c2, s1, new_peer, n2, (peer, 0));
        assert(r.0.skipped == stash_n(c2, s1, new_peer, n2).1);
    } else {
        assert(r.0.skipped == s1);
    }
}

/// `r` is the key and header of the next message sent on chain `c`.
pub open spec fn sent_as(r: Option<(MessageKey, RatchetHeader)>, c: ChainState, s: RatchetState) -> bool {
    match r {
        Some((mk, h)) => mk.0@ == chain_msg(c) && h.ratchet_pub@ == x25519_public_spec(s.self_secret)
            && h.msg_index == c.index && h.pn == s.pn,
        None => false,
    }
}

impl DhRatchet {
    /// No two kept keys filed under the same (key, index).
    pub open spec fn wf(&self) -> bool {
        distinct_keys(self@.skipped)
    }

    /// The initiator side, run by the party that did X3DH and so knows the
    /// root key and the peer's first ratchet key: it makes a fresh ratchet
    /// key pair and DH steps at once to get a sending chain.
    pub fn new_initiator(root_key: [u8; 32], peer_pub: DhPublic) -> (r: Self)
        ensures
            r.wf(),
            initiator_made(r@, root_key@, peer_pub@),
    {
        let self_kp = DhKeyPair::generate();
        let dh = self_kp.diffie_hellman(&peer_pub);
        let (new_root, send_ck) = kdf_rk(&root_key, &dh);
        let r = DhRatchet {
            root_key: new_root,
            self_kp,
            peer_pub: Some(peer_pub),
            send_chain: Some(ChainKey::new(send_ck)),
            recv_chain: None,
            skipped: Vec::new(),
            prev_send_count: 0,
        };
        assert(r@.skipped =~= Seq::<((Seq<u8>, u32), Seq<u8>)>::empty());
        r
    }

    /// The responder side: it keeps its signed-prekey pair as ratchet key
    /// and gets a sending chain on its first receive.
    pub fn new_responder(root_key: [u8; 32], self_kp: DhKeyPair) -> (r: Self)
        ensures
            r.wf(),
            r@ == (RatchetState {
                root: root_key@,
                self_secret: self_kp.secret_spec(),
                peer: None,
                send: None,
                recv: None,
                skipped: Seq::empty(),
                pn: 0,
            }),
    {
        let r = DhRatchet {
            root_key,
            self_kp,
            peer_pub: None,
            send_chain: None,
            recv_chain: None,
            skipped: Vec::new(),
            prev_send_count: 0,
        };
        assert(r@.skipped =~= Seq::<((Seq<u8>, u32), Seq<u8>)>::empty());
        r
    }

    /// The public key the peer should use for its next DH step.
    pub fn ratchet_public(&self) -> (p: DhPublic)
        ensures
            p@ == x25519_public_spec(self@.self_secret),
    {
        self.self_kp.public_bytes()
    }

    /// The key and header for the next outgoing message; `None` before this
    /// side has a sending chain (a responder that has not yet received).
    pub fn next_sending_key(&mut self) -> (r: Option<(MessageKey, RatchetHeader)>)
        requires
            old(self)@.send matches Some(c) ==> c.index < u32::MAX,
        ensures
            old(self)@.send is None ==> r is None && final(self)@ == old(self)@,
            old(self)@.send is Some ==> sent_as(r, old(self)@.send->0, old(self)@) && final(self)@ == (RatchetState {
                    root: old(self)@.root,
                    self_secret: old(self)@.self_secret,
                    peer: old(self)@.peer,
                    send: Some(step_chain(old(self)@.send->0)),
                    recv: old(self)@.recv,
                    skipped: old(self)@.skipped,
                    pn: old(self)@.pn,
                }),
    {
        let mut chain = match self.send_chain.take() {
            Some(c) => c,
            None => return None,
        };
        let (mk, idx) = chain.next_message_key();
        self.send_chain = Some(chain);
        let header = RatchetHeader { ratchet_pub: self.ratchet_public(), msg_index: idx, pn: self.prev_send_count };
        proof {
            assert(self@.skipped =~= old(self)@.skipped);
        }
        Some((mk, header))
    }

    fn find_skipped(&self, p: &DhPublic, idx: u32) -> (r: Option<usize>)
        ensures
            match r {
                Some(i) => i == key_index(self@.skipped, (p@, idx)),
                None => key_index(self@.skipped, (p@, idx)) == -1,
            },
    {
        let ghost v = self@.skipped;
        let mut i = self.skipped.len();
        assert(v.take(i as int) =~= v);
        while i > 0
            invariant
                v == self@.skipped,
                i <= v.len(),
                key_index(v, (p@, idx)) == key_index(v.take(i as int), (p@, idx)),
            decreases i,
        {
            proof {
                assert(v.take(i as int).drop_last() =~= v.take(i - 1));
            }
            let ((ep, eidx), _) = &self.skipped[i - 1];
            if *eidx == idx && same_key(ep, p) {
                return Some(i - 1);
            }
            i -= 1;
        }
        None
    }

    fn keep_skipped(&mut self, p: DhPublic, idx: u32, mk: MessageKey)
        requires
            old(self).wf(),
        ensures
            final(self).wf(),
            final(self)@ == (RatchetState { skipped: upsert(old(self)@.skipped, (p@, idx), mk.0@), ..old(self)@ }),
    {
        let ghost v = self@.skipped;
        proof {
            lemma_upsert_distinct(v, (p@, idx), mk.0@);
            lemma_key_index(v, (p@, idx));
        }
        match self.find_skipped(&p, idx) {
            Some(i) => {
                self.skipped.set(i, ((p, idx), mk));
                proof {
                    assert(self@.skipped =~= v.update(i as int, ((p@, idx), mk.0@)));
                }
            },
            None => {
                self.skipped.push(((p, idx), mk));
                proof {
                    assert(self@.skipped =~= v.push(((p@, idx), mk.0@)));
                }
            },
        }
    }

    /// Advance the receiving chain to index `until`, keeping each key passed.
    fn advance_and_stash(&mut self, until: u32) -> (r: Result<(), RatchetError>)
        requires
            old(self).wf(),
        ensures
            final(self).wf(),
            (final(self)@, r) == advance_stash_spec(old(self)@, until),
    {
        let peer = match self.peer_pub {
            Some(p) => p,
            None => return Err(RatchetError::MessageKeyGone),
        };
        let mut chain = match self.recv_chain.take() {
            Some(c) => c,
            None => return Err(RatchetError::MessageKeyGone),
        };
        let ghost s0 = old(self)@;
        let ghost c0 = chain_state(chain);
        let current = chain.index();
        if until <= current {
            self.recv_chain = Some(chain);
            return Ok(());
        }
        let gap = until - current;
        if gap > MAX_SKIP {
            self.recv_chain = Some(chain);
            return Err(RatchetError::SkipLimitExceeded);
        }
        proof {
            lemma_stash_bounds(c0, s0.skipped, peer@, gap as nat);
        }
        let mut k: u32 = 0;
        while k < gap
            invariant
                s0 == old(self)@,
                s0.peer == Some(peer@),
                s0.recv == Some(c0),
                gap == until - c0.index,
                0 < gap <= MAX_SKIP,
                k <= gap,
                chain.index_spec() == c0.index + k,
                self.recv_chain is None,
                self.wf(),
                self@.root == s0.root && self@.self_secret == s0.self_secret && self@.peer == s0.peer && self@.send
                    == s0.send && self@.pn == s0.pn,
                stash_n(c0, s0.skipped, peer@, gap as nat) == stash_n(
                    chain_state(chain),
                    self@.skipped,
                    peer@,
                    (gap - k) as nat,
                ),
            decreases gap - k,
        {
            let ghost cs = chain_state(chain);
            let (mk, idx) = chain.next_message_key();
            if self.skipped.len() >= MAX_SKIP as usize {
                self.recv_chain = Some(chain);
                proof {
                    assert(self@ == with_recv(s0, step_chain(cs), self@.skipped));
                }
                return Err(RatchetError::SkipLimitExceeded);
            }
            self.keep_skipped(peer, idx, mk);
            k += 1;
        }
        self.recv_chain = Some(chain);
        Ok(())
    }

    /// The DH step on a new peer ratchet key: a receiving chain from the
    /// current key pair, a fresh key pair, and a sending chain from it.
    fn dh_ratchet_step(&mut self, peer_new: DhPublic)
        requires
            old(self).wf(),
        ensures
            final(self).wf(),
            final(self)@.self_secret.len() == 32,
            final(self)@ == dh_step_spec(old(self)@, peer_new@, final(self)@.self_secret),
            forall|q: Seq<u8>|
                #![trigger x25519_public_spec(q)]
                q.len() == 32 && peer_new@ == x25519_public_spec(q) ==> x25519_dh_spec(
                    old(self)@.self_secret,
                    peer_new@,
                ) == x25519_dh_spec(q, x25519_public_spec(old(self)@.self_secret)),
    {
        let dh_recv = self.self_kp.diffie_hellman(&peer_new);
        let (root_after_recv, recv_ck) = kdf_rk(&self.root_key, &dh_recv);
        self.recv_chain = Some(ChainKey::new(recv_ck));
        self.self_kp = DhKeyPair::generate();
        match &self.send_chain {
            Some(old_chain) => {
                self.prev_send_count = old_chain.index();
            },
            None => {},
        }
        let dh_send = self.self_kp.diffie_hellman(&peer_new);
        let (root_after_send, send_ck) = kdf_rk(&root_after_recv, &dh_send);
        self.send_chain = Some(ChainKey::new(send_ck));
        self.root_key = root_after_send;
        self.peer_pub = Some(peer_new);
        proof {
            assert(self@.skipped =~= old(self)@.skipped);
        }
    }

    /// The key for a received message.  A kept key is handed out (and
    /// forgotten) first; a new peer ratchet key first keeps the rest of the
    /// old receiving chain up to the header's `pn` and DH steps; then the
    /// receiving chain skips forward to the message's index, keeping the
    /// keys passed, or refuses an index in its past or too far ahead.
    /// Failing steps leave what they already changed.
    pub fn next_receiving_key(&mut self, header: &RatchetHeader) -> (r: Result<MessageKey, RatchetError>)
        requires
            old(self).wf(),
            !receive_overflows(old(self)@, header.ratchet_pub@, header.msg_index),
        ensures
            final(self).wf(),
            final(self)@.self_secret.len() == 32 || final(self)@.self_secret == old(self)@.self_secret,
            ({
                let t = receive_spec(
                    old(self)@,
                    header.ratchet_pub@,
                    header.msg_index,
                    header.pn,
                    final(self)@.self_secret,
                );
                &&& final(self)@ == t.0
                &&& match r {
                    Ok(mk) => t.1 == Ok::<Seq<u8>, RatchetError>(mk.0@),
                    Err(e) => t.1 == Err::<Seq<u8>, RatchetError>(e),
                }
            }),
            key_index(old(self)@.skipped, (header.ratchet_pub@, header.msg_index)) < 0 && is_new_peer(
                old(self)@,
                header.ratchet_pub@,
            ) && pre_rotation(old(self)@, header.ratchet_pub@, header.pn).1 is Ok ==> forall|q: Seq<u8>|
                #![trigger x25519_public_spec(q)]
                q.len() == 32 && header.ratchet_pub@ == x25519_public_spec(q) ==> x25519_dh_spec(
                    old(self)@.self_secret,
                    header.ratchet_pub@,
                ) == x25519_dh_spec(q, x25519_public_spec(old(self)@.self_secret)),
    {
        let ghost s0 = old(self)@;
        let hp = header.ratchet_pub;
        let hidx = header.msg_index;
        proof {
            lemma_key_index(s0.skipped, (hp@, hidx));
        }
        match self.find_skipped(&hp, hidx) {
            Some(i) => {
                proof {
                    lemma_remove_distinct(s0.skipped, i as int);
                }
                let (_, mk) = self.skipped.remove(i);
                proof {
                    assert(self@.skipped =~= s0.skipped.remove(i as int));
                }
                return Ok(mk);
            },
            None => {},
        }
        let is_new = match self.peer_pub {
            Some(p) => !same_key(&p, &hp),
            None => true,
        };
        assert(is_new == is_new_peer(s0, hp@));
        if is_new {
            if self.recv_chain.is_some() {
                let e = self.advance_and_stash(header.pn);
                if e.is_err() {
                    return Err(e.unwrap_err());
                }
            }
            self.dh_ratchet_step(hp);
        }
        let ghost s2 = self@;
        let current = match &self.recv_chain {
            Some(c) => c.index(),
            None => return Err(RatchetError::MessageKeyGone),
        };
        if hidx > current {
            if hidx - current > MAX_JUMP {
                return Err(RatchetError::SkipLimitExceeded);
            }
            let e = self.advance_and_stash(hidx);
            if e.is_err() {
                return Err(e.unwrap_err());
            }
        } else if hidx < current {
            return Err(RatchetError::MessageKeyGone);
        }
        proof {
            if hidx > current {
                lemma_stash_bounds(s2.recv->0, s2.skipped, s2.peer->0, (hidx - current) as nat);
            }
        }
        let mut chain = match self.recv_chain.take() {
            Some(c) => c,
            None => return Err(RatchetError::MessageKeyGone),
        };
        let (mk, _idx) = chain.next_message_key();
        self.recv_chain = Some(chain);
        Ok(mk)
    }
}

} // verus!
