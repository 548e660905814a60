use theos::crypto::ratchet::dh::{kdf_ck, kdf_rk, DhKeyPair};
use theos::crypto::ratchet::dh_ratchet::{DhRatchet, RatchetError, MAX_JUMP, MAX_SKIP};
use theos::crypto::ratchet::symmetric::ChainKey;

// Diffie-Hellman and key derivation

#[test]
fn dh_is_symmetric() {
    let alice = DhKeyPair::generate();
    let bob = DhKeyPair::generate();
    let ab = alice.diffie_hellman(&bob.public_bytes());
    let ba = bob.diffie_hellman(&alice.public_bytes());
    assert_eq!(ab, ba);
}

#[test]
fn identity_derivation_is_deterministic() {
    let seed = [7u8; 32];
    let k1 = DhKeyPair::from_identity_seed(&seed);
    let k2 = DhKeyPair::from_identity_seed(&seed);
    assert_eq!(k1.public_bytes(), k2.public_bytes());
    assert_eq!(k1.private_bytes(), k2.private_bytes());
}

#[test]
fn different_seeds_give_different_identity_keys() {
    let a = DhKeyPair::from_identity_seed(&[1u8; 32]);
    let b = DhKeyPair::from_identity_seed(&[2u8; 32]);
    assert_ne!(a.public_bytes(), b.public_bytes());
}

#[test]
fn x25519_key_differs_from_ed25519_seed() {
    let seed = [42u8; 32];
    let k = DhKeyPair::from_identity_seed(&seed);
    assert_ne!(k.private_bytes(), seed);
}

#[test]
fn from_private_bytes_roundtrips_public() {
    let kp = DhKeyPair::generate();
    let priv_bytes = kp.private_bytes();
    let restored = DhKeyPair::from_private_bytes(priv_bytes);
    assert_eq!(kp.public_bytes(), restored.public_bytes());
}

#[test]
fn kdf_rk_is_deterministic_and_splits() {
    let rk = [3u8; 32];
    let dh = [9u8; 32];
    let (r1, c1) = kdf_rk(&rk, &dh);
    let (r2, c2) = kdf_rk(&rk, &dh);
    assert_eq!(r1, r2);
    assert_eq!(c1, c2);
    assert_ne!(r1, c1);
    assert_ne!(r1, rk);
}

#[test]
fn kdf_rk_changes_with_dh_input() {
    let rk = [3u8; 32];
    let (ra, _) = kdf_rk(&rk, &[1u8; 32]);
    let (rb, _) = kdf_rk(&rk, &[2u8; 32]);
    assert_ne!(ra, rb);
}

#[test]
fn kdf_ck_advances_and_differs() {
    let ck = [5u8; 32];
    let (next, msg) = kdf_ck(&ck);
    let (next2, msg2) = kdf_ck(&ck);
    assert_eq!(next, next2);
    assert_eq!(msg, msg2);
    assert_ne!(next, msg);
    assert_ne!(next, ck);
    assert_ne!(msg, ck);
}

#[test]
fn kdf_ck_chain_diverges_over_steps() {
    let ck0 = [5u8; 32];
    let (ck1, m0) = kdf_ck(&ck0);
    let (_ck2, m1) = kdf_ck(&ck1);
    assert_ne!(m0, m1);
}

// Symmetric chains

#[test]
fn message_index_increments() {
    let mut ck = ChainKey::new([1u8; 32]);
    let (_k0, i0) = ck.next_message_key();
    let (_k1, i1) = ck.next_message_key();
    let (_k2, i2) = ck.next_message_key();
    assert_eq!((i0, i1, i2), (0, 1, 2));
    assert_eq!(ck.index(), 3);
}

#[test]
fn consecutive_message_keys_differ() {
    let mut ck = ChainKey::new([2u8; 32]);
    let (k0, _) = ck.next_message_key();
    let (k1, _) = ck.next_message_key();
    assert_ne!(k0.as_bytes(), k1.as_bytes());
}

#[test]
fn two_chains_same_seed_produce_same_keys() {
    // Sender and receiver chains starting from the same chain key must
    // produce identical message keys at each index (this is how decryption
    // recovers the key).
    let seed = [9u8; 32];
    let mut send = ChainKey::new(seed);
    let mut recv = ChainKey::new(seed);
    for _ in 0..5 {
        let (sk, si) = send.next_message_key();
        let (rk, ri) = recv.next_message_key();
        assert_eq!(si, ri);
        assert_eq!(sk.as_bytes(), rk.as_bytes());
    }
}

#[test]
fn different_seeds_diverge_immediately() {
    let mut a = ChainKey::new([1u8; 32]);
    let mut b = ChainKey::new([2u8; 32]);
    let (ka, _) = a.next_message_key();
    let (kb, _) = b.next_message_key();
    assert_ne!(ka.as_bytes(), kb.as_bytes());
}

#[test]
fn message_key_is_clonable_for_use() {
    // as_bytes borrows; clone yields an independent zeroizing copy.
    let mut ck = ChainKey::new([7u8; 32]);
    let (k, _) = ck.next_message_key();
    let copy = k.clone();
    assert_eq!(k.as_bytes(), copy.as_bytes());
}

// The DH ratchet

fn pair() -> (DhRatchet, DhRatchet) {
    let root = [0x42u8; 32];
    let responder_kp = DhKeyPair::generate();
    let responder_pub = responder_kp.public_bytes();
    let initiator = DhRatchet::new_initiator(root, responder_pub);
    let responder = DhRatchet::new_responder(root, responder_kp);
    (initiator, responder)
}

#[test]
fn initiator_can_send_first() {
    let (mut alice, mut bob) = pair();
    let (ak, hdr) = alice.next_sending_key().expect("alice sends");
    let bk = bob.next_receiving_key(&hdr).unwrap();
    assert_eq!(ak.as_bytes(), bk.as_bytes());
}

#[test]
fn responder_cannot_send_before_receiving() {
    let (_alice, mut bob) = pair();
    assert!(bob.next_sending_key().is_none());
}

#[test]
fn full_round_trip_heals() {
    let (mut alice, mut bob) = pair();
    // Alice -> Bob
    let (ak0, h0) = alice.next_sending_key().unwrap();
    let bk0 = bob.next_receiving_key(&h0).unwrap();
    assert_eq!(ak0.as_bytes(), bk0.as_bytes());
    // Bob now has a sending chain (created during his receive step).
    let (bk_reply, h_reply) = bob.next_sending_key().expect("bob replies");
    let ak_reply = alice.next_receiving_key(&h_reply).unwrap();
    assert_eq!(bk_reply.as_bytes(), ak_reply.as_bytes());
}

#[test]
fn multiple_sends_before_reply() {
    let (mut alice, mut bob) = pair();
    // Alice sends three in a row; only the symmetric chain advances.
    let (a0, h0) = alice.next_sending_key().unwrap();
    let (a1, h1) = alice.next_sending_key().unwrap();
    let (a2, h2) = alice.next_sending_key().unwrap();
    assert_eq!(h0.ratchet_pub, h1.ratchet_pub); // same ratchet key
    assert_eq!(h1.ratchet_pub, h2.ratchet_pub);
    assert_eq!((h0.msg_index, h1.msg_index, h2.msg_index), (0, 1, 2));
    let b0 = bob.next_receiving_key(&h0).unwrap();
    let b1 = bob.next_receiving_key(&h1).unwrap();
    let b2 = bob.next_receiving_key(&h2).unwrap();
    assert_eq!(a0.as_bytes(), b0.as_bytes());
    assert_eq!(a1.as_bytes(), b1.as_bytes());
    assert_eq!(a2.as_bytes(), b2.as_bytes());
}

#[test]
fn sustained_conversation_stays_in_sync() {
    // Alternating turns for several rounds; keys must match every time.
    let (mut alice, mut bob) = pair();
    for _ in 0..4 {
        let (ak, ah) = alice.next_sending_key().unwrap();
        assert_eq!(ak.as_bytes(), bob.next_receiving_key(&ah).unwrap().as_bytes());
        let (bk, bh) = bob.next_sending_key().unwrap();
        assert_eq!(bk.as_bytes(), alice.next_receiving_key(&bh).unwrap().as_bytes());
    }
}

#[test]
fn ratchet_key_rotates_on_direction_change() {
    let (mut alice, mut bob) = pair();
    let (_a0, h0) = alice.next_sending_key().unwrap();
    bob.next_receiving_key(&h0).unwrap();
    let (_b0, hb) = bob.next_sending_key().unwrap();
    // Bob's ratchet key (after his receive step rotated it) differs from
    // the key Alice used.
    assert_ne!(h0.ratchet_pub, hb.ratchet_pub);
}

#[test]
fn out_of_order_within_chain() {
    let (mut alice, mut bob) = pair();
    // Alice sends three messages
    let (a0, h0) = alice.next_sending_key().unwrap();
    let (a1, h1) = alice.next_sending_key().unwrap();
    let (a2, h2) = alice.next_sending_key().unwrap();
    
    // Bob receives out of order: 2, 0, 1
    let b2 = bob.next_receiving_key(&h2).unwrap();
    let b0 = bob.next_receiving_key(&h0).unwrap();
    let b1 = bob.next_receiving_key(&h1).unwrap();
    
    assert_eq!(a0.as_bytes(), b0.as_bytes());
    assert_eq!(a1.as_bytes(), b1.as_bytes());
    assert_eq!(a2.as_bytes(), b2.as_bytes());
}

#[test]
fn dos_rejection_max_jump() {
    let (mut alice, mut bob) = pair();
    // Alice sends a normal first message so Bob establishes a recv chain.
    let (_a0, h0) = alice.next_sending_key().unwrap();
    bob.next_receiving_key(&h0).unwrap();

    // Craft a header on the same chain claiming an impossibly large index.
    let (_a1, mut evil_hdr) = alice.next_sending_key().unwrap();
    evil_hdr.msg_index = MAX_JUMP + 5;

    // Bob receives it — the jump exceeds MAX_JUMP, so reject.
    let result = bob.next_receiving_key(&evil_hdr);
    assert!(matches!(result, Err(RatchetError::SkipLimitExceeded)));
}

#[test]
fn dos_rejection_store_full() {
    let (mut alice, mut bob) = pair();
    // Alice sends a normal first message so Bob establishes a recv chain at index 1.
    let (_a0, h0) = alice.next_sending_key().unwrap();
    bob.next_receiving_key(&h0).unwrap();

    // Craft a header whose index forces a skip-gap strictly greater than the
    // bound (gap > MAX_SKIP). Bob's chain is at 1, so an index of MAX_SKIP + 2
    // means a gap of MAX_SKIP + 1 — over the limit, must be rejected.
    let (_a1, mut far_hdr) = alice.next_sending_key().unwrap();
    far_hdr.msg_index = MAX_SKIP + 2;

    let result = bob.next_receiving_key(&far_hdr);
    assert!(matches!(result, Err(RatchetError::SkipLimitExceeded)));
}

#[test]
fn kept_key_is_handed_out_once() {
    let (mut alice, mut bob) = pair();
    let (_a0, h0) = alice.next_sending_key().unwrap();
    let (_a1, h1) = alice.next_sending_key().unwrap();
    bob.next_receiving_key(&h1).unwrap();
    assert!(bob.next_receiving_key(&h0).is_ok());
    assert_eq!(bob.next_receiving_key(&h0).err(), Some(RatchetError::MessageKeyGone));
}

#[test]
fn replayed_current_index_is_gone() {
    let (mut alice, mut bob) = pair();
    let (_a0, h0) = alice.next_sending_key().unwrap();
    bob.next_receiving_key(&h0).unwrap();
    assert_eq!(bob.next_receiving_key(&h0).err(), Some(RatchetError::MessageKeyGone));
}

#[test]
fn kdf_outputs_are_thirty_two_bytes_and_fixed() {
    let (r, c) = kdf_rk(&[0u8; 32], &[0u8; 32]);
    let (r2, c2) = kdf_rk(&[0u8; 32], &[0u8; 32]);
    assert_eq!((r, c), (r2, c2));
    let (n, m) = kdf_ck(&[0u8; 32]);
    assert_ne!(n, m);
}

#[test]
fn every_delivery_order_gives_every_key() {
    let (mut alice, mut bob) = pair();
    let (k0, h0) = alice.next_sending_key().unwrap();
    assert_eq!(bob.next_receiving_key(&h0).unwrap().as_bytes(), k0.as_bytes());
    let sent: Vec<_> = (0..4).map(|_| alice.next_sending_key().unwrap()).collect();
    for &i in &[1usize, 3, 0, 2] {
        let (k, h) = &sent[i];
        assert_eq!(bob.next_receiving_key(h).unwrap().as_bytes(), k.as_bytes());
    }
    // each key is handed out once
    assert!(bob.next_receiving_key(&sent[1].1).is_err());
}

#[test]
fn late_message_of_an_old_chain_after_rotation() {
    let (mut alice, mut bob) = pair();
    let (a0, h0) = alice.next_sending_key().unwrap();
    let (a1, h1) = alice.next_sending_key().unwrap();
    assert_eq!(bob.next_receiving_key(&h0).unwrap().as_bytes(), a0.as_bytes());
    // Bob answers; Alice turns her ratchet and sends on a new chain.
    let (b0, hb0) = bob.next_sending_key().unwrap();
    assert_eq!(alice.next_receiving_key(&hb0).unwrap().as_bytes(), b0.as_bytes());
    let (a2, h2) = alice.next_sending_key().unwrap();
    assert_ne!(h2.ratchet_pub, h1.ratchet_pub);
    // The new chain's message arrives before the old chain's last one.
    assert_eq!(bob.next_receiving_key(&h2).unwrap().as_bytes(), a2.as_bytes());
    assert_eq!(bob.next_receiving_key(&h1).unwrap().as_bytes(), a1.as_bytes());
}
