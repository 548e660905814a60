use theos::crypto::ratchet::dh::DhKeyPair;
use theos::crypto::x3dh::handshake::{x3dh_initiate, x3dh_respond, X3dhError};
use theos::crypto::x3dh::prekey::{PrekeyBundle, SignedPrekey};
use theos::identity::keypair::KeyPair;

// Signed prekeys

#[test]
fn valid_bundle_verifies() {
    let identity = KeyPair::generate();
    let sp = SignedPrekey::new(&identity);
    let bundle = sp.bundle(identity.x25519_identity_public());
    assert!(bundle.verify(&identity.public));
}

#[test]
fn tampered_prekey_fails() {
    let identity = KeyPair::generate();
    let sp = SignedPrekey::new(&identity);
    let mut bundle = sp.bundle(identity.x25519_identity_public());
    bundle.prekey_public[0] ^= 0xFF;
    assert!(!bundle.verify(&identity.public));
}

#[test]
fn wrong_identity_fails() {
    let owner = KeyPair::generate();
    let impostor = KeyPair::generate();
    let sp = SignedPrekey::new(&owner);
    let bundle = sp.bundle(owner.x25519_identity_public());
    assert!(!bundle.verify(&impostor.public));
}

#[test]
fn tampered_signature_fails() {
    let identity = KeyPair::generate();
    let sp = SignedPrekey::new(&identity);
    let mut bundle = sp.bundle(identity.x25519_identity_public());
    let last = bundle.signature.len() - 1;
    bundle.signature[last] ^= 0x01;
    assert!(!bundle.verify(&identity.public));
}

#[test]
fn bundle_carries_correct_prekey() {
    let identity = KeyPair::generate();
    let sp = SignedPrekey::new(&identity);
    let bundle = sp.bundle(identity.x25519_identity_public());
    assert_eq!(bundle.prekey_public, sp.keypair().public_bytes());
}

// The handshake

// Build Bob's published bundle + keep his prekey keypair for responding.
fn bob_setup(bob: &KeyPair) -> (PrekeyBundle, DhKeyPair) {
    let sp = SignedPrekey::new(bob);
    let bundle = sp.bundle(bob.x25519_identity_public());
    // Reconstruct Bob's prekey keypair for the responder side.
    let prekey_kp = DhKeyPair::from_private_bytes(sp.keypair().private_bytes());
    (bundle, prekey_kp)
}

#[test]
fn both_sides_derive_identical_root_key() {
    // The keystone property: Alice's SK == Bob's SK. Tested by running both
    // sides and confirming a message Alice sends decrypts on Bob's ratchet
    // (which only works if the root keys matched).
    let alice = KeyPair::generate();
    let bob = KeyPair::generate();
    let (bundle, bob_prekey) = bob_setup(&bob);

    let (mut alice_ratchet, msg) =
        x3dh_initiate(&alice, &bundle, &bob.public).expect("initiate");
    let mut bob_ratchet = x3dh_respond(&bob, bob_prekey, &msg);

    let (ak, hdr) = alice_ratchet.next_sending_key().expect("alice sends");
    let bk = bob_ratchet.next_receiving_key(&hdr).unwrap();
    assert_eq!(ak.as_bytes(), bk.as_bytes());
}

#[test]
fn impostor_prekey_is_rejected() {
    // Bob's bundle, but verified against the WRONG identity -> rejected.
    let alice = KeyPair::generate();
    let bob = KeyPair::generate();
    let impostor = KeyPair::generate();
    let (bundle, _bob_prekey) = bob_setup(&bob);

    let result = x3dh_initiate(&alice, &bundle, &impostor.public);
    assert!(matches!(result, Err(X3dhError::BadPrekeySignature)));
}

#[test]
fn full_conversation_after_x3dh() {
    // End-to-end: establish via X3DH, then exchange several turns.
    let alice = KeyPair::generate();
    let bob = KeyPair::generate();
    let (bundle, bob_prekey) = bob_setup(&bob);

    let (mut a, msg) = x3dh_initiate(&alice, &bundle, &bob.public).expect("init");
    let mut b = x3dh_respond(&bob, bob_prekey, &msg);

    // Alice -> Bob
    let (ak, ah) = a.next_sending_key().unwrap();
    assert_eq!(ak.as_bytes(), b.next_receiving_key(&ah).unwrap().as_bytes());
    // Bob -> Alice (ratchet heals)
    let (bk, bh) = b.next_sending_key().unwrap();
    assert_eq!(bk.as_bytes(), a.next_receiving_key(&bh).unwrap().as_bytes());
    // Alice -> Bob again
    let (ak2, ah2) = a.next_sending_key().unwrap();
    assert_eq!(ak2.as_bytes(), b.next_receiving_key(&ah2).unwrap().as_bytes());
}

#[test]
fn different_sessions_differ() {
    // Two independent sessions must not produce the same first key.
    let alice = KeyPair::generate();
    let bob = KeyPair::generate();
    let (bundle, bob_prekey) = bob_setup(&bob);
    let (mut a1, m1) = x3dh_initiate(&alice, &bundle, &bob.public).unwrap();
    let mut b1 = x3dh_respond(&bob, bob_prekey, &m1);
    let (k1, h1) = a1.next_sending_key().unwrap();
    let _ = b1.next_receiving_key(&h1).unwrap();

    let (bundle2, bob_prekey2) = bob_setup(&bob);
    let (mut a2, m2) = x3dh_initiate(&alice, &bundle2, &bob.public).unwrap();
    let mut b2 = x3dh_respond(&bob, bob_prekey2, &m2);
    let (k2, h2) = a2.next_sending_key().unwrap();
    let _ = b2.next_receiving_key(&h2).unwrap();

    assert_ne!(k1.as_bytes(), k2.as_bytes());
}

#[test]
fn bundle_from_copied_fields_still_verifies() {
    let identity = KeyPair::generate();
    let sp = SignedPrekey::new(&identity);
    let bundle = sp.bundle(identity.x25519_identity_public());
    let copy = PrekeyBundle {
        identity_x25519: bundle.identity_x25519,
        prekey_public: bundle.prekey_public,
        signature: bundle.signature.clone(),
    };
    assert!(copy.verify(&identity.public));
    assert_eq!(copy.signature.len(), 64);
}

#[test]
fn x25519_identity_is_stable() {
    let identity = KeyPair::generate();
    assert_eq!(identity.x25519_identity_public(), identity.x25519_identity().public_bytes());
}
