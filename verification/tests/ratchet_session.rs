use theos::crypto::CryptoError;
use theos::crypto::ratchet::dh::DhKeyPair;
use theos::crypto::ratchet::session::{RatchetSession, SessionError};
use theos::crypto::ratchet::dh_ratchet::RatchetError;
use theos::crypto::x3dh::handshake::{x3dh_initiate, x3dh_respond};
use theos::crypto::x3dh::prekey::SignedPrekey;
use theos::identity::keypair::KeyPair;

// Wire up a real Alice/Bob pair via X3DH, return their two sessions.
fn session_pair() -> (RatchetSession, RatchetSession) {

    let alice = KeyPair::generate();
    let bob = KeyPair::generate();

    // Build Bob's published bundle and reconstruct his prekey keypair,
    // mirroring the handshake module's own bob_setup helper.
    let sp = SignedPrekey::new(&bob);
    let bundle = sp.bundle(bob.x25519_identity_public());
    let bob_prekey_kp = DhKeyPair::from_private_bytes(sp.keypair().private_bytes());

    let (alice_ratchet, init_msg) =
        x3dh_initiate(&alice, &bundle, &bob.public).unwrap();
    let bob_ratchet = x3dh_respond(&bob, bob_prekey_kp, &init_msg);

    (RatchetSession::new(alice_ratchet), RatchetSession::new(bob_ratchet))
}

#[test]
fn single_message_round_trips() {
    let (mut alice, mut bob) = session_pair();
    let (hdr, ct) = alice.encrypt_outgoing(b"hello bob").unwrap();
    let pt = bob.decrypt_incoming(&hdr, &ct).unwrap();
    assert_eq!(pt, b"hello bob");
}

#[test]
fn ciphertext_is_not_plaintext() {
    let (mut alice, mut _bob) = session_pair();
    let (_hdr, ct) = alice.encrypt_outgoing(b"secret").unwrap();
    assert_ne!(&ct[..], b"secret");
}

#[test]
fn multiple_messages_in_order() {
    let (mut alice, mut bob) = session_pair();
    for text in [b"one".as_slice(), b"two", b"three"] {
        let (hdr, ct) = alice.encrypt_outgoing(text).unwrap();
        let pt = bob.decrypt_incoming(&hdr, &ct).unwrap();
        assert_eq!(pt, text);
    }
}

#[test]
fn full_duplex_conversation() {
    let (mut alice, mut bob) = session_pair();
    // Alice -> Bob
    let (h1, c1) = alice.encrypt_outgoing(b"hi bob").unwrap();
    assert_eq!(bob.decrypt_incoming(&h1, &c1).unwrap(), b"hi bob");
    // Bob -> Alice (reply, triggers rotation)
    let (h2, c2) = bob.encrypt_outgoing(b"hi alice").unwrap();
    assert_eq!(alice.decrypt_incoming(&h2, &c2).unwrap(), b"hi alice");
    // Alice -> Bob again
    let (h3, c3) = alice.encrypt_outgoing(b"how are you").unwrap();
    assert_eq!(bob.decrypt_incoming(&h3, &c3).unwrap(), b"how are you");
}

#[test]
fn out_of_order_delivery() {
    let (mut alice, mut bob) = session_pair();
    let (h0, c0) = alice.encrypt_outgoing(b"msg0").unwrap();
    let (h1, c1) = alice.encrypt_outgoing(b"msg1").unwrap();
    let (h2, c2) = alice.encrypt_outgoing(b"msg2").unwrap();
    // Bob receives 2, 0, 1
    assert_eq!(bob.decrypt_incoming(&h2, &c2).unwrap(), b"msg2");
    assert_eq!(bob.decrypt_incoming(&h0, &c0).unwrap(), b"msg0");
    assert_eq!(bob.decrypt_incoming(&h1, &c1).unwrap(), b"msg1");
}

#[test]
fn session_tampered_ciphertext_fails() {
    let (mut alice, mut bob) = session_pair();
    let (hdr, mut ct) = alice.encrypt_outgoing(b"authentic").unwrap();
    ct[0] ^= 0xff; // flip a byte
    let result = bob.decrypt_incoming(&hdr, &ct);
    assert_eq!(result, Err(SessionError::Crypto(CryptoError::DecryptFailed)));
}

#[test]
fn responder_cannot_encrypt_first() {
    let (_alice, mut bob) = session_pair();
    assert_eq!(
        bob.encrypt_outgoing(b"early"),
        Err(SessionError::Ratchet(RatchetError::MessageKeyGone))
    );
}

#[test]
fn session_errors_convert() {
    assert_eq!(SessionError::from(RatchetError::SkipLimitExceeded), SessionError::Ratchet(RatchetError::SkipLimitExceeded));
    assert_eq!(SessionError::from(CryptoError::DecryptFailed), SessionError::Crypto(CryptoError::DecryptFailed));
}
