use theos::identity::keypair::{IdentityKey, KeyPair};
use theos::signal_bridge::{
    derive_registration_id, MessageProtocol, PreKeyBundle, RatchetState, SignalBridge, SignalSession,
    SIGNED_PREKEY_ID,
};


fn key() -> IdentityKey { KeyPair::generate().public }

#[test]
fn test_registration_id_in_range() {
    let k  = key();
    let id = derive_registration_id(&k);
    assert!(id >= 1 && id <= 16380);
}

#[test]
fn test_registration_id_deterministic() {
    let k   = key();
    let id1 = derive_registration_id(&k);
    let id2 = derive_registration_id(&k);
    assert_eq!(id1, id2);
}

#[test]
fn test_registration_id_valid_per_key() {
    let k1 = key();
    let k2 = key();
    assert!(derive_registration_id(&k1) >= 1);
    assert!(derive_registration_id(&k2) >= 1);
}

#[test]
fn test_prekey_bundle_creation() {
    let k      = key();
    let bundle = PreKeyBundle::new_demo(&k, 1);
    assert_eq!(bundle.device_id, 1);
    assert_eq!(bundle.signed_prekey_id, SIGNED_PREKEY_ID);
    assert_eq!(bundle.identity_key, k);
    assert!(bundle.registration_id >= 1 && bundle.registration_id <= 16380);
}

#[test]
fn test_prekey_bundle_deterministic() {
    let k  = key();
    let b1 = PreKeyBundle::new_demo(&k, 1);
    let b2 = PreKeyBundle::new_demo(&k, 1);
    assert_eq!(b1.prekey_public, b2.prekey_public);
    assert_eq!(b1.signed_prekey, b2.signed_prekey);
}

#[test]
fn test_prekey_bundle_different_ids_differ() {
    let k  = key();
    let b1 = PreKeyBundle::new_demo(&k, 1);
    let b2 = PreKeyBundle::new_demo(&k, 2);
    assert_ne!(b1.prekey_public, b2.prekey_public);
}

#[test]
fn test_session_starts_uninitialized() {
    let session = SignalSession::new(key());
    assert!(!session.is_active());
    assert_eq!(session.state, RatchetState::Uninitialized);
}

#[test]
fn test_session_initializes_from_bundle() {
    let alice  = key();
    let bob    = key();
    let bundle = PreKeyBundle::new_demo(&bob, 1);
    let mut session = SignalSession::new(bob.clone());
    session.initialize_from_bundle(&bundle, &alice);
    assert!(session.is_active());
}

#[test]
fn test_session_produces_send_key() {
    let alice  = key();
    let bob    = key();
    let bundle = PreKeyBundle::new_demo(&bob, 1);
    let mut session = SignalSession::new(bob.clone());
    session.initialize_from_bundle(&bundle, &alice);
    let (msg_key, num) = session.next_send_key().unwrap();
    assert_eq!(num, 0);
    assert_ne!(msg_key, [0u8; 32]);
}

#[test]
fn test_session_keys_advance() {
    let alice  = key();
    let bob    = key();
    let bundle = PreKeyBundle::new_demo(&bob, 1);
    let mut session = SignalSession::new(bob.clone());
    session.initialize_from_bundle(&bundle, &alice);
    let (k1, n1) = session.next_send_key().unwrap();
    let (k2, n2) = session.next_send_key().unwrap();
    assert_ne!(k1, k2);
    assert_eq!(n1, 0);
    assert_eq!(n2, 1);
}

#[test]
fn test_session_no_key_when_uninitialized() {
    let mut session = SignalSession::new(key());
    assert!(session.next_send_key().is_none());
}

#[test]
fn test_bridge_creation() {
    let k      = key();
    let bridge = SignalBridge::new(k.clone());
    assert_eq!(bridge.registration_id, derive_registration_id(&k));
    assert_eq!(bridge.session_count(), 0);
}

#[test]
fn test_bridge_protocol_routing() {
    let my_key     = key();
    let signal_key = key();
    let theos_key  = key();
    let mut bridge = SignalBridge::new(my_key);
    bridge.register_signal_contact(&signal_key);
    assert_eq!(bridge.protocol_for(&signal_key), MessageProtocol::Signal);
    assert_eq!(bridge.protocol_for(&theos_key),  MessageProtocol::TheOsNative);
}

#[test]
fn test_bridge_establish_session() {
    let my_key  = key();
    let bob_key = key();
    let bundle  = PreKeyBundle::new_demo(&bob_key, 1);
    let mut bridge = SignalBridge::new(my_key);
    bridge.establish_session(&bundle);
    assert_eq!(bridge.session_count(), 1);
    assert!(bridge.session(&bob_key).unwrap().is_active());
}

#[test]
fn test_bridge_session_message_flow() {
    let alice_key = key();
    let bob_key   = key();
    let bundle    = PreKeyBundle::new_demo(&bob_key, 1);
    let mut bridge = SignalBridge::new(alice_key);
    bridge.establish_session(&bundle);
    let session = bridge.session_mut(&bob_key).unwrap();
    let (msg_key, num) = session.next_send_key().unwrap();
    assert_eq!(num, 0);
    assert_ne!(msg_key, [0u8; 32]);
}

#[test]
fn test_is_signal_contact() {
    let my_key     = key();
    let signal_key = key();
    let mut bridge = SignalBridge::new(my_key);
    assert!(!bridge.is_signal_contact(&signal_key));
    bridge.register_signal_contact(&signal_key);
    assert!(bridge.is_signal_contact(&signal_key));
}

#[test]
fn test_both_sides_active_after_init() {
    let alice_key    = key();
    let bob_key      = key();
    let alice_bundle = PreKeyBundle::new_demo(&alice_key, 1);
    let bob_bundle   = PreKeyBundle::new_demo(&bob_key, 1);

    let mut alice_session = SignalSession::new(bob_key.clone());
    alice_session.initialize_from_bundle(&bob_bundle, &alice_key);

    let mut bob_session = SignalSession::new(alice_key.clone());
    bob_session.initialize_from_bundle(&alice_bundle, &bob_key);

    assert!(alice_session.is_active());
    assert!(bob_session.is_active());
}
