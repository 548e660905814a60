use theos::dht::handle::HandleError;
use theos::identity::keypair::{IdentityKey, KeyPair};

#[test]
fn display_text_groups_first_half_of_hex() {
    let mut b = [0u8; 32];
    for (i, x) in b.iter_mut().enumerate() {
        *x = i as u8;
    }
    let k = IdentityKey(b);
    assert_eq!(k.display_text(), "00010203·04050607·08090a0b·0c0d0e0f");
}

#[test]
fn hex_round_trip_and_uri() {
    let k = KeyPair::generate().public_key();
    assert_eq!(IdentityKey::from_hex(&k.to_hex()), Ok(k.clone()));
    assert_eq!(k.to_uri(), format!("theos://contact/{}", k.to_hex()));
    assert_eq!(k.short(), k.to_hex()[..8].to_string());
}

#[test]
fn from_hex_errors() {
    assert_eq!(IdentityKey::from_hex("abc"), Err("odd length hex string".to_string()));
    assert_eq!(IdentityKey::from_hex("zz"), Err("invalid hex at position 0".to_string()));
    assert_eq!(IdentityKey::from_hex("abcd"), Err("expected 32 bytes, got 2".to_string()));
}

#[test]
fn sign_then_verify() {
    let kp = KeyPair::generate();
    let sig = kp.sign(b"payload");
    assert!(KeyPair::verify(&kp.public, b"payload", &sig));
    assert!(!KeyPair::verify(&kp.public, b"other", &sig));
    assert!(!KeyPair::verify(&kp.public, b"payload", &sig[..63]));
}

#[test]
fn handle_error_messages() {
    assert_eq!(HandleError::InvalidChar('!').message(), "invalid character '!'");
    assert_eq!(HandleError::TooShort.message(), "handle too short (min 3 chars)");
    assert_eq!(HandleError::RateLimited.message(), "rate limited -- wait 60 seconds");
}

#[test]
fn hex_text_reads_back_as_the_key() {
    let k = IdentityKey([0xA5; 32]);
    assert_eq!(IdentityKey::from_hex(&k.to_hex()).unwrap(), k);
}
