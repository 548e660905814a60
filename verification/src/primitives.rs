//! The cryptographic and encoding primitives the library takes from outside
//! crates, each behind a small trusted binding: SHA-256 (`sha2`),
//! ChaCha20-Poly1305 (`chacha20poly1305`) and UTF-8 decoding (std).
use vstd::prelude::*;
use vstd::utf8::{decode_utf8, valid_utf8};
use sha2::Digest;
use chacha20poly1305::aead::{Aead, KeyInit};

verus! {

/// What SHA-256 gives for a message.
pub uninterp spec fn sha256_spec(data: Seq<u8>) -> Seq<u8>;

/// SHA-256 of `data` (`sha2::Sha256::digest`).  The digest is a function of
/// the message alone; that it is 32 bytes long is in its type.
#[verifier::external_body]
pub(crate) fn sha256(data: &[u8]) -> (r: [u8; 32])
    ensures
        r@ == sha256_spec(data@),
{
    sha2::Sha256::digest(data).into()
}

/// What ChaCha20-Poly1305 produces when it seals `plaintext` with no
/// associated data: the ciphertext followed by the 16-byte tag.
pub uninterp spec fn chacha_seal_spec(key: Seq<u8>, nonce: Seq<u8>, plaintext: Seq<u8>) -> Seq<u8>;

/// The longest message the cipher seals: fewer than `u32::MAX` blocks of
/// 64 bytes.
pub open spec fn sealable(plaintext: Seq<u8>) -> bool {
    plaintext.len() / 64 < 0xFFFF_FFFF
}

/// Seal `plaintext` (`chacha20poly1305::ChaCha20Poly1305::encrypt`, no
/// associated data).  The cipher refuses messages of `u32::MAX` blocks or
/// more, which `requires` leaves out; below that it cannot fail.  The
/// result is the plaintext XORed with the key stream of this key and nonce,
/// followed by the 16-byte Poly1305 tag: it is 16 bytes longer than the
/// plaintext, and no other plaintext seals to it under the same key and
/// nonce (the key stream is fixed, so the XOR determines the plaintext).
#[verifier::external_body]
pub(crate) fn chacha_seal(key: &[u8; 32], nonce: &[u8; 12], plaintext: &[u8]) -> (r: Vec<u8>)
    requires
        sealable(plaintext@),
    ensures
        r@ == chacha_seal_spec(key@, nonce@, plaintext@),
        r@.len() == plaintext@.len() + 16,
        forall|p: Seq<u8>| sealable(p) && chacha_seal_spec(key@, nonce@, p) == r@ ==> p == plaintext@,
{
    let cipher = chacha20poly1305::ChaCha20Poly1305::new(chacha20poly1305::Key::from_slice(key));
    cipher.encrypt(chacha20poly1305::Nonce::from_slice(nonce), plaintext).unwrap()
}

/// Open a sealed message (`chacha20poly1305::ChaCha20Poly1305::decrypt`, no
/// associated data).  Sealing is deterministic and opening inverts it: a
/// message that `chacha_seal` turned into `ciphertext` under this key and
/// nonce comes back, and whatever comes back seals to `ciphertext` (and,
/// as the cipher opens no buffer of `u32::MAX` blocks or more, is short
/// enough to seal, and 16 bytes, the tag, shorter than the ciphertext).  A
/// ciphertext that is no seal of any message is refused (`None`).
#[verifier::external_body]
pub(crate) fn chacha_open(key: &[u8; 32], nonce: &[u8; 12], ciphertext: &[u8]) -> (r: Option<Vec<u8>>)
    ensures
        r is Some ==> chacha_seal_spec(key@, nonce@, r->0@) == ciphertext@ && sealable(r->0@),
        r is Some ==> ciphertext@.len() == r->0@.len() + 16,
        forall|p: Seq<u8>|
            sealable(p) && chacha_seal_spec(key@, nonce@, p) == ciphertext@ ==> (r is Some && r->0@ == p),
{
    let cipher = chacha20poly1305::ChaCha20Poly1305::new(chacha20poly1305::Key::from_slice(key));
    match cipher.decrypt(chacha20poly1305::Nonce::from_slice(nonce), ciphertext) {
        Ok(p) => Some(p),
        Err(_) => None,
    }
}

/// Decode UTF-8 (`std::str::from_utf8`): the text when the bytes are
/// well-formed UTF-8, `None` otherwise.
#[verifier::external_body]
pub(crate) fn utf8_decode(bytes: &[u8]) -> (r: Option<String>)
    ensures
        match r {
            Some(s) => valid_utf8(bytes@) && s@ == decode_utf8(bytes@),
            None => !valid_utf8(bytes@),
        },
{
    match std::str::from_utf8(bytes) {
        Ok(s) => Some(s.to_string()),
        Err(_) => None,
    }
}

} // verus!
