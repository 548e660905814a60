//! Authenticated encryption of messages under a key, a counter and a
//! session id, and the key-derivation and wiping primitives beneath the
//! ratchet.
use vstd::prelude::*;
use vstd::bytes::{spec_u64_to_le_bytes, u64_to_le_bytes};
use crate::primitives::{chacha_open, chacha_seal, chacha_seal_spec, sealable};
use zeroize::Zeroize;

pub mod ratchet;
pub mod x3dh;

verus! {

/// Why sealing or opening failed.
#[derive(Debug, Clone, Copy, PartialEq, Eq, Structural)]
pub enum CryptoError {
    /// The message is too long for the cipher.
    EncryptFailed,
    /// The ciphertext does not authenticate under this key and nonce.
    DecryptFailed,
}

/// The nonce of a message: the counter (little-endian) followed by the low
/// four bytes of the session id (little-endian).
pub open spec fn nonce_spec(counter: u64, session_id: u64) -> Seq<u8> {
    spec_u64_to_le_bytes(counter) + spec_u64_to_le_bytes(session_id).take(4)
}

fn nonce_for(counter: u64, session_id: u64) -> (n: [u8; 12])
    ensures
        n@ == nonce_spec(counter, session_id),
{
    let c = u64_to_le_bytes(counter);
    let s = u64_to_le_bytes(session_id);
    proof {
        vstd::bytes::lemma_auto_spec_u64_to_from_le_bytes();
    }
    let mut n = [0u8; 12];
    let mut i: usize = 0;
    while i < 8
        invariant
            i <= 8,
            c@.len() == 8,
            forall|k: int| 0 <= k < i ==> n@[k] == c@[k],
        decreases 8 - i,
    {
        n[i] = c[i];
        i += 1;
    }
    while i < 12
        invariant
            8 <= i <= 12,
            c@.len() == 8,
            s@.len() == 8,
            forall|k: int| 0 <= k < 8 ==> n@[k] == c@[k],
            forall|k: int| 8 <= k < i ==> n@[k] == s@[k - 8],
        decreases 12 - i,
    {
        n[i] = s[i - 8];
        i += 1;
    }
    assert(n@ =~= c@ + s@.take(4));
    n
}

/// Seal a message under `key` with the nonce of `counter` and `session_id`;
/// a message too long for the cipher is refused.  Each counter must be used
/// once per key and session.
pub fn encrypt(key: &[u8; 32], counter: u64, session_id: u64, plaintext: &[u8]) -> (r: Result<Vec<u8>, CryptoError>)
    ensures
        sealable(plaintext@) ==> r is Ok && r->Ok_0@ == chacha_seal_spec(key@, nonce_spec(counter, session_id), plaintext@),
        sealable(plaintext@) ==> r->Ok_0@.len() == plaintext@.len() + 16,
        sealable(plaintext@) ==> forall|p: Seq<u8>|
            sealable(p) && chacha_seal_spec(key@, nonce_spec(counter, session_id), p) == r->Ok_0@ ==> p == plaintext@,
        !sealable(plaintext@) ==> r == Err::<Vec<u8>, CryptoError>(CryptoError::EncryptFailed),
{
    if plaintext.len() / 64 >= 0xFFFF_FFFF {
        return Err(CryptoError::EncryptFailed);
    }
    let n = nonce_for(counter, session_id);
    Ok(chacha_seal(key, &n, plaintext))
}

/// Open a message sealed by `encrypt` with the same key, counter and
/// session id; anything else is refused.
pub fn decrypt(key: &[u8; 32], counter: u64, session_id: u64, ciphertext: &[u8]) -> (r: Result<Vec<u8>, CryptoError>)
    ensures
        r is Ok ==> chacha_seal_spec(key@, nonce_spec(counter, session_id), r->Ok_0@) == ciphertext@ && sealable(
            r->Ok_0@,
        ),
        r is Ok ==> ciphertext@.len() == r->Ok_0@.len() + 16,
        r is Err ==> r == Err::<Vec<u8>, CryptoError>(CryptoError::DecryptFailed),
        forall|p: Seq<u8>|
            sealable(p) && chacha_seal_spec(key@, nonce_spec(counter, session_id), p) == ciphertext@ ==> (r is Ok
                && r->Ok_0@ == p),
{
    let n = nonce_for(counter, session_id);
    match chacha_open(key, &n, ciphertext) {
        Some(p) => Ok(p),
        None => Err(CryptoError::DecryptFailed),
    }
}

/// What HKDF-SHA256 derives: `len` bytes from a salt (none: the all-zero
/// salt), input key material and an info string.
pub uninterp spec fn hkdf_sha256_spec(salt: Option<Seq<u8>>, ikm: Seq<u8>, info: Seq<u8>, len: nat) -> Seq<u8>;

/// HKDF-SHA256 extract-then-expand (`hkdf::Hkdf::<Sha256>::new`, then
/// `expand`) of `len` bytes.  Expansion refuses more than 255 hash blocks
/// (8160 bytes), which `requires` leaves out.
#[verifier::external_body]
pub(crate) fn hkdf_sha256(salt: Option<&[u8]>, ikm: &[u8], info: &[u8], len: usize) -> (okm: Vec<u8>)
    requires
        len <= 8160,
    ensures
        okm@.len() == len,
        okm@ == hkdf_sha256_spec(
            match salt {
                Some(s) => Some(s@),
                None => None,
            },
            ikm@,
            info@,
            len as nat,
        ),
{
    let hk = hkdf::Hkdf::<sha2::Sha256>::new(salt, ikm);
    let mut okm = vec![0u8; len];
    hk.expand(info, &mut okm).unwrap();
    okm
}

/// Overwrite key material with zeros (`zeroize::Zeroize::zeroize`, which
/// the compiler does not elide).
#[verifier::external_body]
pub(crate) fn wipe(key: &mut [u8; 32])
    ensures
        forall|i: int| 0 <= i < 32 ==> final(key)@[i] == 0,
{
    key.zeroize();
}

} // verus!
