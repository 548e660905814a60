//! X25519 key pairs and the key-derivation functions of the ratchet: the
//! root-key step and the chain-key step, both HKDF-SHA256 with their own
//! info labels.
use vstd::prelude::*;
use vstd::utf8::encode_utf8;
use crate::crypto::{hkdf_sha256, hkdf_sha256_spec};

verus! {

/// A 32-byte X25519 public key.
pub type DhPublic = [u8; 32];

/// The X25519 public key of a secret key (the clamped secret times the
/// base point).
pub uninterp spec fn x25519_public_spec(secret: Seq<u8>) -> Seq<u8>;

/// The X25519 shared secret of a secret key and a peer's public key.
pub uninterp spec fn x25519_dh_spec(secret: Seq<u8>, their_public: Seq<u8>) -> Seq<u8>;

/// The X25519 public key of a secret key
/// (`x25519_dalek::PublicKey::from(&StaticSecret::from(..))`).
#[verifier::external_body]
fn x25519_public(secret: &[u8; 32]) -> (p: [u8; 32])
    ensures
        p@ == x25519_public_spec(secret@),
{
    *x25519_dalek::PublicKey::from(&x25519_dalek::StaticSecret::from(*secret)).as_bytes()
}

/// The X25519 shared secret (`StaticSecret::diffie_hellman`).  Both sides
/// of an exchange get the same bytes: when the peer's public key is that of
/// a secret `other`, the result is what `other` computes against this
/// side's public key.
#[verifier::external_body]
fn x25519_dh(secret: &[u8; 32], their_public: &[u8; 32]) -> (s: [u8; 32])
    ensures
        s@ == x25519_dh_spec(secret@, their_public@),
        forall|other: Seq<u8>|
            #![trigger x25519_public_spec(other)]
            other.len() == 32 && their_public@ == x25519_public_spec(other) ==> s@ == x25519_dh_spec(
                other,
                x25519_public_spec(secret@),
            ),
{
    let their = x25519_dalek::PublicKey::from(*their_public);
    *x25519_dalek::StaticSecret::from(*secret).diffie_hellman(&their).as_bytes()
}

/// A fresh X25519 secret key from the operating system's random source
/// (`StaticSecret::random_from_rng` with `OsRng`, then `to_bytes`).
/// Nothing is known of the bytes.
#[verifier::external_body]
fn random_x25519_secret() -> [u8; 32] {
    x25519_dalek::StaticSecret::random_from_rng(&mut rand::rngs::OsRng).to_bytes()
}

/// An X25519 key pair used by the ratchet: the secret key and its public
/// key.
pub struct DhKeyPair {
    secret: [u8; 32],
    public: [u8; 32],
}

impl DhKeyPair {
    #[verifier::type_invariant]
    spec fn public_matches(self) -> bool {
        self.public@ == x25519_public_spec(self.secret@)
    }

    /// The secret key.
    pub closed spec fn secret_spec(&self) -> Seq<u8> {
        self.secret@
    }

    /// The key pair of a secret key.
    pub fn from_private_bytes(bytes: [u8; 32]) -> (kp: Self)
        ensures
            kp.secret_spec() == bytes@,
    {
        let public = x25519_public(&bytes);
        DhKeyPair { secret: bytes, public }
    }

    /// A fresh random key pair, for ephemeral and ratchet keys.
    pub fn generate() -> (kp: Self)
        ensures
            kp.secret_spec().len() == 32,
    {
        Self::from_private_bytes(random_x25519_secret())
    }

    /// The X25519 identity key pair that belongs to an Ed25519 seed: the
    /// secret is HKDF-SHA256 of the seed under its own label, never the
    /// Ed25519 secret itself.  The same seed always gives the same pair.
    pub fn from_identity_seed(seed: &[u8; 32]) -> (kp: Self)
        ensures
            kp.secret_spec() == identity_secret_spec(seed@),
    {
        let okm = hkdf_sha256(None, seed.as_slice(), "theos-x25519-identity-v1".as_bytes(), 32);
        let mut secret = [0u8; 32];
        let mut i: usize = 0;
        while i < 32
            invariant
                i <= 32,
                okm@.len() == 32,
                forall|k: int| 0 <= k < i ==> secret@[k] == okm@[k],
            decreases 32 - i,
        {
            secret[i] = okm[i];
            i += 1;
        }
        assert(secret@ =~= okm@);
        Self::from_private_bytes(secret)
    }

    /// The public key.
    pub fn public_bytes(&self) -> (p: DhPublic)
        ensures
            p@ == x25519_public_spec(self.secret_spec()),
    {
        proof {
            use_type_invariant(self);
        }
        self.public
    }

    /// The secret key, for sealed storage only.
    pub fn private_bytes(&self) -> (s: [u8; 32])
        ensures
            s@ == self.secret_spec(),
    {
        self.secret
    }

    /// The shared secret with a peer's public key.  When the peer's key is
    /// that of a secret `other`, it equals what `other` computes against
    /// this pair's public key.
    pub fn diffie_hellman(&self, their_public: &DhPublic) -> (s: [u8; 32])
        ensures
            s@ == x25519_dh_spec(self.secret_spec(), their_public@),
            forall|other: Seq<u8>|
                #![trigger x25519_public_spec(other)]
                other.len() == 32 && their_public@ == x25519_public_spec(other) ==> s@ == x25519_dh_spec(
                    other,
                    x25519_public_spec(self.secret_spec()),
                ),
    {
        x25519_dh(&self.secret, their_public)
    }

}

impl Clone for DhKeyPair {
    /// The same key pair, rebuilt from the secret key.
    fn clone(&self) -> (kp: Self)
        ensures
            kp.secret_spec() == self.secret_spec(),
    {
        Self::from_private_bytes(self.secret)
    }
}

/// The X25519 identity secret derived from an Ed25519 seed.
pub open spec fn identity_secret_spec(seed: Seq<u8>) -> Seq<u8> {
    hkdf_sha256_spec(None, seed, encode_utf8("theos-x25519-identity-v1"@), 32)
}

/// The 64 bytes the root-key step derives.
pub open spec fn kdf_rk_okm(root_key: Seq<u8>, dh_out: Seq<u8>) -> Seq<u8> {
    hkdf_sha256_spec(Some(root_key), dh_out, encode_utf8("theos-ratchet-rk-v1"@), 64)
}

/// The 64 bytes the chain-key step derives.
pub open spec fn kdf_ck_okm(chain_key: Seq<u8>) -> Seq<u8> {
    hkdf_sha256_spec(Some(chain_key), Seq::empty(), encode_utf8("theos-ratchet-ck-v1"@), 64)
}

fn split64(okm: &Vec<u8>) -> (r: ([u8; 32], [u8; 32]))
    requires
        okm@.len() == 64,
    ensures
        r.0@ == okm@.take(32),
        r.1@ == okm@.skip(32),
{
    let mut a = [0u8; 32];
    let mut b = [0u8; 32];
    let mut i: usize = 0;
    while i < 32
        invariant
            i <= 32,
            okm@.len() == 64,
            forall|k: int| 0 <= k < i ==> a@[k] == okm@[k] && b@[k] == okm@[k + 32],
        decreases 32 - i,
    {
        a[i] = okm[i];
        b[i] = okm[i + 32];
        i += 1;
    }
    assert(a@ =~= okm@.take(32));
    assert(b@ =~= okm@.skip(32));
    (a, b)
}

/// Root-key step: the current root key (as salt) and a DH output give the
/// new root key and a chain key.
pub fn kdf_rk(root_key: &[u8; 32], dh_out: &[u8; 32]) -> (r: ([u8; 32], [u8; 32]))
    ensures
        r.0@ == kdf_rk_okm(root_key@, dh_out@).take(32),
        r.1@ == kdf_rk_okm(root_key@, dh_out@).skip(32),
{
    let okm = hkdf_sha256(Some(root_key.as_slice()), dh_out.as_slice(), "theos-ratchet-rk-v1".as_bytes(), 64);
    split64(&okm)
}

/// Chain-key step: a chain key (as salt) gives the next chain key and a
/// message key.
pub fn kdf_ck(chain_key: &[u8; 32]) -> (r: ([u8; 32], [u8; 32]))
    ensures
        r.0@ == kdf_ck_okm(chain_key@).take(32),
        r.1@ == kdf_ck_okm(chain_key@).skip(32),
{
    let empty: [u8; 0] = [];
    let okm = hkdf_sha256(Some(chain_key.as_slice()), empty.as_slice(), "theos-ratchet-ck-v1".as_bytes(), 64);
    proof {
        assert(empty@ =~= Seq::<u8>::empty());
    }
    split64(&okm)
}

} // verus!
