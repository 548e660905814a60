//! Signed prekeys: a medium-term X25519 key pair signed with the owner's
//! Ed25519 identity key, so a peer can start a session while the owner is
//! away and an impostor cannot substitute a prekey of their own.
use vstd::prelude::*;
use vstd::utf8::encode_utf8;
use crate::camera::append;
use crate::crypto::ratchet::dh::{x25519_public_spec, DhKeyPair, DhPublic};
use crate::identity::keypair::{ed25519_public_spec, ed25519_sign_spec, ed25519_verify_spec, IdentityKey, KeyPair};

verus! {

/// The bytes a prekey signature covers.
pub open spec fn prekey_payload(prekey_public: Seq<u8>) -> Seq<u8> {
    encode_utf8("theos-signed-prekey-v1"@) + prekey_public
}

fn prekey_signing_payload(prekey_public: &DhPublic) -> (p: Vec<u8>)
    ensures
        p@ == prekey_payload(prekey_public@),
{
    let mut p: Vec<u8> = Vec::new();
    append(&mut p, "theos-signed-prekey-v1".as_bytes());
    append(&mut p, prekey_public);
    p
}

/// The owner's private signed prekey: the X25519 pair and the Ed25519
/// signature over its public key.
pub struct SignedPrekey {
    keypair: DhKeyPair,
    signature: Vec<u8>,
}

impl SignedPrekey {
    /// The prekey's secret key.
    pub closed spec fn secret_spec(&self) -> Seq<u8> {
        self.keypair.secret_spec()
    }

    /// The signature.
    pub closed spec fn signature_spec(&self) -> Seq<u8> {
        self.signature@
    }

    /// A fresh prekey, signed by `identity`.
    pub fn new(identity: &KeyPair) -> (sp: Self)
        ensures
            sp.secret_spec().len() == 32,
            sp.signature_spec() == ed25519_sign_spec(
                identity.secret_spec(),
                prekey_payload(x25519_public_spec(sp.secret_spec())),
            ),
            sp.signature_spec().len() == 64,
    {
        let keypair = DhKeyPair::generate();
        let payload = prekey_signing_payload(&keypair.public_bytes());
        let signature = identity.sign(payload.as_slice());
        SignedPrekey { keypair, signature }
    }

    /// The prekey's key pair.
    pub fn keypair(&self) -> (kp: &DhKeyPair)
        ensures
            kp.secret_spec() == self.secret_spec(),
    {
        &self.keypair
    }

    /// The public bundle a peer needs, with the owner's X25519 identity key.
    pub fn bundle(&self, identity_x25519: DhPublic) -> (b: PrekeyBundle)
        ensures
            b.identity_x25519 == identity_x25519,
            b.prekey_public@ == x25519_public_spec(self.secret_spec()),
            b.signature@ == self.signature_spec(),
    {
        PrekeyBundle {
            identity_x25519,
            prekey_public: self.keypair.public_bytes(),
            signature: vstd::slice::slice_to_vec(self.signature.as_slice()),
        }
    }
}

/// The public half a peer needs to start a session.
#[derive(Debug, Clone, PartialEq)]
pub struct PrekeyBundle {
    pub identity_x25519: DhPublic,
    pub prekey_public: DhPublic,
    pub signature: Vec<u8>,
}

/// The bundle's prekey carries a valid signature of this identity.
pub open spec fn bundle_signed(b: PrekeyBundle, identity: Seq<u8>) -> bool {
    b.signature@.len() == 64 && ed25519_verify_spec(identity, prekey_payload(b.prekey_public@), b.signature@)
}

impl PrekeyBundle {
    /// Check the prekey signature against the owner's Ed25519 identity key:
    /// false when tampered with or checked against another identity.  A
    /// bundle signed with the key pair of that identity passes.
    pub fn verify(&self, identity_ed25519: &IdentityKey) -> (r: bool)
        ensures
            r == bundle_signed(*self, identity_ed25519.0@),
            forall|seed: Seq<u8>|
                seed.len() == 32 && self.signature@.len() == 64 && identity_ed25519.0@ == ed25519_public_spec(seed)
                    && self.signature@ == ed25519_sign_spec(seed, prekey_payload(self.prekey_public@)) ==> r,
    {
        let payload = prekey_signing_payload(&self.prekey_public);
        KeyPair::verify(identity_ed25519, payload.as_slice(), self.signature.as_slice())
    }
}

} // verus!
