//! The X3DH handshake (three DHs, no one-time prekey): both sides derive
//! the same root key without sending a secret, and start a ratchet on it.
//!   DH1 = DH(identity of initiator, signed prekey of responder)
//!   DH2 = DH(ephemeral of initiator, identity of responder)
//!   DH3 = DH(ephemeral of initiator, signed prekey of responder)
//!   root = HKDF(DH1 || DH2 || DH3)
use vstd::prelude::*;
use vstd::utf8::encode_utf8;
use crate::camera::append;
use crate::crypto::{hkdf_sha256, hkdf_sha256_spec};
use crate::crypto::ratchet::dh::{identity_secret_spec, x25519_dh_spec, x25519_public_spec, DhKeyPair, DhPublic};
use crate::crypto::ratchet::dh_ratchet::{
    chain_msg, initiator_made, law_first_message_key_agrees, receive_spec, responder_state, DhRatchet, RatchetError,
    RatchetState,
};
use crate::crypto::x3dh::prekey::{bundle_signed, PrekeyBundle};
use crate::identity::keypair::{IdentityKey, KeyPair};

verus! {

/// Why a handshake was refused.
#[derive(Debug, Clone, Copy, PartialEq, Eq, Structural)]
pub enum X3dhError {
    /// The bundle's prekey is not signed by the claimed identity.
    BadPrekeySignature,
}

/// What the initiator sends so the responder can derive the same root key:
/// public values only.
#[derive(Debug, Clone, PartialEq)]
pub struct InitialMessage {
    pub initiator_identity: DhPublic,
    pub initiator_ephemeral: DhPublic,
}

/// The root key from the three DH outputs, in this order.
pub open spec fn x3dh_root_spec(dh1: Seq<u8>, dh2: Seq<u8>, dh3: Seq<u8>) -> Seq<u8> {
    hkdf_sha256_spec(None, dh1 + dh2 + dh3, encode_utf8("theos-x3dh-v1"@), 32)
}

/// The root key the initiator derives from its identity secret `ia`,
/// ephemeral secret `e`, and the responder's prekey and identity public keys.
pub open spec fn initiator_root(ia: Seq<u8>, e: Seq<u8>, spk_pub: Seq<u8>, ikb_pub: Seq<u8>) -> Seq<u8> {
    x3dh_root_spec(x25519_dh_spec(ia, spk_pub), x25519_dh_spec(e, ikb_pub), x25519_dh_spec(e, spk_pub))
}

/// The root key the responder derives from its prekey secret `spk`,
/// identity secret `ikb` and the initial message.
pub open spec fn responder_root(spk: Seq<u8>, ikb: Seq<u8>, msg: InitialMessage) -> Seq<u8> {
    x3dh_root_spec(
        x25519_dh_spec(spk, msg.initiator_identity@),
        x25519_dh_spec(ikb, msg.initiator_ephemeral@),
        x25519_dh_spec(spk, msg.initiator_ephemeral@),
    )
}

/// `ratchet` and `msg` are what `x3dh_initiate` gives for identity secret
/// `ia`, ephemeral secret `e` and the responder's public keys; each DH
/// output is also what the responder's secrets give against the
/// initiator's public keys.
pub open spec fn initiated(
    ratchet: RatchetState,
    msg: InitialMessage,
    ia: Seq<u8>,
    e: Seq<u8>,
    spk_pub: Seq<u8>,
    ikb_pub: Seq<u8>,
) -> bool {
    &&& e.len() == 32
    &&& msg.initiator_identity@ == x25519_public_spec(ia)
    &&& msg.initiator_ephemeral@ == x25519_public_spec(e)
    &&& initiator_made(ratchet, initiator_root(ia, e, spk_pub, ikb_pub), spk_pub)
    &&& forall|bs: Seq<u8>|
        #![trigger x25519_public_spec(bs)]
        bs.len() == 32 && spk_pub == x25519_public_spec(bs) ==> x25519_dh_spec(ia, spk_pub) == x25519_dh_spec(
            bs,
            x25519_public_spec(ia),
        ) && x25519_dh_spec(e, spk_pub) == x25519_dh_spec(bs, x25519_public_spec(e))
    &&& forall|bi: Seq<u8>|
        #![trigger x25519_public_spec(bi)]
        bi.len() == 32 && ikb_pub == x25519_public_spec(bi) ==> x25519_dh_spec(e, ikb_pub) == x25519_dh_spec(
            bi,
            x25519_public_spec(e),
        )
}

/// Some ephemeral secret makes `ratchet` and `msg` what the initiator gives.
pub open spec fn initiate_result(
    ratchet: RatchetState,
    msg: InitialMessage,
    ia: Seq<u8>,
    spk_pub: Seq<u8>,
    ikb_pub: Seq<u8>,
) -> bool {
    exists|e: Seq<u8>| #[trigger] initiated(ratchet, msg, ia, e, spk_pub, ikb_pub)
}

fn derive_shared_secret(dh1: &[u8; 32], dh2: &[u8; 32], dh3: &[u8; 32]) -> (sk: [u8; 32])
    ensures
        sk@ == x3dh_root_spec(dh1@, dh2@, dh3@),
{
    let mut ikm: Vec<u8> = Vec::new();
    append(&mut ikm, dh1);
    append(&mut ikm, dh2);
    append(&mut ikm, dh3);
    let okm = hkdf_sha256(None, ikm.as_slice(), "theos-x3dh-v1".as_bytes(), 32);
    let mut sk = [0u8; 32];
    let mut i: usize = 0;
    while i < 32
        invariant
            i <= 32,
            okm@.len() == 32,
            forall|k: int| 0 <= k < i ==> sk@[k] == okm@[k],
        decreases 32 - i,
    {
        sk[i] = okm[i];
        i += 1;
    }
    assert(sk@ =~= okm@);
    sk
}

/// The initiator's side: check the responder's bundle against its claimed
/// Ed25519 identity (refusing an impostor's prekey), make an ephemeral key,
/// derive the root key from the three DHs, and start the ratchet with the
/// responder's signed prekey as the first peer ratchet key.
pub fn x3dh_initiate(initiator_identity: &KeyPair, peer_bundle: &PrekeyBundle, peer_identity_ed25519: &IdentityKey) -> (r:
    Result<(DhRatchet, InitialMessage), X3dhError>)
    ensures
        match r {
            Ok((ratchet, msg)) => bundle_signed(*peer_bundle, peer_identity_ed25519.0@) && ratchet.wf()
                && initiate_result(
                ratchet@,
                msg,
                identity_secret_spec(initiator_identity.secret_spec()),
                peer_bundle.prekey_public@,
                peer_bundle.identity_x25519@,
            ),
            Err(x) => !bundle_signed(*peer_bundle, peer_identity_ed25519.0@) && x == X3dhError::BadPrekeySignature,
        },
{
    if !peer_bundle.verify(peer_identity_ed25519) {
        return Err(X3dhError::BadPrekeySignature);
    }
    let ik_a = initiator_identity.x25519_identity();
    let ek_a = DhKeyPair::generate();
    let spk_b = &peer_bundle.prekey_public;
    let ik_b = &peer_bundle.identity_x25519;
    let dh1 = ik_a.diffie_hellman(spk_b);
    let dh2 = ek_a.diffie_hellman(ik_b);
    let dh3 = ek_a.diffie_hellman(spk_b);
    let sk = derive_shared_secret(&dh1, &dh2, &dh3);
    let ratchet = DhRatchet::new_initiator(sk, *spk_b);
    let msg = InitialMessage { initiator_identity: ik_a.public_bytes(), initiator_ephemeral: ek_a.public_bytes() };
    proof {
        assert(initiated(
            ratchet@,
            msg,
            identity_secret_spec(initiator_identity.secret_spec()),
            ek_a.secret_spec(),
            peer_bundle.prekey_public@,
            peer_bundle.identity_x25519@,
        ));
        assert(initiate_result(
            ratchet@,
            msg,
            identity_secret_spec(initiator_identity.secret_spec()),
            peer_bundle.prekey_public@,
            peer_bundle.identity_x25519@,
        ));
    }
    Ok((ratchet, msg))
}

/// The responder's side: mirror each DH (own secret against the
/// initiator's public keys) and start the ratchet with the signed-prekey
/// pair as this side's ratchet key.
pub fn x3dh_respond(responder_identity: &KeyPair, responder_prekey: DhKeyPair, msg: &InitialMessage) -> (r: DhRatchet)
    ensures
        r.wf(),
        r@ == responder_state(
            responder_root(
                responder_prekey.secret_spec(),
                identity_secret_spec(responder_identity.secret_spec()),
                *msg,
            ),
            responder_prekey.secret_spec(),
        ),
{
    let ik_b = responder_identity.x25519_identity();
    let dh1 = responder_prekey.diffie_hellman(&msg.initiator_identity);
    let dh2 = ik_b.diffie_hellman(&msg.initiator_ephemeral);
    let dh3 = responder_prekey.diffie_hellman(&msg.initiator_ephemeral);
    let sk = derive_shared_secret(&dh1, &dh2, &dh3);
    DhRatchet::new_responder(sk, responder_prekey)
}

/// Both sides of a handshake hold the same root key, and the first message
/// key the initiator sends is the key the responder derives for it: for a
/// handshake the initiator made against the responder's prekey and
/// identity public keys.
pub proof fn law_x3dh_first_message_agrees(
    alice: RatchetState,
    msg: InitialMessage,
    ia: Seq<u8>,
    e: Seq<u8>,
    spk: Seq<u8>,
    ikb: Seq<u8>,
    fresh: Seq<u8>,
)
    requires
        spk.len() == 32,
        ikb.len() == 32,
        initiated(alice, msg, ia, e, x25519_public_spec(spk), x25519_public_spec(ikb)),
    ensures
        responder_root(spk, ikb, msg) == initiator_root(ia, e, x25519_public_spec(spk), x25519_public_spec(ikb)),
        receive_spec(
            responder_state(responder_root(spk, ikb, msg), spk),
            x25519_public_spec(alice.self_secret),
            0,
            0,
            fresh,
        ).1 == Ok::<Seq<u8>, RatchetError>(chain_msg(alice.send->0)),
{
    assert(x25519_dh_spec(ia, x25519_public_spec(spk)) == x25519_dh_spec(spk, x25519_public_spec(ia)));
    assert(x25519_dh_spec(e, x25519_public_spec(spk)) == x25519_dh_spec(spk, x25519_public_spec(e)));
    assert(x25519_dh_spec(e, x25519_public_spec(ikb)) == x25519_dh_spec(ikb, x25519_public_spec(e)));
    law_first_message_key_agrees(alice, spk, responder_root(spk, ikb, msg), fresh);
}

} // verus!
