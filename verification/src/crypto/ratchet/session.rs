//! A ratchet-backed text-message session with one peer: every message is
//! sealed under a fresh key from the Double Ratchet.  Each message key is
//! used once, so the nonce inputs are fixed at zero: uniqueness comes from
//! the key.
use vstd::prelude::*;
use crate::crypto::{decrypt, encrypt, nonce_spec, CryptoError};
use crate::crypto::ratchet::dh_ratchet::{receive_overflows, receive_spec, sent_as, DhRatchet, RatchetError, RatchetHeader};
use crate::primitives::{chacha_seal_spec, sealable};

verus! {

/// Why a session could not seal or open a message.
#[derive(Debug, Clone, Copy, PartialEq, Eq, Structural)]
pub enum SessionError {
    /// The ratchet gave no key (no sending chain yet, key gone, skip limit).
    Ratchet(RatchetError),
    /// Sealing or opening failed (such as a tampered ciphertext).
    Crypto(CryptoError),
}

impl From<RatchetError> for SessionError {
    fn from(e: RatchetError) -> (r: Self) {
        SessionError::Ratchet(e)
    }
}

impl vstd::std_specs::convert::FromSpecImpl<RatchetError> for SessionError {
    open spec fn obeys_from_spec() -> bool {
        true
    }

    open spec fn from_spec(e: RatchetError) -> SessionError {
        SessionError::Ratchet(e)
    }
}

impl From<CryptoError> for SessionError {
    fn from(e: CryptoError) -> (r: Self) {
        SessionError::Crypto(e)
    }
}

impl vstd::std_specs::convert::FromSpecImpl<CryptoError> for SessionError {
    open spec fn obeys_from_spec() -> bool {
        true
    }

    open spec fn from_spec(e: CryptoError) -> SessionError {
        SessionError::Crypto(e)
    }
}

/// A session over a ratchet made by the X3DH handshake.
pub struct RatchetSession {
    pub ratchet: DhRatchet,
}

impl RatchetSession {
    /// A session over a ratchet; initiator and responder differ only
    /// inside the ratchet.
    pub fn new(ratchet: DhRatchet) -> (s: Self)
        ensures
            s.ratchet == ratchet,
    {
        RatchetSession { ratchet }
    }

    /// Seal a message under the next sending key; the header goes with
    /// it.  Without a sending chain (a responder that has not received
    /// yet) the ratchet error `MessageKeyGone` comes back.
    pub fn encrypt_outgoing(&mut self, plaintext: &[u8]) -> (r: Result<(RatchetHeader, Vec<u8>), SessionError>)
        requires
            old(self).ratchet@.send matches Some(c) ==> c.index < u32::MAX,
        ensures
            old(self).ratchet@.send is None ==> r == Err::<(RatchetHeader, Vec<u8>), SessionError>(
                SessionError::Ratchet(RatchetError::MessageKeyGone),
            ) && final(self).ratchet@ == old(self).ratchet@,
            old(self).ratchet@.send is Some ==> exists|mk: crate::crypto::ratchet::symmetric::MessageKey, h: RatchetHeader|
                #![trigger sent_as(Some((mk, h)), old(self).ratchet@.send->0, old(self).ratchet@)]
                sent_as(Some((mk, h)), old(self).ratchet@.send->0, old(self).ratchet@) && match r {
                    Ok((rh, ct)) => rh == h && sealable(plaintext@) && ct@ == chacha_seal_spec(
                        mk.0@,
                        nonce_spec(0, 0),
                        plaintext@,
                    ),
                    Err(e) => !sealable(plaintext@) && e == SessionError::Crypto(CryptoError::EncryptFailed),
                },
            old(self).ratchet@.send is Some ==> final(self).ratchet@.send == Some(
                crate::crypto::ratchet::dh_ratchet::step_chain(old(self).ratchet@.send->0),
            ) && final(self).ratchet@.recv == old(self).ratchet@.recv && final(self).ratchet@.root == old(
                self,
            ).ratchet@.root && final(self).ratchet@.skipped == old(self).ratchet@.skipped,
    {
        let (msg_key, header) = match self.ratchet.next_sending_key() {
            Some(kh) => kh,
            None => return Err(SessionError::Ratchet(RatchetError::MessageKeyGone)),
        };
        let ghost mk = msg_key;
        let ghost h = header;
        match encrypt(msg_key.as_bytes(), 0, 0, plaintext) {
            Ok(ct) => Ok((header, ct)),
            Err(e) => Err(SessionError::Crypto(e)),
        }
    }

    /// Open a message with the key its header leads to; the ratchet moves
    /// on as `DhRatchet::next_receiving_key` describes even when opening
    /// then fails.
    pub fn decrypt_incoming(&mut self, header: &RatchetHeader, ciphertext: &[u8]) -> (r: Result<Vec<u8>, SessionError>)
        requires
            old(self).ratchet.wf(),
            !receive_overflows(old(self).ratchet@, header.ratchet_pub@, header.msg_index),
        ensures
            final(self).ratchet.wf(),
            ({
                let t = receive_spec(
                    old(self).ratchet@,
                    header.ratchet_pub@,
                    header.msg_index,
                    header.pn,
                    final(self).ratchet@.self_secret,
                );
                &&& final(self).ratchet@ == t.0
                &&& match t.1 {
                    Err(e) => r == Err::<Vec<u8>, SessionError>(SessionError::Ratchet(e)),
                    Ok(k) => opened(r, k, ciphertext@),
                }
            }),
    {
        let msg_key = match self.ratchet.next_receiving_key(header) {
            Ok(k) => k,
            Err(e) => return Err(SessionError::Ratchet(e)),
        };
        match decrypt(msg_key.as_bytes(), 0, 0, ciphertext) {
            Ok(p) => Ok(p),
            Err(e) => Err(SessionError::Crypto(e)),
        }
    }
}

/// `r` is what opening `ct` under message key `k` gives: the message it
/// seals, or `DecryptFailed` when it seals none.
pub open spec fn opened(r: Result<Vec<u8>, SessionError>, k: Seq<u8>, ct: Seq<u8>) -> bool {
    &&& r is Ok ==> chacha_seal_spec(k, nonce_spec(0, 0), r->Ok_0@) == ct && sealable(r->Ok_0@)
    &&& r is Err ==> r == Err::<Vec<u8>, SessionError>(SessionError::Crypto(CryptoError::DecryptFailed))
    &&& forall|p: Seq<u8>| sealable(p) && chacha_seal_spec(k, nonce_spec(0, 0), p) == ct ==> (r is Ok && r->Ok_0@ == p)
}

} // verus!
