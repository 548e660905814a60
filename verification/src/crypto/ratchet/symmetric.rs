//! The symmetric ratchet: a chain key that yields one message key per step
//! and rolls forward, so earlier message keys cannot be recomputed.
use vstd::prelude::*;
use crate::crypto::ratchet::dh::{kdf_ck, kdf_ck_okm};
use crate::crypto::wipe;

verus! {

/// A single-message key.
#[derive(Clone)]
pub struct MessageKey(pub [u8; 32]);

impl MessageKey {
    /// The raw key bytes.
    pub fn as_bytes(&self) -> (r: &[u8; 32])
        ensures
            *r == self.0,
    {
        &self.0
    }
}

/// A sending or receiving chain: the current chain key and the index of
/// the next message key.
pub struct ChainKey {
    key: [u8; 32],
    index: u32,
}

impl ChainKey {
    pub closed spec fn key_spec(&self) -> Seq<u8> {
        self.key@
    }

    pub closed spec fn index_spec(&self) -> u32 {
        self.index
    }

    /// A chain starting from an initial chain key.
    pub fn new(initial: [u8; 32]) -> (c: Self)
        ensures
            c.key_spec() == initial@,
            c.index_spec() == 0,
    {
        ChainKey { key: initial, index: 0 }
    }

    /// The index of the next message key.
    pub fn index(&self) -> (r: u32)
        ensures
            r == self.index_spec(),
    {
        self.index
    }

    /// Derive this step's message key and its index, and roll the chain key
    /// forward (the old one is wiped).
    pub fn next_message_key(&mut self) -> (r: (MessageKey, u32))
        requires
            old(self).index_spec() < u32::MAX,
        ensures
            r.0.0@ == kdf_ck_okm(old(self).key_spec()).skip(32),
            r.1 == old(self).index_spec(),
            final(self).key_spec() == kdf_ck_okm(old(self).key_spec()).take(32),
            final(self).index_spec() == old(self).index_spec() + 1,
    {
        let (next_chain, msg_key) = kdf_ck(&self.key);
        wipe(&mut self.key);
        self.key = next_chain;
        let idx = self.index;
        self.index = self.index + 1;
        (MessageKey(msg_key), idx)
    }
}

} // verus!
