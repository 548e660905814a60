//! DHT node identifiers: derived from identity keys, compared by XOR
//! distance.
use vstd::prelude::*;
use crate::identity::keypair::hex_encode;
use crate::push_notification::hex_spec;

verus! {

/// A 256-bit node identifier.
#[derive(Debug, Clone, PartialEq, Eq, Hash)]
pub struct NodeId(pub [u8; 32]);

/// Byte `i` of the node id of a key.
pub open spec fn node_byte(key: Seq<u8>, i: int) -> u8 {
    key[i].wrapping_add(0x6b).wrapping_mul(0x37) ^ key[(i + 13) % 32]
}

/// `a` comes before `b` in lexicographic order.
pub open spec fn lex_less(a: Seq<u8>, b: Seq<u8>, i: int) -> bool
    decreases a.len() - i,
{
    if i < 0 || i >= a.len() || i >= b.len() {
        false
    } else if a[i] != b[i] {
        a[i] < b[i]
    } else {
        lex_less(a, b, i + 1)
    }
}

/// The XOR distance of two ids.
pub open spec fn xor_distance(a: Seq<u8>, b: Seq<u8>) -> Seq<u8> {
    Seq::new(32, |i: int| a[i] ^ b[i])
}

impl NodeId {
    /// The node id of an identity key: each byte mixes the key byte with the
    /// byte 13 places on.
    pub fn from_identity(key: &[u8; 32]) -> (n: Self)
        ensures
            forall|i: int| 0 <= i < 32 ==> n.0@[i] == node_byte(key@, i),
    {
        let mut id = [0u8; 32];
        let mut i: usize = 0;
        while i < 32
            invariant
                i <= 32,
                forall|k: int| 0 <= k < i ==> id@[k] == node_byte(key@, k),
            decreases 32 - i,
        {
            id[i] = key[i].wrapping_add(0x6b).wrapping_mul(0x37) ^ key[(i + 13) % 32];
            i += 1;
        }
        NodeId(id)
    }

    /// The XOR distance to another id.
    pub fn distance(&self, other: &NodeId) -> (d: [u8; 32])
        ensures
            forall|i: int| 0 <= i < 32 ==> d@[i] == self.0@[i] ^ other.0@[i],
    {
        let mut dist = [0u8; 32];
        let mut i: usize = 0;
        while i < 32
            invariant
                i <= 32,
                forall|k: int| 0 <= k < i ==> dist@[k] == self.0@[k] ^ other.0@[k],
            decreases 32 - i,
        {
            dist[i] = self.0[i] ^ other.0[i];
            i += 1;
        }
        dist
    }

    /// This node is nearer `target` than `other` is: its XOR distance is
    /// smaller, compared byte by byte from the first.
    pub fn is_closer_than(&self, other: &NodeId, target: &NodeId) -> (r: bool)
        ensures
            r == lex_less(xor_distance(self.0@, target.0@), xor_distance(other.0@, target.0@), 0),
    {
        let d1 = self.distance(target);
        let d2 = other.distance(target);
        let ghost a = xor_distance(self.0@, target.0@);
        let ghost b = xor_distance(other.0@, target.0@);
        assert(d1@ =~= a);
        assert(d2@ =~= b);
        let mut i: usize = 0;
        while i < 32
            invariant
                i <= 32,
                d1@ == a,
                d2@ == b,
                a == xor_distance(self.0@, target.0@),
                b == xor_distance(other.0@, target.0@),
                a.len() == 32 && b.len() == 32,
                lex_less(a, b, 0) == lex_less(a, b, i as int),
            decreases 32 - i,
        {
            if d1[i] != d2[i] {
                assert(a[i as int] != b[i as int]);
                assert(lex_less(a, b, i as int) == (a[i as int] < b[i as int]));
                return d1[i] < d2[i];
            }
            i += 1;
        }
        false
    }

    /// The first eight hex digits.
    pub fn short(&self) -> (s: String)
        ensures
            s@ == hex_spec(self.0@.take(4)),
    {
        let mut v: Vec<u8> = Vec::new();
        v.push(self.0[0]);
        v.push(self.0[1]);
        v.push(self.0[2]);
        v.push(self.0[3]);
        assert(v@ =~= self.0@.take(4));
        hex_encode(v.as_slice())
    }

    /// The full hex text.
    pub fn to_hex(&self) -> (s: String)
        ensures
            s@ == hex_spec(self.0@),
    {
        hex_encode(&self.0)
    }
}

/// A node not seen for this many seconds is stale.
pub const NODE_STALE_SECS: u64 = 900;

/// A node last seen at `last_seen` is alive at clock reading `now`: seen
/// within the last fifteen minutes.
pub fn seen_recently(last_seen: u64, now: u64) -> (r: bool)
    requires
        last_seen <= now,
    ensures
        r == (now - last_seen < NODE_STALE_SECS),
{
    now - last_seen < NODE_STALE_SECS
}

} // verus!
