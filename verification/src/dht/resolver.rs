//! Contact resolution (@handle to key) and the bootstrap server's FindNode /
//! FoundNodes wire format.
use vstd::prelude::*;
use vstd::bytes::{spec_u32_to_le_bytes, u32_to_le_bytes};
use vstd::utf8::{decode_utf8, valid_utf8};
use crate::dht::handle::{ann_index, handle_key, strip_at, HandleRegistry};
use crate::text::lowercase_spec;
use crate::dht::node::{node_byte, NodeId};
use crate::identity::keypair::IdentityKey;
use crate::primitives::utf8_decode;

verus! {

pub const MSG_FIND_NODE: u8 = 0x04;

pub const MSG_FOUND_NODES: u8 = 0x05;

#[derive(Debug, Clone, Copy, PartialEq, Eq, Structural)]
pub enum ResolveError {
    UnknownHandle,
    NoPeerAddress,
}

/// Resolves contacts through the local handle registry.
pub struct ContactResolver {
    pub handles: HandleRegistry,
}

impl ContactResolver {
    /// A resolver with an empty registry for the device with this key.
    pub fn new(identity_key: &[u8; 32]) -> (r: Self)
        ensures
            r.handles.wf(),
            r.handles.by_handle@.len() == 0,
    {
        ContactResolver { handles: HandleRegistry::new() }
    }

    /// The key registered for a handle at `now`.
    pub fn resolve_key_at(&self, handle: &str, now: u64) -> (r: Result<[u8; 32], ResolveError>)
        ensures
            handle_key(handle@) == lowercase_spec(strip_at(handle@)),
            match ann_index(self.handles.by_handle@, handle_key(handle@), 0) {
                Some(i) => if now > self.handles.by_handle@[i].expires_at {
                    r == Err::<[u8; 32], ResolveError>(ResolveError::UnknownHandle)
                } else {
                    r == Ok::<[u8; 32], ResolveError>(self.handles.by_handle@[i].pubkey.0)
                },
                None => r == Err::<[u8; 32], ResolveError>(ResolveError::UnknownHandle),
            },
    {
        match self.handles.resolve_at(handle, now) {
            Some(k) => Ok(k.0),
            None => Err(ResolveError::UnknownHandle),
        }
    }

    /// The key registered for a handle, by the clock.
    pub fn resolve_key(&self, handle: &str) -> (r: Result<[u8; 32], ResolveError>)
        ensures
            handle_key(handle@) == lowercase_spec(strip_at(handle@)),
            ann_index(self.handles.by_handle@, handle_key(handle@), 0) is None ==> r
                == Err::<[u8; 32], ResolveError>(ResolveError::UnknownHandle),
            r is Ok ==> ann_index(self.handles.by_handle@, handle_key(handle@), 0) is Some && r->Ok_0
                == self.handles.by_handle@[ann_index(self.handles.by_handle@, handle_key(handle@), 0)->0].pubkey.0,
            r is Err ==> r == Err::<[u8; 32], ResolveError>(ResolveError::UnknownHandle),
    {
        match self.handles.resolve(handle) {
            Some(k) => Ok(k.0),
            None => Err(ResolveError::UnknownHandle),
        }
    }

    /// The node id to look for, given a handle.
    pub fn target_node_id(&self, handle: &str) -> (r: Result<NodeId, ResolveError>)
        ensures
            handle_key(handle@) == lowercase_spec(strip_at(handle@)),
            ann_index(self.handles.by_handle@, handle_key(handle@), 0) is None ==> r
                == Err::<NodeId, ResolveError>(ResolveError::UnknownHandle),
            r is Ok ==> ann_index(self.handles.by_handle@, handle_key(handle@), 0) is Some && forall|i: int|
                0 <= i < 32 ==> r->Ok_0.0@[i] == node_byte(
                    self.handles.by_handle@[ann_index(self.handles.by_handle@, handle_key(handle@), 0)->0].pubkey.0@,
                    i,
                ),
            r is Err ==> r == Err::<NodeId, ResolveError>(ResolveError::UnknownHandle),
    {
        match self.resolve_key(handle) {
            Ok(key) => Ok(NodeId::from_identity(&key)),
            Err(e) => Err(e),
        }
    }
}

/// A FindNode request: tag, requester id, target id, token (little-endian).
pub open spec fn find_node_spec(requester: Seq<u8>, target: Seq<u8>, token: u32) -> Seq<u8> {
    seq![MSG_FIND_NODE] + requester + target + spec_u32_to_le_bytes(token)
}

pub(crate) fn append(out: &mut Vec<u8>, data: &[u8])
    ensures
        final(out)@ == old(out)@ + data@,
{
    let mut i: usize = 0;
    while i < data.len()
        invariant
            i <= data@.len(),
            out@ == old(out)@ + data@.take(i as int),
        decreases data@.len() - i,
    {
        out.push(data[i]);
        proof {
            assert(out@ =~= old(out)@ + data@.take(i + 1));
        }
        i += 1;
    }
    assert(data@.take(data@.len() as int) =~= data@);
}

/// Build a FindNode request for the bootstrap server.
pub fn build_find_node(requester: &NodeId, target: &NodeId, token: u32) -> (pkt: Vec<u8>)
    ensures
        pkt@ == find_node_spec(requester.0@, target.0@, token),
{
    let mut pkt: Vec<u8> = Vec::new();
    pkt.push(MSG_FIND_NODE);
    append(&mut pkt, &requester.0);
    append(&mut pkt, &target.0);
    let t = u32_to_le_bytes(token);
    append(&mut pkt, t.as_slice());
    assert(pkt@ =~= find_node_spec(requester.0@, target.0@, token));
    pkt
}

/// A node entry of a FoundNodes response.
#[derive(Debug, Clone, PartialEq, Eq)]
pub struct FoundNode {
    pub id: [u8; 32],
    pub addr: String,
}

/// The position of the first zero byte at or after `i`, or the length.
pub open spec fn zero_from(b: Seq<u8>, i: int) -> int
    decreases b.len() - i,
{
    if i < 0 || i >= b.len() {
        b.len() as int
    } else if b[i] == 0 {
        i
    } else {
        zero_from(b, i + 1)
    }
}

/// The `count` entries of a FoundNodes body starting at `pos`: a 32-byte id
/// and a zero-terminated UTF-8 address each.
pub open spec fn entries_spec(b: Seq<u8>, pos: int, count: nat) -> Option<Seq<(Seq<u8>, Seq<char>)>>
    decreases count,
{
    if count == 0 {
        Some(Seq::empty())
    } else if pos < 0 || pos + 32 > b.len() {
        None
    } else {
        let end = zero_from(b, pos + 32);
        if end >= b.len() {
            None
        } else if !valid_utf8(b.subrange(pos + 32, end)) {
            None
        } else {
            match entries_spec(b, end + 1, (count - 1) as nat) {
                Some(rest) => Some(seq![(b.subrange(pos, pos + 32), decode_utf8(b.subrange(pos + 32, end)))] + rest),
                None => None,
            }
        }
    }
}

/// What a FoundNodes response holds: its token and entries; nothing for a
/// short, mistagged or malformed packet.
pub open spec fn found_nodes_spec(b: Seq<u8>) -> Option<(u32, Seq<(Seq<u8>, Seq<char>)>)> {
    if b.len() < 6 || b[0] != MSG_FOUND_NODES {
        None
    } else {
        match entries_spec(b, 6, b[5] as nat) {
            Some(e) => Some(((b[1] + 256 * b[2] + 65536 * b[3] + 16777216 * b[4]) as u32, e)),
            None => None,
        }
    }
}

proof fn lemma_zero_from(b: Seq<u8>, i: int)
    requires
        0 <= i,
    ensures
        i <= zero_from(b, i) <= b.len() || (i > b.len() && zero_from(b, i) == b.len()),
        zero_from(b, i) < b.len() ==> b[zero_from(b, i)] == 0,
        forall|k: int| i <= k < zero_from(b, i) && k < b.len() ==> b[k] != 0,
    decreases b.len() - i,
{
    if i < b.len() && b[i] != 0 {
        lemma_zero_from(b, i + 1);
    }
}

/// The entries `parse_found_nodes` reads, from position `pos` on, when
/// `done` of `count` are read already (`acc`).
pub open spec fn entries_after(b: Seq<u8>, pos: int, count: nat, done: nat, acc: Seq<(Seq<u8>, Seq<char>)>) -> bool {
    match entries_spec(b, 6, count) {
        Some(all) => entries_spec(b, pos, (count - done) as nat) matches Some(rest) && all == acc + rest,
        None => entries_spec(b, pos, (count - done) as nat) is None,
    }
}

pub open spec fn node_view(n: FoundNode) -> (Seq<u8>, Seq<char>) {
    (n.id@, n.addr@)
}

/// Parse a FoundNodes response from the bootstrap server.
pub fn parse_found_nodes(buf: &[u8]) -> (r: Option<(u32, Vec<FoundNode>)>)
    ensures
        match found_nodes_spec(buf@) {
            Some((token, entries)) => r is Some && (r->0).0 == token && (r->0).1@.len() == entries.len()
                && forall|k: int| 0 <= k < entries.len() ==> node_view(#[trigger] (r->0).1@[k]) == entries[k],
            None => r is None,
        },
{
    if buf.len() < 6 {
        return None;
    }
    if buf[0] != MSG_FOUND_NODES {
        return None;
    }
    let token: u32 = buf[1] as u32 + 256 * (buf[2] as u32) + 65536 * (buf[3] as u32) + 16777216 * (buf[4] as u32);
    let count = buf[5] as usize;
    let mut nodes: Vec<FoundNode> = Vec::new();
    let mut pos: usize = 6;
    let mut done: usize = 0;
    let ghost acc: Seq<(Seq<u8>, Seq<char>)> = Seq::empty();
    proof {
        match entries_spec(buf@, 6, count as nat) {
            Some(all) => {
                assert(acc + all =~= all);
            },
            None => {},
        }
    }
    while done < count
        invariant
            buf@.len() >= 6,
            count == buf@[5] as usize,
            done <= count,
            6 <= pos <= buf@.len(),
            nodes@.len() == done,
            acc.len() == done,
            forall|k: int| 0 <= k < done ==> node_view(#[trigger] nodes@[k]) == acc[k],
            entries_after(buf@, pos as int, count as nat, done as nat, acc),
        decreases count - done,
    {
        if buf.len() < 32 || pos > buf.len() - 32 {
            return None;
        }
        let mut id = [0u8; 32];
        let mut k: usize = 0;
        while k < 32
            invariant
                k <= 32,
                pos + 32 <= buf.len(),
                forall|j: int| 0 <= j < k ==> id@[j] == buf@[pos + j],
            decreases 32 - k,
        {
            id[k] = buf[pos + k];
            k += 1;
        }
        assert(id@ =~= buf@.subrange(pos as int, pos + 32));
        let start = pos + 32;
        let mut end = start;
        proof {
            lemma_zero_from(buf@, start as int);
        }
        while end < buf.len() && buf[end] != 0
            invariant
                start <= end <= buf@.len(),
                zero_from(buf@, start as int) == zero_from(buf@, end as int),
            decreases buf@.len() - end,
        {
            end += 1;
        }
        if end >= buf.len() {
            return None;
        }
        let mut addr_bytes: Vec<u8> = Vec::new();
        let mut m = start;
        while m < end
            invariant
                start <= m <= end < buf@.len(),
                addr_bytes@ == buf@.subrange(start as int, m as int),
            decreases end - m,
        {
            addr_bytes.push(buf[m]);
            proof {
                assert(addr_bytes@ =~= buf@.subrange(start as int, m + 1));
            }
            m += 1;
        }
        let addr = match utf8_decode(addr_bytes.as_slice()) {
            Some(a) => a,
            None => return None,
        };
        nodes.push(FoundNode { id, addr });
        proof {
            let item = (buf@.subrange(pos as int, pos + 32), decode_utf8(buf@.subrange(start as int, end as int)));
            let acc2 = acc.push(item);
            match entries_spec(buf@, 6, count as nat) {
                Some(all) => {
                    let rest = entries_spec(buf@, pos as int, (count - done) as nat)->0;
                    let rest2 = entries_spec(buf@, end + 1, (count - done - 1) as nat)->0;
                    assert(rest == seq![item] + rest2);
                    assert(all =~= acc2 + rest2);
                },
                None => {},
            }
            acc = acc2;
        }
        pos = end + 1;
        done += 1;
    }
    proof {
        match entries_spec(buf@, 6, count as nat) {
            Some(all) => {
                assert(entries_spec(buf@, pos as int, 0) == Some(Seq::<(Seq<u8>, Seq<char>)>::empty()));
                assert(all =~= acc);
            },
            None => {
                assert(entries_spec(buf@, pos as int, 0) is Some);
            },
        }
    }
    Some((token, nodes))
}

} // verus!
