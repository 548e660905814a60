//! The DHT bootstrap server's logic: the table of nodes it has heard from,
//! the closest live nodes to a target by XOR distance, a per-address rate
//! limit, and the answers to Ping, Announce and FindNode datagrams.  The
//! socket loop around it sends the answers and hands in each datagram with
//! its sender and the clock.
use vstd::prelude::*;
use vstd::bytes::{spec_u16_to_le_bytes, spec_u32_to_le_bytes, spec_u32_from_le_bytes, u16_to_le_bytes, u32_from_le_bytes, u32_to_le_bytes};
use crate::dht::node::{lex_less, xor_distance, NodeId};
use crate::dht::resolver::{append, find_node_spec, MSG_FIND_NODE, MSG_FOUND_NODES};
use crate::identity::contact::{distinct_keys, key_index, lemma_key_index, lemma_upsert_distinct, upsert};

verus! {

/// The most nodes the table holds.
pub const MAX_NODES: usize = 10_000;

/// Seconds of silence after which a node is dropped.
pub const NODE_TTL_SECS: u64 = 900;

/// The most nodes one answer lists.
pub const MAX_RETURNED: usize = 20;

/// Requests allowed per address per second.
pub const RATE_LIMIT_RPS: u32 = 10;

/// Seconds between sweeps of stale nodes and rate buckets.
pub const GC_INTERVAL_SECS: u64 = 60;

/// Length of a node id.
pub const NODE_ID_LEN: usize = 32;

pub const MSG_PING: u8 = 0x01;

pub const MSG_PONG: u8 = 0x02;

pub const MSG_ANNOUNCE: u8 = 0x03;

/// Each byte of the server's own node id.
pub const SERVER_ID_BYTE: u8 = 0xB0;

/// A datagram's sender: an IP address and a port.
#[derive(Debug, Clone, Copy, PartialEq, Eq)]
pub enum PeerAddr {
    V4 { ip: [u8; 4], port: u16 },
    V6 { ip: [u8; 16], port: u16 },
}

/// The IP address of a sender, without the port.
#[derive(Debug, Clone, Copy, PartialEq, Eq)]
pub enum PeerIp {
    V4([u8; 4]),
    V6([u8; 16]),
}

/// The address of a sender as plain values.
pub open spec fn peer_ip(a: PeerAddr) -> PeerIp {
    match a {
        PeerAddr::V4 { ip, .. } => PeerIp::V4(ip),
        PeerAddr::V6 { ip, .. } => PeerIp::V6(ip),
    }
}

impl PeerAddr {
    /// The IP address, without the port.
    pub fn ip(&self) -> (r: PeerIp)
        ensures
            r == peer_ip(*self),
    {
        match self {
            PeerAddr::V4 { ip, .. } => PeerIp::V4(*ip),
            PeerAddr::V6 { ip, .. } => PeerIp::V6(*ip),
        }
    }
}

/// A node the server has heard from.
#[derive(Debug, Clone, Copy)]
pub struct NodeRecord {
    pub id: [u8; 32],
    pub addr: PeerAddr,
    /// Unix seconds when last heard from.
    pub last_seen: u64,
}

/// Seconds from `last_seen` to `now`, none when `now` is earlier.
pub open spec fn silence(last_seen: u64, now: u64) -> int {
    if now >= last_seen {
        now - last_seen
    } else {
        0
    }
}

/// The record is alive at `now`: heard from within the time to live.
pub open spec fn alive_at(r: NodeRecord, now: u64) -> bool {
    silence(r.last_seen, now) < NODE_TTL_SECS
}

impl NodeRecord {
    /// Heard from within the time to live, at clock reading `now`.
    pub fn is_alive_at(&self, now: u64) -> (b: bool)
        ensures
            b == alive_at(*self, now),
    {
        now.saturating_sub(self.last_seen) < NODE_TTL_SECS
    }

    /// The XOR distance of this node's id to `target`.
    pub fn xor_distance(&self, target: &[u8; 32]) -> (d: [u8; 32])
        ensures
            d@ == xor_distance(self.id@, target@),
    {
        let d = NodeId(self.id).distance(&NodeId(*target));
        assert(d@ =~= xor_distance(self.id@, target@));
        d
    }
}

/// The two ids are the same.
pub fn same_id(a: &[u8; 32], b: &[u8; 32]) -> (r: bool)
    ensures
        r == (*a == *b),
{
    let mut i: usize = 0;
    while i < 32
        invariant
            i <= 32,
            forall|k: int| 0 <= k < i ==> a@[k] == b@[k],
        decreases 32 - i,
    {
        if a[i] != b[i] {
            assert(a[i as int] != b[i as int]);
            return false;
        }
        i += 1;
    }
    assert(*a =~= *b);
    true
}

/// The two IP addresses are the same.
pub fn same_ip(a: &PeerIp, b: &PeerIp) -> (r: bool)
    ensures
        r == (*a == *b),
{
    match (a, b) {
        (PeerIp::V4(x), PeerIp::V4(y)) => {
            let mut i: usize = 0;
            while i < 4
                invariant
                    i <= 4,
                    *a == PeerIp::V4(*x),
                    *b == PeerIp::V4(*y),
                    forall|k: int| 0 <= k < i ==> x@[k] == y@[k],
                decreases 4 - i,
            {
                if x[i] != y[i] {
                    assert(x[i as int] != y[i as int]);
                    assert(*x != *y);
                    return false;
                }
                i += 1;
            }
            assert(*x =~= *y);
            true
        },
        (PeerIp::V6(x), PeerIp::V6(y)) => {
            let mut i: usize = 0;
            while i < 16
                invariant
                    i <= 16,
                    *a == PeerIp::V6(*x),
                    *b == PeerIp::V6(*y),
                    forall|k: int| 0 <= k < i ==> x@[k] == y@[k],
                decreases 16 - i,
            {
                if x[i] != y[i] {
                    assert(x[i as int] != y[i as int]);
                    assert(*x != *y);
                    return false;
                }
                i += 1;
            }
            assert(*x =~= *y);
            true
        },
        _ => false,
    }
}

// ---------------------------------------------------------------------------
// Wire format
// ---------------------------------------------------------------------------

/// The 32-byte node id at `offset`, when the datagram is long enough.
pub fn parse_node_id(buf: &[u8], offset: usize) -> (r: Option<[u8; 32]>)
    ensures
        buf@.len() < offset + NODE_ID_LEN ==> r is None,
        buf@.len() >= offset + NODE_ID_LEN ==> r is Some && r->0@ == buf@.subrange(offset as int, offset + 32),
{
    if buf.len() < NODE_ID_LEN || offset > buf.len() - NODE_ID_LEN {
        return None;
    }
    let mut id = [0u8; 32];
    let mut k: usize = 0;
    while k < 32
        invariant
            k <= 32,
            offset + 32 <= buf@.len(),
            buf@.len() <= usize::MAX,
            forall|j: int| 0 <= j < k ==> id@[j] == buf@[offset + j],
        decreases 32 - k,
    {
        assert(offset + k < buf@.len());
        id[k] = buf[offset + k];
        k += 1;
    }
    assert(id@ =~= buf@.subrange(offset as int, offset + 32));
    Some(id)
}

/// An address on the wire: 4 or 6 for the family, the address bytes, the
/// port little-endian.
pub open spec fn addr_bytes(a: PeerAddr) -> Seq<u8> {
    match a {
        PeerAddr::V4 { ip, port } => seq![0x04u8] + ip@ + spec_u16_to_le_bytes(port),
        PeerAddr::V6 { ip, port } => seq![0x06u8] + ip@ + spec_u16_to_le_bytes(port),
    }
}

/// Encode an address.
pub fn encode_addr(addr: &PeerAddr) -> (v: Vec<u8>)
    ensures
        v@ == addr_bytes(*addr),
{
    match addr {
        PeerAddr::V4 { ip, port } => {
            let mut v: Vec<u8> = Vec::new();
            v.push(0x04);
            append(&mut v, ip);
            let p = u16_to_le_bytes(*port);
            append(&mut v, p.as_slice());
            assert(v@ =~= addr_bytes(*addr));
            v
        },
        PeerAddr::V6 { ip, port } => {
            let mut v: Vec<u8> = Vec::new();
            v.push(0x06);
            append(&mut v, ip);
            let p = u16_to_le_bytes(*port);
            append(&mut v, p.as_slice());
            assert(v@ =~= addr_bytes(*addr));
            v
        },
    }
}

/// The entries of a FoundNodes answer: each id followed by its address.
pub open spec fn entries_bytes(nodes: Seq<NodeRecord>) -> Seq<u8>
    decreases nodes.len(),
{
    if nodes.len() == 0 {
        Seq::empty()
    } else {
        entries_bytes(nodes.drop_last()) + nodes.last().id@ + addr_bytes(nodes.last().addr)
    }
}

/// A FoundNodes answer: tag, token little-endian, the number of nodes (one
/// byte, wrapping) and the entries.
pub open spec fn found_nodes_bytes(token: u32, nodes: Seq<NodeRecord>) -> Seq<u8> {
    seq![MSG_FOUND_NODES] + spec_u32_to_le_bytes(token) + seq![nodes.len() as u8] + entries_bytes(nodes)
}

/// Encode a FoundNodes answer.
pub fn encode_found_nodes(token: u32, nodes: &[NodeRecord]) -> (v: Vec<u8>)
    ensures
        v@ == found_nodes_bytes(token, nodes@),
{
    let mut v: Vec<u8> = Vec::new();
    v.push(MSG_FOUND_NODES);
    let t = u32_to_le_bytes(token);
    append(&mut v, t.as_slice());
    let count = nodes.len() as u8;
    v.push(count);
    let ghost head = v@;
    let mut i: usize = 0;
    while i < nodes.len()
        invariant
            i <= nodes@.len(),
            v@ == head + entries_bytes(nodes@.take(i as int)),
        decreases nodes@.len() - i,
    {
        let n = nodes[i];
        append(&mut v, &n.id);
        let a = encode_addr(&n.addr);
        append(&mut v, a.as_slice());
        proof {
            assert(nodes@.take(i + 1).drop_last() =~= nodes@.take(i as int));
            assert(v@ =~= head + entries_bytes(nodes@.take(i + 1)));
        }
        i += 1;
    }
    proof {
        assert(nodes@.take(nodes@.len() as int) =~= nodes@);
        assert(v@ =~= found_nodes_bytes(token, nodes@));
    }
    v
}

/// A Pong: tag, the server's id, four zero bytes.
pub open spec fn pong_bytes(server_id: Seq<u8>) -> Seq<u8> {
    seq![MSG_PONG] + server_id + seq![0u8, 0u8, 0u8, 0u8]
}

/// Encode a Pong.
pub fn encode_pong(server_id: &[u8; 32]) -> (v: Vec<u8>)
    ensures
        v@ == pong_bytes(server_id@),
{
    let mut v: Vec<u8> = Vec::new();
    v.push(MSG_PONG);
    append(&mut v, server_id);
    v.push(0);
    v.push(0);
    v.push(0);
    v.push(0);
    assert(v@ =~= pong_bytes(server_id@));
    v
}

// ---------------------------------------------------------------------------
// Order of distances
// ---------------------------------------------------------------------------

proof fn lemma_lex_irreflexive(a: Seq<u8>, i: int)
    ensures
        !lex_less(a, a, i),
    decreases a.len() - i,
{
    if 0 <= i < a.len() {
        lemma_lex_irreflexive(a, i + 1);
    }
}

proof fn lemma_lex_asymmetric(a: Seq<u8>, b: Seq<u8>, i: int)
    requires
        lex_less(a, b, i),
    ensures
        !lex_less(b, a, i),
    decreases a.len() - i,
{
    if 0 <= i < a.len() && i < b.len() && a[i] == b[i] {
        lemma_lex_asymmetric(a, b, i + 1);
    }
}

proof fn lemma_lex_transitive(a: Seq<u8>, b: Seq<u8>, c: Seq<u8>, i: int)
    requires
        lex_less(a, b, i),
        lex_less(b, c, i),
    ensures
        lex_less(a, c, i),
    decreases a.len() - i,
{
    if a[i] == b[i] && b[i] == c[i] {
        lemma_lex_transitive(a, b, c, i + 1);
    }
}

proof fn lemma_lex_total(a: Seq<u8>, b: Seq<u8>, i: int)
    requires
        a.len() == b.len(),
        0 <= i <= a.len(),
    ensures
        lex_less(a, b, i) || lex_less(b, a, i) || (forall|k: int| i <= k < a.len() ==> a[k] == b[k]),
    decreases a.len() - i,
{
    if i < a.len() && a[i] == b[i] {
        lemma_lex_total(a, b, i + 1);
    }
}

/// Distances to one target from different ids differ.
proof fn lemma_distance_injective(x: [u8; 32], y: [u8; 32], t: [u8; 32])
    requires
        xor_distance(x@, t@) == xor_distance(y@, t@),
    ensures
        x == y,
{
    assert forall|k: int| 0 <= k < 32 implies x[k] == y[k] by {
        let a = x@[k];
        let b = y@[k];
        let c = t@[k];
        assert(xor_distance(x@, t@)[k] == a ^ c);
        assert(xor_distance(y@, t@)[k] == b ^ c);
        assert(a ^ c == b ^ c);
        assert(a ^ c == b ^ c ==> a == b) by (bit_vector);
        assert(x@[k] == y@[k]);
    }
    assert(x =~= y);
}

/// Distances to one target are totally ordered: of two records with
/// different ids one is strictly nearer.
proof fn lemma_distance_order(x: [u8; 32], y: [u8; 32], t: [u8; 32])
    requires
        x != y,
    ensures
        lex_less(xor_distance(x@, t@), xor_distance(y@, t@), 0) || lex_less(
            xor_distance(y@, t@),
            xor_distance(x@, t@),
            0,
        ),
{
    let a = xor_distance(x@, t@);
    let b = xor_distance(y@, t@);
    lemma_lex_total(a, b, 0);
    if !lex_less(a, b, 0) && !lex_less(b, a, 0) {
        assert(a =~= b);
        lemma_distance_injective(x, y, t);
    }
}

/// A distance no further than `l`, against one beyond `l`, is nearer.
proof fn lemma_le_lt(x: Seq<u8>, l: Seq<u8>, y: Seq<u8>)
    requires
        x.len() == l.len(),
        !lex_less(l, x, 0),
        lex_less(l, y, 0),
    ensures
        lex_less(x, y, 0),
        !lex_less(y, x, 0),
{
    lemma_lex_total(x, l, 0);
    if lex_less(x, l, 0) {
        lemma_lex_transitive(x, l, y, 0);
    } else {
        assert(x =~= l);
    }
    lemma_lex_asymmetric(x, y, 0);
}

/// `a` comes before `b` byte by byte.
fn lex_before(a: &[u8; 32], b: &[u8; 32]) -> (r: bool)
    ensures
        r == lex_less(a@, b@, 0),
{
    let mut i: usize = 0;
    while i < 32
        invariant
            i <= 32,
            a@.len() == 32 && b@.len() == 32,
            lex_less(a@, b@, 0) == lex_less(a@, b@, i as int),
        decreases 32 - i,
    {
        if a[i] != b[i] {
            return a[i] < b[i];
        }
        i += 1;
    }
    false
}

// ---------------------------------------------------------------------------
// The node table
// ---------------------------------------------------------------------------

/// No two records share an id.
pub open spec fn ids_distinct(v: Seq<NodeRecord>) -> bool {
    forall|i: int, j: int| 0 <= i < j < v.len() ==> v[i].id != v[j].id
}

/// The position of the record with this id, or -1.
pub open spec fn id_pos(v: Seq<NodeRecord>, id: [u8; 32]) -> int {
    if exists|i: int| 0 <= i < v.len() && v[i].id == id {
        choose|i: int| 0 <= i < v.len() && v[i].id == id
    } else {
        -1
    }
}

/// `r` is in `v`.
pub open spec fn listed(v: Seq<NodeRecord>, r: NodeRecord) -> bool {
    exists|k: int| 0 <= k < v.len() && v[k] == r
}

/// `v` with `r` in place of the record of its id, or added at the end.
pub open spec fn place(v: Seq<NodeRecord>, r: NodeRecord) -> Seq<NodeRecord> {
    let p = id_pos(v, r.id);
    if p >= 0 {
        v.update(p, r)
    } else {
        v.push(r)
    }
}

/// Record `i` was heard from no later than any other.
pub open spec fn is_oldest(v: Seq<NodeRecord>, i: int) -> bool {
    0 <= i < v.len() && forall|j: int| 0 <= j < v.len() ==> v[i].last_seen <= #[trigger] v[j].last_seen
}

/// What adding `r` makes of a table `v` holding `cap` records or more:
/// the record heard from longest ago goes first (either of two equally
/// old ones), then `r` is placed.
pub open spec fn upserted(v: Seq<NodeRecord>, w: Seq<NodeRecord>, r: NodeRecord, cap: nat) -> bool {
    if v.len() >= cap {
        exists|i: int| is_oldest(v, i) && w == place(#[trigger] v.remove(i), r)
    } else {
        w == place(v, r)
    }
}

/// A record an answer may list: alive and not the asker.
pub open spec fn eligible(r: NodeRecord, exclude: [u8; 32], now: u64) -> bool {
    alive_at(r, now) && r.id != exclude
}

/// The distance of a record's id to `target`.
pub open spec fn dist(r: NodeRecord, target: [u8; 32]) -> Seq<u8> {
    xor_distance(r.id@, target@)
}

proof fn lemma_id_pos(v: Seq<NodeRecord>, id: [u8; 32])
    requires
        ids_distinct(v),
    ensures
        -1 <= id_pos(v, id) < v.len(),
        id_pos(v, id) >= 0 ==> v[id_pos(v, id)].id == id,
        id_pos(v, id) == -1 ==> forall|i: int| 0 <= i < v.len() ==> v[i].id != id,
        forall|i: int| 0 <= i < v.len() && v[i].id == id ==> i == id_pos(v, id),
{
}

proof fn lemma_place_distinct(v: Seq<NodeRecord>, r: NodeRecord)
    requires
        ids_distinct(v),
    ensures
        ids_distinct(place(v, r)),
        place(v, r).len() <= v.len() + 1,
{
    lemma_id_pos(v, r.id);
}

proof fn lemma_remove_distinct(v: Seq<NodeRecord>, i: int)
    requires
        ids_distinct(v),
        0 <= i < v.len(),
    ensures
        ids_distinct(v.remove(i)),
{
    let w = v.remove(i);
    assert forall|a: int, b: int| 0 <= a < b < w.len() implies w[a].id != w[b].id by {
        let a2 = if a < i { a } else { a + 1 };
        let b2 = if b < i { b } else { b + 1 };
        assert(w[a] == v[a2] && w[b] == v[b2]);
    }
}

/// `out` is the answer for `target`: records of `nodes` alive at `now`
/// and other than `exclude`, strictly nearest first, at most
/// `MAX_RETURNED` of them, and every such record left out is further than
/// all listed, the list being full.
pub open spec fn closest_ok(
    nodes: Seq<NodeRecord>,
    out: Seq<NodeRecord>,
    target: [u8; 32],
    exclude: [u8; 32],
    now: u64,
) -> bool {
    &&& out.len() <= MAX_RETURNED
    &&& forall|k: int| 0 <= k < out.len() ==> listed(nodes, #[trigger] out[k]) && eligible(out[k], exclude, now)
    &&& forall|a: int, b: int|
        0 <= a < b < out.len() ==> lex_less(dist(#[trigger] out[a], target), dist(#[trigger] out[b], target), 0)
    &&& forall|j: int|
        0 <= j < nodes.len() && eligible(#[trigger] nodes[j], exclude, now) ==> listed(out, nodes[j]) || (out.len()
            == MAX_RETURNED && forall|k: int|
            0 <= k < out.len() ==> lex_less(dist(#[trigger] out[k], target), dist(nodes[j], target), 0))
}

/// The nodes the server knows, each id once.
pub struct NodeTable {
    pub nodes: Vec<NodeRecord>,
}

impl NodeTable {
    /// No two records share an id, and the table is within its cap.
    pub open spec fn wf(&self) -> bool {
        ids_distinct(self.nodes@) && self.nodes@.len() <= MAX_NODES
    }

    /// An empty table.
    pub fn new() -> (t: Self)
        ensures
            t.wf(),
            t.nodes@.len() == 0,
    {
        NodeTable { nodes: Vec::new() }
    }

    /// The number of nodes held.
    pub fn count(&self) -> (n: usize)
        ensures
            n == self.nodes@.len(),
    {
        self.nodes.len()
    }

    fn find(&self, id: &[u8; 32]) -> (r: Option<usize>)
        requires
            self.wf(),
        ensures
            match r {
                Some(i) => i == id_pos(self.nodes@, *id),
                None => id_pos(self.nodes@, *id) == -1,
            },
    {
        proof {
            lemma_id_pos(self.nodes@, *id);
        }
        let mut i: usize = 0;
        while i < self.nodes.len()
            invariant
                self.wf(),
                i <= self.nodes@.len(),
                forall|j: int| 0 <= j < i ==> self.nodes@[j].id != *id,
            decreases self.nodes@.len() - i,
        {
            if same_id(&self.nodes[i].id, id) {
                return Some(i);
            }
            i += 1;
        }
        None
    }

    /// A record heard from longest ago (the first such).
    fn oldest(&self) -> (i: usize)
        requires
            self.nodes@.len() > 0,
        ensures
            is_oldest(self.nodes@, i as int),
    {
        let mut best: usize = 0;
        let mut i: usize = 1;
        while i < self.nodes.len()
            invariant
                1 <= i <= self.nodes@.len(),
                best < i,
                forall|j: int| 0 <= j < i ==> self.nodes@[best as int].last_seen <= #[trigger] self.nodes@[j].last_seen,
            decreases self.nodes@.len() - i,
        {
            if self.nodes[i].last_seen < self.nodes[best].last_seen {
                best = i;
            }
            i += 1;
        }
        best
    }

    /// Record that node `id` was heard from at `addr` at `now`: when the
    /// table is full the record heard from longest ago goes first, then the
    /// node's record is replaced or added.
    pub fn upsert_at(&mut self, id: [u8; 32], addr: PeerAddr, now: u64)
        requires
            old(self).wf(),
        ensures
            final(self).wf(),
            upserted(old(self).nodes@, final(self).nodes@, NodeRecord { id, addr, last_seen: now }, MAX_NODES as nat),
    {
        let rec = NodeRecord { id, addr, last_seen: now };
        let ghost v0 = self.nodes@;
        if self.nodes.len() >= MAX_NODES {
            let o = self.oldest();
            self.nodes.remove(o);
            proof {
                lemma_remove_distinct(v0, o as int);
            }
        }
        let ghost v1 = self.nodes@;
        proof {
            lemma_id_pos(v1, id);
            lemma_place_distinct(v1, rec);
        }
        match self.find(&id) {
            Some(p) => {
                self.nodes.set(p, rec);
            },
            None => {
                self.nodes.push(rec);
            },
        }
        proof {
            assert(self.nodes@ =~= place(v1, rec));
            if v0.len() >= MAX_NODES {
                let o = choose|o: int| is_oldest(v0, o) && v1 == v0.remove(o);
                assert(is_oldest(v0, o) && self.nodes@ == place(v0.remove(o), rec));
            }
        }
    }

    /// The answer for `target` at `now`: the live records other than
    /// `exclude`, nearest first by XOR distance, at most `MAX_RETURNED`.
    pub fn closest_at(&self, target: &[u8; 32], exclude: &[u8; 32], now: u64) -> (out: Vec<NodeRecord>)
        requires
            self.wf(),
        ensures
            closest_ok(self.nodes@, out@, *target, *exclude, now),
    {
        let ghost v = self.nodes@;
        let ghost t = *target;
        let ghost x = *exclude;
        let mut out: Vec<NodeRecord> = Vec::new();
        let mut last = [0u8; 32];
        while out.len() < MAX_RETURNED
            invariant
                v == self.nodes@,
                t == *target,
                x == *exclude,
                ids_distinct(v),
                out@.len() <= MAX_RETURNED,
                last@.len() == 32,
                out@.len() > 0 ==> last@ == dist(out@.last(), t),
                forall|k: int|
                    0 <= k < out@.len() ==> listed(v, #[trigger] out@[k]) && eligible(out@[k], x, now) && !lex_less(
                        last@,
                        dist(out@[k], t),
                        0,
                    ),
                forall|a: int, b: int|
                    0 <= a < b < out@.len() ==> lex_less(dist(#[trigger] out@[a], t), dist(#[trigger] out@[b], t), 0),
                forall|j: int|
                    0 <= j < v.len() && eligible(#[trigger] v[j], x, now) ==> (listed(out@, v[j]) <==> (out@.len() > 0
                        && !lex_less(last@, dist(v[j], t), 0))),
            ensures
                out@.len() <= MAX_RETURNED,
                out@.len() > 0 ==> last@ == dist(out@.last(), t),
                forall|k: int|
                    0 <= k < out@.len() ==> listed(v, #[trigger] out@[k]) && eligible(out@[k], x, now) && !lex_less(
                        last@,
                        dist(out@[k], t),
                        0,
                    ),
                forall|a: int, b: int|
                    0 <= a < b < out@.len() ==> lex_less(dist(#[trigger] out@[a], t), dist(#[trigger] out@[b], t), 0),
                forall|j: int|
                    0 <= j < v.len() && eligible(#[trigger] v[j], x, now) ==> (listed(out@, v[j]) <==> (out@.len() > 0
                        && !lex_less(last@, dist(v[j], t), 0))),
                out@.len() == MAX_RETURNED || forall|j: int|
                    0 <= j < v.len() && eligible(#[trigger] v[j], x, now) ==> listed(out@, v[j]),
            decreases MAX_RETURNED - out@.len(),
        {
            let mut best: Option<usize> = None;
            let mut best_d = [0u8; 32];
            let mut i: usize = 0;
            while i < self.nodes.len()
                invariant
                    v == self.nodes@,
                    t == *target,
                    x == *exclude,
                    i <= v.len(),
                    best_d@.len() == 32,
                    best is None ==> forall|j: int|
                        0 <= j < i ==> !(eligible(#[trigger] v[j], x, now) && (out@.len() == 0 || lex_less(
                            last@,
                            dist(v[j], t),
                            0,
                        ))),
                    best matches Some(b) ==> {
                        &&& b < i
                        &&& eligible(v[b as int], x, now)
                        &&& (out@.len() == 0 || lex_less(last@, dist(v[b as int], t), 0))
                        &&& best_d@ == dist(v[b as int], t)
                        &&& forall|j: int|
                            0 <= j < i && eligible(#[trigger] v[j], x, now) && (out@.len() == 0 || lex_less(
                                last@,
                                dist(v[j], t),
                                0,
                            )) ==> !lex_less(dist(v[j], t), best_d@, 0)
                    },
                decreases v.len() - i,
            {
                let r = self.nodes[i];
                if r.is_alive_at(now) && !same_id(&r.id, exclude) {
                    let d = r.xor_distance(target);
                    let above = out.len() == 0 || lex_before(&last, &d);
                    if above {
                        let better = match best {
                            None => true,
                            Some(_) => lex_before(&d, &best_d),
                        };
                        if better {
                            proof {
                                lemma_lex_irreflexive(d@, 0);
                                if best is Some {
                                    assert forall|j: int|
                                        0 <= j < i && eligible(#[trigger] v[j], x, now) && (out@.len() == 0
                                            || lex_less(last@, dist(v[j], t), 0)) implies !lex_less(
                                        dist(v[j], t),
                                        d@,
                                        0,
                                    ) by {
                                        if lex_less(dist(v[j], t), d@, 0) {
                                            lemma_lex_transitive(dist(v[j], t), d@, best_d@, 0);
                                        }
                                    }
                                }
                            }
                            best = Some(i);
                            best_d = d;
                        }
                    }
                }
                i += 1;
            }
            match best {
                None => {
                    proof {
                        assert forall|j: int| 0 <= j < v.len() && eligible(#[trigger] v[j], x, now) implies listed(
                            out@,
                            v[j],
                        ) by {
                            assert(!(out@.len() == 0 || lex_less(last@, dist(v[j], t), 0)));
                        }
                    }
                    break;
                },
                Some(b) => {
                    let nb = self.nodes[b];
                    let ghost o = out@;
                    let ghost l = last@;
                    let ghost db = dist(nb, t);
                    proof {
                        lemma_lex_irreflexive(db, 0);
                        assert(v[b as int] == nb);
                    }
                    out.push(nb);
                    last = best_d;
                    proof {
                        assert(listed(v, nb));
                        assert forall|k: int|
                            0 <= k < out@.len() implies listed(v, #[trigger] out@[k]) && eligible(out@[k], x, now)
                            && !lex_less(last@, dist(out@[k], t), 0) by {
                            if k < o.len() {
                                assert(out@[k] == o[k]);
                                lemma_le_lt(dist(o[k], t), l, db);
                            }
                        }
                        assert forall|a: int, c: int|
                            0 <= a < c < out@.len() implies lex_less(
                            dist(#[trigger] out@[a], t),
                            dist(#[trigger] out@[c], t),
                            0,
                        ) by {
                            assert(out@[a] == o[a]);
                            if c < o.len() {
                                assert(out@[c] == o[c]);
                            } else {
                                lemma_le_lt(dist(o[a], t), l, db);
                            }
                        }
                        assert forall|j: int| 0 <= j < v.len() && eligible(#[trigger] v[j], x, now) implies (listed(
                            out@,
                            v[j],
                        ) <==> (out@.len() > 0 && !lex_less(last@, dist(v[j], t), 0))) by {
                            if listed(o, v[j]) {
                                let k = choose|k: int| 0 <= k < o.len() && o[k] == v[j];
                                assert(out@[k] == v[j]);
                                if o.len() > 0 {
                                    lemma_le_lt(dist(v[j], t), l, db);
                                }
                            } else {
                                assert(o.len() == 0 || lex_less(l, dist(v[j], t), 0));
                                assert(!lex_less(dist(v[j], t), db, 0));
                                if v[j].id == nb.id {
                                    assert(j == b);
                                    assert(out@[o.len() as int] == v[j]);
                                } else {
                                    lemma_distance_order(v[j].id, nb.id, t);
                                    lemma_lex_asymmetric(db, dist(v[j], t), 0);
                                    assert forall|k: int| 0 <= k < out@.len() implies out@[k] != v[j] by {
                                        if k < o.len() {
                                            assert(out@[k] == o[k]);
                                        }
                                    }
                                }
                            }
                        }
                    }
                },
            }
        }
        proof {
            assert forall|j: int| 0 <= j < v.len() && eligible(#[trigger] v[j], x, now) && !listed(out@, v[j]) implies (
            out@.len() == MAX_RETURNED && forall|k: int|
                0 <= k < out@.len() ==> lex_less(dist(#[trigger] out@[k], t), dist(v[j], t), 0)) by {
                assert forall|k: int| 0 <= k < out@.len() implies lex_less(dist(#[trigger] out@[k], t), dist(v[j], t), 0) by {
                    lemma_le_lt(dist(out@[k], t), last@, dist(v[j], t));
                }
            }
        }
        out
    }

    /// Drop the records not alive at `now`; the number dropped.
    pub fn gc_at(&mut self, now: u64) -> (dropped: usize)
        requires
            old(self).wf(),
        ensures
            final(self).wf(),
            final(self).nodes@ == old(self).nodes@.filter(|r: NodeRecord| alive_at(r, now)),
            dropped == old(self).nodes@.len() - final(self).nodes@.len(),
    {
        let ghost keep = |r: NodeRecord| alive_at(r, now);
        let ghost src = self.nodes@;
        let mut kept: Vec<NodeRecord> = Vec::new();
        let mut i: usize = 0;
        while i < self.nodes.len()
            invariant
                self.nodes@ == src,
                ids_distinct(src),
                src.len() <= MAX_NODES,
                i <= src.len(),
                kept@ == src.take(i as int).filter(keep),
                kept@.len() <= i,
                ids_distinct(kept@),
                forall|k: int| #![trigger kept@[k]] 0 <= k < kept@.len() ==> exists|j: int| 0 <= j < i && #[trigger] src[j] == kept@[k],
                forall|r: NodeRecord| #[trigger] keep(r) == alive_at(r, now),
            decreases src.len() - i,
        {
            let r = self.nodes[i];
            proof {
                assert(src.take(i + 1).drop_last() =~= src.take(i as int));
                reveal(Seq::filter);
            }
            if r.is_alive_at(now) {
                let ghost k0 = kept@;
                kept.push(r);
                proof {
                    assert forall|a: int, b: int| 0 <= a < b < kept@.len() implies kept@[a].id != kept@[b].id by {
                        if b == kept@.len() - 1 {
                            let j = choose|j: int| 0 <= j < i && #[trigger] src[j] == k0[a];
                            assert(src[j].id != src[i as int].id);
                        }
                    }
                    assert forall|k: int| #![trigger kept@[k]] 0 <= k < kept@.len() implies exists|j: int| 0 <= j < i + 1 && #[trigger] src[j] == kept@[k] by {
                        if k == kept@.len() - 1 {
                            assert(src[i as int] == kept@[k]);
                        } else {
                            let j = choose|j: int| 0 <= j < i && #[trigger] src[j] == k0[k];
                            assert(src[j] == kept@[k]);
                        }
                    }
                }
            } else {
                proof {
                    assert forall|k: int| #![trigger kept@[k]] 0 <= k < kept@.len() implies exists|j: int| 0 <= j < i + 1 && #[trigger] src[j] == kept@[k] by {
                        let j = choose|j: int| 0 <= j < i && #[trigger] src[j] == kept@[k];
                        assert(src[j] == kept@[k]);
                    }
                }
            }
            i += 1;
        }
        proof {
            assert(src.take(src.len() as int) =~= src);
        }
        let before = self.nodes.len();
        self.nodes = kept;
        before - self.nodes.len()
    }
}

// ---------------------------------------------------------------------------
// Rate limit
// ---------------------------------------------------------------------------

/// Length of a rate window, in milliseconds.
pub const RATE_WINDOW_MS: u64 = 1_000;

/// Rate buckets idle this long are swept, in milliseconds.
pub const BUCKET_IDLE_MS: u64 = 10_000;

/// The bucket kept for `ip`: requests counted and when the window began.
pub open spec fn bucket_of(v: Seq<(PeerIp, (u32, u64))>, ip: PeerIp) -> Option<(u32, u64)> {
    let i = key_index(v, ip);
    if i >= 0 {
        Some(v[i].1)
    } else {
        None
    }
}

/// A request at `now_ms` against a bucket (a new address starts an empty
/// window now): the bucket after it and whether it is allowed.  A window
/// a second old or more starts over with this request; otherwise the
/// request counts while fewer than the limit are counted.
pub open spec fn bucket_step(entry: Option<(u32, u64)>, now_ms: u64) -> ((u32, u64), bool) {
    let e = match entry {
        Some(e) => e,
        None => (0u32, now_ms),
    };
    if silence(e.1, now_ms) >= RATE_WINDOW_MS {
        ((1u32, now_ms), true)
    } else if e.0 < RATE_LIMIT_RPS {
        (((e.0 + 1) as u32, e.1), true)
    } else {
        (e, false)
    }
}

/// Requests per address, counted in one-second windows.
pub struct RateLimiter {
    pub buckets: Vec<(PeerIp, (u32, u64))>,
}

impl RateLimiter {
    /// Each address has one bucket.
    pub open spec fn wf(&self) -> bool {
        distinct_keys(self.buckets@)
    }

    pub fn new() -> (r: Self)
        ensures
            r.wf(),
            r.buckets@.len() == 0,
    {
        RateLimiter { buckets: Vec::new() }
    }

    fn find(&self, ip: &PeerIp) -> (r: Option<usize>)
        ensures
            match r {
                Some(i) => i == key_index(self.buckets@, *ip),
                None => key_index(self.buckets@, *ip) == -1,
            },
    {
        let ghost v = self.buckets@;
        let mut i = self.buckets.len();
        proof {
            assert(v.take(i as int) =~= v);
        }
        while i > 0
            invariant
                v == self.buckets@,
                i <= v.len(),
                key_index(v, *ip) == key_index(v.take(i as int), *ip),
            decreases i,
        {
            proof {
                assert(v.take(i as int).drop_last() =~= v.take(i - 1));
                assert(v.take(i as int).last() == v[i - 1]);
            }
            if same_ip(&self.buckets[i - 1].0, ip) {
                return Some(i - 1);
            }
            i -= 1;
        }
        None
    }

    /// Count a request from `ip` at `now_ms`; whether it is allowed (see
    /// `bucket_step`).
    pub fn allow_at(&mut self, ip: PeerIp, now_ms: u64) -> (ok: bool)
        requires
            old(self).wf(),
        ensures
            final(self).wf(),
            final(self).buckets@ == upsert(old(self).buckets@, ip, bucket_step(bucket_of(old(self).buckets@, ip), now_ms).0),
            ok == bucket_step(bucket_of(old(self).buckets@, ip), now_ms).1,
    {
        let ghost v = self.buckets@;
        proof {
            lemma_key_index(v, ip);
            lemma_upsert_distinct(v, ip, bucket_step(bucket_of(v, ip), now_ms).0);
        }
        let found = self.find(&ip);
        let e = match found {
            Some(i) => self.buckets[i].1,
            None => (0u32, now_ms),
        };
        let (next, ok) = if now_ms.saturating_sub(e.1) >= RATE_WINDOW_MS {
            ((1u32, now_ms), true)
        } else if e.0 < RATE_LIMIT_RPS {
            ((e.0 + 1, e.1), true)
        } else {
            (e, false)
        };
        match found {
            Some(i) => {
                self.buckets.set(i, (ip, next));
            },
            None => {
                self.buckets.push((ip, next));
            },
        }
        proof {
            assert(self.buckets@ =~= upsert(v, ip, next));
        }
        ok
    }

    /// Drop the buckets idle for ten seconds or more at `now_ms`.
    pub fn gc_at(&mut self, now_ms: u64)
        requires
            old(self).wf(),
        ensures
            final(self).wf(),
            final(self).buckets@ == old(self).buckets@.filter(|b: (PeerIp, (u32, u64))| silence(b.1.1, now_ms) < BUCKET_IDLE_MS),
    {
        let ghost keep = |b: (PeerIp, (u32, u64))| silence(b.1.1, now_ms) < BUCKET_IDLE_MS;
        let ghost src = self.buckets@;
        let mut kept: Vec<(PeerIp, (u32, u64))> = Vec::new();
        let mut i: usize = 0;
        while i < self.buckets.len()
            invariant
                self.buckets@ == src,
                distinct_keys(src),
                i <= src.len(),
                kept@ == src.take(i as int).filter(keep),
                distinct_keys(kept@),
                forall|k: int| #![trigger kept@[k]] 0 <= k < kept@.len() ==> exists|j: int| 0 <= j < i && #[trigger] src[j] == kept@[k],
                forall|b: (PeerIp, (u32, u64))| #[trigger] keep(b) == (silence(b.1.1, now_ms) < BUCKET_IDLE_MS),
            decreases src.len() - i,
        {
            let b = self.buckets[i];
            proof {
                assert(src.take(i + 1).drop_last() =~= src.take(i as int));
                reveal(Seq::filter);
            }
            if now_ms.saturating_sub(b.1.1) < BUCKET_IDLE_MS {
                let ghost k0 = kept@;
                kept.push(b);
                proof {
                    assert forall|a: int, c: int| 0 <= a < c < kept@.len() implies kept@[a].0 != kept@[c].0 by {
                        if c == kept@.len() - 1 {
                            let j = choose|j: int| 0 <= j < i && #[trigger] src[j] == k0[a];
                            assert(src[j].0 != src[i as int].0);
                        }
                    }
                    assert forall|k: int| #![trigger kept@[k]] 0 <= k < kept@.len() implies exists|j: int| 0 <= j < i + 1 && #[trigger] src[j] == kept@[k] by {
                        if k == kept@.len() - 1 {
                            assert(src[i as int] == kept@[k]);
                        } else {
                            let j = choose|j: int| 0 <= j < i && #[trigger] src[j] == k0[k];
                            assert(src[j] == kept@[k]);
                        }
                    }
                }
            } else {
                proof {
                    assert forall|k: int| #![trigger kept@[k]] 0 <= k < kept@.len() implies exists|j: int| 0 <= j < i + 1 && #[trigger] src[j] == kept@[k] by {
                        let j = choose|j: int| 0 <= j < i && #[trigger] src[j] == kept@[k];
                        assert(src[j] == kept@[k]);
                    }
                }
            }
            i += 1;
        }
        proof {
            assert(src.take(src.len() as int) =~= src);
        }
        self.buckets = kept;
    }
}

// ---------------------------------------------------------------------------
// The server
// ---------------------------------------------------------------------------

/// Counts of datagrams since the last sweep.
#[derive(Debug, Clone, Copy)]
pub struct BootstrapStats {
    pub received: u64,
    pub pings: u64,
    pub announces: u64,
    pub find_nodes: u64,
    pub rate_limited: u64,
    pub unknown: u64,
}

impl BootstrapStats {
    /// All counts zero.
    pub fn new() -> (s: Self)
        ensures
            s.received == 0 && s.pings == 0 && s.announces == 0 && s.find_nodes == 0 && s.rate_limited == 0
                && s.unknown == 0,
    {
        BootstrapStats { received: 0, pings: 0, announces: 0, find_nodes: 0, rate_limited: 0, unknown: 0 }
    }

    /// Set all counts back to zero.
    pub fn reset(&mut self)
        ensures
            final(self).received == 0 && final(self).pings == 0 && final(self).announces == 0
                && final(self).find_nodes == 0 && final(self).rate_limited == 0 && final(self).unknown == 0,
    {
        *self = BootstrapStats::new();
    }

    /// No count is at its limit.
    pub open spec fn room(&self) -> bool {
        &&& self.received < u64::MAX
        &&& self.pings < u64::MAX
        &&& self.announces < u64::MAX
        &&& self.find_nodes < u64::MAX
        &&& self.rate_limited < u64::MAX
        &&& self.unknown < u64::MAX
    }
}

/// `reply` is a FoundNodes answer with `token` listing the answer for
/// `target` (see `closest_ok`).
pub open spec fn answers(
    table: Seq<NodeRecord>,
    reply: Seq<u8>,
    token: u32,
    target: [u8; 32],
    exclude: [u8; 32],
    now: u64,
) -> bool {
    exists|out: Seq<NodeRecord>| #[trigger] closest_ok(table, out, target, exclude, now) && reply == found_nodes_bytes(token, out)
}

/// The table went from `tbl` to `tbl2` by recording the node whose id is
/// `id_bytes` as heard from at `src` at `now`.
pub open spec fn recorded(tbl: Seq<NodeRecord>, tbl2: Seq<NodeRecord>, id_bytes: Seq<u8>, src: PeerAddr, now: u64) -> bool {
    exists|id: [u8; 32]| id@ == id_bytes && #[trigger] upserted(tbl, tbl2, heard(id, src, now), MAX_NODES as nat)
}

/// `reply` answers with `token` for the target and asker given as bytes.
pub open spec fn answered(
    tbl: Seq<NodeRecord>,
    reply: Seq<u8>,
    token: u32,
    target_bytes: Seq<u8>,
    exclude_bytes: Seq<u8>,
    now: u64,
) -> bool {
    exists|t: [u8; 32], x: [u8; 32]|
        t@ == target_bytes && x@ == exclude_bytes && #[trigger] answers(tbl, reply, token, t, x, now)
}

/// What the sweep reports: nodes dropped, nodes left, and the counts since
/// the sweep before.
#[derive(Debug, Clone, Copy)]
pub struct GcReport {
    pub evicted: usize,
    pub alive: usize,
    pub stats: BootstrapStats,
}

/// The bootstrap server: its id, node table, rate limit, counts, and when
/// it last swept.
pub struct BootstrapServer {
    pub server_id: [u8; 32],
    pub table: NodeTable,
    pub limiter: RateLimiter,
    pub stats: BootstrapStats,
    /// Unix seconds of the last sweep.
    pub last_gc: u64,
}

/// The record of a sender heard from now.
pub open spec fn heard(id: [u8; 32], src: PeerAddr, now: u64) -> NodeRecord {
    NodeRecord { id, addr: src, last_seen: now }
}

impl BootstrapServer {
    pub open spec fn wf(&self) -> bool {
        self.table.wf() && self.limiter.wf()
    }

    /// A server started at `now` (unix seconds), knowing no node.
    pub fn new(now: u64) -> (s: Self)
        ensures
            s.wf(),
            s.server_id@ == Seq::new(32, |i: int| SERVER_ID_BYTE),
            s.table.nodes@.len() == 0,
            s.limiter.buckets@.len() == 0,
            s.stats.received == 0 && s.stats.pings == 0 && s.stats.announces == 0 && s.stats.find_nodes == 0
                && s.stats.rate_limited == 0 && s.stats.unknown == 0,
            s.last_gc == now,
    {
        let id = [SERVER_ID_BYTE; 32];
        assert(id@ =~= Seq::new(32, |i: int| SERVER_ID_BYTE));
        BootstrapServer {
            server_id: id,
            table: NodeTable::new(),
            limiter: RateLimiter::new(),
            stats: BootstrapStats::new(),
            last_gc: now,
        }
    }

    /// The periodic sweep, at `now` (unix seconds) and `now_ms` (the
    /// monotonic clock): once a minute or more has passed since the last
    /// one, drop the stale nodes and idle rate buckets, report what was
    /// dropped and the counts, and start counting afresh.
    pub fn maybe_gc_at(&mut self, now: u64, now_ms: u64) -> (report: Option<GcReport>)
        requires
            old(self).wf(),
            old(self).last_gc <= now,
        ensures
            final(self).wf(),
            final(self).server_id == old(self).server_id,
            now - old(self).last_gc < GC_INTERVAL_SECS ==> report is None && final(self).table.nodes@ == old(
                self,
            ).table.nodes@ && final(self).limiter.buckets@ == old(self).limiter.buckets@ && final(self).stats
                == old(self).stats && final(self).last_gc == old(self).last_gc,
            now - old(self).last_gc >= GC_INTERVAL_SECS ==> {
                &&& final(self).table.nodes@ == old(self).table.nodes@.filter(|r: NodeRecord| alive_at(r, now))
                &&& final(self).limiter.buckets@ == old(self).limiter.buckets@.filter(
                    |b: (PeerIp, (u32, u64))| silence(b.1.1, now_ms) < BUCKET_IDLE_MS,
                )
                &&& final(self).last_gc == now
                &&& final(self).stats.received == 0 && final(self).stats.pings == 0
                &&& final(self).stats.announces == 0 && final(self).stats.find_nodes == 0
                &&& final(self).stats.rate_limited == 0 && final(self).stats.unknown == 0
                &&& report is Some
                &&& report->0.evicted == old(self).table.nodes@.len() - final(self).table.nodes@.len()
                &&& report->0.alive == final(self).table.nodes@.len()
                &&& report->0.stats == old(self).stats
            },
    {
        if now - self.last_gc < GC_INTERVAL_SECS {
            return None;
        }
        let evicted = self.table.gc_at(now);
        self.limiter.gc_at(now_ms);
        self.last_gc = now;
        let report = GcReport { evicted, alive: self.table.count(), stats: self.stats };
        self.stats.reset();
        Some(report)
    }

    /// Handle one datagram `msg` from `src`, at `now` (unix seconds) and
    /// `now_ms` (a monotonic clock in milliseconds).  Returns the answer to
    /// send back, if any, and whether the sweep is due a check afterwards
    /// (not for an empty, rate-limited or short FindNode datagram).
    ///
    /// An empty datagram is ignored.  Otherwise it is counted and goes
    /// through the sender address's rate limit; past the limit it is
    /// counted as such and dropped.  A Ping with an id gets a Pong and the
    /// sender is recorded; an Announce (id after one more byte) records the
    /// sender and gets the nodes nearest to it; a FindNode (requester id,
    /// target id, token) records the requester and gets the nodes nearest
    /// the target, with the token echoed; anything else is counted as
    /// unknown.
    pub fn handle_at(&mut self, msg: &[u8], src: PeerAddr, now: u64, now_ms: u64) -> (r: (Option<Vec<u8>>, bool))
        requires
            old(self).wf(),
            old(self).stats.room(),
        ensures
            final(self).wf(),
            final(self).server_id == old(self).server_id,
            final(self).last_gc == old(self).last_gc,
            msg@.len() == 0 ==> r.0 is None && !r.1 && final(self).table.nodes@ == old(self).table.nodes@
                && final(self).limiter.buckets@ == old(self).limiter.buckets@ && final(self).stats == old(self).stats,
            msg@.len() > 0 ==> handled(*old(self), *final(self), msg@, src, now, now_ms, r.0, r.1),
    {
        if msg.len() == 0 {
            return (None, false);
        }
        self.stats.received = self.stats.received + 1;
        if !self.limiter.allow_at(src.ip(), now_ms) {
            self.stats.rate_limited = self.stats.rate_limited + 1;
            return (None, false);
        }
        let ghost tbl = self.table.nodes@;
        let tag = msg[0];
        if tag == MSG_PING {
            match parse_node_id(msg, 1) {
                Some(node_id) => {
                    let reply = encode_pong(&self.server_id);
                    self.table.upsert_at(node_id, src, now);
                    self.stats.pings = self.stats.pings + 1;
                    proof {
                        assert(upserted(tbl, self.table.nodes@, heard(node_id, src, now), MAX_NODES as nat));
                    }
                    (Some(reply), true)
                },
                None => (None, true),
            }
        } else if tag == MSG_ANNOUNCE {
            match parse_node_id(msg, 2) {
                Some(node_id) => {
                    self.table.upsert_at(node_id, src, now);
                    let closest = self.table.closest_at(&node_id, &node_id, now);
                    let reply = encode_found_nodes(0, closest.as_slice());
                    self.stats.announces = self.stats.announces + 1;
                    proof {
                        assert(upserted(tbl, self.table.nodes@, heard(node_id, src, now), MAX_NODES as nat));
                        assert(closest_ok(self.table.nodes@, closest@, node_id, node_id, now));
                        assert(answers(self.table.nodes@, reply@, 0, node_id, node_id, now));
                    }
                    (Some(reply), true)
                },
                None => (None, true),
            }
        } else if tag == MSG_FIND_NODE {
            if msg.len() < 1 + NODE_ID_LEN * 2 + 4 {
                return (None, false);
            }
            let requester = match parse_node_id(msg, 1) {
                Some(x) => x,
                None => return (None, false),
            };
            let target = match parse_node_id(msg, 1 + NODE_ID_LEN) {
                Some(x) => x,
                None => return (None, false),
            };
            let token_bytes: Vec<u8> = vec![msg[65], msg[66], msg[67], msg[68]];
            proof {
                assert(token_bytes@ =~= msg@.subrange(65, 69));
                vstd::bytes::lemma_auto_spec_u32_to_from_le_bytes();
            }
            let token = u32_from_le_bytes(token_bytes.as_slice());
            self.table.upsert_at(requester, src, now);
            let closest = self.table.closest_at(&target, &requester, now);
            let reply = encode_found_nodes(token, closest.as_slice());
            self.stats.find_nodes = self.stats.find_nodes + 1;
            proof {
                assert(upserted(tbl, self.table.nodes@, heard(requester, src, now), MAX_NODES as nat));
                assert(closest_ok(self.table.nodes@, closest@, target, requester, now));
                assert(answers(self.table.nodes@, reply@, token, target, requester, now));
                assert(reply@.subrange(1, 5) =~= spec_u32_to_le_bytes(token));
            }
            (Some(reply), true)
        } else {
            self.stats.unknown = self.stats.unknown + 1;
            (None, true)
        }
    }
}

/// What handling a non-empty datagram `msg` from `src` did, going from
/// server `s` to `s2` with answer `reply` and sweep check `check`.
pub open spec fn handled(
    s: BootstrapServer,
    s2: BootstrapServer,
    msg: Seq<u8>,
    src: PeerAddr,
    now: u64,
    now_ms: u64,
    reply: Option<Vec<u8>>,
    check: bool,
) -> bool {
    let step = bucket_step(bucket_of(s.limiter.buckets@, peer_ip(src)), now_ms);
    let tbl = s.table.nodes@;
    let tbl2 = s2.table.nodes@;
    let st = s.stats;
    let st2 = s2.stats;
    let tag = msg[0];
    let same_counts_but = |p: bool, a: bool, f: bool, u: bool|
        (p || st2.pings == st.pings) && (a || st2.announces == st.announces) && (f || st2.find_nodes
            == st.find_nodes) && (u || st2.unknown == st.unknown);
    &&& s2.limiter.buckets@ == upsert(s.limiter.buckets@, peer_ip(src), step.0)
    &&& st2.received == st.received + 1
    &&& if !step.1 {
        &&& reply is None && !check && tbl2 == tbl
        &&& st2.rate_limited == st.rate_limited + 1
        &&& same_counts_but(false, false, false, false)
    } else if tag == MSG_PING {
        &&& st2.rate_limited == st.rate_limited
        &&& if msg.len() >= 1 + NODE_ID_LEN {
            &&& reply is Some && reply->0@ == pong_bytes(s.server_id@) && check
            &&& recorded(tbl, tbl2, msg.subrange(1, 33), src, now)
            &&& st2.pings == st.pings + 1
            &&& same_counts_but(true, false, false, false)
        } else {
            reply is None && check && tbl2 == tbl && same_counts_but(false, false, false, false)
        }
    } else if tag == MSG_ANNOUNCE {
        &&& st2.rate_limited == st.rate_limited
        &&& if msg.len() >= 2 + NODE_ID_LEN {
            &&& reply is Some && check
            &&& recorded(tbl, tbl2, msg.subrange(2, 34), src, now)
            &&& answered(tbl2, reply->0@, 0, msg.subrange(2, 34), msg.subrange(2, 34), now)
            &&& st2.announces == st.announces + 1
            &&& same_counts_but(false, true, false, false)
        } else {
            reply is None && check && tbl2 == tbl && same_counts_but(false, false, false, false)
        }
    } else if tag == MSG_FIND_NODE {
        &&& st2.rate_limited == st.rate_limited
        &&& if msg.len() >= 1 + 2 * NODE_ID_LEN + 4 {
            &&& reply is Some && check
            &&& recorded(tbl, tbl2, msg.subrange(1, 33), src, now)
            &&& answered(
                tbl2,
                reply->0@,
                spec_u32_from_le_bytes(msg.subrange(65, 69)),
                msg.subrange(33, 65),
                msg.subrange(1, 33),
                now,
            )
            &&& reply->0@.subrange(1, 5) == msg.subrange(65, 69)
            &&& st2.find_nodes == st.find_nodes + 1
            &&& same_counts_but(false, false, true, false)
        } else {
            reply is None && !check && tbl2 == tbl && same_counts_but(false, false, false, false)
        }
    } else {
        &&& st2.rate_limited == st.rate_limited
        &&& reply is None && check && tbl2 == tbl
        &&& st2.unknown == st.unknown + 1
        &&& same_counts_but(false, false, false, true)
    }
}

/// A FindNode request as the client builds it reads back on the server as
/// sent: the requester's id, the target's id and the token, which the
/// answer then carries back.
pub proof fn law_find_node_request_read_back(requester: Seq<u8>, target: Seq<u8>, token: u32)
    requires
        requester.len() == NODE_ID_LEN,
        target.len() == NODE_ID_LEN,
    ensures
        find_node_spec(requester, target, token).len() == 1 + 2 * NODE_ID_LEN + 4,
        find_node_spec(requester, target, token)[0] == MSG_FIND_NODE,
        find_node_spec(requester, target, token).subrange(1, 33) == requester,
        find_node_spec(requester, target, token).subrange(33, 65) == target,
        spec_u32_from_le_bytes(find_node_spec(requester, target, token).subrange(65, 69)) == token,
        found_nodes_bytes(token, Seq::empty()).subrange(1, 5) == find_node_spec(requester, target, token).subrange(
            65,
            69,
        ),
{
    vstd::bytes::lemma_auto_spec_u32_to_from_le_bytes();
    let m = find_node_spec(requester, target, token);
    let t = spec_u32_to_le_bytes(token);
    assert(m.subrange(1, 33) =~= requester);
    assert(m.subrange(33, 65) =~= target);
    assert(m.subrange(65, 69) =~= t);
    assert(found_nodes_bytes(token, Seq::empty()).subrange(1, 5) =~= t);
}

} // verus!
