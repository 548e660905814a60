use theos::dht::bootstrap::{
    encode_addr, encode_found_nodes, encode_pong, parse_node_id, BootstrapServer, NodeRecord, NodeTable, PeerAddr,
    PeerIp, RateLimiter, MAX_RETURNED, MSG_ANNOUNCE, MSG_PING, RATE_LIMIT_RPS,
};
use theos::dht::node::NodeId;
use theos::dht::resolver::{build_find_node, parse_found_nodes, MSG_FOUND_NODES};

fn v4(last: u8, port: u16) -> PeerAddr {
    PeerAddr::V4 { ip: [10, 0, 0, last], port }
}

fn id(b: u8) -> [u8; 32] {
    [b; 32]
}

#[test]
fn pong_carries_the_server_id() {
    let p = encode_pong(&[0xB0; 32]);
    assert_eq!(p.len(), 37);
    assert_eq!(p[0], 0x02);
    assert!(p[1..33].iter().all(|b| *b == 0xB0));
    assert_eq!(&p[33..], &[0, 0, 0, 0]);
}

#[test]
fn addresses_encode_family_ip_and_port() {
    assert_eq!(encode_addr(&v4(7, 0x1234)), vec![0x04, 10, 0, 0, 7, 0x34, 0x12]);
    let a6 = encode_addr(&PeerAddr::V6 { ip: [1; 16], port: 7680 });
    assert_eq!(a6.len(), 19);
    assert_eq!(a6[0], 0x06);
    assert_eq!(&a6[17..], &7680u16.to_le_bytes());
}

#[test]
fn found_nodes_lists_ids_and_addresses() {
    let nodes = [
        NodeRecord { id: id(1), addr: v4(1, 1), last_seen: 0 },
        NodeRecord { id: id(2), addr: v4(2, 2), last_seen: 0 },
    ];
    let v = encode_found_nodes(0xDEADBEEF, &nodes);
    assert_eq!(v[0], MSG_FOUND_NODES);
    assert_eq!(&v[1..5], &0xDEADBEEFu32.to_le_bytes());
    assert_eq!(v[5], 2);
    assert_eq!(v.len(), 6 + 2 * (32 + 7));
    assert_eq!(&v[6..38], &id(1));
    assert_eq!(&v[38..45], &[0x04, 10, 0, 0, 1, 1, 0]);
}

#[test]
fn node_ids_need_the_whole_id() {
    let buf = [9u8; 40];
    assert_eq!(parse_node_id(&buf, 8), Some([9u8; 32]));
    assert_eq!(parse_node_id(&buf, 9), None);
    assert_eq!(parse_node_id(&buf, usize::MAX), None);
}

#[test]
fn table_replaces_a_known_id_and_answers_nearest_first() {
    let mut t = NodeTable::new();
    t.upsert_at(id(0x10), v4(1, 1), 100);
    t.upsert_at(id(0x01), v4(2, 2), 100);
    t.upsert_at(id(0x30), v4(3, 3), 100);
    t.upsert_at(id(0x01), v4(4, 4), 150);
    assert_eq!(t.count(), 3);
    let out = t.closest_at(&id(0x00), &id(0x30), 200);
    let ids: Vec<u8> = out.iter().map(|r| r.id[0]).collect();
    assert_eq!(ids, vec![0x01, 0x10]);
    assert_eq!(out[0].addr, v4(4, 4));
    assert_eq!(out[0].last_seen, 150);
}

#[test]
fn stale_nodes_are_left_out_and_swept() {
    let mut t = NodeTable::new();
    t.upsert_at(id(1), v4(1, 1), 0);
    t.upsert_at(id(2), v4(2, 2), 500);
    assert_eq!(t.closest_at(&id(0), &id(0xFF), 950).len(), 1);
    assert_eq!(t.gc_at(950), 1);
    assert_eq!(t.count(), 1);
    assert_eq!(t.nodes[0].id, id(2));
}

#[test]
fn answers_hold_at_most_twenty() {
    let mut t = NodeTable::new();
    for b in 0..30u8 {
        t.upsert_at(id(b), v4(b, 1), 10);
    }
    let out = t.closest_at(&id(0), &id(0xFF), 10);
    assert_eq!(out.len(), MAX_RETURNED);
    for (k, r) in out.iter().enumerate() {
        assert_eq!(r.id[0], k as u8);
    }
}

#[test]
fn rate_limit_ten_per_second() {
    let mut l = RateLimiter::new();
    let ip = PeerIp::V4([1, 2, 3, 4]);
    for _ in 0..RATE_LIMIT_RPS {
        assert!(l.allow_at(ip, 5_000));
    }
    assert!(!l.allow_at(ip, 5_999));
    assert!(l.allow_at(PeerIp::V4([1, 2, 3, 5]), 5_999));
    assert!(l.allow_at(ip, 6_000));
    l.gc_at(15_999);
    assert_eq!(l.buckets.len(), 1);
}

#[test]
fn ping_gets_pong_and_is_recorded() {
    let mut s = BootstrapServer::new(1_000);
    let mut msg = vec![MSG_PING];
    msg.extend_from_slice(&id(7));
    let (reply, check) = s.handle_at(&msg, v4(1, 9), 1_000, 0);
    assert_eq!(reply.unwrap(), encode_pong(&[0xB0; 32]));
    assert!(check);
    assert_eq!(s.table.count(), 1);
    assert_eq!(s.stats.pings, 1);
    assert_eq!(s.stats.received, 1);
}

#[test]
fn announce_gets_the_others() {
    let mut s = BootstrapServer::new(0);
    let mut a = vec![MSG_ANNOUNCE, 0];
    a.extend_from_slice(&id(1));
    s.handle_at(&a, v4(1, 1), 10, 0);
    let mut b = vec![MSG_ANNOUNCE, 0];
    b.extend_from_slice(&id(2));
    let (reply, _) = s.handle_at(&b, v4(2, 2), 11, 1);
    let reply = reply.unwrap();
    assert_eq!(reply[5], 1);
    assert_eq!(&reply[6..38], &id(1));
    assert_eq!(s.stats.announces, 2);
}

#[test]
fn find_node_echoes_the_token() {
    let mut s = BootstrapServer::new(0);
    let req = build_find_node(&NodeId(id(3)), &NodeId(id(4)), 0xDEADBEEF);
    let (reply, check) = s.handle_at(&req, v4(3, 3), 5, 0);
    let reply = reply.unwrap();
    assert!(check);
    let (token, nodes) = parse_found_nodes(&reply).unwrap();
    assert_eq!(token, 0xDEADBEEF);
    assert!(nodes.is_empty());
    assert_eq!(s.table.count(), 1);
    assert_eq!(s.stats.find_nodes, 1);
}

#[test]
fn short_find_node_and_unknown_tags() {
    let mut s = BootstrapServer::new(0);
    let (r, check) = s.handle_at(&[0x04, 1, 2], v4(1, 1), 0, 0);
    assert!(r.is_none() && !check);
    let (r, check) = s.handle_at(&[0x7F], v4(1, 1), 0, 0);
    assert!(r.is_none() && check);
    assert_eq!(s.stats.unknown, 1);
    let (r, check) = s.handle_at(&[], v4(1, 1), 0, 0);
    assert!(r.is_none() && !check);
    assert_eq!(s.stats.received, 2);
}

#[test]
fn flood_is_rate_limited() {
    let mut s = BootstrapServer::new(0);
    for _ in 0..10 {
        s.handle_at(&[0x7F], v4(1, 1), 0, 100);
    }
    let (r, check) = s.handle_at(&[0x7F], v4(1, 1), 0, 200);
    assert!(r.is_none() && !check);
    assert_eq!(s.stats.rate_limited, 1);
}

#[test]
fn sweep_once_a_minute() {
    let mut s = BootstrapServer::new(0);
    let mut msg = vec![MSG_PING];
    msg.extend_from_slice(&id(7));
    s.handle_at(&msg, v4(1, 9), 0, 0);
    assert!(s.maybe_gc_at(59, 59_000).is_none());
    let rep = s.maybe_gc_at(1_000, 1_000_000).unwrap();
    assert_eq!(rep.evicted, 1);
    assert_eq!(rep.alive, 0);
    assert_eq!(rep.stats.pings, 1);
    assert_eq!(s.stats.pings, 0);
    assert_eq!(s.last_gc, 1_000);
}
