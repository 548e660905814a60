use theos::dht::handle::HandleAnnouncement;
use theos::dht::node::{seen_recently, NodeId, NODE_STALE_SECS};
use theos::dht::resolver::{build_find_node, parse_found_nodes, ContactResolver, ResolveError, MSG_FIND_NODE, MSG_FOUND_NODES};
use theos::identity::keypair::KeyPair;


fn key_from_seed(seed: u8) -> [u8; 32] { [seed; 32] }

// -- resolve_key (hop 1) --

#[test]
fn test_resolve_key_unknown_handle() {
    let r = ContactResolver::new(&key_from_seed(1));
    assert_eq!(r.resolve_key("@nobody"), Err(ResolveError::UnknownHandle));
}

#[test]
fn test_resolve_key_after_register() {
    let mut r = ContactResolver::new(&key_from_seed(1));
    let kp = KeyPair::generate();
    let ann = HandleAnnouncement::new("sarah", &kp).unwrap();
    r.handles.register(ann).unwrap();

    let key = r.resolve_key("@sarah").unwrap();
    assert_eq!(key, kp.public.0);
}

#[test]
fn test_resolve_key_handles_at_prefix() {
    let mut r = ContactResolver::new(&key_from_seed(1));
    let kp = KeyPair::generate();
    r.handles.register(HandleAnnouncement::new("sarah", &kp).unwrap()).unwrap();
    // Both forms resolve identically
    assert_eq!(r.resolve_key("@sarah"), r.resolve_key("sarah"));
}

// -- resolve_contact (hops 1+2) --

#[test]
fn test_target_node_id_matches_key_derivation() {
    let mut r = ContactResolver::new(&key_from_seed(1));
    let kp = KeyPair::generate();
    r.handles.register(HandleAnnouncement::new("sarah", &kp).unwrap()).unwrap();

    let nid = r.target_node_id("@sarah").unwrap();
    assert_eq!(nid, NodeId::from_identity(&kp.public.0));
}

// -- FindNode wire format --

#[test]
fn test_build_find_node_length() {
    let req = NodeId([1u8; 32]);
    let tgt = NodeId([2u8; 32]);
    let pkt = build_find_node(&req, &tgt, 0x01020304);
    assert_eq!(pkt.len(), 1 + 32 + 32 + 4);
    assert_eq!(pkt[0], MSG_FIND_NODE);
}

#[test]
fn test_build_find_node_carries_ids_and_token() {
    let req = NodeId([0xAA; 32]);
    let tgt = NodeId([0xBB; 32]);
    let pkt = build_find_node(&req, &tgt, 0x11223344);
    assert_eq!(&pkt[1..33], &[0xAA; 32]);
    assert_eq!(&pkt[33..65], &[0xBB; 32]);
    assert_eq!(&pkt[65..69], &0x11223344u32.to_le_bytes());
}

// -- FoundNodes parsing --

#[test]
fn test_parse_found_nodes_empty() {
    // [0x05][token:4][count=0]
    let mut buf = vec![MSG_FOUND_NODES];
    buf.extend_from_slice(&0x01020304u32.to_le_bytes());
    buf.push(0);
    let (token, nodes) = parse_found_nodes(&buf).unwrap();
    assert_eq!(token, 0x01020304);
    assert_eq!(nodes.len(), 0);
}

#[test]
fn test_parse_found_nodes_one_entry() {
    let mut buf = vec![MSG_FOUND_NODES];
    buf.extend_from_slice(&42u32.to_le_bytes());
    buf.push(1); // count
    buf.extend_from_slice(&[0xCD; 32]); // node id
    buf.extend_from_slice(b"100.64.0.5:7700");
    buf.push(0x00); // null terminator

    let (token, nodes) = parse_found_nodes(&buf).unwrap();
    assert_eq!(token, 42);
    assert_eq!(nodes.len(), 1);
    assert_eq!(nodes[0].id, [0xCD; 32]);
    assert_eq!(nodes[0].addr, "100.64.0.5:7700");
}

#[test]
fn test_parse_found_nodes_multiple() {
    let mut buf = vec![MSG_FOUND_NODES];
    buf.extend_from_slice(&7u32.to_le_bytes());
    buf.push(2);
    buf.extend_from_slice(&[0x11; 32]);
    buf.extend_from_slice(b"10.0.0.1:7700");
    buf.push(0x00);
    buf.extend_from_slice(&[0x22; 32]);
    buf.extend_from_slice(b"10.0.0.2:7700");
    buf.push(0x00);

    let (_, nodes) = parse_found_nodes(&buf).unwrap();
    assert_eq!(nodes.len(), 2);
    assert_eq!(nodes[0].addr, "10.0.0.1:7700");
    assert_eq!(nodes[1].id, [0x22; 32]);
}

#[test]
fn test_parse_found_nodes_wrong_tag() {
    let buf = vec![0x99, 0, 0, 0, 0, 0];
    assert!(parse_found_nodes(&buf).is_none());
}

#[test]
fn test_parse_found_nodes_too_short() {
    assert!(parse_found_nodes(&[0x05, 0x00]).is_none());
}

#[test]
fn test_parse_found_nodes_missing_terminator() {
    let mut buf = vec![MSG_FOUND_NODES];
    buf.extend_from_slice(&1u32.to_le_bytes());
    buf.push(1);
    buf.extend_from_slice(&[0xAB; 32]);
    buf.extend_from_slice(b"10.0.0.1:7700"); // no null terminator
    assert!(parse_found_nodes(&buf).is_none());
}

#[test]
fn test_findnode_roundtrip_with_bootstrap_format() {
    // Build a FindNode, confirm a matching FoundNodes parses back the token
    let req = NodeId([1u8; 32]);
    let tgt = NodeId([2u8; 32]);
    let token = 0xDEADBEEF;
    let pkt = build_find_node(&req, &tgt, token);
    let parsed_token = u32::from_le_bytes([pkt[65], pkt[66], pkt[67], pkt[68]]);

    // Simulate bootstrap echoing the token in FoundNodes
    let mut resp = vec![MSG_FOUND_NODES];
    resp.extend_from_slice(&parsed_token.to_le_bytes());
    resp.push(0);
    let (echoed, _) = parse_found_nodes(&resp).unwrap();
    assert_eq!(echoed, token);
}

#[test]
fn node_alive_for_fifteen_minutes() {
    assert_eq!(NODE_STALE_SECS, 900);
    assert!(seen_recently(1_000, 1_000));
    assert!(seen_recently(1_000, 1_899));
    assert!(!seen_recently(1_000, 1_900));
}
