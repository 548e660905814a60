use theos::push_notification::{NotificationKind, WakeNotification, NotificationQueue, NotificationDispatcher};

fn key(seed: u8) -> [u8; 32] { [seed; 32] }
fn my_key()   -> [u8; 32] { key(0xAA) }
fn peer_key() -> [u8; 32] { key(0xBB) }

fn msg_notif() -> WakeNotification {
    WakeNotification::new(
        peer_key(), my_key(),
        NotificationKind::IncomingMessage { conversation_id: "aabb".to_string() }
    )
}

fn call_notif() -> WakeNotification {
    WakeNotification::new(peer_key(), my_key(), NotificationKind::IncomingCall { session_id: 42 })
}

// NotificationKind
#[test] fn test_kind_tags_unique() {
    let tags = [
        NotificationKind::IncomingMessage { conversation_id: "x".to_string() }.tag(),
        NotificationKind::IncomingCall { session_id: 0 }.tag(),
        NotificationKind::ContactRequest.tag(),
        NotificationKind::MissedCall { session_id: 0 }.tag(),
        NotificationKind::ContactOnline.tag(),
        NotificationKind::System { message: "x".to_string() }.tag(),
    ];
    let unique: std::collections::HashSet<u8> = tags.iter().copied().collect();
    assert_eq!(unique.len(), tags.len());
}

#[test] fn test_kind_requires_wake() {
    assert!(NotificationKind::IncomingMessage { conversation_id: "x".to_string() }.requires_wake());
    assert!(NotificationKind::IncomingCall { session_id: 0 }.requires_wake());
    assert!(!NotificationKind::ContactOnline.requires_wake());
}

#[test] fn test_kind_priority_call_highest() {
    assert!(NotificationKind::IncomingCall { session_id: 0 }.priority() >
            NotificationKind::IncomingMessage { conversation_id: "x".to_string() }.priority());
}

#[test] fn test_kind_is_call() {
    assert!(NotificationKind::IncomingCall { session_id: 0 }.is_call());
    assert!(NotificationKind::MissedCall { session_id: 0 }.is_call());
    assert!(!NotificationKind::IncomingMessage { conversation_id: "x".to_string() }.is_call());
}

#[test] fn test_kind_labels() {
    assert_eq!(NotificationKind::IncomingMessage { conversation_id: "x".to_string() }.label(), "message");
    assert_eq!(NotificationKind::IncomingCall { session_id: 0 }.label(), "call");
    assert_eq!(NotificationKind::ContactRequest.label(), "contact_request");
}

// WakeNotification
#[test] fn test_notification_is_fresh() {
    let n = msg_notif();
    assert!(n.is_fresh());
}

#[test] fn test_notification_verify() {
    assert!(msg_notif().verify());
}

#[test] fn test_notification_serialization() {
    let n = msg_notif();
    let bytes = n.to_bytes();
    assert_eq!(bytes.len(), 137);
    let parsed = WakeNotification::from_bytes(&bytes, 1).unwrap();
    assert_eq!(parsed.sender_key, n.sender_key);
    assert_eq!(parsed.target_key, n.target_key);
    assert_eq!(parsed.kind.tag(), n.kind.tag());
}

#[test] fn test_notification_too_short_fails_parse() {
    assert!(WakeNotification::from_bytes(&[0u8; 50], 1).is_none());
}

#[test] fn test_notification_signing_payload_deterministic() {
    let n = msg_notif();
    assert_eq!(n.signing_payload(), n.signing_payload());
}

#[test] fn test_notification_sender_hex() {
    let n = msg_notif();
    assert_eq!(n.sender_hex().len(), 8); // 4 bytes = 8 hex chars
}

// NotificationQueue
#[test] fn test_queue_starts_empty() {
    let q = NotificationQueue::new();
    assert!(q.is_empty());
    assert_eq!(q.unseen_count(), 0);
}

#[test] fn test_queue_push() {
    let mut q = NotificationQueue::new();
    q.push(msg_notif());
    assert_eq!(q.len(), 1);
    assert_eq!(q.unseen_count(), 1);
}

#[test] fn test_queue_mark_seen() {
    let mut q = NotificationQueue::new();
    q.push(msg_notif());
    let id = q.queue.last().unwrap().id;
    q.mark_seen(id);
    assert_eq!(q.unseen_count(), 0);
}

#[test] fn test_queue_mark_all_seen() {
    let mut q = NotificationQueue::new();
    q.push(msg_notif());
    q.push(call_notif());
    q.mark_all_seen();
    assert_eq!(q.unseen_count(), 0);
}

#[test] fn test_queue_pop_all() {
    let mut q = NotificationQueue::new();
    q.push(msg_notif());
    q.push(call_notif());
    let all = q.pop_all();
    assert_eq!(all.len(), 2);
    assert!(q.is_empty());
}

#[test] fn test_queue_top_priority_is_call() {
    let mut q = NotificationQueue::new();
    q.push(msg_notif());
    q.push(call_notif());
    let top = q.top_priority().unwrap();
    assert!(top.kind.is_call());
}

#[test] fn test_queue_sorted_by_priority() {
    let mut q = NotificationQueue::new();
    q.push(msg_notif());
    q.push(call_notif());
    let sorted = q.sorted();
    assert!(sorted[0].kind.is_call());
}

#[test] fn test_queue_gc_removes_expired() {
    let mut q = NotificationQueue::new();
    let mut old = msg_notif();
    old.timestamp = 0; // epoch -- expired
    q.push(old);
    q.push(msg_notif()); // fresh
    let removed = q.gc();
    assert_eq!(removed, 1);
    assert_eq!(q.len(), 1);
}

#[test] fn test_queue_ids_monotonic() {
    let mut q = NotificationQueue::new();
    q.push(msg_notif());
    q.push(msg_notif());
    let ids: Vec<u64> = q.queue.iter().map(|n| n.id).collect();
    assert!(ids[0] < ids[1]);
}

// NotificationDispatcher
#[test] fn test_dispatcher_accepts_valid() {
    let mut d = NotificationDispatcher::new(my_key());
    let wake = d.receive(msg_notif());
    assert!(wake); // message requires wake
    assert_eq!(d.queue_len(), 1);
}

#[test] fn test_dispatcher_accepts_call() {
    let mut d = NotificationDispatcher::new(my_key());
    let wake = d.receive(call_notif());
    assert!(wake);
}

#[test] fn test_dispatcher_rejects_wrong_target() {
    let mut d = NotificationDispatcher::new(my_key());
    let notif = WakeNotification::new(
        peer_key(), key(0xCC), // wrong target
        NotificationKind::IncomingMessage { conversation_id: "x".to_string() }
    );
    let wake = d.receive(notif);
    assert!(!wake);
    assert_eq!(d.queue_len(), 0);
    assert_eq!(d.total_dropped, 1);
}

#[test] fn test_dispatcher_rejects_stale() {
    let mut d = NotificationDispatcher::new(my_key());
    let mut notif = msg_notif();
    notif.timestamp = 0; // too old
    let wake = d.receive(notif);
    assert!(!wake);
    assert_eq!(d.total_replayed, 1);
}

#[test] fn test_dispatcher_rejects_replay() {
    let mut d = NotificationDispatcher::new(my_key());
    let notif = msg_notif();
    d.receive(notif.clone());
    let wake = d.receive(notif); // same notification again
    assert!(!wake);
    assert_eq!(d.total_replayed, 1);
}

#[test] fn test_dispatcher_send_returns_bytes() {
    let d = NotificationDispatcher::new(my_key());
    let bytes = d.send(peer_key(), NotificationKind::IncomingMessage { conversation_id: "x".to_string() });
    assert_eq!(bytes.len(), 137);
}

#[test] fn test_dispatcher_contact_online_no_wake() {
    let mut d = NotificationDispatcher::new(my_key());
    let notif = WakeNotification::new(peer_key(), my_key(), NotificationKind::ContactOnline);
    let wake = d.receive(notif);
    assert!(!wake); // ContactOnline doesn't wake device
    assert_eq!(d.queue_len(), 1); // but still queued
}

#[test] fn test_dispatcher_stats() {
    let mut d = NotificationDispatcher::new(my_key());
    d.receive(msg_notif());
    assert_eq!(d.total_received, 1);
    assert_eq!(d.total_dropped, 0);
}

