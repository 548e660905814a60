use theos::identity::connection::{ConnectionError, ConnectionRequest, ConnectionResponse, PendingRequests};
use theos::identity::contact::{Contact, ContactBook};
use theos::identity::keypair::KeyPair;

fn kp() -> KeyPair { KeyPair::generate() }

// ConnectionRequest creation and verification

#[test]
fn test_request_creates_and_verifies() {
    let omar  = kp();
    let sarah = kp();
    let req   = ConnectionRequest::new(&omar, &sarah.public, "Omar", "Hey, it is Omar").unwrap();
    assert!(req.verify().is_ok());
}

#[test]
fn test_request_message_too_long() {
    let omar  = kp();
    let sarah = kp();
    let long  = "x".repeat(141);
    assert_eq!(
        ConnectionRequest::new(&omar, &sarah.public, "Omar", &long),
        Err(ConnectionError::MessageTooLong)
    );
}

#[test]
fn test_request_empty_name_rejected() {
    let omar  = kp();
    let sarah = kp();
    assert_eq!(
        ConnectionRequest::new(&omar, &sarah.public, "  ", "hi"),
        Err(ConnectionError::InvalidDisplayName)
    );
}

#[test]
fn test_request_empty_message_ok() {
    let omar  = kp();
    let sarah = kp();
    let req   = ConnectionRequest::new(&omar, &sarah.public, "Omar", "").unwrap();
    assert!(req.verify().is_ok());
}

#[test]
fn test_request_tampered_signature_fails() {
    let omar  = kp();
    let sarah = kp();
    let mut req = ConnectionRequest::new(&omar, &sarah.public, "Omar", "hi").unwrap();
    req.signature[0] ^= 0xFF;
    assert_eq!(req.verify(), Err(ConnectionError::InvalidSignature));
}

#[test]
fn test_request_tampered_message_fails() {
    let omar  = kp();
    let sarah = kp();
    let mut req = ConnectionRequest::new(&omar, &sarah.public, "Omar", "hi").unwrap();
    req.message = "evil".to_string();
    assert_eq!(req.verify(), Err(ConnectionError::InvalidSignature));
}

#[test]
fn test_request_stores_correct_keys() {
    let omar  = kp();
    let sarah = kp();
    let req   = ConnectionRequest::new(&omar, &sarah.public, "Omar", "hey").unwrap();
    assert_eq!(req.requester_key, omar.public);
    assert_eq!(req.target_key,    sarah.public);
}

#[test]
fn test_request_message_trimmed() {
    let omar  = kp();
    let sarah = kp();
    let req   = ConnectionRequest::new(&omar, &sarah.public, "Omar", "  hello  ").unwrap();
    assert_eq!(req.message, "hello");
}

// ConnectionResponse

#[test]
fn test_accept_response_verifies() {
    let omar  = kp();
    let sarah = kp();
    let req   = ConnectionRequest::new(&omar, &sarah.public, "Omar", "hi").unwrap();
    let resp  = ConnectionResponse::accept(&sarah, &req, "Sarah").unwrap();
    assert!(resp.verify().is_ok());
}

#[test]
fn test_accept_empty_name_rejected() {
    let omar  = kp();
    let sarah = kp();
    let req   = ConnectionRequest::new(&omar, &sarah.public, "Omar", "hi").unwrap();
    assert_eq!(
        ConnectionResponse::accept(&sarah, &req, ""),
        Err(ConnectionError::InvalidDisplayName)
    );
}

#[test]
fn test_decline_is_silent() {
    let resp = ConnectionResponse::Declined;
    assert_eq!(resp, ConnectionResponse::Declined);
    assert!(resp.verify().is_ok()); // nothing to verify
}

// PendingRequests queue

#[test]
fn test_receive_valid_request() {
    let omar  = kp();
    let sarah = kp();
    let req   = ConnectionRequest::new(&omar, &sarah.public, "Omar", "hi").unwrap();
    let mut pending = PendingRequests::new();
    assert!(pending.receive(req).is_ok());
    assert_eq!(pending.count(), 1);
}

#[test]
fn test_receive_tampered_request_rejected() {
    let omar  = kp();
    let sarah = kp();
    let mut req = ConnectionRequest::new(&omar, &sarah.public, "Omar", "hi").unwrap();
    req.signature[0] ^= 0xFF;
    let mut pending = PendingRequests::new();
    assert_eq!(pending.receive(req), Err(ConnectionError::InvalidSignature));
    assert_eq!(pending.count(), 0);
}

#[test]
fn test_rate_limit_blocks_second_request() {
    let omar  = kp();
    let sarah = kp();
    let req1  = ConnectionRequest::new(&omar, &sarah.public, "Omar", "hi").unwrap();
    let req2  = ConnectionRequest::new(&omar, &sarah.public, "Omar", "hi again").unwrap();
    let mut pending = PendingRequests::new();
    pending.receive(req1).unwrap();
    assert_eq!(pending.receive(req2), Err(ConnectionError::RateLimited));
}

#[test]
fn test_has_request_from() {
    let omar  = kp();
    let sarah = kp();
    let req   = ConnectionRequest::new(&omar, &sarah.public, "Omar", "hi").unwrap();
    let mut pending = PendingRequests::new();
    assert!(!pending.has_request_from(&omar.public));
    pending.receive(req).unwrap();
    assert!(pending.has_request_from(&omar.public));
}

#[test]
fn test_accept_adds_to_contacts() {
    let omar     = kp();
    let sarah    = kp();
    let req      = ConnectionRequest::new(&omar, &sarah.public, "Omar", "hi").unwrap();
    let mut pending  = PendingRequests::new();
    let mut contacts = ContactBook::new();
    pending.receive(req).unwrap();
    let resp = pending.accept(&omar.public, &sarah, "Sarah", &mut contacts).unwrap();
    assert!(resp.verify().is_ok());
    assert!(contacts.is_trusted(&omar.public));
    assert_eq!(pending.count(), 0);
}

#[test]
fn test_accept_unknown_request_fails() {
    let omar     = kp();
    let sarah    = kp();
    let mut pending  = PendingRequests::new();
    let mut contacts = ContactBook::new();
    assert_eq!(
        pending.accept(&omar.public, &sarah, "Sarah", &mut contacts),
        Err(ConnectionError::RequestNotFound)
    );
}

#[test]
fn test_decline_removes_request() {
    let omar  = kp();
    let sarah = kp();
    let req   = ConnectionRequest::new(&omar, &sarah.public, "Omar", "hi").unwrap();
    let mut pending = PendingRequests::new();
    pending.receive(req).unwrap();
    pending.decline(&omar.public).unwrap();
    assert_eq!(pending.count(), 0);
    assert!(!pending.has_request_from(&omar.public));
}

#[test]
fn test_decline_unknown_fails() {
    let omar    = kp();
    let mut pending = PendingRequests::new();
    assert_eq!(
        pending.decline(&omar.public),
        Err(ConnectionError::RequestNotFound)
    );
}

#[test]
fn connection_test_gc_removes_nothing_when_fresh() {
    let omar  = kp();
    let sarah = kp();
    let req   = ConnectionRequest::new(&omar, &sarah.public, "Omar", "hi").unwrap();
    let mut pending = PendingRequests::new();
    pending.receive(req).unwrap();
    pending.gc();
    assert_eq!(pending.count(), 1);
}

#[test]
fn test_full_handshake() {
    // Complete flow: request -> receive -> accept -> both have contact
    let omar     = kp();
    let sarah    = kp();
    let mut omar_contacts   = ContactBook::new();
    let mut sarah_contacts  = ContactBook::new();
    let mut sarah_pending   = PendingRequests::new();

    // Omar sends request
    let req = ConnectionRequest::new(&omar, &sarah.public, "Omar", "Hey Sarah!").unwrap();

    // Sarah receives it
    sarah_pending.receive(req).unwrap();
    assert!(sarah_pending.has_request_from(&omar.public));

    // Sarah accepts
    let resp = sarah_pending
        .accept(&omar.public, &sarah, "Sarah", &mut sarah_contacts)
        .unwrap();
    assert!(resp.verify().is_ok());
    assert!(sarah_contacts.is_trusted(&omar.public));

    // Omar receives Accept and adds Sarah
    if let ConnectionResponse::Accepted { ref responder_key, ref display_name, .. } = resp {
        resp.verify().unwrap();
        let contact = Contact::new(display_name, responder_key.clone());
        omar_contacts.add_in_memory(contact);
    }
    assert!(omar_contacts.is_trusted(&sarah.public));
}

#[test]
fn test_all_returns_sorted_by_timestamp() {
    let requester1 = kp();
    let requester2 = kp();
    let target     = kp();
    let req1 = ConnectionRequest::new(&requester1, &target.public, "Alice", "hi").unwrap();
    let req2 = ConnectionRequest::new(&requester2, &target.public, "Bob",   "hi").unwrap();
    let mut pending = PendingRequests::new();
    pending.receive(req1).unwrap();
    pending.last_request.clear();
    pending.receive(req2).unwrap();
    let all = pending.all();
    assert_eq!(all.len(), 2);
}

#[test]
fn error_messages() {
    assert_eq!(ConnectionError::MessageTooLong.message(), "message too long (max 140 chars)");
    assert_eq!(ConnectionError::RequestNotFound.message(), "request not found");
    assert_eq!(ConnectionError::RateLimited.message(), "rate limited -- one request per hour");
}

#[test]
fn request_fields_at_fixed_time() {
    let omar = kp();
    let sarah = kp();
    let req = ConnectionRequest::new_at(&omar, &sarah.public, "  Omar ", " hi ", 1000).unwrap();
    assert_eq!(req.display_name, "Omar");
    assert_eq!(req.message, "hi");
    assert_eq!(req.timestamp, 1000);
    assert_eq!(req.expires_at, 1000 + 86400);
    assert_eq!(req.signature.len(), 64);
    assert!(req.verify_at(1000 + 86400).is_ok());
    assert_eq!(req.verify_at(1000 + 86401), Err(ConnectionError::Expired));
    assert!(req.is_expired_at(1000 + 86401));
}

#[test]
fn message_of_exactly_140_bytes_is_accepted() {
    let omar = kp();
    let sarah = kp();
    assert!(ConnectionRequest::new_at(&omar, &sarah.public, "Omar", &"y".repeat(140), 5).is_ok());
}

#[test]
fn rate_limit_lifts_after_an_hour() {
    let omar = kp();
    let sarah = kp();
    let req1 = ConnectionRequest::new_at(&omar, &sarah.public, "Omar", "a", 100).unwrap();
    let req2 = ConnectionRequest::new_at(&omar, &sarah.public, "Omar", "b", 100).unwrap();
    let req3 = ConnectionRequest::new_at(&omar, &sarah.public, "Omar", "c", 100).unwrap();
    let mut pending = PendingRequests::new();
    pending.receive_at(req1, 100).unwrap();
    assert_eq!(pending.receive_at(req2, 100 + 3599), Err(ConnectionError::RateLimited));
    assert!(pending.receive_at(req3, 100 + 3600).is_ok());
    assert_eq!(pending.count(), 1);
    assert_eq!(pending.all()[0].message, "c");
}

#[test]
fn full_queue_drops_oldest() {
    let target = kp();
    let mut pending = PendingRequests::new();
    let first = kp();
    let req = ConnectionRequest::new_at(&first, &target.public, "First", "", 10).unwrap();
    pending.receive_at(req, 10).unwrap();
    for i in 0..49u64 {
        let k = kp();
        let req = ConnectionRequest::new_at(&k, &target.public, "N", "", 20 + i).unwrap();
        pending.receive_at(req, 20 + i).unwrap();
    }
    assert_eq!(pending.count(), 50);
    let late = kp();
    let req = ConnectionRequest::new_at(&late, &target.public, "Late", "", 100).unwrap();
    pending.receive_at(req, 100).unwrap();
    assert_eq!(pending.count(), 50);
    assert!(!pending.has_request_from(&first.public));
    assert!(pending.has_request_from(&late.public));
}

#[test]
fn gc_at_drops_expired() {
    let omar = kp();
    let sarah = kp();
    let req = ConnectionRequest::new_at(&omar, &sarah.public, "Omar", "hi", 0).unwrap();
    let mut pending = PendingRequests::new();
    pending.receive_at(req, 0).unwrap();
    pending.gc_at(86400);
    assert_eq!(pending.count(), 1);
    pending.gc_at(86401);
    assert_eq!(pending.count(), 0);
}

#[test]
fn all_orders_by_timestamp() {
    let target = kp();
    let a = kp();
    let b = kp();
    let mut pending = PendingRequests::new();
    pending.receive_at(ConnectionRequest::new_at(&a, &target.public, "A", "", 50).unwrap(), 50).unwrap();
    pending.receive_at(ConnectionRequest::new_at(&b, &target.public, "B", "", 40).unwrap(), 50).unwrap();
    let all = pending.all();
    assert_eq!(all[0].display_name, "B");
    assert_eq!(all[1].display_name, "A");
}

#[test]
fn accept_refused_for_blank_name_still_dequeues() {
    let omar = kp();
    let sarah = kp();
    let req = ConnectionRequest::new_at(&omar, &sarah.public, "Omar", "hi", 7).unwrap();
    let mut pending = PendingRequests::new();
    let mut contacts = ContactBook::new();
    pending.receive_at(req, 7).unwrap();
    assert_eq!(
        pending.accept_at(&omar.public, &sarah, " ", &mut contacts, 8),
        Err(ConnectionError::InvalidDisplayName)
    );
    assert_eq!(pending.count(), 0);
    assert!(contacts.is_trusted(&omar.public));
    assert_eq!(contacts.find(&omar.public).unwrap().added_at, 8);
}

#[test]
fn add_in_memory_keeps_existing() {
    let omar = kp();
    let mut book = ContactBook::new();
    book.add_in_memory(Contact::new_at("first", omar.public.clone(), 1));
    book.add_in_memory(Contact::new_at("second", omar.public.clone(), 2));
    assert_eq!(book.count(), 1);
    assert_eq!(book.find(&omar.public).unwrap().name, "first");
}
