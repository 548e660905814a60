use theos::message_store::{MessageEncryptor, MessageStore, StoredDelivery, StoredMessage, DEFAULT_DB_PATH};

fn key() -> [u8; 32] { [0xAAu8; 32] }
fn store() -> MessageStore { MessageStore::new_memory(&key()) }
const CONV: &str = "aabbccdd";
const CONV2: &str = "eeff0011";

// MessageEncryptor

#[test]
fn test_encrypt_decrypt_roundtrip() {
    let e = MessageEncryptor::new(&key());
    let pt = b"Hello, satellite world!";
    let ct = e.encrypt(pt, 0);
    assert_ne!(ct[..pt.len()], *pt); // encrypted != plaintext
    let dec = e.decrypt(&ct, 0).unwrap();
    assert_eq!(dec, pt);
}

#[test]
fn test_encrypt_counter_affects_output() {
    let e = MessageEncryptor::new(&key());
    let pt = b"same message";
    let ct0 = e.encrypt(pt, 0);
    let ct1 = e.encrypt(pt, 1);
    assert_ne!(ct0, ct1);
}

#[test]
fn test_decrypt_too_short_returns_none() {
    let e = MessageEncryptor::new(&key());
    assert!(e.decrypt(&[0u8; 10], 0).is_none());
}

#[test]
fn test_different_keys_different_ciphertext() {
    let e1 = MessageEncryptor::new(&[0xAAu8; 32]);
    let e2 = MessageEncryptor::new(&[0xBBu8; 32]);
    let pt = b"test";
    assert_ne!(e1.encrypt(pt, 0), e2.encrypt(pt, 0));
}

// StoredDelivery

#[test]
fn test_delivery_roundtrip() {
    for d in [StoredDelivery::Sending, StoredDelivery::Sent,
              StoredDelivery::Delivered, StoredDelivery::Read, StoredDelivery::Failed] {
        assert_eq!(StoredDelivery::from_u8(d.as_u8()), d);
    }
}

#[test]
fn test_delivery_labels() {
    assert_eq!(StoredDelivery::Sent.label(), "sent");
    assert_eq!(StoredDelivery::Read.label(), "read");
    assert_eq!(StoredDelivery::Failed.label(), "failed");
}

// MessageStore

#[test]
fn test_store_starts_empty() {
    let s = store();
    assert_eq!(s.message_count(), 0);
    assert_eq!(s.conversation_count(), 0);
}

#[test]
fn test_store_message() {
    let mut s = store();
    let id = s.store_message(CONV, true, b"Hello Sarah");
    assert_eq!(id, 1);
    assert_eq!(s.message_count(), 1);
}

#[test]
fn test_message_creates_conversation() {
    let mut s = store();
    s.store_message(CONV, true, b"Hello");
    assert_eq!(s.conversation_count(), 1);
    assert!(s.conversation(CONV).is_some());
}

#[test]
fn test_retrieve_and_decrypt() {
    let mut s = store();
    s.store_message(CONV, true, b"Hey Sarah!");
    let msgs = s.messages_for(CONV, 10);
    assert_eq!(msgs.len(), 1);
    assert_eq!(msgs[0].2, b"Hey Sarah!");
    assert!(msgs[0].1); // from_me
}

#[test]
fn test_multiple_messages_ordered() {
    let mut s = store();
    s.store_message(CONV, true,  b"first");
    s.store_message(CONV, false, b"second");
    s.store_message(CONV, true,  b"third");
    let msgs = s.messages_for(CONV, 10);
    assert_eq!(msgs.len(), 3);
    assert_eq!(msgs[0].2, b"first");
    assert_eq!(msgs[2].2, b"third");
}

#[test]
fn test_limit_respected() {
    let mut s = store();
    for i in 0..10u8 {
        s.store_message(CONV, true, &[i]);
    }
    let msgs = s.messages_for(CONV, 3);
    assert_eq!(msgs.len(), 3);
}

#[test]
fn test_separate_conversations() {
    let mut s = store();
    s.store_message(CONV,  true, b"to sarah");
    s.store_message(CONV2, true, b"to marcus");
    assert_eq!(s.messages_for(CONV, 10).len(), 1);
    assert_eq!(s.messages_for(CONV2, 10).len(), 1);
    assert_eq!(s.conversation_count(), 2);
}

#[test]
fn test_update_delivery() {
    let mut s = store();
    let id = s.store_message(CONV, true, b"hello");
    assert!(s.update_delivery(id, StoredDelivery::Sent));
    let msgs = s.messages_for(CONV, 10);
    assert_eq!(msgs[0].4, StoredDelivery::Sent);
}

#[test]
fn test_update_delivery_nonexistent() {
    let mut s = store();
    assert!(!s.update_delivery(999, StoredDelivery::Read));
}

#[test]
fn test_unread_count_increments_on_incoming() {
    let mut s = store();
    s.store_message(CONV, false, b"incoming 1");
    s.store_message(CONV, false, b"incoming 2");
    s.store_message(CONV, true,  b"outgoing"); // doesn't count
    assert_eq!(s.conversation(CONV).unwrap().unread_count, 2);
}

#[test]
fn message_store_test_mark_read_clears_unread() {
    let mut s = store();
    s.store_message(CONV, false, b"msg1");
    s.store_message(CONV, false, b"msg2");
    let id1 = 1u64;
    s.update_delivery(id1, StoredDelivery::Delivered);
    s.update_delivery(id1+1, StoredDelivery::Delivered);
    s.mark_read(CONV);
    assert_eq!(s.conversation(CONV).unwrap().unread_count, 0);
}

#[test]
fn message_store_test_total_unread() {
    let mut s = store();
    s.store_message(CONV,  false, b"1");
    s.store_message(CONV2, false, b"2");
    assert_eq!(s.total_unread(), 2);
}

#[test]
fn test_delete_conversation() {
    let mut s = store();
    s.store_message(CONV, true, b"msg1");
    s.store_message(CONV, true, b"msg2");
    s.store_message(CONV2, true, b"other");
    let deleted = s.delete_conversation(CONV);
    assert_eq!(deleted, 2);
    assert_eq!(s.message_count(), 1);
    assert!(s.conversation(CONV).is_none());
}

#[test]
fn test_gc_keeps_recent_messages() {
    let mut s = store();
    s.store_message(CONV, true, b"recent");
    let deleted = s.gc();
    assert_eq!(deleted, 0);
    assert_eq!(s.message_count(), 1);
}

#[test]
fn test_message_ids_monotonic() {
    let mut s = store();
    let id1 = s.store_message(CONV, true, b"a");
    let id2 = s.store_message(CONV, true, b"b");
    let id3 = s.store_message(CONV, true, b"c");
    assert!(id1 < id2 && id2 < id3);
}

#[test]
fn test_empty_conversation_messages() {
    let s = store();
    let msgs = s.messages_for("nonexistent", 10);
    assert!(msgs.is_empty());
}

#[test]
fn test_counter_increments_per_message() {
    let mut s = store();
    s.store_message(CONV, true, b"msg1");
    s.store_message(CONV, true, b"msg2");
    // Each message should decrypt correctly (different counters)
    let msgs = s.messages_for(CONV, 10);
    assert_eq!(msgs[0].2, b"msg1");
    assert_eq!(msgs[1].2, b"msg2");
}

#[test]
fn test_db_path_constant() {
    assert!(DEFAULT_DB_PATH.contains("theos"));
    assert!(DEFAULT_DB_PATH.ends_with(".db"));
}

#[test]
fn test_conversations_sorted_by_recency() {
    let mut s = store();
    s.store_message(CONV, true, b"old");
    // Force CONV2 to be newer by nudging its timestamp
    s.store_message(CONV2, true, b"new");
    let at = s.conversation(CONV2).unwrap().last_message_at;
    assert!(s.set_last_message_at(CONV2, at + 1));
    let sorted = s.conversations_sorted();
    assert_eq!(sorted[0].contact_key_hex, CONV2);
}

#[test]
fn test_gc_removes_old_messages() {
    let mut s = store();
    // Manually inject old message
    let mut msg = StoredMessage::new(CONV.to_string(), true, vec![0x01], 0);
    msg.id = 999;
    msg.timestamp = 0; // epoch -- very old
    s.restore_message(msg);
    s.store_message(CONV, true, b"recent");
    let deleted = s.gc();
    assert_eq!(deleted, 1);
    assert_eq!(s.message_count(), 1);
}

#[test]
fn stored_contents_read_back_in_order() {
    let mut s = store();
    for i in 0..10u8 {
        s.store_message(CONV, true, &[i]);
    }
    let rows = s.messages_for(CONV, 3);
    assert_eq!(rows.len(), 3);
    let contents: Vec<Vec<u8>> = rows.iter().map(|r| r.2.clone()).collect();
    assert_eq!(contents, vec![vec![7u8], vec![8u8], vec![9u8]]);
    let ids: Vec<u64> = rows.iter().map(|r| r.0).collect();
    assert_eq!(ids, vec![8, 9, 10]);
}

#[test]
fn sealed_content_is_sixteen_bytes_longer() {
    let e = MessageEncryptor::new(&[3u8; 32]);
    let ct = e.encrypt(b"counter-bound", 0);
    assert_eq!(ct.len(), b"counter-bound".len() + 16);
    assert_eq!(e.decrypt(&[0u8; 10], 0), None);
    assert_eq!(e.decrypt(&ct, 0), Some(b"counter-bound".to_vec()));
}
