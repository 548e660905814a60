use theos::identity::keypair::{IdentityKey, KeyPair};
use theos::messenger::{Conversation, ConversationList, DeliveryState, Message, MessengerError};

fn key() -> IdentityKey { KeyPair::generate().public }

// DeliveryState

#[test]
fn test_delivery_state_labels() {
    assert_eq!(DeliveryState::Sending.label(),   "sending");
    assert_eq!(DeliveryState::Sent.label(),      "sent");
    assert_eq!(DeliveryState::Delivered.label(), "delivered");
    assert_eq!(DeliveryState::Read.label(),      "read");
    assert_eq!(DeliveryState::Failed.label(),    "failed");
}

#[test]
fn test_delivery_state_icons() {
    assert_eq!(DeliveryState::Sent.icon(),      "v");
    assert_eq!(DeliveryState::Delivered.icon(), "vv");
    assert_eq!(DeliveryState::Read.icon(),      "VV");
}

// Message

#[test]
fn test_outgoing_message_created() {
    let msg = Message::outgoing(1, "hello".to_string()).unwrap();
    assert!(msg.from_me);
    assert_eq!(msg.state, DeliveryState::Sending);
    assert_eq!(msg.text, "hello");
}

#[test]
fn test_incoming_message_created() {
    let msg = Message::incoming(1, "hello".to_string()).unwrap();
    assert!(!msg.from_me);
    assert_eq!(msg.state, DeliveryState::Delivered);
}

#[test]
fn test_empty_message_rejected() {
    assert_eq!(Message::outgoing(1, "".to_string()), Err(MessengerError::EmptyMessage));
    assert_eq!(Message::outgoing(1, "   ".to_string()), Err(MessengerError::EmptyMessage));
}

#[test]
fn test_message_too_long_rejected() {
    let long = "x".repeat(4097);
    assert_eq!(Message::outgoing(1, long), Err(MessengerError::MessageTooLong));
}

#[test]
fn test_message_text_trimmed() {
    let msg = Message::outgoing(1, "  hello  ".to_string()).unwrap();
    assert_eq!(msg.text, "hello");
}

// Conversation

#[test]
fn test_send_message() {
    let mut conv = Conversation::new(key(), "Sarah".to_string());
    let id = conv.send("hi".to_string()).unwrap();
    assert_eq!(id, 1);
    assert_eq!(conv.message_count(), 1);
}

#[test]
fn test_receive_message_increments_unread() {
    let mut conv = Conversation::new(key(), "Sarah".to_string());
    conv.receive("hi".to_string()).unwrap();
    assert_eq!(conv.unread_count, 1);
    conv.receive("hey".to_string()).unwrap();
    assert_eq!(conv.unread_count, 2);
}

#[test]
fn messenger_test_mark_read_clears_unread() {
    let mut conv = Conversation::new(key(), "Sarah".to_string());
    conv.receive("hi".to_string()).unwrap();
    conv.receive("hey".to_string()).unwrap();
    conv.mark_read();
    assert_eq!(conv.unread_count, 0);
}

#[test]
fn test_mark_read_upgrades_delivered_to_read() {
    let mut conv = Conversation::new(key(), "Sarah".to_string());
    let id = conv.send("hi".to_string()).unwrap();
    conv.update_delivery(id, DeliveryState::Delivered).unwrap();
    conv.mark_read();
    let msg = conv.messages.iter().find(|m| m.id == id).unwrap();
    assert_eq!(msg.state, DeliveryState::Read);
}

#[test]
fn test_update_delivery_state() {
    let mut conv = Conversation::new(key(), "Sarah".to_string());
    let id = conv.send("hi".to_string()).unwrap();
    conv.update_delivery(id, DeliveryState::Sent).unwrap();
    let msg = conv.messages.iter().find(|m| m.id == id).unwrap();
    assert_eq!(msg.state, DeliveryState::Sent);
}

#[test]
fn test_update_delivery_unknown_id_fails() {
    let mut conv = Conversation::new(key(), "Sarah".to_string());
    assert_eq!(
        conv.update_delivery(99, DeliveryState::Sent),
        Err(MessengerError::MessageNotFound)
    );
}

#[test]
fn test_ids_increment() {
    let mut conv = Conversation::new(key(), "Sarah".to_string());
    let id1 = conv.send("hi".to_string()).unwrap();
    let id2 = conv.send("hey".to_string()).unwrap();
    assert_eq!(id1, 1);
    assert_eq!(id2, 2);
}

#[test]
fn test_preview_returns_last_message() {
    let mut conv = Conversation::new(key(), "Sarah".to_string());
    conv.send("first".to_string()).unwrap();
    conv.send("last".to_string()).unwrap();
    assert_eq!(conv.preview(), "last");
}

#[test]
fn test_preview_empty_when_no_messages() {
    let conv = Conversation::new(key(), "Sarah".to_string());
    assert_eq!(conv.preview(), "");
}

#[test]
fn test_typing_indicator_set() {
    let mut conv = Conversation::new(key(), "Sarah".to_string());
    assert!(!conv.typing);
    conv.set_typing(true);
    assert!(conv.typing);
    conv.set_typing(false);
    assert!(!conv.typing);
}

#[test]
fn test_receive_clears_typing() {
    let mut conv = Conversation::new(key(), "Sarah".to_string());
    conv.set_typing(true);
    conv.receive("hi".to_string()).unwrap();
    assert!(!conv.typing);
}

// ConversationList

#[test]
fn test_get_or_create() {
    let mut list = ConversationList::new();
    let k = key();
    list.get_or_create(k.clone(), "Sarah");
    assert_eq!(list.count(), 1);
    list.get_or_create(k.clone(), "Sarah"); // same key -- no duplicate
    assert_eq!(list.count(), 1);
}

#[test]
fn messenger_test_total_unread() {
    let mut list = ConversationList::new();
    let k1 = key();
    let k2 = key();
    list.get_or_create(k1.clone(), "Sarah").receive("hi".to_string()).unwrap();
    list.get_or_create(k2.clone(), "Marcus").receive("hey".to_string()).unwrap();
    list.get_or_create(k2.clone(), "Marcus").receive("yo".to_string()).unwrap();
    assert_eq!(list.total_unread(), 3);
}

#[test]
fn test_sorted_by_recency() {
    let mut list = ConversationList::new();
    let k1 = key();
    let k2 = key();
    list.get_or_create(k1.clone(), "Sarah").send("hi".to_string()).unwrap();
    list.get_or_create(k2.clone(), "Marcus").send("hey".to_string()).unwrap();
    let sorted = list.sorted();
    assert_eq!(sorted.len(), 2);
    // Most recent first
    assert!(sorted[0].last_timestamp() >= sorted[1].last_timestamp());
}
