use theos::ai_fallback::{FallbackIntentParser, Intent};

#[test]
fn test_call_intent() {
    let intent = Intent::from_heuristic("call alice");
    assert_eq!(intent, Intent::Call { contact: "alice".to_string() });
}

#[test]
fn test_message_intent() {
    let intent = Intent::from_heuristic("message bob hello there");
    assert_eq!(
        intent,
        Intent::Message { contact: "bob".to_string(), text: "hello there".to_string() }
    );
}

#[test]
fn test_call_status() {
    let intent = Intent::from_heuristic("what's my call status");
    assert_eq!(intent, Intent::CallStatus);
}

#[test]
fn test_unknown() {
    let intent = Intent::from_heuristic("random words here");
    assert!(matches!(intent, Intent::Unknown { .. }));
}

#[test]
fn call_prefix_is_case_insensitive_and_trimmed() {
    let intent = Intent::from_heuristic("CALL   Alice Smith  ");
    assert_eq!(intent, Intent::Call { contact: "Alice Smith".to_string() });
}

#[test]
fn text_prefix_collapses_whitespace() {
    let intent = Intent::from_heuristic("text  carol   see  you ");
    assert_eq!(
        intent,
        Intent::Message { contact: "carol".to_string(), text: "see you".to_string() }
    );
}

#[test]
fn message_status_question() {
    assert_eq!(Intent::from_heuristic("any message status?"), Intent::MessageStatus);
}

#[test]
fn status_without_topic_is_unknown() {
    assert_eq!(
        Intent::from_heuristic("status"),
        Intent::Unknown { raw: "status".to_string() }
    );
}

#[test]
fn labels() {
    assert_eq!(Intent::CallStatus.label(), "call_status");
    assert_eq!(Intent::MessageStatus.label(), "message_status");
    assert_eq!(Intent::Call { contact: "a".to_string() }.label(), "call");
    assert_eq!(Intent::Unknown { raw: String::new() }.label(), "unknown");
}

#[test]
fn parser_matches_heuristic() {
    assert_eq!(FallbackIntentParser::parse("call bob"), Intent::from_heuristic("call bob"));
}

#[test]
fn try_from_heuristic_accepts_plain_input() {
    assert_eq!(
        Intent::try_from_heuristic("call dave"),
        Some(Intent::Call { contact: "dave".to_string() })
    );
}
