use theos::wake_word::{contains_wake_word, strip_wake_word, try_strip_wake_word, WakeEngine, WakeState};

fn engine() -> WakeEngine { WakeEngine::new() }

#[test] fn test_starts_sleeping() { assert!(engine().state.is_sleeping()); }
#[test] fn test_labels() {
    assert_eq!(WakeState::Sleeping.label(), "sleeping");
    assert_eq!(WakeState::Listening { started_at: 0 }.label(), "listening");
    assert_eq!(WakeState::Processing { command: "x".to_string() }.label(), "processing");
    assert_eq!(WakeState::Responding.label(), "responding");
}
#[test] fn test_sleeping_not_active() { assert!(!WakeState::Sleeping.is_active()); }
#[test] fn test_listening_is_active() { assert!(WakeState::Listening { started_at: 0 }.is_active()); }
#[test] fn test_wake_transitions_to_listening() {
    let mut e = engine(); e.on_wake_detected(); assert!(e.state.is_listening());
}
#[test] fn test_wake_increments_counter() {
    let mut e = engine(); e.on_wake_detected(); assert_eq!(e.total_wakes, 1);
}
#[test] fn test_double_wake_ignored() {
    let mut e = engine(); e.on_wake_detected(); e.on_wake_detected(); assert_eq!(e.total_wakes, 1);
}
#[test] fn test_command_to_processing() {
    let mut e = engine(); e.on_wake_detected();
    e.on_command_received("hey os message sarah".to_string());
    assert!(e.state.is_processing());
}
#[test] fn test_command_stripped() {
    let mut e = engine(); e.on_wake_detected();
    e.on_command_received("hey os message sarah".to_string());
    assert_eq!(e.current_command(), Some("message sarah"));
}
#[test] fn test_empty_command_sleeps() {
    let mut e = engine(); e.on_wake_detected();
    e.on_command_received("hey os".to_string());
    assert!(e.state.is_sleeping()); assert_eq!(e.false_wakes, 1);
}
#[test] fn test_executed_to_responding() {
    let mut e = engine(); e.on_wake_detected();
    e.on_command_received("call marcus".to_string());
    e.on_command_executed(); assert!(e.state.is_responding());
}
#[test] fn test_response_complete_to_sleep() {
    let mut e = engine(); e.on_wake_detected();
    e.on_command_received("call marcus".to_string());
    e.on_command_executed(); e.on_response_complete();
    assert!(e.state.is_sleeping());
}
#[test] fn test_history_records() {
    let mut e = engine(); e.on_wake_detected();
    e.on_command_received("hey os message sarah".to_string());
    assert_eq!(e.command_count(), 1);
    assert_eq!(e.history.back().unwrap().stripped, "message sarah");
}
#[test] fn wake_word_test_force_sleep() {
    let mut e = engine(); e.on_wake_detected(); e.force_sleep();
    assert!(e.state.is_sleeping());
}
#[test] fn test_recent_commands() {
    let mut e = engine();
    for cmd in &["call marcus", "message sarah", "satellite status"] {
        e.on_wake_detected();
        e.on_command_received(cmd.to_string());
        e.on_command_executed();
        e.on_response_complete();
    }
    let recent = e.recent_commands(2);
    assert_eq!(recent.len(), 2);
    assert_eq!(recent[0].stripped, "satellite status");
}
#[test] fn test_strip_hey_os() {
    assert_eq!(strip_wake_word("hey os message sarah"), "message sarah");
}
#[test] fn test_strip_with_comma() {
    assert_eq!(strip_wake_word("hey os, call marcus"), "call marcus");
}
#[test] fn test_strip_wake_up() {
    assert_eq!(strip_wake_word("wake up"), "");
}
#[test] fn test_strip_passthrough() {
    assert_eq!(strip_wake_word("message sarah"), "message sarah");
}
#[test] fn test_strip_hey_theos() {
    assert_eq!(strip_wake_word("hey theos open instagram"), "open instagram");
}
#[test] fn test_strip_case_insensitive() {
    assert_eq!(strip_wake_word("HEY OS call marcus"), "call marcus");
}
#[test] fn test_contains_wake_word_true() {
    assert!(contains_wake_word("hey os what time is it"));
}
#[test] fn test_contains_wake_word_false() {
    assert!(!contains_wake_word("what time is it"));
}
#[test] fn test_full_flow() {
    let mut e = engine();
    assert!(e.state.is_sleeping());
    e.on_wake_detected();
    assert!(e.state.is_listening());
    e.on_command_received("hey os, satellite status".to_string());
    assert_eq!(e.current_command(), Some("satellite status"));
    e.on_command_executed();
    assert!(e.state.is_responding());
    e.on_response_complete();
    assert!(e.state.is_sleeping());
    assert_eq!(e.total_wakes, 1);
    assert_eq!(e.false_wakes, 0);
}

#[test]
fn try_strip_cuts_where_it_can() {
    assert_eq!(try_strip_wake_word("Hey OS, call mom"), Some("call mom".to_string()));
    assert_eq!(try_strip_wake_word("  play music "), Some("play music".to_string()));
}
