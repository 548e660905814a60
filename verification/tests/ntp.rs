use theos::ntp::{age_secs_at, needs_sync_at, state_on_unreachable, ClockState, NtpTimestamp, NTP_EPOCH_OFFSET, NTP_SERVERS, QUERY_TIMEOUT_MS};

#[test] fn test_clock_state_labels() {
    assert_eq!(ClockState::Unsynced.label(),  "unsynced");
    assert_eq!(ClockState::Synced.label(),    "synced");
    assert_eq!(ClockState::Estimated.label(), "estimated");
}

#[test] fn test_synced_is_reliable() {
    assert!(ClockState::Synced.is_reliable());
    assert!(!ClockState::Estimated.is_reliable());
    assert!(!ClockState::Unsynced.is_reliable());
}

#[test] fn test_replay_window_synced() {
    assert_eq!(ClockState::Synced.replay_window_secs(), 30);
}

#[test] fn test_replay_window_estimated_wider() {
    assert!(ClockState::Estimated.replay_window_secs() > ClockState::Synced.replay_window_secs());
}

#[test] fn test_ntp_timestamp_from_bytes() {
    let bytes = [0x00, 0x00, 0x00, 0x01, 0x00, 0x00, 0x00, 0x00];
    let ts = NtpTimestamp::from_bytes(&bytes);
    assert_eq!(ts.seconds, 1);
    assert_eq!(ts.fraction, 0);
}

#[test] fn test_ntp_epoch_offset_constant() {
    // 70 years in seconds between 1900 and 1970
    assert_eq!(NTP_EPOCH_OFFSET, 2_208_988_800);
}

#[test] fn test_servers_list_nonempty() {
    assert!(!NTP_SERVERS.is_empty());
}

#[test] fn test_query_timeout_constant() {
    assert!(QUERY_TIMEOUT_MS >= 1000);
}

#[test] fn ntp_timestamp_big_endian_words() {
    let bytes = [0x83, 0xAA, 0x7E, 0x80, 0x00, 0x00, 0x01, 0x00, 0xFF];
    let ts = NtpTimestamp::from_bytes(&bytes);
    assert_eq!(ts.seconds, 0x83AA_7E80);
    assert_eq!(ts.fraction, 0x100);
}

#[test]
fn sync_due_when_never_synced_or_an_hour_old() {
    assert!(needs_sync_at(None, 5));
    assert!(!needs_sync_at(Some(1_000), 1_000 + 3_599));
    assert!(needs_sync_at(Some(1_000), 1_000 + 3_600));
    assert!(!needs_sync_at(Some(2_000), 1_000));
}

#[test]
fn age_since_last_sync() {
    assert_eq!(age_secs_at(None, 7), u64::MAX);
    assert_eq!(age_secs_at(Some(100), 160), 60);
    assert_eq!(age_secs_at(Some(200), 160), 0);
}

#[test]
fn unreachable_servers_make_the_clock_estimated() {
    assert_eq!(state_on_unreachable(ClockState::Unsynced), (ClockState::Estimated, true));
    assert_eq!(state_on_unreachable(ClockState::Synced), (ClockState::Estimated, false));
    assert_eq!(state_on_unreachable(ClockState::Estimated), (ClockState::Estimated, false));
}
