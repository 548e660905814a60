use theos::ipc_protocol::{CallState, IpcFrame};

#[test]
fn call_state_names_round_trip() {
    for s in [
        CallState::Idle,
        CallState::Calling,
        CallState::Ringing,
        CallState::Active,
        CallState::Ended,
        CallState::Failed,
    ] {
        assert_eq!(CallState::from_str(s.as_str()), s);
    }
}

#[test]
fn call_state_exact_names() {
    assert_eq!(CallState::Calling.as_str(), "calling");
    assert_eq!(CallState::Failed.as_str(), "failed");
    assert_eq!(CallState::Idle.as_str(), "idle");
}

#[test]
fn unknown_call_state_is_idle() {
    assert_eq!(CallState::from_str("ACTIVE"), CallState::Idle);
    assert_eq!(CallState::from_str(""), CallState::Idle);
}

#[test]
fn frame_has_le_length_prefix() {
    let frame = IpcFrame::encode_payload(b"{\"type\":\"HangupCall\"}");
    assert_eq!(&frame[..4], &[21, 0, 0, 0]);
    assert_eq!(&frame[4..], b"{\"type\":\"HangupCall\"}");
}

#[test]
fn frame_round_trip_with_trailing_bytes() {
    let mut frame = IpcFrame::encode_payload(b"hello");
    let n = frame.len();
    frame.extend_from_slice(b"next");
    let (payload, consumed) = IpcFrame::decode_payload(&frame).unwrap();
    assert_eq!(payload, b"hello".to_vec());
    assert_eq!(consumed, n);
}

#[test]
fn partial_frame_is_none() {
    assert!(IpcFrame::decode_payload(&[1, 0, 0]).is_none());
    assert!(IpcFrame::decode_payload(&[5, 0, 0, 0, b'a', b'b']).is_none());
}

#[test]
fn empty_payload_frame() {
    let frame = IpcFrame::encode_payload(&[]);
    assert_eq!(frame, vec![0, 0, 0, 0]);
    assert_eq!(IpcFrame::decode_payload(&frame), Some((vec![], 4)));
}
