use theos::camera::{CameraCapture, CameraIntent, CameraLens, CameraSession, CameraState};
use theos::identity::keypair::KeyPair;


fn kp() -> KeyPair { KeyPair::generate() }

// CameraState

#[test]
fn test_idle_is_ready() {
    assert!(CameraState::Idle.is_ready());
}

#[test]
fn test_other_states_not_ready() {
    assert!(!CameraState::Unavailable.is_ready());
    assert!(!CameraState::Capturing.is_ready());
    assert!(!CameraState::Processing.is_ready());
    assert!(!CameraState::Saved.is_ready());
    assert!(!CameraState::Error("oops".to_string()).is_ready());
}

#[test]
fn camera_test_state_labels() {
    assert_eq!(CameraState::Idle.label(),        "ready");
    assert_eq!(CameraState::Capturing.label(),   "capturing");
    assert_eq!(CameraState::Processing.label(),  "processing");
    assert_eq!(CameraState::Saved.label(),       "saved");
    assert_eq!(CameraState::Unavailable.label(), "unavailable");
}

// CameraIntent parsing

#[test]
fn test_intent_take_photo() {
    assert_eq!(
        CameraIntent::parse("take a photo"),
        CameraIntent::Capture { lens: CameraLens::Main }
    );
}

#[test]
fn test_intent_picture() {
    assert_eq!(
        CameraIntent::parse("take a picture"),
        CameraIntent::Capture { lens: CameraLens::Main }
    );
}

#[test]
fn test_intent_camera() {
    assert_eq!(
        CameraIntent::parse("open camera"),
        CameraIntent::Capture { lens: CameraLens::Main }
    );
}

#[test]
fn test_intent_snap() {
    assert_eq!(
        CameraIntent::parse("snap a shot"),
        CameraIntent::Capture { lens: CameraLens::Main }
    );
}

#[test]
fn test_intent_telephoto() {
    assert_eq!(
        CameraIntent::parse("take a photo with zoom"),
        CameraIntent::Capture { lens: CameraLens::Telephoto }
    );
}

#[test]
fn test_intent_selfie() {
    assert_eq!(CameraIntent::parse("take a selfie"), CameraIntent::Selfie);
    assert_eq!(CameraIntent::parse("front camera"),  CameraIntent::Selfie);
}

#[test]
fn test_intent_gallery() {
    assert_eq!(CameraIntent::parse("open gallery"), CameraIntent::Gallery);
    assert_eq!(CameraIntent::parse("show my photos"), CameraIntent::Gallery);
}

#[test]
fn test_intent_capture_and_send() {
    let intent = CameraIntent::parse("take a photo and send to Sarah");
    assert!(matches!(intent, CameraIntent::CaptureAndSend { .. }));
    if let CameraIntent::CaptureAndSend { contact_name, .. } = intent {
        assert_eq!(contact_name, "sarah");
    }
}

#[test]
fn test_intent_share_with() {
    let intent = CameraIntent::parse("take a picture and share with Marcus");
    assert!(matches!(intent, CameraIntent::CaptureAndSend { .. }));
    if let CameraIntent::CaptureAndSend { contact_name, .. } = intent {
        assert_eq!(contact_name, "marcus");
    }
}

#[test]
fn test_intent_unknown() {
    assert_eq!(
        CameraIntent::parse("do something weird"),
        CameraIntent::Unknown { raw: "do something weird".to_string() }
    );
}

#[test]
fn test_intent_responses_non_empty() {
    let kp = kp();
    let key = kp.public.clone();
    let intents = vec![
        CameraIntent::Capture { lens: CameraLens::Main },
        CameraIntent::CaptureAndSend { lens: CameraLens::Main, contact_name: "Sarah".to_string() },
        CameraIntent::Selfie,
        CameraIntent::Gallery,
        CameraIntent::Unknown { raw: "weird".to_string() },
    ];
    for intent in intents {
        assert!(!intent.response().is_empty());
    }
}

// CameraCapture

#[test]
fn test_capture_creation() {
    let kp      = kp();
    let capture = CameraCapture::new(CameraLens::Main, 4032, 3024, &kp.public, &kp);
    assert!(!capture.id.is_empty());
    assert!(capture.storage_path.contains("/run/theos/photos"));
    assert_eq!(capture.width,  4032);
    assert_eq!(capture.height, 3024);
    assert_eq!(capture.sent_to.len(), 0);
}

#[test]
fn test_capture_signature_verifies() {
    let kp      = kp();
    let capture = CameraCapture::new(CameraLens::Main, 4032, 3024, &kp.public, &kp);
    assert!(capture.verify(&kp.public));
}

#[test]
fn test_capture_wrong_key_fails_verify() {
    let kp1     = kp();
    let kp2     = kp();
    let capture = CameraCapture::new(CameraLens::Main, 4032, 3024, &kp1.public, &kp1);
    assert!(!capture.verify(&kp2.public));
}

#[test]
fn test_capture_mark_sent() {
    let kp      = kp();
    let mut cap = CameraCapture::new(CameraLens::Main, 4032, 3024, &kp.public, &kp);
    assert!(!cap.was_sent_to("abc123"));
    cap.mark_sent_to("abc123".to_string());
    assert!(cap.was_sent_to("abc123"));
}

#[test]
fn test_capture_no_duplicate_sent() {
    let kp      = kp();
    let mut cap = CameraCapture::new(CameraLens::Main, 4032, 3024, &kp.public, &kp);
    cap.mark_sent_to("abc123".to_string());
    cap.mark_sent_to("abc123".to_string());
    assert_eq!(cap.sent_to.len(), 1);
}

// CameraSession

#[test]
fn test_session_starts_idle() {
    let kp      = kp();
    let session = CameraSession::new(kp.public.clone());
    assert_eq!(session.state, CameraState::Idle);
    assert_eq!(session.capture_count(), 0);
}

#[test]
fn test_session_capture_demo() {
    let kp          = kp();
    let mut session = CameraSession::new(kp.public.clone());
    let capture     = session.capture_demo(&kp);
    assert!(capture.is_some());
    assert_eq!(session.state, CameraState::Saved);
    assert_eq!(session.capture_count(), 1);
}

#[test]
fn test_session_reset_after_capture() {
    let kp          = kp();
    let mut session = CameraSession::new(kp.public.clone());
    session.capture_demo(&kp);
    session.reset();
    assert_eq!(session.state, CameraState::Idle);
}

#[test]
fn test_session_multiple_captures() {
    let kp          = kp();
    let mut session = CameraSession::new(kp.public.clone());
    session.capture_demo(&kp);
    session.reset();
    session.capture_demo(&kp);
    assert_eq!(session.capture_count(), 2);
}

#[test]
fn test_session_switch_lens() {
    let kp          = kp();
    let mut session = CameraSession::new(kp.public.clone());
    session.switch_lens(CameraLens::Front);
    assert_eq!(session.lens, CameraLens::Front);
}

#[test]
fn test_session_cannot_capture_when_not_idle() {
    let kp          = kp();
    let mut session = CameraSession::new(kp.public.clone());
    session.state   = CameraState::Capturing;
    let result      = session.capture_demo(&kp);
    assert!(result.is_none());
}

#[test]
fn test_session_latest_returns_most_recent() {
    let kp          = kp();
    let mut session = CameraSession::new(kp.public.clone());
    session.capture_demo(&kp);
    let first_id    = session.latest().unwrap().id.clone();
    session.reset();
    session.capture_demo(&kp);
    let second_id   = session.latest().unwrap().id.clone();
    assert_ne!(first_id, second_id);
}

#[test]
fn test_capture_id_deterministic_structure() {
    let kp  = kp();
    let cap = CameraCapture::new(CameraLens::Main, 4032, 3024, &kp.public, &kp);
    // ID should be 64 hex chars (SHA-256)
    assert_eq!(cap.id.len(), 64);
    assert!(cap.id.chars().all(|c| c.is_ascii_hexdigit()));
}

#[test]
fn test_v4l2_device_paths() {
    assert_eq!(CameraLens::Main.v4l2_device(),      "/dev/video0");
    assert_eq!(CameraLens::Telephoto.v4l2_device(), "/dev/video1");
    assert_eq!(CameraLens::Front.v4l2_device(),     "/dev/video2");
}
