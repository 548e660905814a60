use theos::display_backend::{build_backend, DemoBackend, DisplayBackend, DisplayError};

fn demo() -> DemoBackend { DemoBackend::new() }
fn demo_hd() -> DemoBackend { DemoBackend::with_resolution(1920, 1080, 60) }

#[test]
fn test_demo_default_resolution() {
    let b = demo();
    assert_eq!(b.resolution(), (1080, 2280));
}

#[test]
fn test_demo_custom_resolution() {
    let b = demo_hd();
    assert_eq!(b.resolution(), (1920, 1080));
}

#[test]
fn test_demo_refresh_rate() {
    let b = demo();
    assert_eq!(b.frame_duration_ms(), 16);
}

#[test]
fn test_demo_90hz() {
    let b = DemoBackend::with_resolution(1080, 2280, 90);
    assert_eq!(b.frame_duration_ms(), 11);
}

#[test]
fn test_demo_is_active() {
    assert!(demo().is_active());
}

#[test]
fn test_demo_is_demo() {
    assert!(demo().is_demo());
}

#[test]
fn test_demo_name() {
    assert_eq!(demo().name(), "DemoBackend");
}

#[test]
fn test_demo_begin_frame_returns_true() {
    let mut b = demo();
    assert!(b.begin_frame());
}

#[test]
fn test_demo_end_frame_ok() {
    let mut b = demo();
    b.begin_frame();
    assert!(b.end_frame().is_ok());
}

#[test]
fn test_demo_frame_count_increments() {
    let mut b = demo();
    for _ in 0..5 {
        b.begin_frame();
        b.end_frame().unwrap();
    }
    assert_eq!(b.frame_count(), 5);
}

#[test]
fn test_demo_frame_count_starts_zero() {
    assert_eq!(demo().frame_count(), 0);
}

#[test]
fn test_demo_begin_after_end_returns_true() {
    let mut b = demo();
    b.begin_frame();
    b.end_frame().unwrap();
    assert!(b.begin_frame());
}

#[test]
fn test_demo_on_vblank_clears_flip() {
    let mut b = demo();
    b.begin_frame();
    b.end_frame().unwrap();
    b.on_vblank();
    assert!(!b.flip_pending);
}

#[test]
fn test_trait_object_demo() {
    let mut b: Box<dyn DisplayBackend> = Box::new(DemoBackend::new());
    assert!(b.begin_frame());
    assert!(b.end_frame().is_ok());
    assert_eq!(b.frame_count(), 1);
    assert!(b.is_demo());
    assert!(b.is_active());
}

#[test]
fn test_trait_object_multiple_frames() {
    let mut b: Box<dyn DisplayBackend> = Box::new(DemoBackend::new());
    for _ in 0..10 {
        b.begin_frame();
        b.end_frame().unwrap();
    }
    assert_eq!(b.frame_count(), 10);
}

#[test]
fn test_display_error_display() {
    assert!(!DisplayError::PageFlipFailed.message().is_empty());
    assert!(!DisplayError::FlipPending.message().is_empty());
    assert!(!DisplayError::BackendError("test".to_string()).message().is_empty());
}

#[test]
fn test_build_backend_returns_active() {
    let b = build_backend();
    assert!(b.is_active());
}

#[test]
fn test_build_backend_demo_mode_without_compositor_feature() {
    assert!(build_backend().is_demo());
}

#[test]
fn test_build_backend_frame_lifecycle() {
    let mut b = build_backend();
    assert!(b.begin_frame());
    assert!(b.end_frame().is_ok());
    assert_eq!(b.frame_count(), 1);
}

#[test]
fn test_resolution_width_height() {
    let b = demo();
    let (w, h) = b.resolution();
    assert_eq!(w, 1080);
    assert_eq!(h, 2280);
}

#[test]
fn test_frame_duration_60hz() {
    assert_eq!(DemoBackend::with_resolution(1080, 2280, 60).frame_duration_ms(), 16);
}

#[test]
fn test_frame_duration_120hz() {
    assert_eq!(DemoBackend::with_resolution(1080, 2280, 120).frame_duration_ms(), 8);
}

#[test]
fn display_error_messages_exact() {
    assert_eq!(DisplayError::PageFlipFailed.message(), "page flip failed");
    assert_eq!(DisplayError::BackendError("gpu".to_string()).message(), "backend error: gpu");
    assert_eq!(DisplayError::FlipPending.message(), "flip pending -- frame skipped");
}

#[test]
fn end_frame_sets_flip_pending_and_begin_clears_it() {
    let mut b = demo();
    b.end_frame().unwrap();
    assert!(b.flip_pending);
    assert!(b.begin_frame());
    assert!(!b.flip_pending);
}
