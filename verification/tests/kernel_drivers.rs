use theos::kernel::drivers::{DriverManager, DriverState};
use theos::kernel::drivers::wifi::{WiFiDriver, WiFiState};
use theos::kernel::drivers::touch::{TouchscreenDriver, TouchState};

#[test]
fn test_driver_manager_new() {
    let mgr = DriverManager::new();
    assert_eq!(mgr.audio_state, DriverState::Uninitialized);
    assert_eq!(mgr.wifi_state, DriverState::Uninitialized);
    assert_eq!(mgr.touch_state, DriverState::Uninitialized);
}

#[test]
fn test_all_ready_false_when_uninitialized() {
    let mgr = DriverManager::new();
    assert!(!mgr.all_ready());
}

#[test]
fn test_wifi_driver_new() {
    let driver = WiFiDriver::new(0);
    assert_eq!(driver.state, WiFiState::Enumerated);
    assert_eq!(driver.ssid_len, 0);
}

#[test]
fn test_is_ready() {
    let driver = WiFiDriver::new(0);
    assert!(driver.is_ready());
}

#[test]
fn test_is_connected_false_initially() {
    let driver = WiFiDriver::new(0);
    assert!(!driver.is_connected());
}

#[test]
fn test_touchscreen_driver_new() {
    let driver = TouchscreenDriver::new(0x38, 1, 42);
    assert_eq!(driver.state, TouchState::Detected);
    assert_eq!(driver.resolution_x, 1080);
    assert_eq!(driver.resolution_y, 2400);
}

#[test]
fn test_is_ready_false_initially() {
    let driver = TouchscreenDriver::new(0x38, 1, 42);
    assert!(!driver.is_ready());
}

#[test]
fn test_max_touches() {
    let driver = TouchscreenDriver::new(0x38, 1, 42);
    assert_eq!(driver.max_touches, 10);
}

