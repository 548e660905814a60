use theos::power::{BatteryFlags, PowerManager, PowerState};

// PowerState

#[test]
fn test_active_screen_on() { assert!(PowerState::Active.is_screen_on()); }
#[test]
fn test_dim_screen_on() { assert!(PowerState::Dim.is_screen_on()); }
#[test]
fn test_sleep_screen_off() { assert!(!PowerState::Sleep.is_screen_on()); }
#[test]
fn test_deep_sleep_screen_off() { assert!(!PowerState::DeepSleep.is_screen_on()); }
#[test]
fn test_wake_word_active_in_sleep() { assert!(PowerState::Sleep.is_wake_word_active()); }
#[test]
fn test_wake_word_inactive_in_critical() { assert!(!PowerState::CriticalLow.is_wake_word_active()); }
#[test]
fn test_no_satellite_tx_in_deep_sleep() { assert!(!PowerState::DeepSleep.allows_satellite_tx()); }
#[test]
fn test_satellite_tx_in_active() { assert!(PowerState::Active.allows_satellite_tx()); }
#[test]
fn test_app_actions_in_active() { assert!(PowerState::Active.allows_app_actions()); }
#[test]
fn test_no_app_actions_in_sleep() { assert!(!PowerState::Sleep.allows_app_actions()); }
#[test]
fn power_test_state_labels() {
    assert_eq!(PowerState::Active.label(), "active");
    assert_eq!(PowerState::DeepSleep.label(), "deep_sleep");
    assert_eq!(PowerState::CriticalLow.label(), "critical_low");
}


// PowerManager (battery readings given as the flags the manager reads:
// critical 0.04 -> critical & below reserve; 0.03 -> critical & below
// reserve; charging 0.5 -> charging)

fn pm() -> PowerManager { PowerManager::new() }

fn critical() -> BatteryFlags { BatteryFlags { critical: true, charging: false, above_reserve: false } }
fn charging() -> BatteryFlags { BatteryFlags { critical: false, charging: true, above_reserve: true } }
fn half() -> BatteryFlags { BatteryFlags { critical: false, charging: false, above_reserve: true } }

#[test]
fn test_initial_state_active() { assert_eq!(pm().state, PowerState::Active); }

#[test]
fn test_on_activity_resets_timer() {
    let mut p = pm();
    p.on_activity();
    assert_eq!(p.state, PowerState::Active);
}

#[test]
fn test_wake_word_wakes_from_sleep() {
    let mut p = pm();
    p.force_sleep();
    assert_eq!(p.state, PowerState::Sleep);
    p.on_wake_word();
    assert_eq!(p.state, PowerState::Active);
}

#[test]
fn test_wake_word_wakes_from_deep_sleep() {
    let mut p = pm();
    p.force_deep_sleep();
    p.on_wake_word();
    assert_eq!(p.state, PowerState::Active);
}

#[test]
fn test_critical_battery_transitions() {
    let mut p = pm();
    p.on_battery_update(critical());
    assert_eq!(p.state, PowerState::CriticalLow);
}

#[test]
fn test_charger_connect_transitions() {
    let mut p = pm();
    p.on_battery_update(charging());
    assert_eq!(p.state, PowerState::ChargingActive);
}

#[test]
fn test_charger_disconnect_transitions() {
    let mut p = pm();
    p.on_battery_update(charging());
    assert_eq!(p.state, PowerState::ChargingActive);
    p.on_battery_update(half());
    assert_eq!(p.state, PowerState::Active);
}

#[test]
fn power_test_force_sleep() {
    let mut p = pm();
    p.force_sleep();
    assert_eq!(p.state, PowerState::Sleep);
    assert_eq!(p.sleep_count, 1);
}

#[test]
fn test_force_deep_sleep() {
    let mut p = pm();
    p.force_deep_sleep();
    assert_eq!(p.state, PowerState::DeepSleep);
}

#[test]
fn test_wake_lock_prevents_sleep() {
    let mut p = pm();
    let _idx = p.acquire_wake_lock("voip_call");
    assert_eq!(p.wake_lock_count(), 1);
    p.tick();
    assert_eq!(p.state, PowerState::Active);
}

#[test]
fn test_wake_lock_release() {
    let mut p = pm();
    let idx = p.acquire_wake_lock("test");
    p.release_wake_lock(idx);
    assert_eq!(p.wake_lock_count(), 0);
}

#[test]
fn test_can_transmit_when_active() {
    let p = pm();
    assert!(p.can_transmit());
}

#[test]
fn test_cannot_transmit_in_deep_sleep() {
    let mut p = pm();
    p.force_deep_sleep();
    assert!(!p.can_transmit());
}

#[test]
fn test_cannot_transmit_below_reserve() {
    let mut p = pm();
    p.on_battery_update(critical());
    assert!(!p.can_transmit());
}

#[test]
fn test_can_run_apps_when_active() { assert!(pm().can_run_apps()); }

#[test]
fn test_cannot_run_apps_critical() {
    let mut p = pm();
    p.on_battery_update(critical());
    assert!(!p.can_run_apps());
}

#[test]
fn test_wake_count_increments() {
    let mut p = pm();
    p.force_sleep();
    p.on_wake_word();
    assert_eq!(p.wake_count, 1);
}

#[test]
fn idle_timeouts_step_down_one_state_at_a_time() {
    let mut p = pm();
    assert!(!p.tick_idle(29));
    assert!(p.tick_idle(30));
    assert_eq!(p.state, PowerState::Dim);
    assert!(p.tick_idle(60));
    assert_eq!(p.state, PowerState::Sleep);
    assert!(!p.tick_idle(299));
    assert!(p.tick_idle(300));
    assert_eq!(p.state, PowerState::DeepSleep);
    assert_eq!(p.sleep_count, 2);
    assert!(!p.tick_idle(10_000));
}

#[test]
fn no_timeouts_while_charging_or_locked() {
    let mut p = pm();
    p.on_battery_update(charging());
    assert!(!p.tick_idle(10_000));
    let mut q = pm();
    q.acquire_wake_lock("call");
    assert!(!q.tick_idle(10_000));
    assert_eq!(q.state, PowerState::Active);
}

#[test]
fn release_out_of_range_is_ignored() {
    let mut p = pm();
    p.acquire_wake_lock("a");
    p.release_wake_lock(5);
    assert_eq!(p.wake_lock_count(), 1);
}
