//! Device power states, wake locks, and the power manager's state
//! machine: inactivity timeouts, wake events, and battery and charger
//! changes.  The battery is read as the flags the decisions use.
use vstd::prelude::*;
use crate::clock::{elapsed_secs, instant_now};

verus! {

/// Seconds of inactivity before the screen dims.
pub const DIM_TIMEOUT_SECS: u64 = 30;

/// Seconds of inactivity before the screen sleeps.
pub const SLEEP_TIMEOUT_SECS: u64 = 60;

/// Seconds of inactivity before deep sleep.
pub const DEEP_SLEEP_TIMEOUT_SECS: u64 = 300;

#[derive(Debug, Clone, Copy, PartialEq, Eq, Structural)]
pub enum PowerState {
    Active,
    Dim,
    Sleep,
    DeepSleep,
    ChargingActive,
    CriticalLow,
}

impl PowerState {
    pub fn label(&self) -> (r: &'static str)
        ensures
            r@ == match *self {
                PowerState::Active => "active"@,
                PowerState::Dim => "dim"@,
                PowerState::Sleep => "sleep"@,
                PowerState::DeepSleep => "deep_sleep"@,
                PowerState::ChargingActive => "charging_active"@,
                PowerState::CriticalLow => "critical_low"@,
            },
    {
        match self {
            PowerState::Active => "active",
            PowerState::Dim => "dim",
            PowerState::Sleep => "sleep",
            PowerState::DeepSleep => "deep_sleep",
            PowerState::ChargingActive => "charging_active",
            PowerState::CriticalLow => "critical_low",
        }
    }

    /// The screen is on when active, dimmed or charging.
    pub fn is_screen_on(&self) -> (r: bool)
        ensures
            r == (*self is Active || *self is Dim || *self is ChargingActive),
    {
        match self {
            PowerState::Active | PowerState::Dim | PowerState::ChargingActive => true,
            _ => false,
        }
    }

    /// The wake word is heard in every state but critical battery.
    pub fn is_wake_word_active(&self) -> (r: bool)
        ensures
            r == !(*self is CriticalLow),
    {
        match self {
            PowerState::CriticalLow => false,
            _ => true,
        }
    }

    /// The satellite radio may transmit unless in deep sleep or critical
    /// battery.
    pub fn allows_satellite_tx(&self) -> (r: bool)
        ensures
            r == !(*self is DeepSleep || *self is CriticalLow),
    {
        match self {
            PowerState::DeepSleep | PowerState::CriticalLow => false,
            _ => true,
        }
    }

    /// Apps may act only when active or charging.
    pub fn allows_app_actions(&self) -> (r: bool)
        ensures
            r == (*self is Active || *self is ChargingActive),
    {
        match self {
            PowerState::Active | PowerState::ChargingActive => true,
            _ => false,
        }
    }
}

/// Keeps the device awake while held.
#[derive(Debug)]
pub struct WakeLock {
    pub reason: String,
    pub acquired_at: std::time::Instant,
}

/// How long since a monotonic reading (`Instant::elapsed`).  The value
/// depends on the moment of the call.
#[verifier::external_body]
fn elapsed(since: &std::time::Instant) -> std::time::Duration {
    since.elapsed()
}

impl WakeLock {
    /// A lock taken now for a reason.
    pub fn new(reason: &str) -> (l: Self)
        ensures
            l.reason@ == reason@,
    {
        WakeLock { reason: reason.to_owned(), acquired_at: instant_now() }
    }

    /// How long the lock has been held.
    pub fn held_for(&self) -> std::time::Duration {
        elapsed(&self.acquired_at)
    }
}

/// What the power manager reads of the battery: critically low (under 5%),
/// charging, and above the satellite reserve (at least 5%).
#[derive(Debug, Clone, Copy, PartialEq, Eq, Structural)]
pub struct BatteryFlags {
    pub critical: bool,
    pub charging: bool,
    pub above_reserve: bool,
}

impl BatteryFlags {
    /// A full battery, not charging.
    pub fn full() -> (b: Self)
        ensures
            b == (BatteryFlags { critical: false, charging: false, above_reserve: true }),
    {
        BatteryFlags { critical: false, charging: false, above_reserve: true }
    }
}

/// The state after an inactivity check with `idle` seconds idle.
pub open spec fn tick_state(state: PowerState, idle: u64) -> PowerState {
    if idle >= DEEP_SLEEP_TIMEOUT_SECS && state == PowerState::Sleep {
        PowerState::DeepSleep
    } else if idle >= SLEEP_TIMEOUT_SECS && state == PowerState::Dim {
        PowerState::Sleep
    } else if idle >= DIM_TIMEOUT_SECS && state == PowerState::Active {
        PowerState::Dim
    } else {
        state
    }
}

/// The state after a battery reading, with the charger state seen before.
pub open spec fn battery_state(state: PowerState, was_charging: bool, b: BatteryFlags) -> PowerState {
    if b.critical {
        PowerState::CriticalLow
    } else if b.charging && !was_charging {
        PowerState::ChargingActive
    } else if !b.charging && was_charging {
        PowerState::Active
    } else {
        state
    }
}

/// Drives the device's power state.  Called from the compositor's frame
/// loop and the system event handlers.
pub struct PowerManager {
    pub state: PowerState,
    pub battery: BatteryFlags,
    pub last_activity: std::time::Instant,
    pub wake_locks: Vec<WakeLock>,
    pub sleep_count: u64,
    pub wake_count: u64,
}

impl PowerManager {
    /// Active, full battery, no wake locks.
    pub fn new() -> (m: Self)
        ensures
            m.state == PowerState::Active,
            m.battery == (BatteryFlags { critical: false, charging: false, above_reserve: true }),
            m.wake_locks@.len() == 0,
            m.sleep_count == 0,
            m.wake_count == 0,
    {
        PowerManager {
            state: PowerState::Active,
            battery: BatteryFlags::full(),
            last_activity: instant_now(),
            wake_locks: Vec::new(),
            sleep_count: 0,
            wake_count: 0,
        }
    }

    /// User activity: the inactivity clock restarts and a dimmed or
    /// sleeping screen wakes (waking from sleep counts as a wake).
    pub fn on_activity(&mut self)
        requires
            old(self).wake_count < u64::MAX,
        ensures
            final(self).state == match old(self).state {
                PowerState::Sleep | PowerState::DeepSleep | PowerState::Dim => PowerState::Active,
                s => s,
            },
            final(self).wake_count == old(self).wake_count + (if old(self).state == PowerState::Sleep
                || old(self).state == PowerState::DeepSleep {
                1int
            } else {
                0
            }),
            final(self).sleep_count == old(self).sleep_count,
            final(self).battery == old(self).battery,
            final(self).wake_locks@ == old(self).wake_locks@,
    {
        self.last_activity = instant_now();
        match self.state {
            PowerState::Sleep | PowerState::DeepSleep => {
                self.state = PowerState::Active;
                self.wake_count = self.wake_count + 1;
            },
            PowerState::Dim => {
                self.state = PowerState::Active;
            },
            _ => {},
        }
    }

    /// The wake word was heard: counts as a wake, and wakes a dimmed or
    /// sleeping screen; with the battery critical only the emergency
    /// interface stays.
    pub fn on_wake_word(&mut self)
        requires
            old(self).wake_count < u64::MAX,
        ensures
            final(self).wake_count == old(self).wake_count + 1,
            final(self).state == match old(self).state {
                PowerState::Sleep | PowerState::DeepSleep | PowerState::Dim => PowerState::Active,
                s => s,
            },
            final(self).sleep_count == old(self).sleep_count,
            final(self).battery == old(self).battery,
            final(self).wake_locks@ == old(self).wake_locks@,
    {
        self.wake_count = self.wake_count + 1;
        match self.state {
            PowerState::Sleep | PowerState::DeepSleep | PowerState::Dim => {
                self.state = PowerState::Active;
            },
            _ => {},
        }
        self.last_activity = instant_now();
    }

    /// A new battery reading: critical goes to emergency mode, plugging in
    /// to charging, unplugging back to active.
    pub fn on_battery_update(&mut self, status: BatteryFlags)
        ensures
            final(self).battery == status,
            final(self).state == battery_state(old(self).state, old(self).battery.charging, status),
            final(self).sleep_count == old(self).sleep_count,
            final(self).wake_count == old(self).wake_count,
            final(self).wake_locks@ == old(self).wake_locks@,
    {
        let was_charging = self.battery.charging;
        self.battery = status;
        if status.critical {
            self.state = PowerState::CriticalLow;
        } else if status.charging && !was_charging {
            self.state = PowerState::ChargingActive;
        } else if !status.charging && was_charging {
            self.state = PowerState::Active;
            self.last_activity = instant_now();
        }
    }

    /// The inactivity check after `idle` seconds without activity: no
    /// timeouts while charging, critical or in deep sleep, or while a wake
    /// lock is held; otherwise active dims, dim sleeps, sleep goes deep.
    /// Returns whether the state changed.
    pub fn tick_idle(&mut self, idle: u64) -> (changed: bool)
        requires
            old(self).sleep_count < u64::MAX,
        ensures
            ({
                let frozen = old(self).state == PowerState::ChargingActive || old(self).state == PowerState::CriticalLow
                    || old(self).state == PowerState::DeepSleep || old(self).wake_locks@.len() > 0;
                &&& frozen ==> final(self).state == old(self).state
                &&& !frozen ==> final(self).state == tick_state(old(self).state, idle)
            }),
            changed == (final(self).state != old(self).state),
            final(self).sleep_count == old(self).sleep_count + (if final(self).state == PowerState::Sleep
                || final(self).state == PowerState::DeepSleep {
                if final(self).state != old(self).state {
                    1int
                } else {
                    0
                }
            } else {
                0
            }),
            final(self).wake_count == old(self).wake_count,
            final(self).battery == old(self).battery,
            final(self).wake_locks@ == old(self).wake_locks@,
    {
        match self.state {
            PowerState::ChargingActive | PowerState::CriticalLow | PowerState::DeepSleep => return false,
            _ => {},
        }
        if self.wake_locks.len() > 0 {
            return false;
        }
        let prev = self.state;
        if idle >= DEEP_SLEEP_TIMEOUT_SECS && prev == PowerState::Sleep {
            self.state = PowerState::DeepSleep;
            self.sleep_count = self.sleep_count + 1;
        } else if idle >= SLEEP_TIMEOUT_SECS && prev == PowerState::Dim {
            self.state = PowerState::Sleep;
            self.sleep_count = self.sleep_count + 1;
        } else if idle >= DIM_TIMEOUT_SECS && prev == PowerState::Active {
            self.state = PowerState::Dim;
        }
        self.state != prev
    }

    /// The inactivity check, with the time since the last activity.
    pub fn tick(&mut self) -> (changed: bool)
        requires
            old(self).sleep_count < u64::MAX,
        ensures
            changed == (final(self).state != old(self).state),
            final(self).battery == old(self).battery,
            final(self).wake_locks@ == old(self).wake_locks@,
            final(self).state == old(self).state || exists|idle: u64| #[trigger]
                tick_state(old(self).state, idle) == final(self).state,
            (old(self).state == PowerState::ChargingActive || old(self).state == PowerState::CriticalLow
                || old(self).state == PowerState::DeepSleep || old(self).wake_locks@.len() > 0) ==> final(self).state
                == old(self).state,
            final(self).sleep_count == old(self).sleep_count + (if final(self).state != old(self).state && (
            final(self).state == PowerState::Sleep || final(self).state == PowerState::DeepSleep) {
                1int
            } else {
                0
            }),
            final(self).wake_count == old(self).wake_count,
    {
        let idle = elapsed_secs(&self.last_activity);
        self.tick_idle(idle)
    }

    /// Take a wake lock; its index is returned.  The device does not sleep
    /// while any is held.
    pub fn acquire_wake_lock(&mut self, reason: &str) -> (i: usize)
        requires
            old(self).wake_locks@.len() < usize::MAX,
        ensures
            final(self).wake_locks@.len() == old(self).wake_locks@.len() + 1,
            final(self).wake_locks@.take(i as int) == old(self).wake_locks@,
            final(self).wake_locks@[i as int].reason@ == reason@,
            i == old(self).wake_locks@.len(),
            final(self).state == old(self).state,
            final(self).sleep_count == old(self).sleep_count,
            final(self).wake_count == old(self).wake_count,
            final(self).battery == old(self).battery,
    {
        let lock = WakeLock::new(reason);
        self.wake_locks.push(lock);
        proof {
            assert(self.wake_locks@.take(old(self).wake_locks@.len() as int) =~= old(self).wake_locks@);
        }
        self.wake_locks.len() - 1
    }

    /// Release the wake lock at `index`; an index out of range is ignored.
    pub fn release_wake_lock(&mut self, index: usize)
        ensures
            index < old(self).wake_locks@.len() ==> final(self).wake_locks@ == old(self).wake_locks@.remove(
                index as int,
            ),
            index >= old(self).wake_locks@.len() ==> final(self).wake_locks@ == old(self).wake_locks@,
            final(self).state == old(self).state,
            final(self).sleep_count == old(self).sleep_count,
            final(self).wake_count == old(self).wake_count,
            final(self).battery == old(self).battery,
    {
        if index < self.wake_locks.len() {
            let _ = self.wake_locks.remove(index);
        }
    }

    /// Number of wake locks held.
    pub fn wake_lock_count(&self) -> (n: usize)
        ensures
            n == self.wake_locks@.len(),
    {
        self.wake_locks.len()
    }

    /// Sleep now (the power button).
    pub fn force_sleep(&mut self)
        requires
            old(self).sleep_count < u64::MAX,
        ensures
            final(self).state == PowerState::Sleep,
            final(self).sleep_count == old(self).sleep_count + 1,
            final(self).wake_count == old(self).wake_count,
            final(self).battery == old(self).battery,
            final(self).wake_locks@ == old(self).wake_locks@,
    {
        self.sleep_count = self.sleep_count + 1;
        self.state = PowerState::Sleep;
    }

    /// Deep sleep now.
    pub fn force_deep_sleep(&mut self)
        requires
            old(self).sleep_count < u64::MAX,
        ensures
            final(self).state == PowerState::DeepSleep,
            final(self).sleep_count == old(self).sleep_count + 1,
            final(self).wake_count == old(self).wake_count,
            final(self).battery == old(self).battery,
            final(self).wake_locks@ == old(self).wake_locks@,
    {
        self.sleep_count = self.sleep_count + 1;
        self.state = PowerState::DeepSleep;
    }

    /// Whether the satellite link may transmit: the state allows it and
    /// the battery is above the reserve.
    pub fn can_transmit(&self) -> (b: bool)
        ensures
            b == (!(self.state is DeepSleep || self.state is CriticalLow) && self.battery.above_reserve),
    {
        self.state.allows_satellite_tx() && self.battery.above_reserve
    }

    /// Whether app actions may run: the state allows them and the battery
    /// is not critical.
    pub fn can_run_apps(&self) -> (b: bool)
        ensures
            b == ((self.state is Active || self.state is ChargingActive) && !self.battery.critical),
    {
        self.state.allows_app_actions() && !self.battery.critical
    }
}

} // verus!
