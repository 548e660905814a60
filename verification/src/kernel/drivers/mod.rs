//! Hardware driver bring-up: audio, Wi-Fi and touch.
pub mod touch;
pub mod wifi;

use vstd::prelude::*;

verus! {

/// Bring-up state of one driver.
#[derive(Debug, Clone, Copy, PartialEq, Eq, Structural)]
pub enum DriverState {
    Uninitialized,
    Initializing,
    Ready,
    Failed,
}

/// Tracks the bring-up of the three hardware drivers.
pub struct DriverManager {
    pub audio_state: DriverState,
    pub wifi_state: DriverState,
    pub touch_state: DriverState,
}

impl DriverManager {
    pub fn new() -> (m: Self)
        ensures
            m.audio_state == DriverState::Uninitialized,
            m.wifi_state == DriverState::Uninitialized,
            m.touch_state == DriverState::Uninitialized,
    {
        Self {
            audio_state: DriverState::Uninitialized,
            wifi_state: DriverState::Uninitialized,
            touch_state: DriverState::Uninitialized,
        }
    }

    /// Bring up every driver; each ends Ready or Failed.  `Ok` when all are Ready.
    pub fn initialize_all(&mut self) -> (r: Result<(), &'static str>)
        ensures
            final(self).audio_state == DriverState::Ready,
            final(self).wifi_state == DriverState::Ready,
            final(self).touch_state == DriverState::Ready,
            r is Ok,
    {
        match self.init_audio_driver() {
            Ok(_) => {
                self.audio_state = DriverState::Ready;
            },
            Err(_) => {
                self.audio_state = DriverState::Failed;
            },
        }
        match self.init_wifi_driver() {
            Ok(_) => {
                self.wifi_state = DriverState::Ready;
            },
            Err(_) => {
                self.wifi_state = DriverState::Failed;
            },
        }
        match self.init_touch_driver() {
            Ok(_) => {
                self.touch_state = DriverState::Ready;
            },
            Err(_) => {
                self.touch_state = DriverState::Failed;
            },
        }
        if self.all_ready() {
            Ok(())
        } else {
            Err("One or more drivers failed to initialize")
        }
    }

    fn init_audio_driver(&self) -> (r: Result<(), &'static str>)
        ensures
            r is Ok,
    {
        Ok(())
    }

    fn init_wifi_driver(&self) -> (r: Result<(), &'static str>)
        ensures
            r is Ok,
    {
        Ok(())
    }

    fn init_touch_driver(&self) -> (r: Result<(), &'static str>)
        ensures
            r is Ok,
    {
        Ok(())
    }

    /// Every driver is Ready.
    pub fn all_ready(&self) -> (r: bool)
        ensures
            r == (self.audio_state == DriverState::Ready && self.wifi_state == DriverState::Ready
                && self.touch_state == DriverState::Ready),
    {
        self.audio_state == DriverState::Ready && self.wifi_state == DriverState::Ready
            && self.touch_state == DriverState::Ready
    }

    /// Some driver Failed.
    pub fn any_failed(&self) -> (r: bool)
        ensures
            r == (self.audio_state == DriverState::Failed || self.wifi_state == DriverState::Failed
                || self.touch_state == DriverState::Failed),
    {
        self.audio_state == DriverState::Failed || self.wifi_state == DriverState::Failed
            || self.touch_state == DriverState::Failed
    }
}

} // verus!
