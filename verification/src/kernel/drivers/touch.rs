//! Touchscreen driver state machine.
use vstd::prelude::*;

verus! {

#[derive(Debug, Clone, Copy, PartialEq, Eq, Structural)]
pub enum TouchState {
    Detected,
    Initialized,
    Ready,
    Disabled,
    Error,
}

#[derive(Debug, Clone, Copy, PartialEq, Eq, Structural)]
pub enum TouchEventType {
    Down,
    Move,
    Up,
    Cancel,
}

#[derive(Debug, Clone, Copy)]
pub struct TouchEvent {
    pub x: u16,
    pub y: u16,
    pub pressure: u8,
    pub touch_id: u8,
    pub event_type: TouchEventType,
}

pub struct TouchscreenDriver {
    pub state: TouchState,
    pub i2c_address: u8,
    pub i2c_bus: u32,
    pub irq_gpio: u32,
    pub max_touches: u8,
    pub resolution_x: u16,
    pub resolution_y: u16,
}

impl TouchscreenDriver {
    /// A detected controller: 10 touch points, 1080x2400.
    pub fn new(i2c_address: u8, i2c_bus: u32, irq_gpio: u32) -> (d: Self)
        ensures
            d.state == TouchState::Detected,
            d.i2c_address == i2c_address,
            d.i2c_bus == i2c_bus,
            d.irq_gpio == irq_gpio,
            d.max_touches == 10,
            d.resolution_x == 1080,
            d.resolution_y == 2400,
    {
        Self {
            state: TouchState::Detected,
            i2c_address,
            i2c_bus,
            irq_gpio,
            max_touches: 10,
            resolution_x: 1080,
            resolution_y: 2400,
        }
    }

    pub fn detect(&mut self) -> (r: Result<(), &'static str>)
        ensures
            r is Ok,
            *final(self) == *old(self),
    {
        Ok(())
    }

    pub fn initialize(&mut self) -> (r: Result<(), &'static str>)
        ensures
            r is Ok,
            *final(self) == (TouchscreenDriver { state: TouchState::Initialized, ..*old(self) }),
    {
        self.state = TouchState::Initialized;
        Ok(())
    }

    /// Enable input; only an Initialized or Disabled controller may be enabled.
    pub fn enable(&mut self) -> (r: Result<(), &'static str>)
        ensures
            (old(self).state != TouchState::Initialized && old(self).state != TouchState::Disabled)
                ==> r is Err && *final(self) == *old(self),
            (old(self).state == TouchState::Initialized || old(self).state == TouchState::Disabled)
                ==> r is Ok && *final(self) == (TouchscreenDriver { state: TouchState::Ready, ..*old(self) }),
    {
        if self.state != TouchState::Initialized && self.state != TouchState::Disabled {
            return Err("invalid state for enable");
        }
        self.state = TouchState::Ready;
        Ok(())
    }

    pub fn disable(&mut self) -> (r: Result<(), &'static str>)
        ensures
            r is Ok,
            *final(self) == (TouchscreenDriver { state: TouchState::Disabled, ..*old(self) }),
    {
        self.state = TouchState::Disabled;
        Ok(())
    }

    pub fn set_resolution(&mut self, x: u16, y: u16) -> (r: Result<(), &'static str>)
        ensures
            r is Ok,
            *final(self) == (TouchscreenDriver { resolution_x: x, resolution_y: y, ..*old(self) }),
    {
        self.resolution_x = x;
        self.resolution_y = y;
        Ok(())
    }

    pub fn is_ready(&self) -> (r: bool)
        ensures
            r == (self.state == TouchState::Ready),
    {
        self.state == TouchState::Ready
    }
}

} // verus!
