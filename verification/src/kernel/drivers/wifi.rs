//! Wi-Fi driver state machine.
use vstd::prelude::*;

verus! {

#[derive(Debug, Clone, Copy, PartialEq, Eq, Structural)]
pub enum WiFiState {
    Enumerated,
    FirmwareLoaded,
    Ready,
    Scanning,
    Connected,
    Error,
}

pub struct WiFiDriver {
    pub state: WiFiState,
    pub pcie_slot: u32,
    pub mmio_base: u32,
    pub ssid_len: usize,
}

impl WiFiDriver {
    pub fn new(pcie_slot: u32) -> (d: Self)
        ensures
            d.state == WiFiState::Enumerated,
            d.pcie_slot == pcie_slot,
            d.mmio_base == 0,
            d.ssid_len == 0,
    {
        Self { state: WiFiState::Enumerated, pcie_slot, mmio_base: 0, ssid_len: 0 }
    }

    pub fn enumerate_pcie(&mut self) -> (r: Result<(), &'static str>)
        ensures
            r is Ok,
            *final(self) == *old(self),
    {
        Ok(())
    }

    pub fn load_firmware(&mut self) -> (r: Result<(), &'static str>)
        ensures
            r is Ok,
            *final(self) == (WiFiDriver { state: WiFiState::FirmwareLoaded, ..*old(self) }),
    {
        self.state = WiFiState::FirmwareLoaded;
        Ok(())
    }

    pub fn init_mac(&mut self) -> (r: Result<(), &'static str>)
        ensures
            r is Ok,
            *final(self) == (WiFiDriver { state: WiFiState::Ready, ..*old(self) }),
    {
        self.state = WiFiState::Ready;
        Ok(())
    }

    /// Start a scan; only a Ready driver may scan.
    pub fn scan_networks(&mut self) -> (r: Result<(), &'static str>)
        ensures
            old(self).state != WiFiState::Ready ==> r is Err && *final(self) == *old(self),
            old(self).state == WiFiState::Ready ==> r is Ok && *final(self) == (WiFiDriver {
                state: WiFiState::Scanning,
                ..*old(self)
            }),
    {
        if self.state != WiFiState::Ready {
            return Err("invalid state for scanning");
        }
        self.state = WiFiState::Scanning;
        Ok(())
    }

    pub fn disconnect(&mut self) -> (r: Result<(), &'static str>)
        ensures
            r is Ok,
            *final(self) == (WiFiDriver { state: WiFiState::Ready, ssid_len: 0, ..*old(self) }),
    {
        self.ssid_len = 0;
        self.state = WiFiState::Ready;
        Ok(())
    }

    pub fn is_ready(&self) -> (r: bool)
        ensures
            r == (self.state != WiFiState::Error),
    {
        self.state != WiFiState::Error
    }

    pub fn is_connected(&self) -> (r: bool)
        ensures
            r == (self.state == WiFiState::Connected),
    {
        self.state == WiFiState::Connected
    }
}

} // verus!
