//! Clock synchronisation state and the NTP timestamp format.
use vstd::prelude::*;

verus! {

pub const NTP_PORT: u16 = 123;

/// Seconds between 1900 and 1970.
pub const NTP_EPOCH_OFFSET: u64 = 2_208_988_800;

pub const NTP_PACKET_SIZE: usize = 48;

pub const QUERY_TIMEOUT_MS: u64 = 5_000;

pub const MAX_SAMPLES: usize = 5;

pub const SYNC_INTERVAL_SECS: u64 = 3_600;

/// Replay window while the clock is only estimated.
pub const ESTIMATED_WINDOW: u64 = 120;

/// The servers queried, in order.
pub const NTP_SERVERS: [&'static str; 4] = ["time.cloudflare.com:123", "pool.ntp.org:123", "time.google.com:123", "time.apple.com:123"];

/// An NTP timestamp: seconds since 1900 and a binary fraction.
#[derive(Debug, Clone, Copy)]
pub struct NtpTimestamp {
    pub seconds: u32,
    pub fraction: u32,
}

pub open spec fn be32(b: Seq<u8>, i: int) -> u32 {
    (b[i] * 16777216 + b[i + 1] * 65536 + b[i + 2] * 256 + b[i + 3]) as u32
}

impl NtpTimestamp {
    /// Read the two big-endian words of a timestamp.
    pub fn from_bytes(bytes: &[u8]) -> (t: Self)
        requires
            bytes@.len() >= 8,
        ensures
            t.seconds == be32(bytes@, 0),
            t.fraction == be32(bytes@, 4),
    {
        let seconds: u32 = (bytes[0] as u32) * 16777216 + (bytes[1] as u32) * 65536 + (bytes[2] as u32) * 256
            + bytes[3] as u32;
        let fraction: u32 = (bytes[4] as u32) * 16777216 + (bytes[5] as u32) * 65536 + (bytes[6] as u32) * 256
            + bytes[7] as u32;
        NtpTimestamp { seconds, fraction }
    }
}

#[derive(Debug, Clone, Copy, PartialEq, Eq, Structural)]
pub enum ClockState {
    Unsynced,
    Synced,
    Estimated,
}

impl ClockState {
    pub fn label(&self) -> (r: &'static str)
        ensures
            r@ == match *self {
                ClockState::Unsynced => "unsynced"@,
                ClockState::Synced => "synced"@,
                ClockState::Estimated => "estimated"@,
            },
    {
        match self {
            ClockState::Unsynced => "unsynced",
            ClockState::Synced => "synced",
            ClockState::Estimated => "estimated",
        }
    }

    /// The replay window peers allow: wider while the clock is estimated.
    pub fn replay_window_secs(&self) -> (r: u64)
        ensures
            r == (if *self is Estimated { ESTIMATED_WINDOW } else { 30 }),
    {
        match self {
            ClockState::Synced => 30,
            ClockState::Estimated => ESTIMATED_WINDOW,
            ClockState::Unsynced => 30,
        }
    }

    /// Only a synced clock is reliable.
    pub fn is_reliable(&self) -> (r: bool)
        ensures
            r == (*self is Synced),
    {
        match self {
            ClockState::Synced => true,
            _ => false,
        }
    }
}

/// Seconds since the last sync at `now`, none counting as forever.
pub open spec fn age_spec(last_sync_at: Option<u64>, now: u64) -> u64 {
    match last_sync_at {
        None => u64::MAX,
        Some(t) => if now >= t {
            (now - t) as u64
        } else {
            0
        },
    }
}

/// Seconds since the last sync, at clock reading `now` (`u64::MAX` when
/// never synced; a sync stamped after `now` counts as just done).
pub fn age_secs_at(last_sync_at: Option<u64>, now: u64) -> (r: u64)
    ensures
        r == age_spec(last_sync_at, now),
{
    match last_sync_at {
        None => u64::MAX,
        Some(t) => now.saturating_sub(t),
    }
}

/// A sync is due: never synced, or the last one an interval or more ago.
pub fn needs_sync_at(last_sync_at: Option<u64>, now: u64) -> (r: bool)
    ensures
        r == (last_sync_at is None || age_spec(last_sync_at, now) >= SYNC_INTERVAL_SECS),
{
    match last_sync_at {
        None => true,
        Some(t) => now.saturating_sub(t) >= SYNC_INTERVAL_SECS,
    }
}

/// The clock state once no server answers: estimated from then on.  The
/// flag says whether the estimate starts from the system clock now (the
/// clock was never synced) rather than from the last good sync.
pub fn state_on_unreachable(state: ClockState) -> (r: (ClockState, bool))
    ensures
        r.0 == ClockState::Estimated,
        r.1 == (state is Unsynced),
{
    match state {
        ClockState::Unsynced => (ClockState::Estimated, true),
        _ => (ClockState::Estimated, false),
    }
}

} // verus!
