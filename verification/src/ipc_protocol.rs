//! The wire between the daemon and the compositor: each message travels as
//! a frame of a 4-byte little-endian payload length followed by the
//! payload.  Also the call states and their wire names.
use vstd::prelude::*;
use vstd::bytes::{lemma_auto_spec_u32_to_from_le_bytes, spec_u32_from_le_bytes, spec_u32_to_le_bytes, u32_from_le_bytes, u32_to_le_bytes};
use crate::camera::append;
use crate::text::{chars_eq, chars_of};

verus! {

/// The state of a voice call.
#[derive(Debug, Clone, Copy, PartialEq, Eq, Structural)]
pub enum CallState {
    Idle,
    Calling,
    Ringing,
    Active,
    Ended,
    Failed,
}

/// The wire name of a call state.
pub open spec fn call_state_name(s: CallState) -> Seq<char> {
    match s {
        CallState::Idle => "idle"@,
        CallState::Calling => "calling"@,
        CallState::Ringing => "ringing"@,
        CallState::Active => "active"@,
        CallState::Ended => "ended"@,
        CallState::Failed => "failed"@,
    }
}

/// The call state a wire name stands for; anything unknown reads as idle.
pub open spec fn call_state_of(s: Seq<char>) -> CallState {
    if s == "calling"@ {
        CallState::Calling
    } else if s == "ringing"@ {
        CallState::Ringing
    } else if s == "active"@ {
        CallState::Active
    } else if s == "ended"@ {
        CallState::Ended
    } else if s == "failed"@ {
        CallState::Failed
    } else {
        CallState::Idle
    }
}

impl CallState {
    /// The wire name.
    pub fn as_str(&self) -> (r: &'static str)
        ensures
            r@ == call_state_name(*self),
    {
        match self {
            CallState::Idle => "idle",
            CallState::Calling => "calling",
            CallState::Ringing => "ringing",
            CallState::Active => "active",
            CallState::Ended => "ended",
            CallState::Failed => "failed",
        }
    }

    /// The state of a wire name; unknown names give `Idle`.
    pub fn from_str(s: &str) -> (r: Self)
        ensures
            r == call_state_of(s@),
    {
        let c = chars_of(s);
        let t = c.as_slice();
        if chars_eq(t, chars_of("calling").as_slice()) {
            CallState::Calling
        } else if chars_eq(t, chars_of("ringing").as_slice()) {
            CallState::Ringing
        } else if chars_eq(t, chars_of("active").as_slice()) {
            CallState::Active
        } else if chars_eq(t, chars_of("ended").as_slice()) {
            CallState::Ended
        } else if chars_eq(t, chars_of("failed").as_slice()) {
            CallState::Failed
        } else {
            CallState::Idle
        }
    }
}

/// Reading back the wire name of a call state gives the state.
pub proof fn law_call_state_name_round_trip(s: CallState)
    ensures
        call_state_of(call_state_name(s)) == s,
{
    reveal_strlit("idle");
    reveal_strlit("calling");
    reveal_strlit("ringing");
    reveal_strlit("active");
    reveal_strlit("ended");
    reveal_strlit("failed");
    match s {
        CallState::Idle => {
            assert("idle"@.len() != "calling"@.len());
            assert("idle"@.len() != "ringing"@.len());
            assert("idle"@.len() != "active"@.len());
            assert("idle"@.len() != "ended"@.len());
            assert("idle"@.len() != "failed"@.len());
        },
        CallState::Calling => {},
        CallState::Ringing => {
            assert("ringing"@[0] != "calling"@[0]);
        },
        CallState::Active => {
            assert("active"@.len() != "calling"@.len());
            assert("active"@.len() != "ringing"@.len());
        },
        CallState::Ended => {
            assert("ended"@.len() != "calling"@.len());
            assert("ended"@.len() != "ringing"@.len());
            assert("ended"@.len() != "active"@.len());
        },
        CallState::Failed => {
            assert("failed"@.len() != "calling"@.len());
            assert("failed"@.len() != "ringing"@.len());
            assert("failed"@[0] != "active"@[0]);
            assert("failed"@.len() != "ended"@.len());
        },
    }
}

/// The frame of a payload: its length as four little-endian bytes (the
/// length taken modulo 2^32), then the payload.
pub open spec fn frame_spec(payload: Seq<u8>) -> Seq<u8> {
    spec_u32_to_le_bytes(payload.len() as u32) + payload
}

/// The payload length a frame header announces.
pub open spec fn announced_len(buf: Seq<u8>) -> int {
    spec_u32_from_le_bytes(buf.take(4)) as int
}

/// Framing of the message stream.
pub struct IpcFrame;

impl IpcFrame {
    /// Frame a payload.
    pub fn encode_payload(payload: &[u8]) -> (frame: Vec<u8>)
        ensures
            frame@ == frame_spec(payload@),
    {
        let len = payload.len() as u32;
        let mut frame: Vec<u8> = u32_to_le_bytes(len);
        append(&mut frame, payload);
        frame
    }

    /// The payload of the frame at the start of `buf`, and the bytes the
    /// frame takes; `None` while the buffer holds less than a whole frame.
    pub fn decode_payload(buf: &[u8]) -> (r: Option<(Vec<u8>, usize)>)
        ensures
            buf@.len() < 4 || buf@.len() - 4 < announced_len(buf@) <==> r is None,
            r matches Some(pr) ==> pr.1 == 4 + announced_len(buf@) && pr.0@ == buf@.subrange(4, pr.1 as int),
    {
        if buf.len() < 4 {
            return None;
        }
        let mut head: Vec<u8> = Vec::new();
        head.push(buf[0]);
        head.push(buf[1]);
        head.push(buf[2]);
        head.push(buf[3]);
        assert(head@ =~= buf@.take(4));
        let len = u32_from_le_bytes(head.as_slice()) as usize;
        if buf.len() - 4 < len {
            return None;
        }
        let end = 4 + len;
        let mut payload: Vec<u8> = Vec::new();
        let mut i: usize = 4;
        while i < end
            invariant
                4 <= i <= end <= buf@.len(),
                payload@ == buf@.subrange(4, i as int),
            decreases end - i,
        {
            payload.push(buf[i]);
            proof {
                assert(payload@ =~= buf@.subrange(4, i + 1));
            }
            i += 1;
        }
        Some((payload, end))
    }
}

/// A framed payload, whatever follows it in the stream, reads back whole:
/// the same payload, and the frame's own length consumed.
pub proof fn law_frame_round_trip(payload: Seq<u8>, rest: Seq<u8>)
    requires
        payload.len() <= u32::MAX,
    ensures
        ({
            let buf = frame_spec(payload) + rest;
            &&& !(buf.len() < 4 || buf.len() - 4 < announced_len(buf))
            &&& announced_len(buf) == payload.len()
            &&& buf.subrange(4, 4 + payload.len() as int) == payload
        }),
{
    lemma_auto_spec_u32_to_from_le_bytes();
    let buf = frame_spec(payload) + rest;
    let h = spec_u32_to_le_bytes(payload.len() as u32);
    assert(h.len() == 4);
    assert(buf.take(4) =~= h);
    assert(buf.subrange(4, 4 + payload.len() as int) =~= payload);
}

} // verus!
