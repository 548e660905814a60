//! One proxied web session: its lifecycle, traffic counters and command log.
use vstd::prelude::*;
use crate::clock::now_secs;
use crate::web_proxy::command::{parse_spec, AICommand, CommandView};

verus! {

/// Where a session is in its lifecycle.
#[derive(Debug, Clone, PartialEq)]
pub enum ProxySessionState {
    Closed,
    Loading,
    Active,
    Suspended,
    Error(String),
}

impl ProxySessionState {
    pub fn label(&self) -> (r: &'static str)
        ensures
            r@ == match *self {
                ProxySessionState::Closed => "closed"@,
                ProxySessionState::Loading => "loading"@,
                ProxySessionState::Active => "active"@,
                ProxySessionState::Suspended => "suspended"@,
                ProxySessionState::Error(_) => "error"@,
            },
    {
        match self {
            ProxySessionState::Closed => "closed",
            ProxySessionState::Loading => "loading",
            ProxySessionState::Active => "active",
            ProxySessionState::Suspended => "suspended",
            ProxySessionState::Error(_) => "error",
        }
    }

    pub fn is_active(&self) -> (r: bool)
        ensures
            r == (*self is Active),
    {
        match self {
            ProxySessionState::Active => true,
            _ => false,
        }
    }

    pub fn is_closed(&self) -> (r: bool)
        ensures
            r == (*self is Closed),
    {
        match self {
            ProxySessionState::Closed => true,
            _ => false,
        }
    }
}

/// Traffic of a session.
#[derive(Debug, Clone, Copy)]
pub struct BandwidthStats {
    pub bytes_sent: u64,
    pub bytes_received: u64,
    pub requests_made: u32,
    pub requests_blocked: u32,
    pub session_start: u64,
}

/// Seconds from `start` to `now`, 0 when `now` is earlier.
pub open spec fn elapsed(start: u64, now: u64) -> u64 {
    if now >= start {
        (now - start) as u64
    } else {
        0
    }
}

impl BandwidthStats {
    /// Zero counters, started now.
    pub fn new() -> (b: Self)
        ensures
            b.bytes_sent == 0,
            b.bytes_received == 0,
            b.requests_made == 0,
            b.requests_blocked == 0,
    {
        BandwidthStats {
            bytes_sent: 0,
            bytes_received: 0,
            requests_made: 0,
            requests_blocked: 0,
            session_start: now_secs(),
        }
    }

    pub fn total_bytes(&self) -> (r: u64)
        requires
            self.bytes_sent + self.bytes_received <= u64::MAX,
        ensures
            r == self.bytes_sent + self.bytes_received,
    {
        self.bytes_sent + self.bytes_received
    }

    /// Seconds from the session's start to `now`.
    pub fn session_duration_at(&self, now: u64) -> (r: u64)
        ensures
            r == elapsed(self.session_start, now),
    {
        now.saturating_sub(self.session_start)
    }

    /// Seconds since the session started, by the system clock.
    pub fn session_duration_secs(&self) -> (r: u64)
        ensures
            exists|now: u64| #[trigger] elapsed(self.session_start, now) == r,
    {
        let now = now_secs();
        let r = self.session_duration_at(now);
        assert(elapsed(self.session_start, now) == r);
        r
    }

    /// Count a request: a blocked one only as blocked, another as made with
    /// its bytes received.
    pub fn record_request(&mut self, bytes: u64, blocked: bool)
        requires
            blocked ==> old(self).requests_blocked < u32::MAX,
            !blocked ==> old(self).requests_made < u32::MAX && old(self).bytes_received + bytes <= u64::MAX,
        ensures
            *final(self) == (if blocked {
                BandwidthStats { requests_blocked: (old(self).requests_blocked + 1) as u32, ..*old(self) }
            } else {
                BandwidthStats {
                    requests_made: (old(self).requests_made + 1) as u32,
                    bytes_received: (old(self).bytes_received + bytes) as u64,
                    ..*old(self)
                }
            }),
    {
        if blocked {
            self.requests_blocked = self.requests_blocked + 1;
        } else {
            self.requests_made = self.requests_made + 1;
            self.bytes_received = self.bytes_received + bytes;
        }
    }
}

/// A single web service session.
pub struct ProxySession {
    pub service: String,
    pub url: String,
    pub state: ProxySessionState,
    pub bandwidth: BandwidthStats,
    pub created_at: u64,
    pub page_title: Option<String>,
    pub current_url: String,
    pub command_history: Vec<AICommand>,
}

impl ProxySession {
    /// The commands handled so far, oldest first.
    pub closed spec fn history(&self) -> Seq<CommandView> {
        Seq::new(self.command_history@.len(), |i: int| self.command_history@[i]@)
    }

    /// Everything but the state is as in `other`.
    pub open spec fn same_but_state(&self, other: &ProxySession) -> bool {
        &&& self.service == other.service
        &&& self.url == other.url
        &&& self.bandwidth == other.bandwidth
        &&& self.created_at == other.created_at
        &&& self.page_title == other.page_title
        &&& self.current_url == other.current_url
        &&& self.history() == other.history()
    }

    /// A closed session for `service` at `url`, with no traffic and no
    /// commands yet.
    pub fn new(service: &str, url: &str) -> (s: Self)
        ensures
            s.service@ == service@,
            s.url@ == url@,
            s.current_url@ == url@,
            s.state is Closed,
            s.page_title is None,
            s.bandwidth.bytes_sent == 0,
            s.bandwidth.bytes_received == 0,
            s.bandwidth.requests_made == 0,
            s.bandwidth.requests_blocked == 0,
            s.history().len() == 0,
    {
        let s = ProxySession {
            service: service.to_owned(),
            url: url.to_owned(),
            state: ProxySessionState::Closed,
            bandwidth: BandwidthStats::new(),
            created_at: now_secs(),
            page_title: None,
            current_url: url.to_owned(),
            command_history: Vec::new(),
        };
        assert(s.history() =~= Seq::<CommandView>::empty());
        s
    }

    pub fn start_loading(&mut self)
        ensures
            final(self).state is Loading,
            final(self).same_but_state(old(self)),
    {
        self.state = ProxySessionState::Loading;
    }

    /// The page has loaded: the session is active with this title.
    pub fn on_loaded(&mut self, title: Option<String>)
        ensures
            final(self).state is Active,
            final(self).page_title == title,
            final(self).service == old(self).service,
            final(self).url == old(self).url,
            final(self).bandwidth == old(self).bandwidth,
            final(self).created_at == old(self).created_at,
            final(self).current_url == old(self).current_url,
            final(self).history() == old(self).history(),
    {
        self.state = ProxySessionState::Active;
        self.page_title = title;
    }

    /// An active session goes to the background; any other stays as it is.
    pub fn suspend(&mut self)
        ensures
            final(self).state == (if old(self).state is Active { ProxySessionState::Suspended } else { old(self).state }),
            final(self).same_but_state(old(self)),
    {
        if self.state.is_active() {
            self.state = ProxySessionState::Suspended;
        }
    }

    /// A suspended session becomes active again; any other stays as it is.
    pub fn resume(&mut self)
        ensures
            final(self).state == (if old(self).state is Suspended { ProxySessionState::Active } else { old(self).state }),
            final(self).same_but_state(old(self)),
    {
        if let ProxySessionState::Suspended = self.state {
            self.state = ProxySessionState::Active;
        }
    }

    pub fn close(&mut self)
        ensures
            final(self).state is Closed,
            final(self).same_but_state(old(self)),
    {
        self.state = ProxySessionState::Closed;
    }

    pub fn on_error(&mut self, err: String)
        ensures
            final(self).state == ProxySessionState::Error(err),
            final(self).same_but_state(old(self)),
    {
        self.state = ProxySessionState::Error(err);
    }

    /// Parse an utterance for this session's service; a command that comes
    /// out is logged.
    pub fn handle_command(&mut self, input: &str) -> (r: Option<AICommand>)
        ensures
            match parse_spec(input@, old(self).service@) {
                Some(v) => r is Some && r->0@ == v && final(self).history() == old(self).history().push(v),
                None => r is None && final(self).history() == old(self).history(),
            },
            final(self).state == old(self).state,
            final(self).service == old(self).service,
            final(self).url == old(self).url,
            final(self).bandwidth == old(self).bandwidth,
            final(self).created_at == old(self).created_at,
            final(self).page_title == old(self).page_title,
            final(self).current_url == old(self).current_url,
    {
        let cmd = AICommand::parse(input, self.service.as_str());
        match &cmd {
            Some(c) => {
                let ghost before = self.history();
                self.command_history.push(c.duplicate());
                assert(self.history() =~= before.push(c@));
            },
            None => {},
        }
        cmd
    }

    /// Count a request; one that was not blocked becomes the current URL.
    pub fn record_request(&mut self, url: &str, bytes: u64, blocked: bool)
        requires
            blocked ==> old(self).bandwidth.requests_blocked < u32::MAX,
            !blocked ==> old(self).bandwidth.requests_made < u32::MAX && old(self).bandwidth.bytes_received + bytes
                <= u64::MAX,
        ensures
            final(self).bandwidth == (if blocked {
                BandwidthStats {
                    requests_blocked: (old(self).bandwidth.requests_blocked + 1) as u32,
                    ..old(self).bandwidth
                }
            } else {
                BandwidthStats {
                    requests_made: (old(self).bandwidth.requests_made + 1) as u32,
                    bytes_received: (old(self).bandwidth.bytes_received + bytes) as u64,
                    ..old(self).bandwidth
                }
            }),
            final(self).current_url@ == (if blocked { old(self).current_url@ } else { url@ }),
            final(self).state == old(self).state,
            final(self).service == old(self).service,
            final(self).url == old(self).url,
            final(self).created_at == old(self).created_at,
            final(self).page_title == old(self).page_title,
            final(self).history() == old(self).history(),
    {
        self.bandwidth.record_request(bytes, blocked);
        if !blocked {
            self.current_url = url.to_owned();
        }
    }

    /// Seconds from the session's creation to `now`.
    pub fn duration_at(&self, now: u64) -> (r: u64)
        ensures
            r == elapsed(self.created_at, now),
    {
        now.saturating_sub(self.created_at)
    }

    /// Seconds since the session was created, by the system clock.
    pub fn duration_secs(&self) -> (r: u64)
        ensures
            exists|now: u64| #[trigger] elapsed(self.created_at, now) == r,
    {
        let now = now_secs();
        let r = self.duration_at(now);
        assert(elapsed(self.created_at, now) == r);
        r
    }

    pub fn command_count(&self) -> (r: usize)
        ensures
            r == self.history().len(),
    {
        self.command_history.len()
    }
}

} // verus!
