//! The always-on voice interface: the wake word, the listening state
//! machine and the command history.
use vstd::prelude::*;
use vstd::utf8::{decode_utf8, encode_utf8, is_char_boundary};
use std::collections::VecDeque;
use crate::clock::{elapsed_secs, instant_now, now_secs};
use crate::text::{chars_of, contains, contains_spec, is_whitespace, is_ws, lowercase_spec, starts_with, starts_with_spec, string_of, to_lowercase, trim, trim_spec};

verus! {

broadcast use vstd::utf8::group_utf8_lib;

pub const WAKE_WORD: &'static str = "hey os";

pub const MAX_COMMAND_LEN: usize = 500;

pub const LISTEN_TIMEOUT_SECS: u64 = 8;

pub const COMMAND_HISTORY_LEN: usize = 50;

/// The phrases that wake the device, in the order they are tried.
pub open spec fn wake_variants() -> Seq<Seq<char>> {
    seq!["hey os"@, "hey o.s."@, "hey the os"@, "wake up"@, "hey theos"@]
}

fn variant(i: usize) -> (v: &'static str)
    requires
        i < 5,
    ensures
        v@ == wake_variants()[i as int],
{
    if i == 0 {
        "hey os"
    } else if i == 1 {
        "hey o.s."
    } else if i == 2 {
        "hey the os"
    } else if i == 3 {
        "wake up"
    } else {
        "hey theos"
    }
}

/// The first wake phrase at or after `i` that `lower` starts with.
pub open spec fn wake_prefix_from(lower: Seq<char>, i: int) -> Option<int>
    decreases 5 - i,
{
    if i < 0 || i >= 5 {
        None
    } else if starts_with_spec(lower, wake_variants()[i]) {
        Some(i)
    } else {
        wake_prefix_from(lower, i + 1)
    }
}

/// The wake phrase a spoken text starts with, judged on its trimmed
/// lower-case form.
pub open spec fn wake_prefix(raw: Seq<char>) -> Option<int> {
    wake_prefix_from(lowercase_spec(trim_spec(raw)), 0)
}

/// A text can be stripped: where a wake phrase matches, its length (in
/// bytes) falls on a character boundary of the original text.
pub open spec fn strippable(raw: Seq<char>) -> bool {
    match wake_prefix(raw) {
        Some(i) => is_char_boundary(encode_utf8(raw), wake_variants()[i].len() as int),
        None => true,
    }
}

/// Separators allowed between the wake phrase and the command.
pub open spec fn is_separator(c: char) -> bool {
    c == ',' || c == '.' || c == ':' || is_ws(c)
}

/// `s` without its leading separators.
pub open spec fn skip_separators(s: Seq<char>) -> Seq<char>
    decreases s.len(),
{
    if s.len() > 0 && is_separator(s[0]) {
        skip_separators(s.drop_first())
    } else {
        s
    }
}

/// The command in a spoken text: after a wake phrase, the rest of the
/// original text (cut at the phrase's length) without leading separators,
/// trimmed; without one, the trimmed text.
pub open spec fn strip_spec(raw: Seq<char>) -> Seq<char> {
    match wake_prefix(raw) {
        Some(i) => {
            let b = encode_utf8(raw);
            let rest = decode_utf8(b.subrange(wake_variants()[i].len() as int, b.len() as int));
            trim_spec(skip_separators(rest))
        },
        None => trim_spec(raw),
    }
}

/// The text mentions a wake phrase, in any case.
pub open spec fn contains_wake_spec(input: Seq<char>) -> bool {
    exists|i: int| 0 <= i < 5 && contains_spec(lowercase_spec(input), #[trigger] wake_variants()[i])
}

fn skip_separators_exec(s: &[char]) -> (r: Vec<char>)
    ensures
        r@ == skip_separators(s@),
{
    let mut i: usize = 0;
    assert(s@.skip(0) =~= s@);
    while i < s.len() && (s[i] == ',' || s[i] == '.' || s[i] == ':' || is_whitespace(s[i]))
        invariant
            i <= s@.len(),
            skip_separators(s@) == skip_separators(s@.skip(i as int)),
        decreases s@.len() - i,
    {
        proof {
            assert(s@.skip(i as int).drop_first() =~= s@.skip(i + 1));
        }
        i += 1;
    }
    let mut r: Vec<char> = Vec::new();
    let mut k = i;
    while k < s.len()
        invariant
            i <= k <= s@.len(),
            r@ == s@.subrange(i as int, k as int),
        decreases s@.len() - k,
    {
        r.push(s[k]);
        proof {
            assert(r@ =~= s@.subrange(i as int, k + 1));
        }
        k += 1;
    }
    assert(r@ =~= s@.skip(i as int));
    r
}

/// Remove a leading wake phrase and separators from a spoken command.
pub fn strip_wake_word(raw: &str) -> (r: String)
    requires
        strippable(raw@),
    ensures
        r@ == strip_spec(raw@),
{
    let t = trim(chars_of(raw).as_slice());
    let ts = string_of(t.as_slice());
    let low = to_lowercase(ts.as_str());
    let lower = chars_of(low.as_str());
    let mut i: usize = 0;
    while i < 5
        invariant
            i <= 5,
            lower@ == lowercase_spec(trim_spec(raw@)),
            wake_prefix(raw@) == wake_prefix_from(lower@, i as int),
            strippable(raw@),
        decreases 5 - i,
    {
        let v = variant(i);
        let vc = chars_of(v);
        if starts_with(lower.as_slice(), vc.as_slice()) {
            proof {
                reveal_strlit("hey os");
                reveal_strlit("hey o.s.");
                reveal_strlit("hey the os");
                reveal_strlit("wake up");
                reveal_strlit("hey theos");
                assert(v@.len() == encode_utf8(v@).len()) by {
                    vstd::utf8::is_ascii_chars_encode_utf8(v@);
                }
            }
            let (_, rest) = raw.split_at(v.len());
            proof {
                let b = encode_utf8(raw@);
                assert(encode_utf8(rest@) =~= b.subrange(v@.len() as int, b.len() as int));
                assert(decode_utf8(encode_utf8(rest@)) == rest@);
            }
            let rc = chars_of(rest);
            let skipped = skip_separators_exec(rc.as_slice());
            let out = trim(skipped.as_slice());
            return string_of(out.as_slice());
        }
        i += 1;
    }
    string_of(t.as_slice())
}

/// Strip a spoken command wherever the text allows it: `None` when a wake
/// phrase matches but its length does not fall on a character boundary of
/// the text, so that the command cannot be cut out.
pub fn try_strip_wake_word(raw: &str) -> (r: Option<String>)
    ensures
        match r {
            Some(s) => strippable(raw@) && s@ == strip_spec(raw@),
            None => !strippable(raw@),
        },
{
    let t = trim(chars_of(raw).as_slice());
    let ts = string_of(t.as_slice());
    let low = to_lowercase(ts.as_str());
    let lower = chars_of(low.as_str());
    let mut i: usize = 0;
    while i < 5
        invariant
            i <= 5,
            lower@ == lowercase_spec(trim_spec(raw@)),
            wake_prefix(raw@) == wake_prefix_from(lower@, i as int),
        decreases 5 - i,
    {
        let v = variant(i);
        let vc = chars_of(v);
        if starts_with(lower.as_slice(), vc.as_slice()) {
            if !raw.is_char_boundary(v.len()) {
                proof {
                    reveal_strlit("hey os");
                    reveal_strlit("hey o.s.");
                    reveal_strlit("hey the os");
                    reveal_strlit("wake up");
                    reveal_strlit("hey theos");
                    assert(v@.len() == encode_utf8(v@).len()) by {
                        vstd::utf8::is_ascii_chars_encode_utf8(v@);
                    }
                }
                return None;
            }
            proof {
                reveal_strlit("hey os");
                reveal_strlit("hey o.s.");
                reveal_strlit("hey the os");
                reveal_strlit("wake up");
                reveal_strlit("hey theos");
                assert(v@.len() == encode_utf8(v@).len()) by {
                    vstd::utf8::is_ascii_chars_encode_utf8(v@);
                }
            }
            return Some(strip_wake_word(raw));
        }
        i += 1;
    }
    Some(strip_wake_word(raw))
}

/// Whether a text mentions a wake phrase (in any case).
pub fn contains_wake_word(input: &str) -> (r: bool)
    ensures
        r == contains_wake_spec(input@),
{
    let low = to_lowercase(input);
    let lower = chars_of(low.as_str());
    let mut i: usize = 0;
    while i < 5
        invariant
            i <= 5,
            lower@ == lowercase_spec(input@),
            forall|k: int| 0 <= k < i ==> !contains_spec(lower@, #[trigger] wake_variants()[k]),
        decreases 5 - i,
    {
        let vc = chars_of(variant(i));
        if contains(lower.as_slice(), vc.as_slice()) {
            return true;
        }
        i += 1;
    }
    false
}

#[derive(Debug, Clone, PartialEq)]
pub enum WakeState {
    Sleeping,
    Listening { started_at: u64 },
    Processing { command: String },
    Responding,
}

impl WakeState {
    pub fn label(&self) -> (r: &'static str)
        ensures
            r@ == match *self {
                WakeState::Sleeping => "sleeping"@,
                WakeState::Listening { .. } => "listening"@,
                WakeState::Processing { .. } => "processing"@,
                WakeState::Responding => "responding"@,
            },
    {
        match self {
            WakeState::Sleeping => "sleeping",
            WakeState::Listening { .. } => "listening",
            WakeState::Processing { .. } => "processing",
            WakeState::Responding => "responding",
        }
    }

    pub fn is_sleeping(&self) -> (r: bool)
        ensures
            r == (*self is Sleeping),
    {
        match self {
            WakeState::Sleeping => true,
            _ => false,
        }
    }

    pub fn is_listening(&self) -> (r: bool)
        ensures
            r == (*self is Listening),
    {
        match self {
            WakeState::Listening { .. } => true,
            _ => false,
        }
    }

    pub fn is_processing(&self) -> (r: bool)
        ensures
            r == (*self is Processing),
    {
        match self {
            WakeState::Processing { .. } => true,
            _ => false,
        }
    }

    pub fn is_responding(&self) -> (r: bool)
        ensures
            r == (*self is Responding),
    {
        match self {
            WakeState::Responding => true,
            _ => false,
        }
    }

    /// Anything but sleeping.
    pub fn is_active(&self) -> (r: bool)
        ensures
            r == !(*self is Sleeping),
    {
        !self.is_sleeping()
    }
}

/// A spoken command as heard and as stripped.
#[derive(Debug, Clone)]
pub struct CommandRecord {
    pub raw: String,
    pub stripped: String,
    pub timestamp: u64,
    pub executed: bool,
}

impl CommandRecord {
    pub fn new(raw: String, timestamp: u64) -> (c: Self)
        requires
            strippable(raw@),
        ensures
            c.raw == raw,
            c.stripped@ == strip_spec(raw@),
            c.timestamp == timestamp,
            !c.executed,
    {
        let stripped = strip_wake_word(raw.as_str());
        CommandRecord { raw, stripped, timestamp, executed: false }
    }
}

/// The voice state machine.
pub struct WakeEngine {
    pub state: WakeState,
    pub history: VecDeque<CommandRecord>,
    pub total_wakes: u64,
    pub false_wakes: u64,
    pub listen_start: Option<std::time::Instant>,
}

/// What the listen timeout does to engine `e`, giving `e2`, with
/// `elapsed` seconds since listening began: a listening engine that has
/// heard nothing for the timeout counts a false wake and sleeps; otherwise
/// nothing changes.
pub open spec fn timed_out(e: WakeEngine, e2: WakeEngine, elapsed: u64) -> bool {
    if e.state is Listening && e.listen_start is Some && elapsed >= LISTEN_TIMEOUT_SECS {
        e2.state is Sleeping && e2.false_wakes == e.false_wakes + 1 && e2.listen_start is None
    } else {
        e2.state == e.state && e2.false_wakes == e.false_wakes && e2.listen_start == e.listen_start
    }
}

impl WakeEngine {
    pub open spec fn wf(&self) -> bool {
        self.history@.len() <= COMMAND_HISTORY_LEN
    }

    pub fn new() -> (e: Self)
        ensures
            e.wf(),
            e.state is Sleeping,
            e.history@.len() == 0,
            e.total_wakes == 0,
            e.false_wakes == 0,
            e.listen_start is None,
    {
        WakeEngine {
            state: WakeState::Sleeping,
            history: VecDeque::new(),
            total_wakes: 0,
            false_wakes: 0,
            listen_start: None,
        }
    }

    /// The wake phrase was heard: a sleeping engine starts listening; in
    /// any other state nothing changes.
    pub fn on_wake_detected(&mut self)
        requires
            old(self).total_wakes < u64::MAX,
        ensures
            final(self).history == old(self).history,
            final(self).false_wakes == old(self).false_wakes,
            if old(self).state is Sleeping {
                final(self).state is Listening && final(self).total_wakes == old(self).total_wakes + 1
                    && final(self).listen_start is Some
            } else {
                final(self).state == old(self).state && final(self).total_wakes == old(self).total_wakes
                    && final(self).listen_start == old(self).listen_start
            },
    {
        if self.state.is_sleeping() {
            self.total_wakes = self.total_wakes + 1;
            self.state = WakeState::Listening { started_at: now_secs() };
            self.listen_start = Some(instant_now());
        }
    }

    /// A command was heard.  While listening, an empty command (only the
    /// wake phrase) counts as a false wake and the engine sleeps; another
    /// is recorded (the oldest record goes past the history's length) and
    /// processed.  In any other state nothing changes.
    pub fn on_command_received(&mut self, raw: String)
        requires
            old(self).wf(),
            strippable(raw@),
            old(self).false_wakes < u64::MAX,
        ensures
            final(self).wf(),
            final(self).total_wakes == old(self).total_wakes,
            !(old(self).state is Listening) ==> final(self).state == old(self).state && final(self).history
                == old(self).history && final(self).false_wakes == old(self).false_wakes,
            old(self).state is Listening && strip_spec(raw@).len() == 0 ==> final(self).state is Sleeping
                && final(self).false_wakes == old(self).false_wakes + 1 && final(self).history == old(self).history,
            old(self).state is Listening && strip_spec(raw@).len() > 0 ==> {
                &&& final(self).state is Processing
                &&& final(self).state->command@ == strip_spec(raw@)
                &&& final(self).false_wakes == old(self).false_wakes
                &&& final(self).listen_start is None
                &&& final(self).history@.len() > 0
                &&& final(self).history@.last().raw == raw
                &&& final(self).history@.last().stripped@ == strip_spec(raw@)
                &&& !final(self).history@.last().executed
                &&& final(self).history@.drop_last() == (if old(self).history@.len() >= COMMAND_HISTORY_LEN {
                    old(self).history@.drop_first()
                } else {
                    old(self).history@
                })
            },
    {
        if self.state.is_listening() {
            let record = CommandRecord::new(raw, now_secs());
            let command = record.stripped.clone();
            if command.as_str().is_empty() {
                self.false_wakes = self.false_wakes + 1;
                self.state = WakeState::Sleeping;
                return;
            }
            let ghost before = self.history@;
            self.history.push_back(record);
            if self.history.len() > COMMAND_HISTORY_LEN {
                self.history.pop_front();
            }
            assert(self.history@.drop_last() =~= (if before.len() >= COMMAND_HISTORY_LEN {
                before.drop_first()
            } else {
                before
            }));
            self.state = WakeState::Processing { command };
            self.listen_start = None;
        }
    }

    /// The command was carried out: its record is marked executed and the
    /// engine responds.  In any other state than processing nothing changes.
    pub fn on_command_executed(&mut self)
        requires
            old(self).wf(),
        ensures
            final(self).wf(),
            final(self).total_wakes == old(self).total_wakes,
            final(self).false_wakes == old(self).false_wakes,
            final(self).listen_start == old(self).listen_start,
            if old(self).state is Processing {
                &&& final(self).state is Responding
                &&& final(self).history@.len() == old(self).history@.len()
                &&& old(self).history@.len() > 0 ==> final(self).history@.last() == CommandRecord {
                    executed: true,
                    ..old(self).history@.last()
                } && final(self).history@.drop_last() == old(self).history@.drop_last()
                &&& old(self).history@.len() == 0 ==> final(self).history@ == old(self).history@
            } else {
                final(self).state == old(self).state && final(self).history == old(self).history
            },
    {
        if self.state.is_processing() {
            if self.history.len() > 0 {
                let ghost before = self.history@;
                match self.history.pop_back() {
                    Some(mut rec) => {
                        rec.executed = true;
                        self.history.push_back(rec);
                        assert(self.history@.drop_last() =~= before.drop_last());
                    },
                    None => {},
                }
            }
            self.state = WakeState::Responding;
        }
    }

    /// The response is finished: a responding engine sleeps.
    pub fn on_response_complete(&mut self)
        ensures
            final(self).state == (if old(self).state is Responding { WakeState::Sleeping } else { old(self).state }),
            final(self).history == old(self).history,
            final(self).total_wakes == old(self).total_wakes,
            final(self).false_wakes == old(self).false_wakes,
            final(self).listen_start == old(self).listen_start,
    {
        if self.state.is_responding() {
            self.state = WakeState::Sleeping;
        }
    }

    /// With `elapsed` seconds since listening began: a listening engine
    /// that has heard nothing for the timeout counts a false wake and sleeps.
    pub fn tick_elapsed(&mut self, elapsed: u64)
        requires
            old(self).false_wakes < u64::MAX,
        ensures
            final(self).history == old(self).history,
            final(self).total_wakes == old(self).total_wakes,
            timed_out(*old(self), *final(self), elapsed),
    {
        if self.state.is_listening() && self.listen_start.is_some() && elapsed >= LISTEN_TIMEOUT_SECS {
            self.false_wakes = self.false_wakes + 1;
            self.state = WakeState::Sleeping;
            self.listen_start = None;
        }
    }

    /// Time out a listening engine by the clock.
    pub fn tick(&mut self)
        requires
            old(self).false_wakes < u64::MAX,
        ensures
            final(self).history == old(self).history,
            final(self).total_wakes == old(self).total_wakes,
            (final(self).state == old(self).state && final(self).false_wakes == old(self).false_wakes
                && final(self).listen_start == old(self).listen_start) || (old(self).state is Listening
                && old(self).listen_start is Some && final(self).state is Sleeping && final(self).false_wakes
                == old(self).false_wakes + 1 && final(self).listen_start is None),
            exists|elapsed: u64| #[trigger] timed_out(*old(self), *final(self), elapsed),
    {
        let elapsed = match &self.listen_start {
            Some(start) => elapsed_secs(start),
            None => 0,
        };
        self.tick_elapsed(elapsed);
        proof {
            assert(timed_out(*old(self), *self, elapsed));
        }
    }

    /// The command being processed.
    pub fn current_command(&self) -> (r: Option<&str>)
        ensures
            match self.state {
                WakeState::Processing { command } => r is Some && r->0@ == command@,
                _ => r is None,
            },
    {
        match &self.state {
            WakeState::Processing { command } => Some(command.as_str()),
            _ => None,
        }
    }

    /// Stop listening or responding at once.
    pub fn force_sleep(&mut self)
        ensures
            final(self).state is Sleeping,
            final(self).listen_start is None,
            final(self).history == old(self).history,
            final(self).total_wakes == old(self).total_wakes,
            final(self).false_wakes == old(self).false_wakes,
    {
        self.state = WakeState::Sleeping;
        self.listen_start = None;
    }

    /// The last `n` records, newest first.
    pub fn recent_commands(&self, n: usize) -> (v: Vec<&CommandRecord>)
        ensures
            v@.len() == (if n < self.history@.len() { n as int } else { self.history@.len() as int }),
            forall|k: int| 0 <= k < v@.len() ==> *v@[k] == self.history@[self.history@.len() - 1 - k],
    {
        let len = self.history.len();
        let mut v: Vec<&CommandRecord> = Vec::new();
        let mut k: usize = 0;
        while k < n && k < len
            invariant
                len == self.history@.len(),
                k <= len,
                k <= n,
                v@.len() == k,
                forall|j: int| 0 <= j < k ==> *v@[j] == self.history@[len - 1 - j],
            decreases len - k,
        {
            v.push(&self.history[len - 1 - k]);
            k += 1;
        }
        v
    }

    pub fn command_count(&self) -> (r: usize)
        ensures
            r == self.history@.len(),
    {
        self.history.len()
    }
}

} // verus!
