//! The decisions of speech-to-text: which backend runs, the statistics
//! kept over transcriptions, the silence count behind voice activity
//! detection, when an utterance ends and what a transcription gives, and
//! the clean-up of a transcription before command routing.  The audio
//! samples themselves (floating point) and their loudness stay with the
//! caller, which reports each frame as silent or not.
use vstd::prelude::*;
use std::collections::VecDeque;
use crate::text::{chars_of, lowercase_spec, starts_with, starts_with_spec, string_of, to_lowercase, trim, trim_spec};

verus! {

/// Sample rate Whisper takes (16 kHz mono PCM16).
pub const WHISPER_SAMPLE_RATE: u32 = 16000;

/// Bytes per PCM16 sample.
pub const BYTES_PER_SAMPLE: u32 = 2;

/// The longest audio transcribed, in seconds.
pub const MAX_AUDIO_SECS: u32 = 10;

/// The shortest audio worth transcribing, in milliseconds.
pub const MIN_AUDIO_MS: u32 = 200;

/// Silence that ends an utterance, in milliseconds.
pub const VAD_SILENCE_MS: u32 = 500;

/// Which engine transcribes.
#[derive(Debug, Clone, PartialEq)]
pub enum SttBackend {
    /// Whisper on the compute DSP (production).
    WhisperCdsp { model_path: String },
    /// Whisper on the CPU, when the DSP is unavailable.
    WhisperCpu { model_path: String },
    /// Injected transcriptions, for tests and development.
    Stub,
}

impl SttBackend {
    /// The backend's name.
    pub fn label(&self) -> (s: &str)
        ensures
            s@ == match *self {
                SttBackend::WhisperCdsp { .. } => "whisper-cdsp"@,
                SttBackend::WhisperCpu { .. } => "whisper-cpu"@,
                SttBackend::Stub => "stub"@,
            },
    {
        match self {
            SttBackend::WhisperCdsp { .. } => "whisper-cdsp",
            SttBackend::WhisperCpu { .. } => "whisper-cpu",
            SttBackend::Stub => "stub",
        }
    }

    /// Whether the backend needs real hardware.
    pub fn is_hardware(&self) -> (b: bool)
        ensures
            b == !(*self is Stub),
    {
        !matches!(self, SttBackend::Stub)
    }
}

/// Counts over the transcriptions made.
#[derive(Debug, Clone)]
pub struct SttStats {
    pub total_transcriptions: u64,
    pub successful: u64,
    pub failed: u64,
    pub low_confidence: u64,
    pub total_audio_ms: u64,
    pub total_latency_ms: u64,
    pub vad_rejected: u64,
}

impl Default for SttStats {
    fn default() -> (s: Self)
        ensures
            s.total_transcriptions == 0 && s.successful == 0 && s.failed == 0 && s.low_confidence == 0
                && s.total_audio_ms == 0 && s.total_latency_ms == 0 && s.vad_rejected == 0,
    {
        SttStats {
            total_transcriptions: 0,
            successful: 0,
            failed: 0,
            low_confidence: 0,
            total_audio_ms: 0,
            total_latency_ms: 0,
            vad_rejected: 0,
        }
    }
}

impl SttStats {
    /// Count one transcription of `audio_ms` of audio that took
    /// `latency_ms`: a success when confident and not blank, low confidence
    /// when not confident, a failure otherwise.
    pub fn record_outcome(&mut self, audio_ms: u32, latency_ms: u32, confident: bool, empty: bool)
        requires
            old(self).total_transcriptions < u64::MAX,
            old(self).total_audio_ms + audio_ms <= u64::MAX,
            old(self).total_latency_ms + latency_ms <= u64::MAX,
            old(self).successful < u64::MAX,
            old(self).low_confidence < u64::MAX,
            old(self).failed < u64::MAX,
        ensures
            final(self).total_transcriptions == old(self).total_transcriptions + 1,
            final(self).total_audio_ms == old(self).total_audio_ms + audio_ms,
            final(self).total_latency_ms == old(self).total_latency_ms + latency_ms,
            final(self).successful == old(self).successful + (if confident && !empty {
                1int
            } else {
                0
            }),
            final(self).low_confidence == old(self).low_confidence + (if !confident {
                1int
            } else {
                0
            }),
            final(self).failed == old(self).failed + (if confident && empty {
                1int
            } else {
                0
            }),
            final(self).vad_rejected == old(self).vad_rejected,
    {
        self.total_transcriptions = self.total_transcriptions + 1;
        self.total_audio_ms = self.total_audio_ms + audio_ms as u64;
        self.total_latency_ms = self.total_latency_ms + latency_ms as u64;
        if confident && !empty {
            self.successful = self.successful + 1;
        } else if !confident {
            self.low_confidence = self.low_confidence + 1;
        } else {
            self.failed = self.failed + 1;
        }
    }

    /// Count audio turned away as too short.
    pub fn record_rejected(&mut self)
        requires
            old(self).vad_rejected < u64::MAX,
        ensures
            final(self).vad_rejected == old(self).vad_rejected + 1,
            final(self).total_transcriptions == old(self).total_transcriptions,
            final(self).successful == old(self).successful,
            final(self).failed == old(self).failed,
            final(self).low_confidence == old(self).low_confidence,
            final(self).total_audio_ms == old(self).total_audio_ms,
            final(self).total_latency_ms == old(self).total_latency_ms,
    {
        self.vad_rejected = self.vad_rejected + 1;
    }
}

/// The silence count of the voice activity detector: how many frames in a
/// row were silent, and when that makes the end of an utterance.
#[derive(Debug, Clone)]
pub struct SilenceCounter {
    /// Silence that ends an utterance, in milliseconds.
    pub silence_ms: u32,
    pub consecutive_silence_frames: u32,
    pub frame_duration_ms: u32,
}

impl SilenceCounter {
    /// 20 ms frames; half a second of silence ends an utterance.
    pub fn new() -> (c: Self)
        ensures
            c.silence_ms == VAD_SILENCE_MS,
            c.consecutive_silence_frames == 0,
            c.frame_duration_ms == 20,
    {
        SilenceCounter { silence_ms: VAD_SILENCE_MS, consecutive_silence_frames: 0, frame_duration_ms: 20 }
    }

    /// Count a frame: a silent one extends the run, speech ends it.  Returns
    /// whether the frame was speech.
    pub fn record_frame(&mut self, silent: bool) -> (speech: bool)
        requires
            silent ==> old(self).consecutive_silence_frames < u32::MAX,
        ensures
            speech == !silent,
            final(self).consecutive_silence_frames == (if silent {
                old(self).consecutive_silence_frames + 1
            } else {
                0
            }),
            final(self).silence_ms == old(self).silence_ms,
            final(self).frame_duration_ms == old(self).frame_duration_ms,
    {
        if silent {
            self.consecutive_silence_frames = self.consecutive_silence_frames + 1;
            false
        } else {
            self.consecutive_silence_frames = 0;
            true
        }
    }

    /// The silence so far, in milliseconds.
    pub fn silence_duration_ms(&self) -> (ms: u32)
        requires
            self.consecutive_silence_frames * self.frame_duration_ms <= u32::MAX,
        ensures
            ms == self.consecutive_silence_frames * self.frame_duration_ms,
    {
        self.consecutive_silence_frames * self.frame_duration_ms
    }

    /// Enough silence has passed to end the utterance.
    pub fn end_of_speech(&self) -> (b: bool)
        requires
            self.consecutive_silence_frames * self.frame_duration_ms <= u32::MAX,
        ensures
            b == (self.consecutive_silence_frames * self.frame_duration_ms >= self.silence_ms),
    {
        self.silence_duration_ms() >= self.silence_ms
    }

    /// Start counting afresh.
    pub fn reset(&mut self)
        ensures
            final(self).consecutive_silence_frames == 0,
            final(self).silence_ms == old(self).silence_ms,
            final(self).frame_duration_ms == old(self).frame_duration_ms,
    {
        self.consecutive_silence_frames = 0;
    }
}

/// Trailing punctuation dropped from a transcription.
pub open spec fn is_end_punct(c: char) -> bool {
    c == '.' || c == ',' || c == '!' || c == '?'
}

/// `s` without its trailing punctuation (`trim_end_matches`).
pub open spec fn trim_end_punct(s: Seq<char>) -> Seq<char>
    decreases s.len(),
{
    if s.len() > 0 && is_end_punct(s.last()) {
        trim_end_punct(s.drop_last())
    } else {
        s
    }
}

/// `s` with a leading filler word cut off (and the rest trimmed).
pub open spec fn drop_filler(s: Seq<char>, filler: Seq<char>) -> Seq<char> {
    if starts_with_spec(s, filler) {
        trim_spec(s.skip(filler.len() as int))
    } else {
        s
    }
}

/// A transcription ready for command routing: trimmed, lower-cased,
/// trailing punctuation dropped, then the fillers "um ", "uh ", "like ",
/// "so " cut off in that order where they lead.
pub open spec fn cleaned_spec(text: Seq<char>) -> Seq<char> {
    let s = trim_spec(trim_end_punct(lowercase_spec(trim_spec(text))));
    drop_filler(drop_filler(drop_filler(drop_filler(s, "um "@), "uh "@), "like "@), "so "@)
}

fn drop_filler_exec(s: Vec<char>, filler: &str) -> (r: Vec<char>)
    ensures
        r@ == drop_filler(s@, filler@),
{
    let f = chars_of(filler);
    if starts_with(s.as_slice(), f.as_slice()) {
        let mut rest: Vec<char> = Vec::new();
        let mut i = f.len();
        while i < s.len()
            invariant
                f@.len() <= i <= s@.len(),
                rest@ == s@.subrange(f@.len() as int, i as int),
            decreases s@.len() - i,
        {
            rest.push(s[i]);
            proof {
                assert(rest@ =~= s@.subrange(f@.len() as int, i + 1));
            }
            i += 1;
        }
        proof {
            assert(rest@ =~= s@.skip(f@.len() as int));
        }
        trim(rest.as_slice())
    } else {
        s
    }
}

/// Clean a transcription for command routing (see `cleaned_spec`).
pub fn cleaned_text(text: &str) -> (r: String)
    ensures
        r@ == cleaned_spec(text@),
{
    let t = string_of(trim(chars_of(text).as_slice()).as_slice());
    let low = chars_of(to_lowercase(t.as_str()).as_str());
    let mut n = low.len();
    let ghost l = low@;
    assert(l.take(n as int) =~= l);
    while n > 0 && (low[n - 1] == '.' || low[n - 1] == ',' || low[n - 1] == '!' || low[n - 1] == '?')
        invariant
            n <= l.len(),
            l == low@,
            trim_end_punct(l) == trim_end_punct(l.take(n as int)),
        decreases n,
    {
        proof {
            assert(l.take(n as int).drop_last() =~= l.take(n - 1));
        }
        n -= 1;
    }
    let mut kept: Vec<char> = Vec::new();
    let mut i: usize = 0;
    while i < n
        invariant
            n <= l.len(),
            l == low@,
            i <= n,
            kept@ == l.take(i as int),
        decreases n - i,
    {
        kept.push(low[i]);
        proof {
            assert(kept@ =~= l.take(i + 1));
        }
        i += 1;
    }
    let s = trim(kept.as_slice());
    let s = drop_filler_exec(s, "um ");
    let s = drop_filler_exec(s, "uh ");
    let s = drop_filler_exec(s, "like ");
    let s = drop_filler_exec(s, "so ");
    string_of(s.as_slice())
}

/// The transcription is blank: nothing but whitespace.
pub fn text_is_blank(text: &str) -> (b: bool)
    ensures
        b == (trim_spec(text@).len() == 0),
{
    trim(chars_of(text).as_slice()).len() == 0
}

/// Audio frames kept (20 ms each): ten seconds.
pub const MAX_BUFFER_FRAMES: usize = 500;

/// What one transcription gave.
pub struct SttTranscript {
    /// The text, trimmed and lower-cased.
    pub text: String,
    /// Whether the backend is confident of it (the stub is, for any
    /// injected text that is not empty; Whisper is not wired and never is).
    pub confident: bool,
    pub audio_ms: u32,
    pub latency_ms: u32,
    pub backend: String,
    pub timestamp: u64,
}

/// The label of a backend, as a spec value.
pub open spec fn backend_label_spec(b: SttBackend) -> Seq<char> {
    match b {
        SttBackend::WhisperCdsp { .. } => "whisper-cdsp"@,
        SttBackend::WhisperCpu { .. } => "whisper-cpu"@,
        SttBackend::Stub => "stub"@,
    }
}

/// The speech-to-text engine's state: the backend, statistics, silence
/// count, how many audio frames are buffered, the stub's queued texts and
/// whether it is listening.
pub struct SttEngine {
    pub backend: SttBackend,
    pub stats: SttStats,
    pub vad: SilenceCounter,
    pub buffered_frames: usize,
    pub stub_queue: VecDeque<String>,
    pub listening: bool,
}

impl SttEngine {
    /// A stub engine: injected texts instead of a model.
    pub fn new_stub() -> (e: Self)
        ensures
            e.backend == SttBackend::Stub,
            e.vad.consecutive_silence_frames == 0 && e.vad.frame_duration_ms == 20 && e.vad.silence_ms
                == VAD_SILENCE_MS,
            e.buffered_frames == 0,
            e.stub_queue@.len() == 0,
            !e.listening,
            e.stats.total_transcriptions == 0 && e.stats.vad_rejected == 0 && e.stats.successful == 0
                && e.stats.failed == 0 && e.stats.low_confidence == 0 && e.stats.total_audio_ms == 0
                && e.stats.total_latency_ms == 0,
    {
        SttEngine {
            backend: SttBackend::Stub,
            stats: SttStats::default(),
            vad: SilenceCounter::new(),
            buffered_frames: 0,
            stub_queue: VecDeque::new(),
            listening: false,
        }
    }

    /// Queue a transcription for the stub to return.
    pub fn inject(&mut self, text: &str)
        ensures
            final(self).stub_queue@.len() == old(self).stub_queue@.len() + 1,
            final(self).stub_queue@.take(old(self).stub_queue@.len() as int) == old(self).stub_queue@,
            final(self).stub_queue@.last()@ == text@,
            final(self).listening == old(self).listening,
            final(self).buffered_frames == old(self).buffered_frames,
    {
        let ghost q0 = self.stub_queue@;
        self.stub_queue.push_back(text.to_owned());
        proof {
            assert(self.stub_queue@.take(q0.len() as int) =~= q0);
        }
    }

    /// Start listening with an empty buffer and silence count.
    pub fn start_listening(&mut self)
        ensures
            final(self).listening,
            final(self).buffered_frames == 0,
            final(self).vad.consecutive_silence_frames == 0,
            final(self).vad.frame_duration_ms == old(self).vad.frame_duration_ms,
            final(self).vad.silence_ms == old(self).vad.silence_ms,
            final(self).stub_queue@ == old(self).stub_queue@,
    {
        self.listening = true;
        self.buffered_frames = 0;
        self.vad.reset();
    }

    /// Stop listening and drop the buffered audio.
    pub fn stop_listening(&mut self)
        ensures
            !final(self).listening,
            final(self).buffered_frames == 0,
            final(self).vad.consecutive_silence_frames == 0,
            final(self).vad.frame_duration_ms == old(self).vad.frame_duration_ms,
            final(self).vad.silence_ms == old(self).vad.silence_ms,
            final(self).stub_queue@ == old(self).stub_queue@,
    {
        self.listening = false;
        self.buffered_frames = 0;
        self.vad.reset();
    }

    /// Milliseconds of audio buffered.
    pub fn buffer_duration_ms(&self) -> (ms: u32)
        requires
            self.buffered_frames <= MAX_BUFFER_FRAMES,
        ensures
            ms == self.buffered_frames * 20,
    {
        self.buffered_frames as u32 * 20
    }

    /// Take a 20 ms frame the caller judged silent or not: it joins the
    /// buffer (the oldest frame dropping once ten seconds are held).  Returns
    /// true when the utterance has ended: this frame silent, enough silence
    /// in a row, and more than the shortest transcribable audio buffered.
    /// Ignored while not listening.
    pub fn push_frame(&mut self, silent: bool) -> (end: bool)
        requires
            old(self).buffered_frames <= MAX_BUFFER_FRAMES,
            old(self).vad.frame_duration_ms == 20,
            silent ==> (old(self).vad.consecutive_silence_frames + 1) * 20 <= u32::MAX,
        ensures
            final(self).buffered_frames <= MAX_BUFFER_FRAMES,
            final(self).vad.frame_duration_ms == 20,
            final(self).stub_queue@ == old(self).stub_queue@,
            final(self).listening == old(self).listening,
            !old(self).listening ==> !end && final(self).buffered_frames == old(self).buffered_frames
                && final(self).vad == old(self).vad,
            old(self).listening ==> {
                &&& final(self).buffered_frames == (if old(self).buffered_frames < MAX_BUFFER_FRAMES {
                    old(self).buffered_frames + 1
                } else {
                    MAX_BUFFER_FRAMES as int
                })
                &&& final(self).vad.consecutive_silence_frames == (if silent {
                    old(self).vad.consecutive_silence_frames + 1
                } else {
                    0
                })
                &&& end == (silent && final(self).vad.consecutive_silence_frames * 20 >= old(self).vad.silence_ms
                    && final(self).buffered_frames * 20 > MIN_AUDIO_MS)
            },
    {
        if !self.listening {
            return false;
        }
        let speech = self.vad.record_frame(silent);
        if self.buffered_frames < MAX_BUFFER_FRAMES {
            self.buffered_frames = self.buffered_frames + 1;
        }
        !speech && self.vad.end_of_speech() && self.buffer_duration_ms() > MIN_AUDIO_MS
    }

    /// Transcribe the buffered audio: too little audio is turned away (and
    /// counted); otherwise the stub hands out its next queued text (or
    /// nothing), Whisper a placeholder, the statistics count the outcome,
    /// and the buffer and silence count are cleared.  The transcript comes
    /// back only when confident and not blank.  `latency_ms` is how long
    /// the backend took, `now` the clock.
    pub fn transcribe_at(&mut self, latency_ms: u32, now: u64) -> (r: Option<SttTranscript>)
        requires
            old(self).buffered_frames <= MAX_BUFFER_FRAMES,
            old(self).stats.vad_rejected < u64::MAX,
            old(self).stats.total_transcriptions < u64::MAX,
            old(self).stats.successful < u64::MAX,
            old(self).stats.low_confidence < u64::MAX,
            old(self).stats.failed < u64::MAX,
            old(self).stats.total_audio_ms + MAX_BUFFER_FRAMES * 20 <= u64::MAX,
            old(self).stats.total_latency_ms + latency_ms <= u64::MAX,
        ensures
            old(self).buffered_frames * 20 < MIN_AUDIO_MS ==> r is None && final(self).stats.vad_rejected == old(
                self,
            ).stats.vad_rejected + 1 && final(self).buffered_frames == old(self).buffered_frames
                && final(self).stub_queue@ == old(self).stub_queue@,
            old(self).buffered_frames * 20 >= MIN_AUDIO_MS ==> {
                let stub = old(self).backend is Stub;
                let raw = if stub && old(self).stub_queue@.len() > 0 {
                    old(self).stub_queue@[0]@
                } else {
                    Seq::empty()
                };
                let text = if stub {
                    lowercase_spec(trim_spec(raw))
                } else {
                    "whisper not yet wired"@
                };
                let confident = stub && raw.len() > 0;
                &&& final(self).stub_queue@ == (if stub && old(self).stub_queue@.len() > 0 {
                    old(self).stub_queue@.drop_first()
                } else {
                    old(self).stub_queue@
                })
                &&& final(self).buffered_frames == 0
                &&& final(self).vad.consecutive_silence_frames == 0
                &&& final(self).stats.total_transcriptions == old(self).stats.total_transcriptions + 1
                &&& final(self).stats.total_audio_ms == old(self).stats.total_audio_ms + old(self).buffered_frames * 20
                &&& final(self).stats.total_latency_ms == old(self).stats.total_latency_ms + latency_ms
                &&& final(self).stats.successful == old(self).stats.successful + (if confident && trim_spec(text).len()
                    > 0 {
                    1int
                } else {
                    0
                })
                &&& final(self).stats.low_confidence == old(self).stats.low_confidence + (if !confident {
                    1int
                } else {
                    0
                })
                &&& final(self).stats.failed == old(self).stats.failed + (if confident && trim_spec(text).len() == 0 {
                    1int
                } else {
                    0
                })
                &&& (confident && trim_spec(text).len() > 0 ==> r is Some && r->0.text@ == text && r->0.confident
                    && r->0.audio_ms == old(self).buffered_frames * 20 && r->0.latency_ms == latency_ms
                    && r->0.backend@ == backend_label_spec(old(self).backend) && r->0.timestamp == now)
                &&& (!(confident && trim_spec(text).len() > 0) ==> r is None)
            },
            final(self).listening == old(self).listening,
            final(self).backend == old(self).backend,
    {
        let audio_ms = self.buffer_duration_ms();
        if audio_ms < MIN_AUDIO_MS {
            self.stats.record_rejected();
            return None;
        }
        let (text, confident) = match &self.backend {
            SttBackend::Stub => {
                let raw = match self.stub_queue.pop_front() {
                    Some(t) => t,
                    None => String::new(),
                };
                let raw_chars = chars_of(raw.as_str());
                let trimmed = string_of(trim(raw_chars.as_slice()).as_slice());
                let lowered = to_lowercase(trimmed.as_str());
                (lowered, raw_chars.len() > 0)
            },
            SttBackend::WhisperCdsp { .. } | SttBackend::WhisperCpu { .. } => {
                ("whisper not yet wired".to_owned(), false)
            },
        };
        let backend = self.backend.label().to_owned();
        let empty = text_is_blank(text.as_str());
        self.stats.record_outcome(audio_ms, latency_ms, confident, empty);
        self.buffered_frames = 0;
        self.vad.reset();
        if confident && !empty {
            Some(SttTranscript { text, confident, audio_ms, latency_ms, backend, timestamp: now })
        } else {
            None
        }
    }

    /// Whether the engine is listening.
    pub fn is_listening(&self) -> (b: bool)
        ensures
            b == self.listening,
    {
        self.listening
    }

    /// The backend's name.
    pub fn backend_label(&self) -> (s: &str)
        ensures
            s@ == backend_label_spec(self.backend),
    {
        self.backend.label()
    }
}

} // verus!
