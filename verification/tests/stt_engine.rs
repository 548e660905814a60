use theos::stt_engine::{cleaned_text, text_is_blank, SilenceCounter, SttBackend, SttEngine, SttStats, MIN_AUDIO_MS};

#[test]
fn test_backend_labels() {
    assert_eq!(SttBackend::Stub.label(), "stub");
    assert!(!SttBackend::Stub.is_hardware());
    assert!(SttBackend::WhisperCdsp { model_path: "x".to_string() }.is_hardware());
}

#[test]
fn test_cleaned_removes_punctuation() {
    assert_eq!(cleaned_text("call marcus."), "call marcus");
}

#[test]
fn test_cleaned_removes_filler() {
    assert_eq!(cleaned_text("um call marcus"), "call marcus");
}

#[test]
fn test_cleaned_lowercase() {
    assert_eq!(cleaned_text("CALL MARCUS"), "call marcus");
}

#[test]
fn test_vad_end_of_speech() {
    let mut vad = SilenceCounter::new();
    for _ in 0..26 {
        vad.record_frame(true);
    }
    assert!(vad.end_of_speech());
}

#[test]
fn test_vad_reset() {
    let mut vad = SilenceCounter::new();
    for _ in 0..26 {
        vad.record_frame(true);
    }
    vad.reset();
    assert!(!vad.end_of_speech());
}

#[test]
fn test_stats_success_rate() {
    let mut s = SttStats::default();
    s.record_outcome(1000, 100, true, false);
    s.record_outcome(500, 50, false, true);
    assert_eq!(s.total_transcriptions, 2);
    assert_eq!(s.successful, 1);
    let rate = s.successful as f32 / s.total_transcriptions as f32 * 100.0;
    assert!((rate - 50.0).abs() < 0.1);
}

#[test]
fn backend_label_names() {
    assert_eq!(SttBackend::WhisperCdsp { model_path: "m".to_string() }.label(), "whisper-cdsp");
    assert_eq!(SttBackend::WhisperCpu { model_path: "m".to_string() }.label(), "whisper-cpu");
    assert!(SttBackend::WhisperCpu { model_path: "m".to_string() }.is_hardware());
}

#[test]
fn cleaned_handles_several_fillers_and_punctuation() {
    assert_eq!(cleaned_text("  Um uh so call mom?!  "), "call mom");
    assert_eq!(cleaned_text("like, hello"), "like, hello");
    assert_eq!(cleaned_text("..."), "");
}

#[test]
fn blank_text() {
    assert!(text_is_blank("   "));
    assert!(!text_is_blank(" a "));
}

#[test]
fn stats_count_each_outcome() {
    let mut s = SttStats::default();
    s.record_outcome(100, 10, true, true);
    s.record_outcome(100, 10, false, false);
    s.record_rejected();
    assert_eq!(s.failed, 1);
    assert_eq!(s.low_confidence, 1);
    assert_eq!(s.vad_rejected, 1);
    assert_eq!(s.total_audio_ms, 200);
    assert_eq!(s.total_latency_ms, 20);
}

#[test]
fn speech_frame_clears_silence() {
    let mut vad = SilenceCounter::new();
    assert!(!vad.record_frame(true));
    assert!(vad.record_frame(false));
    assert_eq!(vad.silence_duration_ms(), 0);
    assert_eq!(MIN_AUDIO_MS, 200);
}

fn stub() -> SttEngine {
    SttEngine::new_stub()
}

#[test]
fn test_stub_starts_not_listening() {
    assert!(!stub().is_listening());
}

#[test]
fn test_stub_start_listening() {
    let mut e = stub();
    e.start_listening();
    assert!(e.is_listening());
}

#[test]
fn test_stub_stop_listening() {
    let mut e = stub();
    e.start_listening();
    e.stop_listening();
    assert!(!e.is_listening());
}

#[test]
fn test_stub_inject_and_transcribe() {
    let mut e = stub();
    e.inject("message sarah");
    e.start_listening();
    // fifteen 20 ms frames of silence: past the shortest transcribable audio
    for _ in 0..15 {
        e.push_frame(true);
    }
    let result = e.transcribe_at(0, 0);
    assert!(result.is_some());
    assert_eq!(result.unwrap().text, "message sarah");
}

#[test]
fn test_stub_empty_queue_returns_none() {
    let mut e = stub();
    e.start_listening();
    for _ in 0..15 {
        e.push_frame(true);
    }
    let result = e.transcribe_at(0, 0);
    assert!(result.is_none());
}

#[test]
fn test_stub_backend_label() {
    assert_eq!(stub().backend_label(), "stub");
}

#[test]
fn short_audio_is_rejected_and_counted() {
    let mut e = stub();
    e.inject("hello");
    e.start_listening();
    for _ in 0..5 {
        e.push_frame(false);
    }
    assert_eq!(e.buffer_duration_ms(), 100);
    assert!(e.transcribe_at(0, 0).is_none());
    assert_eq!(e.stats.vad_rejected, 1);
    assert_eq!(e.stub_queue.len(), 1);
}

#[test]
fn transcript_is_trimmed_lowered_and_stamped() {
    let mut e = stub();
    e.inject("  Call MOM ");
    e.start_listening();
    for _ in 0..20 {
        e.push_frame(false);
    }
    let r = e.transcribe_at(7, 42).unwrap();
    assert_eq!(r.text, "call mom");
    assert_eq!(r.audio_ms, 400);
    assert_eq!(r.latency_ms, 7);
    assert_eq!(r.timestamp, 42);
    assert_eq!(r.backend, "stub");
    assert_eq!(e.buffer_duration_ms(), 0);
    assert_eq!(e.stats.successful, 1);
}

#[test]
fn end_of_utterance_after_enough_silence() {
    let mut e = stub();
    e.start_listening();
    let mut ended = false;
    for i in 0..40 {
        let end = e.push_frame(i >= 10);
        if i < 34 {
            assert!(!end);
        } else {
            ended = ended || end;
        }
    }
    assert!(ended);
}

#[test]
fn frames_ignored_while_not_listening() {
    let mut e = stub();
    assert!(!e.push_frame(true));
    assert_eq!(e.buffer_duration_ms(), 0);
}

#[test]
fn whisper_backend_gives_nothing() {
    let mut e = stub();
    e.backend = SttBackend::WhisperCpu { model_path: "m".to_string() };
    e.start_listening();
    for _ in 0..15 {
        e.push_frame(false);
    }
    assert!(e.transcribe_at(0, 0).is_none());
    assert_eq!(e.stats.low_confidence, 1);
}
