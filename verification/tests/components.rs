use auris_core::autorecord::{
    discard_after_auto_stop, monitor_step, required_polls, MonitorAction, MonitorState,
};
use auris_core::call_detector::any_active_call;
use auris_core::capture::{
    capture_step, final_pad, CaptureAction, CaptureEvent, CaptureSource, CaptureState,
};
use auris_core::cli_transcriber::{
    cli_failure, discovery_candidates, flavor_from_stem, flavor_of_binary, keep_spoken,
    names_binary, output_json, whisper_args, CliTranscriber, Flavor, TranscribeOptions,
};
use auris_core::diarize::{file_ok, model_paths, models_present, MockDiarizer};
use auris_core::edit::{bucket_count, bucket_of, FrameCutter};
use auris_core::error::AppError;
use auris_core::model::{default_source, RecordingTrack};
use auris_core::nemo_mel::num_frames;
use auris_core::recorder::{MockRecorder, TrackLevels};

#[test]
fn stop_without_start_is_invalid() {
    let mut rec = MockRecorder::new(1);
    assert!(matches!(rec.stop(), Err(AppError::InvalidState(_))));
}

#[test]
fn double_start_is_invalid() {
    let mut rec = MockRecorder::new(2);
    rec.start("a.wav", "b.wav").unwrap();
    assert!(rec.is_recording());
    assert!(matches!(rec.start("c.wav", "d.wav"), Err(AppError::InvalidState(_))));
    assert_eq!(rec.stop().unwrap(), ("a.wav".to_string(), "b.wav".to_string()));
    assert!(!rec.is_recording());
    assert_eq!(rec.fixed_secs(), 2);
}

#[test]
fn levels_scale_peaks_to_thousand() {
    assert_eq!(TrackLevels::from_peaks(32767, 0), TrackLevels { mic: 1000, system: 0 });
    assert_eq!(TrackLevels::from_peaks(16384, 32768), TrackLevels { mic: 500, system: 1000 });
}

#[test]
fn mock_returns_empty() {
    let d = MockDiarizer;
    assert!(d.diarize::<f64>("/x/audio.wav").unwrap().is_empty());
}

#[test]
fn diarize_models_location_and_presence() {
    let (seg, emb) = model_paths("/data");
    assert_eq!(seg, "/data/models/diarize/segmentation-3.0.onnx");
    assert_eq!(emb, "/data/models/diarize/wespeaker-resnet34.onnx");
    assert!(!models_present(None, Some(30_000_000)));
    assert!(!models_present(Some(5_000_000), Some(30_000_000)));
    assert!(models_present(Some(5_900_000), Some(26_500_000)));
}

#[test]
fn num_frames_counts_centred_frames() {
    assert_eq!(num_frames(0), 1);
    assert_eq!(num_frames(16000), 101);
    assert_eq!(num_frames(159), 1);
}

#[test]
fn source_defaults_to_recorded() {
    assert_eq!(default_source(), "recorded");
    assert_ne!(RecordingTrack::Mic, RecordingTrack::System);
}

#[test]
fn cli_flavors_and_arguments() {
    assert_eq!(flavor_from_stem("whisper-cli"), Flavor::WhisperCpp);
    assert_eq!(flavor_from_stem("main"), Flavor::WhisperCpp);
    assert_eq!(flavor_from_stem("whisper-ctranslate2"), Flavor::FasterWhisper);
    assert_eq!(flavor_from_stem("whisper"), Flavor::OpenAiWhisper);
    assert_eq!(flavor_of_binary("Whisper-CLI"), Flavor::WhisperCpp);
    assert_eq!(discovery_candidates(), vec!["whisper-cli", "whisper-ctranslate2", "whisper", "main"]);

    let t = CliTranscriber::new(TranscribeOptions { whisper_path: None, model: None, language: Some("ru".into()) });
    assert!(matches!(whisper_args(Flavor::WhisperCpp, t.opts(), "/a.wav", "/tmp/x"), Err(AppError::Audio(_))));
    let args = whisper_args(Flavor::OpenAiWhisper, t.opts(), "/a.wav", "/tmp/x").unwrap();
    assert_eq!(
        args,
        vec!["/a.wav", "--model", "small", "--output_format", "json", "--output_dir", "/tmp/x", "--task", "transcribe", "--language", "ru"]
    );
    let o = TranscribeOptions { whisper_path: None, model: Some("/m.bin".into()), language: None };
    assert_eq!(
        whisper_args(Flavor::WhisperCpp, &o, "/a.wav", "/tmp/x").unwrap(),
        vec!["-m", "/m.bin", "-f", "/a.wav", "-oj", "-of", "/tmp/x/out"]
    );
    assert_eq!(output_json(Flavor::WhisperCpp, "/tmp/x", Some("a")), "/tmp/x/out.json");
    assert_eq!(output_json(Flavor::FasterWhisper, "/tmp/x", Some("a")), "/tmp/x/a.json");
    assert_eq!(output_json(Flavor::OpenAiWhisper, "/tmp/x", None), "/tmp/x/audio.json");
    assert!(matches!(cli_failure("boom"), AppError::Audio(m) if m == "whisper CLI failed: boom"));
    let long = "x".repeat(600);
    assert!(matches!(cli_failure(&long), AppError::Audio(m) if m.chars().count() == 20 + 500));
}

#[test]
fn parse_whispercpp_json_skips_empty_text() {
    let segs = keep_spoken(&vec![(0.0f64, 1.0f64, "  keep me ".to_string()), (1.0, 2.0, "   ".to_string())]);
    assert_eq!(segs.len(), 1);
    assert_eq!(segs[0].text, "keep me");
}

#[test]
fn call_detection_is_case_insensitive() {
    let watched = vec!["Telegram.exe".to_string()];
    assert!(any_active_call(&watched, &["telegram.EXE".to_string()]));
    assert!(!any_active_call(&watched, &["zoom.exe".to_string()]));
    assert!(!any_active_call(&[], &["telegram.exe".to_string()]));
}

#[test]
fn autorecord_waits_for_the_start_delay_and_stops_only_its_own() {
    assert_eq!(required_polls(0), 1);
    assert_eq!(required_polls(5), 2);
    assert_eq!(required_polls(6), 3);
    let st = MonitorState::default();
    let (st, a) = monitor_step(st, true, false, true, 5, true);
    assert_eq!(a, MonitorAction::Nothing);
    let (st, a) = monitor_step(st, true, false, true, 5, true);
    assert_eq!(a, MonitorAction::Start);
    assert!(st.auto_active);
    let (st, a) = monitor_step(st, true, true, false, 5, true);
    assert_eq!(a, MonitorAction::Stop);
    assert_eq!(st, MonitorState::default());
    // A manual recording is never stopped by the monitor.
    let (_, a) = monitor_step(MonitorState::default(), true, true, false, 5, true);
    assert_eq!(a, MonitorAction::Nothing);
    let (st, a) = monitor_step(MonitorState { auto_active: true, active_streak: 4 }, false, true, true, 5, true);
    assert_eq!((st, a), (MonitorState::default(), MonitorAction::Nothing));
    assert!(discard_after_auto_stop(10, 3));
    assert!(!discard_after_auto_stop(0, 3));
    assert!(!discard_after_auto_stop(10, 10));
}

#[test]
fn cutter_keeps_frames_outside_cuts() {
    let mut c = FrameCutter::new(vec![(2, 4), (4, 5), (8, 10)]);
    let kept: Vec<usize> = (0..12).filter(|&f| c.keep(f)).collect();
    assert_eq!(kept, vec![0, 1, 5, 6, 7, 10, 11]);
}

#[test]
fn waveform_buckets_are_as_many_as_asked_and_spread_evenly() {
    assert_eq!(bucket_count(10, 6), 6);
    assert_eq!(bucket_count(16_000, 100_000), 16_000);
    assert_eq!(bucket_count(1000, 3), 3);
    let buckets: Vec<usize> = (0..10).map(|f| bucket_of(f, 10, 6)).collect();
    assert_eq!(buckets, vec![0, 0, 1, 1, 2, 3, 3, 4, 4, 5]);
    assert_eq!(bucket_of(10, 10, 6), 5);
    assert_eq!(bucket_of(48_000, 48_000, 3), 2);
    assert_eq!(bucket_of(15_999, 48_000, 3), 0);
    assert_eq!(bucket_of(16_000, 48_000, 3), 1);
    assert_eq!(bucket_of(usize::MAX - 1, usize::MAX, usize::MAX), usize::MAX - 1);
}

#[test]
fn error_messages_carry_their_kind() {
    assert_eq!(AppError::Db("locked".into()).message(), "database error: locked");
    assert_eq!(AppError::Io("denied".into()).message(), "io error: denied");
    assert_eq!(AppError::Audio("bad".into()).message(), "audio error: bad");
    assert_eq!(AppError::NotFound("m1".into()).message(), "not found: m1");
    assert_eq!(AppError::InvalidState("x".into()).message(), "invalid state: x");
    assert_eq!(AppError::InvalidInput("y".into()).message(), "invalid input: y");
    assert_eq!(AppError::Serde("eof".into()).message(), "serialization error: eof");
    assert_eq!(AppError::Http("HTTP 500".into()).message(), "http error: HTTP 500");
}

#[test]
fn model_file_is_whole_only_over_its_least_size() {
    assert!(!file_ok(None, 10));
    assert!(!file_ok(Some(10), 10));
    assert!(file_ok(Some(11), 10));
    assert!(file_ok(Some(5_000_001), 5_000_000));
}

#[test]
fn a_named_binary_selects_the_command_line() {
    let none = TranscribeOptions::default();
    assert!(!names_binary(&none));
    let empty = TranscribeOptions { whisper_path: Some(String::new()), ..TranscribeOptions::default() };
    assert!(!names_binary(&empty));
    let named = TranscribeOptions {
        whisper_path: Some("/usr/bin/whisper-cli".to_string()),
        ..TranscribeOptions::default()
    };
    assert!(names_binary(&named));
}

#[test]
fn mock_levels_zero_when_idle_and_alive_when_recording() {
    let mut rec = MockRecorder::new(2);
    let polls = std::cell::Cell::new(0u32);
    let live = || {
        let t = polls.get();
        polls.set(t + 1);
        TrackLevels { mic: (t * 37) % 1001, system: (t * 53 + 11) % 1001 }
    };
    // Idle: zero levels, and the meter is not even asked.
    assert_eq!(rec.levels(&live), TrackLevels { mic: 0, system: 0 });
    assert_eq!(polls.get(), 0);
    rec.start("mic.wav", "sys.wav").unwrap();
    let mut max_mic = 0;
    let mut max_sys = 0;
    for _ in 0..64 {
        let l = rec.levels(&live);
        assert!(l.mic <= 1000 && l.system <= 1000);
        max_mic = max_mic.max(l.mic);
        max_sys = max_sys.max(l.system);
    }
    assert_eq!(polls.get(), 64);
    assert!(max_mic > 0 && max_sys > 0);
    rec.stop().unwrap();
    assert_eq!(rec.levels(&live), TrackLevels { mic: 0, system: 0 });
}

fn tick(read_ok: bool, produced: u64, expected: u64, now_ms: u64) -> CaptureEvent {
    CaptureEvent::Tick { read_ok, produced, expected, now_ms }
}

#[test]
fn capture_pads_to_the_wall_clock_and_fails_on_a_mic_error() {
    let st = CaptureState::new();
    let (s1, a1) = capture_step(CaptureSource::Mic, st, tick(true, 100, 2000, 125));
    assert_eq!(a1, CaptureAction::Continue { pad: 1900 });
    assert_eq!(s1.written, 2000);
    assert_eq!(s1.last_data_ms, 125);
    let (s2, a2) = capture_step(CaptureSource::Mic, s1, tick(true, 100, 3700, 230));
    assert_eq!(a2, CaptureAction::Continue { pad: 0 });
    assert_eq!(s2.written, 2100);
    let (s3, a3) = capture_step(CaptureSource::Mic, s2, tick(false, 0, 5000, 300));
    assert_eq!(a3, CaptureAction::Fail);
    assert_eq!(s3, s2);
    // A silent microphone is never reopened.
    let (_, a4) = capture_step(CaptureSource::Mic, s2, tick(true, 0, 2100, 9000));
    assert_eq!(a4, CaptureAction::Continue { pad: 0 });
    assert_eq!(final_pad(2100, 2500), 400);
    assert_eq!(final_pad(2500, 2100), 0);
}

#[test]
fn loopback_reopens_on_error_or_stall_and_gives_up_after_five_failures() {
    let st = CaptureState::new();
    let (s1, a1) = capture_step(CaptureSource::Loopback, st, tick(false, 0, 0, 10));
    assert_eq!(a1, CaptureAction::Reopen { pad: 0 });
    let (s2, a2) = capture_step(CaptureSource::Loopback, s1, CaptureEvent::Reopened { ok: true, now_ms: 20 });
    assert_eq!(a2, CaptureAction::Continue { pad: 0 });
    assert_eq!(s2.last_data_ms, 20);
    // Two seconds without data are not yet a stall; a moment more is.
    let (s3, a3) = capture_step(CaptureSource::Loopback, s2, tick(true, 0, 0, 2020));
    assert_eq!(a3, CaptureAction::Continue { pad: 0 });
    let (mut s, a4) = capture_step(CaptureSource::Loopback, s3, tick(true, 0, 0, 2021));
    assert_eq!(a4, CaptureAction::Reopen { pad: 0 });
    for i in 1..=5u32 {
        let (n, a) = capture_step(CaptureSource::Loopback, s, CaptureEvent::Reopened { ok: false, now_ms: 3000 });
        assert_eq!(a, CaptureAction::Backoff { ms: 200 });
        assert_eq!(n.reopen_fails, i);
        assert_eq!(n.gave_up, i == 5);
        assert_eq!(n.last_data_ms, 3200);
        s = n;
    }
    // Given up: errors and stalls only pad with silence.
    let (s5, a5) = capture_step(CaptureSource::Loopback, s, tick(false, 0, 100_000, 60_000));
    assert_eq!(a5, CaptureAction::Continue { pad: 100_000 });
    assert!(s5.gave_up);
}
