//! What the worker does with frames, and what it answers.

use spqx::frame::{read_frame, Frame};
use spqx::path::UnixPath;
use spqx::postprocess::gate_leading_nonspeech;
use spqx::sample::{Double, Sample};
use spqx::seconds::Seconds;
use spqx::worker::{
    clear_cancelled, degenerate_reason, fail_request, name_language, normalize_language,
    ready_frame, route_frame, take_cancelled, take_turn, ChunkStep, Route, SpeakError, SpeakSession,
    SpeakStart, Turn, Worker, WorkerConfig,
};
use std::collections::HashSet;

fn config() -> WorkerConfig {
    WorkerConfig {
        model_path: UnixPath::from_text("/models/m"),
        ref_audio: UnixPath::from_text("/v/reference.wav"),
        ref_text: "hello".to_string(),
        language: "german".to_string(),
        temperature: Double { bits: 0.9f64.to_bits() },
        top_k: 50,
        max_new_tokens: 1536,
        output_sample_rate: 1000,
        blocksize: 100,
        streaming_chunk_size: 4,
    }
}

fn worker() -> Worker {
    Worker::load(&config(), true).unwrap()
}

fn frame(frame_type: u8, request_id: u32, payload: &[u8]) -> Frame {
    Frame { frame_type, request_id, payload: payload.to_vec() }
}

fn parts(bytes: &[u8]) -> (u8, u32, Vec<u8>) {
    let (frame, n) = read_frame(bytes).unwrap();
    assert_eq!(n, bytes.len());
    (frame.frame_type, frame.request_id, frame.payload)
}

fn session(ungated: bool, id: u32) -> SpeakSession {
    match worker().handle_speak(id, b"hi", ungated, &mut HashSet::new()) {
        SpeakStart::Started { session, .. } => session,
        other => panic!("{other:?}"),
    }
}

fn held(value: f32, n: usize) -> Vec<Sample> {
    vec![Sample { bits: value.to_bits() }; n]
}

#[test]
fn sizes_are_at_least_one() {
    let mut small = config();
    small.blocksize = 0;
    small.streaming_chunk_size = 0;
    let worker = Worker::load(&small, true).unwrap();
    assert_eq!((worker.settings.blocksize, worker.settings.streaming_chunk_size), (1, 1));
    assert_eq!(worker.model_name, "/models/m");
    assert_eq!(worker.tokenizer_path.bytes, b"/models/m/speech_tokenizer/model.safetensors".to_vec());
    assert_eq!((worker.temperature.bits, worker.top_k), (0.9f64.to_bits(), 50));
    assert_eq!(worker.max_new_tokens, 1536);
    assert_eq!((worker.ref_text.as_str(), worker.language.as_str()), ("hello", "german"));
}

#[test]
fn a_missing_model_is_named() {
    let message = Worker::load(&config(), false).unwrap_err();
    assert_eq!(message, "worker requires a local model directory, got /models/m");
}

#[test]
fn languages_are_normalized() {
    for (given, expected) in [
        ("", "auto"),
        (" AUTO ", "auto"),
        ("de", "german"),
        ("de_DE", "german"),
        ("EN-us", "english"),
        ("en_gb", "english"),
        ("fr", "french"),
        ("es-es", "spanish"),
        ("it", "italian"),
        ("pt_BR", "portuguese"),
        ("pt-pt", "portuguese"),
        ("ja", "japanese"),
        ("ko-KR", "korean"),
        ("zh_tw", "chinese"),
        ("ru", "russian"),
        ("German", "german"),
        ("Swiss_German", "swiss-german"),
        ("ÄÖ", "äö"),
    ] {
        let normalized = normalize_language(given);
        assert_eq!(normalized, expected);
        assert_eq!(normalize_language(&normalized), expected);
        assert!(!normalized.is_empty() && !normalized.contains('_'));
    }
    assert_eq!(name_language("zh-cn"), "chinese");
    assert_eq!(name_language("DE"), "DE");
}

#[test]
fn cancellations_are_used_up() {
    let mut cancelled: HashSet<u32> = HashSet::new();
    cancelled.insert(4);
    assert!(!take_cancelled(&mut cancelled, 3));
    assert!(take_cancelled(&mut cancelled, 4));
    assert!(!take_cancelled(&mut cancelled, 4));
    cancelled.insert(5);
    clear_cancelled(&mut cancelled, 5);
    assert!(cancelled.is_empty());
}

#[test]
fn cancellations_overtake_what_waits() {
    let mut cancelled: HashSet<u32> = HashSet::new();
    assert_eq!(route_frame(&frame(1, 7, b"hi"), &mut cancelled), Route::Queue);
    assert_eq!(route_frame(&frame(2, 7, b""), &mut cancelled), Route::Done);
    assert_eq!(route_frame(&frame(3, 0, b""), &mut cancelled), Route::QueueLast);
    assert_eq!(route_frame(&frame(99, 7, b""), &mut cancelled), Route::Queue);
    match worker().handle_speak(7, b"hi", false, &mut cancelled) {
        SpeakStart::Cancelled { frame } => assert_eq!(parts(&frame), (4, 7, vec![])),
        other => panic!("{other:?}"),
    }
    assert!(cancelled.is_empty());
}

#[test]
fn turns_follow_the_frame_type() {
    assert!(matches!(take_turn(&frame(3, 0, b"")), Turn::Stop));
    assert!(matches!(take_turn(&frame(1, 0, b"x")), Turn::Speak));
    match take_turn(&frame(42, 8, b"x")) {
        Turn::Answer(bytes) => {
            assert_eq!(parts(&bytes), (5, 8, b"unknown frame type 42".to_vec()));
        }
        other => panic!("{other:?}"),
    }
}

#[test]
fn the_ready_frame_is_empty() {
    assert_eq!(parts(&ready_frame()), (1, 0, vec![]));
}

#[test]
fn blank_text_is_refused() {
    for payload in ["", "  \n\t", "\u{2003}"] {
        match worker().handle_speak(1, payload.as_bytes(), false, &mut HashSet::new()) {
            SpeakStart::Refused { error } => {
                assert!(matches!(error, SpeakError::EmptyText));
                assert_eq!(error.message(), "empty text");
            }
            other => panic!("{other:?}"),
        }
    }
}

#[test]
fn what_is_not_text_is_refused() {
    let payload = [b'a', 0xff, b'b'];
    match worker().handle_speak(1, &payload, false, &mut HashSet::new()) {
        SpeakStart::Refused { error } => {
            let expected = std::str::from_utf8(&payload).unwrap_err().to_string();
            assert_eq!(error.message(), expected);
        }
        other => panic!("{other:?}"),
    }
}

#[test]
fn speaking_starts_with_the_sample_rate() {
    match worker().handle_speak(6, "  grüß dich \n".as_bytes(), false, &mut HashSet::new()) {
        SpeakStart::Started { text, frame, session } => {
            assert_eq!(text, "grüß dich");
            assert_eq!(parts(&frame), (2, 6, 1000u32.to_le_bytes().to_vec()));
            assert_eq!((session.audio_samples(), session.waiting()), (0, 0));
        }
        other => panic!("{other:?}"),
    }
}

#[test]
fn only_the_first_chunk_is_gated() {
    let mut cancelled: HashSet<u32> = HashSet::new();
    let mut session = session(false, 1);
    let mut first = held(0.5, 400);
    let mut expected = first.clone();
    gate_leading_nonspeech(&mut expected, 1000);
    let step = session.take_chunk(&mut first, 1000, &mut cancelled);
    assert_eq!(step, ChunkStep::Send { first: true });
    assert_eq!(first, expected);
    assert_ne!(first, held(0.5, 400));
    let mut second = held(0.5, 400);
    let step = session.take_chunk(&mut second, 1000, &mut cancelled);
    assert_eq!(step, ChunkStep::Send { first: false });
    assert_eq!(second, held(0.5, 400));
}

#[test]
fn an_ungated_request_is_left_alone() {
    let mut session = session(true, 1);
    let mut first = held(0.5, 400);
    let step = session.take_chunk(&mut first, 1000, &mut HashSet::new());
    assert_eq!(step, ChunkStep::Send { first: true });
    assert_eq!(first, held(0.5, 400));
}

#[test]
fn audio_goes_out_in_frames() {
    let mut session = session(false, 9);
    let frames = session.push(&held(0.5, 250)).unwrap();
    assert_eq!(frames.len(), 2);
    for bytes in &frames {
        let (frame_type, id, payload) = parts(bytes);
        assert_eq!((frame_type, id), (3, 9));
        assert_eq!(payload, 16384i16.to_le_bytes().repeat(100));
    }
    assert_eq!(session.waiting(), 50);
    let mut cancelled: HashSet<u32> = HashSet::new();
    cancelled.insert(9);
    let last = session.end(false, &mut cancelled).unwrap();
    assert_eq!(last.len(), 2);
    assert_eq!(parts(&last[0]).2.len(), 200);
    assert_eq!(parts(&last[1]), (4, 9, vec![]));
    assert!(cancelled.is_empty());
    assert_eq!(session.audio_samples(), 250);
}

#[test]
fn a_whole_request_is_answered() {
    let mut session = session(false, 9);
    let mut frames: Vec<Vec<u8>> = Vec::new();
    for n in [30usize, 170, 1, 120] {
        frames.extend(session.push(&held(0.5, n)).unwrap());
    }
    frames.extend(session.end(false, &mut HashSet::new()).unwrap());
    let mut audio: Vec<u8> = Vec::new();
    for bytes in &frames[..frames.len() - 1] {
        let (frame_type, id, payload) = parts(bytes);
        assert_eq!((frame_type, id, payload.len()), (3, 9, 200));
        audio.extend(payload);
    }
    assert_eq!(audio[..642], 16384i16.to_le_bytes().repeat(321)[..]);
    assert!(audio[642..].iter().all(|b| *b == 0));
    assert_eq!(audio.len(), 800);
    assert_eq!(parts(&frames[frames.len() - 1]), (4, 9, vec![]));
}

#[test]
fn a_request_cancelled_on_the_way_is_done() {
    let mut cancelled: HashSet<u32> = HashSet::new();
    let mut session = session(false, 9);
    session.push(&held(0.5, 250)).unwrap();
    cancelled.insert(9);
    let step = session.take_chunk(&mut held(0.5, 10), 1000, &mut cancelled);
    assert_eq!(step, ChunkStep::Stop);
    let last = session.end(true, &mut cancelled).unwrap();
    assert_eq!(last.len(), 1);
    assert_eq!(parts(&last[0]), (4, 9, vec![]));
}

#[test]
fn truncated_audio_is_an_error() {
    let mut session = session(false, 2);
    session.push(&held(0.5, 100)).unwrap();
    let last = session.end(true, &mut HashSet::new()).unwrap();
    let (frame_type, id, payload) = parts(&last[0]);
    assert_eq!((frame_type, id), (5, 2));
    assert_eq!(
        String::from_utf8(payload).unwrap(),
        "generation hit the frame cap without reaching EOS; the utterance is truncated — split the text into shorter segments"
    );
}

#[test]
fn collapsed_audio_is_an_error() {
    let mut session = session(false, 2);
    session.push(&held(0.5, 100)).unwrap();
    session.push(&held(0.0, 3200)).unwrap();
    assert_eq!(session.trailing_nonspeech_seconds(), Seconds { samples: 3200, sample_rate: 1000 });
    let last = session.end(false, &mut HashSet::new()).unwrap();
    let (frame_type, _, payload) = parts(&last[0]);
    assert_eq!(frame_type, 5);
    assert_eq!(
        String::from_utf8(payload).unwrap(),
        "generation collapsed: 3.2s of trailing non-speech — split the text into shorter segments"
    );
}

#[test]
fn three_seconds_of_silence_are_good() {
    assert_eq!(degenerate_reason(false, Seconds { samples: 3000, sample_rate: 1000 }), None);
    assert!(degenerate_reason(false, Seconds { samples: 3001, sample_rate: 1000 }).is_some());
    assert!(degenerate_reason(true, Seconds { samples: 0, sample_rate: 1000 }).is_some());
}

#[test]
fn a_failed_request_is_answered_and_forgotten() {
    let mut cancelled: HashSet<u32> = HashSet::new();
    cancelled.insert(3);
    let bytes = fail_request(3, "no luck", &mut cancelled).unwrap();
    assert_eq!(parts(&bytes), (5, 3, b"no luck".to_vec()));
    assert!(cancelled.is_empty());
    assert_eq!(SpeakError::TooLong.message(), "out of range integral type conversion attempted");
    let error = u32::try_from(u64::MAX).unwrap_err().to_string();
    assert_eq!(SpeakError::TooLong.message(), error);
}
