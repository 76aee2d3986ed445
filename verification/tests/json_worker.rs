//! The JSON-lines worker, codec frames and live playback.

use spqx::codes::{check_outputs, codes_of, load_codes, CodesError};
use spqx::engine::Transcript;
use spqx::json_worker::{
    audio_chunks, events, handle, is_blank, load_ref_text, samples_to_pcm_bytes, EmptyText, Event,
    JsonWorkerArgs, NoTranscript, Request,
};
use spqx::path::UnixPath;
use spqx::playback::ChannelSource;
use spqx::sample::{Double, Sample};

fn args() -> JsonWorkerArgs {
    JsonWorkerArgs {
        ref_text: None,
        ref_text_file: None,
        language: "german".to_string(),
        temperature: Double { bits: 0.9f64.to_bits() },
        top_k: 50,
        max_codes: 2048,
        output_sample_rate: 24000,
        blocksize: 512,
    }
}

fn request(text: &str) -> Request {
    Request { text: text.to_string(), language: None, temperature: None, top_k: None, max_codes: None }
}

fn held(samples: &[f32]) -> Vec<Sample> {
    samples.iter().map(|s| Sample { bits: s.to_bits() }).collect()
}

fn rows(quantizers: usize, frames: usize) -> String {
    let row = |q: usize| {
        let codes: Vec<String> = (0..frames).map(|f| (q * 100 + f).to_string()).collect();
        format!("[{}]", codes.join(","))
    };
    let rows: Vec<String> = (0..quantizers).map(row).collect();
    format!("[{}]", rows.join(","))
}

#[test]
fn a_request_falls_back_on_the_arguments() {
    let g = handle(&args(), &request(" Hallo \n")).unwrap();
    assert_eq!((g.text.as_str(), g.language.as_str()), ("Hallo", "german"));
    assert_eq!((g.temperature.bits, g.top_k, g.max_codes), (0.9f64.to_bits(), 50, 2048));
    let mut own = request("Hi");
    own.language = Some("english".to_string());
    own.temperature = Some(Double { bits: 1.5f64.to_bits() });
    own.top_k = Some(1);
    own.max_codes = Some(2);
    let g = handle(&args(), &own).unwrap();
    assert_eq!((g.text.as_str(), g.language.as_str()), ("Hi", "english"));
    assert_eq!((g.temperature.bits, g.top_k, g.max_codes), (1.5f64.to_bits(), 1, 2));
}

#[test]
fn a_request_without_text_is_an_error() {
    assert_eq!(handle(&args(), &request(" \t")).unwrap_err(), EmptyText);
    assert_eq!(EmptyText.message(), "empty text");
    assert!(is_blank(" \r"));
    assert!(!is_blank("{}"));
}

#[test]
fn a_transcript_file_comes_before_a_transcript() {
    let mut a = args();
    assert_eq!(load_ref_text(&a).unwrap_err(), NoTranscript);
    assert_eq!(NoTranscript.message(), "provide --ref-text or --ref-text-file");
    a.ref_text = Some(" words ".to_string());
    assert!(matches!(load_ref_text(&a), Ok(Transcript::Text(t)) if t == "words"));
    a.ref_text_file = Some(UnixPath::from_text("~/t.txt"));
    assert!(matches!(load_ref_text(&a), Ok(Transcript::File(p)) if p.display() == "~/t.txt"));
}

#[test]
fn pcm_bytes_are_symmetric() {
    let bytes = samples_to_pcm_bytes(&held(&[1.0, -1.0, 0.5, 3.0, f32::NAN]));
    assert_eq!(bytes, vec![0xff, 0x7f, 1, 0x80, 0xff, 0x3f, 0xff, 0x7f, 0, 0]);
}

#[test]
fn audio_chunks_are_base64() {
    // The samples 1, 2 and 3 on the scale of 32767.
    let samples = held(&[1.5 / 32767.0, 2.5 / 32767.0, 3.5 / 32767.0]);
    assert_eq!(audio_chunks(&samples, 1), vec!["AQA=", "AgA=", "AwA="]);
    assert_eq!(audio_chunks(&samples, 2), vec!["AQACAA==", "AwA="]);
    assert_eq!(audio_chunks(&samples, 3), vec!["AQACAAMA"]);
    assert_eq!(audio_chunks(&samples, 100), vec!["AQACAAMA"]);
    assert!(audio_chunks(&Vec::new(), 4).is_empty());
}

#[test]
fn a_request_is_answered_in_order() {
    let samples = held(&[1.5 / 32767.0, 2.5 / 32767.0, 3.5 / 32767.0]);
    let all = events(&samples, 2);
    assert_eq!(all.len(), 5);
    assert!(matches!(&all[0], Event::Ttfa));
    assert!(matches!(&all[1], Event::AudioChunk { data } if data == "AQACAA=="));
    assert!(matches!(&all[2], Event::AudioChunk { data } if data == "AwA="));
    assert!(matches!(&all[3], Event::Generated));
    assert!(matches!(&all[4], Event::RequestDone));
    let none = events(&Vec::new(), 2);
    assert!(matches!(none[..], [Event::Ttfa, Event::Generated, Event::RequestDone]));
}

#[test]
fn audio_chunks_use_the_whole_alphabet() {
    let samples = held(&[1.0, -1.0, -0.5, 0.99, -0.01]);
    let mut bytes: Vec<u8> = Vec::new();
    for s in [1.0f32, -1.0, -0.5, 0.99, -0.01] {
        bytes.extend(((s * 32767.0) as i16).to_le_bytes());
    }
    let alphabet: Vec<char> =
        "ABCDEFGHIJKLMNOPQRSTUVWXYZabcdefghijklmnopqrstuvwxyz0123456789+/".chars().collect();
    let mut expected = String::new();
    for group in bytes.chunks(3) {
        let n = group.iter().fold(0u32, |n, b| n << 8 | *b as u32) << (8 * (3 - group.len()));
        for k in 0..4 {
            if k <= group.len() {
                expected.push(alphabet[(n >> (18 - 6 * k) & 63) as usize]);
            } else {
                expected.push('=');
            }
        }
    }
    assert_eq!(audio_chunks(&samples, 5), vec![expected]);
}

#[test]
fn codes_are_read_row_by_row() {
    let codes = load_codes(&format!(" [{}] ", rows(16, 3))).unwrap();
    assert_eq!((codes.quantizers, codes.frames, codes.flat.len()), (16, 3, 48));
    for q in 0..16 {
        for f in 0..3 {
            assert_eq!(codes.flat[q * 3 + f], (q * 100 + f) as i64);
        }
    }
    assert_eq!(load_codes(&format!("[{}]", rows(16, 0))).unwrap().frames, 0);
}

#[test]
fn codes_of_another_shape_are_refused() {
    let message = |text: &str| load_codes(text).unwrap_err().message().unwrap();
    assert_eq!(message("[]"), "codes JSON must have batch size 1, got 0");
    assert_eq!(message("[[],[]]"), "codes JSON must have batch size 1, got 2");
    assert_eq!(message("[[]]"), "codes JSON must have 16 quantizers, got 0");
    assert_eq!(message(&format!("[{}]", rows(3, 2))), "codes JSON must have 16 quantizers, got 3");
    let uneven = rows(16, 2).replacen("[100,101]", "[100]", 1);
    assert_eq!(message(&format!("[{uneven}]")), "codes JSON quantizers have inconsistent frame counts");
    for text in ["", "{}", "[[[1.5]]]", "[[[\"a\"]]]", "[[[9223372036854775808]]]"] {
        let error = load_codes(text).unwrap_err();
        assert!(matches!(error, CodesError::Json(_)));
        assert!(error.message().is_none());
    }
    assert!(matches!(codes_of(&Vec::new()), Err(CodesError::BatchSize(0))));
}

#[test]
fn a_trace_needs_an_output() {
    assert!(check_outputs(true, false).is_ok());
    assert!(check_outputs(false, true).is_ok());
    assert_eq!(
        check_outputs(false, false).unwrap_err(),
        "at least one of --trace-dir or --waveform-out is required"
    );
}

#[test]
fn chunks_are_played_in_order() {
    let mut source = ChannelSource::new(24000);
    assert_eq!(source.sample_rate(), 24000);
    assert_eq!(source.next(), None);
    let mut played: Vec<Sample> = Vec::new();
    for chunk in [held(&[0.1, 0.2]), held(&[]), held(&[0.3])] {
        source.feed(chunk);
        while let Some(sample) = source.next() {
            played.push(sample);
        }
    }
    assert_eq!(played, held(&[0.1, 0.2, 0.3]));
    assert_eq!(source.next(), None);
}
