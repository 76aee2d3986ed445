//! The PCM stream: blocks, leading silence and the tail.

use spqx::pcm::{i16_bytes, PcmStreamer};
use spqx::sample::Sample;

fn held(pcm: &[i16]) -> Vec<Sample> {
    pcm.iter().map(|s| Sample { bits: (*s as f32 / 32768.0).to_bits() }).collect()
}

#[test]
fn bytes_are_little_endian() {
    assert_eq!(i16_bytes(&[1, -2, 256]), vec![1, 0, 0xfe, 0xff, 0, 1]);
    assert_eq!(i16_bytes(&[i16::MIN, i16::MAX]), vec![0, 0x80, 0xff, 0x7f]);
    assert!(i16_bytes(&[]).is_empty());
}

#[test]
fn inaudible_chunks_are_held_back() {
    let mut streamer = PcmStreamer::new(100, 4);
    assert!(streamer.push(&held(&[163, -163, 0, 0, 0]), false).is_empty());
    assert_eq!(streamer.waiting(), 0);
    assert_eq!(streamer.finish(), None);
}

#[test]
fn speech_keeps_eighty_milliseconds_before_it() {
    // At a rate of 100, eighty milliseconds are eight samples.
    let mut pcm = vec![0i16; 20];
    pcm.push(164);
    let mut streamer = PcmStreamer::new(100, 1);
    let blocks = streamer.push(&held(&pcm), false);
    assert_eq!(blocks.len(), 9);
    assert_eq!(blocks[8], vec![164]);
    assert_eq!(streamer.audio_samples(), 9);
}

#[test]
fn preroll_is_cut_off_as_in_double_precision() {
    for rate in [1u32, 7, 12, 13, 99, 8000, 11025, 16000, 22050, 24000, 44100, 48000, 100_003] {
        let preroll = (rate as f64 * 0.080) as usize;
        let mut pcm = vec![0i16; preroll + 5];
        pcm.push(-5000);
        let mut streamer = PcmStreamer::new(rate, 1);
        assert_eq!(streamer.push(&held(&pcm), false).len(), preroll + 1, "{rate}");
    }
}

#[test]
fn the_audible_level_is_half_a_percent() {
    assert_eq!(spqx::pcm::AUDIBLE, (32768.0 * 0.005) as i16);
    let level = (0..=32767i16).filter(|s| *s as f32 / i16::MAX as f32 <= 0.02).max();
    assert_eq!(level, Some(spqx::pcm::PCM_SPEECH_LEVEL as i16));
}

#[test]
fn an_ungated_stream_keeps_everything() {
    let mut streamer = PcmStreamer::new(100, 2);
    assert_eq!(streamer.push(&held(&[0, 1, 2]), true), vec![vec![0, 1]]);
    assert_eq!(streamer.waiting(), 1);
    assert_eq!(streamer.push(&held(&[3]), true), vec![vec![2, 3]]);
    assert_eq!(streamer.finish(), None);
    assert_eq!(streamer.audio_samples(), 4);
}

#[test]
fn the_last_block_is_filled_up() {
    let mut streamer = PcmStreamer::new(100, 4);
    let blocks = streamer.push(&held(&[1000, 2000, 3000, 4000, 5000]), false);
    assert_eq!(blocks, vec![vec![1000, 2000, 3000, 4000]]);
    assert_eq!(streamer.finish(), Some(vec![5000, 0, 0, 0]));
    assert_eq!(streamer.audio_samples(), 5);
    assert_eq!(streamer.finish(), None);
}

#[test]
fn chunking_makes_no_difference() {
    let pcm: Vec<i16> = (0..997).map(|i| (i * 37 % 2001) as i16 - 1000).collect();
    let mut whole = PcmStreamer::new(8000, 64);
    let mut expected: Vec<Vec<i16>> = whole.push(&held(&pcm), false);
    expected.extend(whole.finish());
    for size in [1usize, 10, 63, 64, 65, 500] {
        let mut streamer = PcmStreamer::new(8000, 64);
        let mut blocks: Vec<Vec<i16>> = Vec::new();
        for chunk in pcm.chunks(size) {
            blocks.extend(streamer.push(&held(chunk), true));
        }
        blocks.extend(streamer.finish());
        assert_eq!(blocks, expected);
    }
}

#[test]
fn the_tail_is_measured_on_what_has_left() {
    let rate = 1000u32;
    let mut pcm = vec![20000i16; 1000];
    pcm.extend(vec![655i16; 4000]);
    let mut streamer = PcmStreamer::new(rate, 100);
    streamer.push(&held(&pcm), false);
    let tail = streamer.trailing_nonspeech_seconds();
    assert_eq!((tail.samples, tail.sample_rate), (4000, rate));
    pcm.extend(vec![656i16; 100]);
    let mut streamer = PcmStreamer::new(rate, 100);
    streamer.push(&held(&pcm), false);
    assert_eq!(streamer.trailing_nonspeech_seconds().samples, 0);
}

#[test]
fn the_tail_remembers_thirty_seconds() {
    let mut streamer = PcmStreamer::new(100, 10);
    streamer.push(&held(&[30000; 10]), false);
    streamer.push(&held(&vec![0i16; 10_000]), false);
    assert_eq!(streamer.trailing_nonspeech_seconds().samples, 3000);
}

#[test]
fn a_stream_without_a_rate_has_no_tail() {
    let mut streamer = PcmStreamer::new(0, 1);
    streamer.push(&held(&[1000, 0, 0]), false);
    let tail = streamer.trailing_nonspeech_seconds();
    assert_eq!((tail.samples, tail.sample_rate), (0, 1));
}

#[test]
fn the_tail_can_be_remembered_directly() {
    let mut streamer = PcmStreamer::new(1, 1);
    streamer.remember_tail(&[9000; 5]);
    streamer.remember_tail(&[0; 40]);
    assert_eq!(streamer.trailing_nonspeech_seconds().samples, 30);
}
