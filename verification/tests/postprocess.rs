//! Gating, measuring and trimming, held against the same steps in single
//! precision.

use spqx::postprocess::{
    block_size, count_quiet_tail, gate_leading_nonspeech, levels, trailing_nonspeech_seconds,
    trim_trailing_nonspeech, CLICK_LEVEL, QUIET_LEVEL, SPEECH_LEVEL,
};
use spqx::sample::{Double, Sample};
use spqx::seconds::Seconds;

fn tone(seconds: f64, sample_rate: u32) -> Vec<f32> {
    (0..(seconds * sample_rate as f64) as usize)
        .map(|i| (i as f32 / 20.0).sin() * 0.5)
        .collect()
}

fn held(samples: &[f32]) -> Vec<Sample> {
    samples.iter().map(|s| Sample { bits: s.to_bits() }).collect()
}

fn value(seconds: Seconds) -> f64 {
    seconds.samples as f64 / seconds.sample_rate as f64
}

fn trim(samples: &mut Vec<Sample>, sample_rate: u32, keep_s: f64) -> f64 {
    let keep_s = Double { bits: keep_s.to_bits() };
    f64::from_bits(trim_trailing_nonspeech(samples, sample_rate, keep_s).bits)
}

/// Gating in floating point.
fn gate_floats(samples: &mut [f32], sample_rate: u32) {
    let block = (sample_rate as usize * 5 / 1000).max(1);
    let peaks: Vec<f32> = samples
        .chunks(block)
        .map(|chunk| chunk.iter().fold(0f32, |acc, s| acc.max(s.abs())))
        .collect();
    let mut search = 0usize;
    let mut onset = peaks.len();
    while search < peaks.len() {
        if peaks[search] <= 0.02 {
            search += 1;
            continue;
        }
        let end = (search + 24).min(peaks.len());
        let loud = peaks[search..end].iter().filter(|p| **p > 0.02).count();
        if end - search < 8 || loud >= 8 {
            onset = search;
            break;
        }
        search = (search..peaks.len()).find(|&j| peaks[j] <= 0.02).unwrap_or(peaks.len());
    }
    let mut start = onset;
    while start > 0 && peaks[start - 1] > 0.004 {
        start -= 1;
    }
    let mut index = 0usize;
    while index < start {
        if peaks[index] > 0.03 {
            let mut a = index;
            while a > 0 && peaks[a - 1] > 0.004 {
                a -= 1;
            }
            let mut b = index + 1;
            while b < start && peaks[b] > 0.004 {
                b += 1;
            }
            if b - a <= 10 {
                let end = (b * block).min(samples.len());
                for sample in samples[a * block..end].iter_mut() {
                    *sample = 0.0;
                }
            }
            index = b;
        } else {
            index += 1;
        }
    }
    let fade = (sample_rate as usize * 3 / 1000).min(samples.len());
    for (i, sample) in samples[..fade].iter_mut().enumerate() {
        *sample *= i as f32 / fade.max(1) as f32;
    }
}

struct Dice(u64);

impl Dice {
    fn roll(&mut self) -> u64 {
        self.0 = self.0.wrapping_mul(6364136223846793005).wrapping_add(1442695040888963407);
        self.0 >> 33
    }

    fn unit(&mut self) -> f32 {
        self.roll() as f32 / 2147483648.0
    }
}

/// Stretches of silence, hiss, clicks and speech, in random order.
fn signal(dice: &mut Dice, block: usize) -> Vec<f32> {
    let mut samples: Vec<f32> = Vec::new();
    for _ in 0..(2 + dice.roll() % 8) {
        let (level, blocks) = match dice.roll() % 5 {
            0 => (0.0, dice.roll() % 20),
            1 => (0.003, dice.roll() % 20),
            2 => (0.01, dice.roll() % 14),
            3 => (0.2, dice.roll() % 5),
            _ => (0.4, dice.roll() % 40),
        };
        for _ in 0..(blocks as usize * block + dice.roll() as usize % block) {
            samples.push(level * (dice.unit() * 2.0 - 1.0));
        }
    }
    samples
}

#[test]
fn trailing_silence_is_measured() {
    let sr = 24000;
    let mut samples = tone(1.0, sr);
    samples.extend(std::iter::repeat(0.0).take(sr as usize * 2));
    let tail = value(trailing_nonspeech_seconds(&held(&samples), sr));
    assert!((tail - 2.0).abs() < 0.05, "expected ~2s tail, got {tail}");
}

#[test]
fn low_noise_floor_counts_as_nonspeech() {
    let sr = 24000;
    let mut samples = tone(1.0, sr);
    samples.extend((0..sr as usize).map(|i| if i % 7 == 0 { 0.003 } else { -0.002 }));
    let tail = value(trailing_nonspeech_seconds(&held(&samples), sr));
    assert!((tail - 1.0).abs() < 0.05, "expected ~1s tail, got {tail}");
}

#[test]
fn normal_ending_is_not_trimmed() {
    let sr = 24000;
    let mut samples = tone(1.0, sr);
    samples.extend(std::iter::repeat(0.0).take(sr as usize / 10));
    let mut samples = held(&samples);
    let before = samples.len();
    let removed = trim(&mut samples, sr, 0.5);
    assert_eq!(removed, 0.0);
    assert_eq!(samples.len(), before);
}

#[test]
fn degenerate_tail_is_trimmed_to_keep_window() {
    let sr = 24000;
    let mut samples = tone(1.0, sr);
    samples.extend(std::iter::repeat(0.0).take(sr as usize * 10));
    let mut samples = held(&samples);
    let removed = trim(&mut samples, sr, 0.5);
    assert!((removed - 9.5).abs() < 0.05, "removed {removed}");
    let tail = value(trailing_nonspeech_seconds(&samples, sr));
    assert!((tail - 0.5).abs() < 0.05, "tail {tail}");
}

#[test]
fn trimming_keeps_what_was_said() {
    let sr = 8000;
    let mut samples = tone(0.5, sr);
    samples.extend(std::iter::repeat(0.001).take(8000));
    let all = held(&samples);
    let mut cut = all.clone();
    let removed = trim(&mut cut, sr, 0.125);
    assert_eq!(removed, 0.875);
    assert_eq!(cut.len() + 7000, all.len());
    assert_eq!(cut[..], all[..cut.len()]);
    assert_eq!(trailing_nonspeech_seconds(&cut, sr).samples, 1000);
}

#[test]
fn trimming_cuts_off_the_product() {
    // A tail of 1.005 s less 0.5 s is a little less than 12120 samples.
    let mut samples = tone(1.0, 24000);
    samples.extend(std::iter::repeat(0.0).take(24120));
    let mut samples = held(&samples);
    assert_eq!(trailing_nonspeech_seconds(&samples, 24000).samples, 24120);
    let before = samples.len();
    let removed = trim(&mut samples, 24000, 0.5);
    assert_eq!(removed, 24120.0 / 24000.0 - 0.5);
    assert_eq!(before - samples.len(), 12119);
}

#[test]
fn trimming_agrees_with_double_precision() {
    let mut dice = Dice(23);
    let special = [
        0.0,
        -0.0,
        0.5,
        -0.5,
        1e-300,
        -1e-300,
        5e-324,
        -5e-324,
        1e300,
        -1e300,
        f64::MAX,
        f64::MIN,
        f64::INFINITY,
        f64::NEG_INFINITY,
        f64::NAN,
        0.1,
        1e-9,
        -1e-9,
        1e-20,
        -1e-20,
        -1e20,
    ];
    for round in 0..6000usize {
        let rate = match round % 4 {
            0 => 24000,
            1 => 1 + dice.roll() as u32 % 50,
            2 => dice.roll() as u32,
            _ => [0, 8000, 44100, 1000][dice.roll() as usize % 4],
        };
        let tail = dice.roll() as usize % 400;
        let mut samples = vec![0.5f32; dice.roll() as usize % 3];
        samples.extend(std::iter::repeat(0.0).take(tail));
        let mut samples = held(&samples);
        let measured = value(trailing_nonspeech_seconds(&samples, rate));
        let keep_s = match round % 5 {
            0 => special[dice.roll() as usize % special.len()],
            1 => measured * dice.unit() as f64,
            2 => measured,
            3 => f64::from_bits((dice.roll() << 33) ^ dice.roll() ^ (dice.roll() << 60)),
            _ => measured * (1.0 - 1e-15 * dice.roll() as f64 / 1e9),
        };
        let (removed, count) = if measured <= keep_s {
            (0.0, 0)
        } else {
            let removed = measured - keep_s;
            (removed, (removed * rate as f64) as usize)
        };
        let len = samples.len().saturating_sub(count);
        let got = trim(&mut samples, rate, keep_s);
        assert!(
            got.to_bits() == removed.to_bits() || (got.is_nan() && removed.is_nan()),
            "{measured} less {keep_s}: {got}, not {removed}"
        );
        assert_eq!(samples.len(), len, "{measured} less {keep_s} at {rate}");
    }
}

#[test]
fn trimming_never_cuts_into_speech() {
    let mut dice = Dice(29);
    for _ in 0..300 {
        let rate = 1 + dice.roll() as u32 % 48000;
        let mut samples = vec![0.5f32; 200];
        samples.extend(std::iter::repeat(0.0).take(dice.roll() as usize % 5000));
        let mut cut = held(&samples);
        let tail = trailing_nonspeech_seconds(&cut, rate).samples;
        let keep_s = dice.unit() as f64;
        let removed = trim(&mut cut, rate, keep_s);
        assert!(samples.len() - cut.len() <= tail);
        let left = trailing_nonspeech_seconds(&cut, rate).samples;
        assert_eq!(left, tail - (samples.len() - cut.len()));
        if removed > 0.0 {
            assert!((left as f64 - keep_s * rate as f64).abs() <= 2.0);
        }
    }
}

#[test]
fn silence_without_a_rate_has_no_length() {
    assert_eq!(
        trailing_nonspeech_seconds(&held(&[0.0; 100]), 0),
        Seconds { samples: 0, sample_rate: 1 }
    );
    assert_eq!(value(trailing_nonspeech_seconds(&held(&[0.0; 100]), 0)), 0.0);
    assert_eq!(trailing_nonspeech_seconds(&Vec::new(), 24000).samples, 0);
    assert_eq!(trailing_nonspeech_seconds(&held(&[0.0; 100]), 24000).samples, 100);
}

#[test]
fn levels_are_the_bits_of_the_thresholds() {
    assert_eq!(SPEECH_LEVEL, 0.02f32.to_bits());
    assert_eq!(CLICK_LEVEL, 0.03f32.to_bits());
    assert_eq!(QUIET_LEVEL, 0.004f32.to_bits());
}

#[test]
fn blocks_are_five_milliseconds() {
    assert_eq!(block_size(24000), 120);
    assert_eq!(block_size(199), 1);
    assert_eq!(block_size(0), 1);
    assert_eq!(block_size(u32::MAX), (u32::MAX as u64 * 5 / 1000) as usize);
}

#[test]
fn quiet_tail_counts_whole_blocks() {
    let levels: Vec<u32> = vec![0, 9, 0, 0, 0, 0, 0];
    assert_eq!(count_quiet_tail(&levels, 2, 5), 5);
    assert_eq!(count_quiet_tail(&levels, 3, 5), 4);
    assert_eq!(count_quiet_tail(&levels, 2, 9), 7);
    assert_eq!(count_quiet_tail(&levels, 100, 5), 0);
}

#[test]
fn what_is_not_a_number_is_not_heard() {
    let samples = vec![
        Sample { bits: f32::NAN.to_bits() },
        Sample { bits: (-0.25f32).to_bits() },
        Sample { bits: f32::INFINITY.to_bits() },
    ];
    assert_eq!(levels(&samples), vec![0, 0.25f32.to_bits(), f32::INFINITY.to_bits()]);
}

#[test]
fn a_click_before_speech_is_zeroed() {
    let sr = 24000u32;
    let block = 120usize;
    let mut samples = vec![0.0f32; 40 * block];
    for s in samples[5 * block..6 * block].iter_mut() {
        *s = 0.3;
    }
    samples.extend(tone(0.5, sr));
    let mut gated = held(&samples);
    gate_leading_nonspeech(&mut gated, sr);
    assert!(gated[..40 * block].iter().all(|s| s.bits == 0));
    assert_eq!(gated[40 * block..], held(&samples)[40 * block..]);
}

#[test]
fn a_long_soft_word_before_speech_survives() {
    let sr = 24000u32;
    let block = 120usize;
    let mut samples = vec![0.0f32; 10 * block];
    samples.extend(std::iter::repeat(0.05).take(4 * block));
    samples.extend(std::iter::repeat(0.01).take(8 * block));
    samples.extend(std::iter::repeat(0.0).take(30 * block));
    samples.extend(tone(0.5, sr));
    let mut gated = held(&samples);
    gate_leading_nonspeech(&mut gated, sr);
    assert_eq!(gated, held(&samples));
}

#[test]
fn gating_agrees_with_single_precision() {
    let mut dice = Dice(7);
    for round in 0..400 {
        let sample_rate = [8000u32, 16000, 24000, 44100][round % 4];
        let block = (sample_rate as usize * 5 / 1000).max(1);
        let mut floats = signal(&mut dice, block);
        let mut samples = held(&floats);
        gate_floats(&mut floats, sample_rate);
        gate_leading_nonspeech(&mut samples, sample_rate);
        assert_eq!(samples, held(&floats));
    }
}

#[test]
fn gating_nothing_is_nothing() {
    let mut nothing: Vec<Sample> = Vec::new();
    gate_leading_nonspeech(&mut nothing, 24000);
    assert!(nothing.is_empty());
}

#[test]
fn gating_never_makes_a_sample_louder() {
    let mut dice = Dice(11);
    for _ in 0..50 {
        let floats = signal(&mut dice, 120);
        let before = held(&floats);
        let mut after = before.clone();
        gate_leading_nonspeech(&mut after, 24000);
        for (a, b) in after.iter().zip(before.iter()) {
            assert!(a.level() <= b.level());
        }
    }
}
