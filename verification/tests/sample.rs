//! Samples and lengths, held against floating-point arithmetic.

use spqx::rounding::round_half_even;
use spqx::sample::{samples_to_i16, to_i16, Double, Sample};
use spqx::scaling::{fade_in, to_symmetric_i16};
use spqx::seconds::{seconds_text, Seconds};

struct Dice(u64);

impl Dice {
    fn roll(&mut self) -> u64 {
        self.0 = self.0.wrapping_mul(6364136223846793005).wrapping_add(1442695040888963407);
        self.0 >> 32
    }
}

/// Bit patterns of every exponent, the special ones among them.
fn patterns(dice: &mut Dice) -> Vec<u32> {
    let mut bits: Vec<u32> = vec![
        0,
        0x8000_0000,
        1,
        0x8000_0001,
        0x7f80_0000,
        0xff80_0000,
        0x7fc0_0000,
        1.0f32.to_bits(),
        (-1.0f32).to_bits(),
        0.999_999_94f32.to_bits(),
        1.000_000_1f32.to_bits(),
        f32::MAX.to_bits(),
        f32::MIN_POSITIVE.to_bits(),
    ];
    for exponent in 0..255u32 {
        for _ in 0..20 {
            let sign = (dice.roll() as u32 & 1) << 31;
            bits.push(sign | exponent << 23 | (dice.roll() as u32 & 0x7f_ffff));
        }
    }
    for _ in 0..20000 {
        bits.push(dice.roll() as u32);
    }
    bits
}

#[test]
fn pcm_agrees_with_single_precision() {
    for bits in patterns(&mut Dice(1)) {
        let sample = f32::from_bits(bits);
        let expected = (sample.clamp(-1.0, 1.0) * 32768.0).clamp(-32768.0, 32767.0) as i16;
        assert_eq!(to_i16(Sample { bits }), expected, "{sample}");
    }
}

#[test]
fn symmetric_pcm_agrees_with_single_precision() {
    for bits in patterns(&mut Dice(2)) {
        let sample = f32::from_bits(bits);
        let expected = (sample.clamp(-1.0, 1.0) * 32767.0) as i16;
        assert_eq!(to_symmetric_i16(Sample { bits }), expected, "{sample}");
    }
}

#[test]
fn fading_agrees_with_single_precision() {
    let bits = patterns(&mut Dice(3));
    for n in [1usize, 2, 3, 5, 72, 1023, 1024, 4097, 20011] {
        let mut samples: Vec<Sample> = bits.iter().map(|b| Sample { bits: *b }).collect();
        fade_in(&mut samples, n);
        for (i, b) in bits.iter().enumerate() {
            let sample = f32::from_bits(*b);
            let expected = if i < n { sample * (i as f32 / n as f32) } else { sample };
            let got = f32::from_bits(samples[i].bits);
            assert!(
                got.to_bits() == expected.to_bits() || (got.is_nan() && expected.is_nan()),
                "{sample} times {i} over {n}: {got}, not {expected}"
            );
        }
    }
}

#[test]
fn fading_starts_from_zero() {
    let mut samples = vec![Sample { bits: 1.0f32.to_bits() }; 5];
    fade_in(&mut samples, 4);
    let floats: Vec<f32> = samples.iter().map(|s| f32::from_bits(s.bits)).collect();
    assert_eq!(floats, vec![0.0, 0.25, 0.5, 0.75, 1.0]);
}

#[test]
fn samples_are_converted_one_for_one() {
    let samples: Vec<Sample> =
        [0.0f32, 0.5, -0.5, 2.0, -2.0].iter().map(|s| Sample { bits: s.to_bits() }).collect();
    assert_eq!(samples_to_i16(&samples), vec![0, 16384, -16384, 32767, -32768]);
}

#[test]
fn louder_bits_are_greater_magnitudes() {
    let bits = patterns(&mut Dice(4));
    for pair in bits.windows(2) {
        let (a, b) = (Sample { bits: pair[0] }, Sample { bits: pair[1] });
        let (x, y) = (f32::from_bits(pair[0]).abs(), f32::from_bits(pair[1]).abs());
        if x.is_finite() && y.is_finite() {
            assert_eq!(a.level() < b.level(), x < y);
        }
    }
}

#[test]
fn positive_doubles_are_told_apart() {
    for x in [0.0f64, -0.0, 1.0, -1.0, 5e-324, f64::INFINITY, f64::NEG_INFINITY, f64::NAN] {
        assert_eq!(Double { bits: x.to_bits() }.is_positive(), x > 0.0);
    }
}

#[test]
fn rounding_goes_to_the_even_neighbour() {
    assert_eq!(round_half_even(5, 2), 2);
    assert_eq!(round_half_even(7, 2), 4);
    assert_eq!(round_half_even(8, 3), 3);
    assert_eq!(round_half_even(7, 3), 2);
}

#[test]
fn seconds_are_written_as_doubles_are() {
    let mut dice = Dice(5);
    let mut cases: Vec<(usize, u32)> = vec![
        (0, 24000),
        (1, 20),
        (3, 20),
        (1, 4),
        (3, 4),
        (1, u32::MAX),
        (6000, 24000),
        (143999, 24000),
        ((1 << 53) - 1, 1),
        ((1 << 53) - 1, u32::MAX),
        (5, 0),
        (0, 0),
    ];
    for _ in 0..20000 {
        cases.push((dice.roll() as usize % 3_000_000, [8000, 16000, 22050, 24000, 44100, 48000][dice.roll() as usize % 6]));
        cases.push((dice.roll() as usize, dice.roll() as u32));
        cases.push((dice.roll() as usize % 1000, 1 + dice.roll() as u32 % 1000));
    }
    for (samples, sample_rate) in cases {
        let expected = format!("{:.1}", samples as f64 / sample_rate as f64);
        assert_eq!(seconds_text(Seconds { samples, sample_rate }), expected);
    }
}
