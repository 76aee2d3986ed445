//! Audio samples and other binary floating-point numbers, held as their bit
//! patterns.
//!
//! A sample is an IEEE 754 single-precision number. How loud it is, and which
//! 16-bit integer stands for it, can be read off the bits exactly: without the
//! sign bit, the patterns are ordered as the magnitudes are.

use vstd::arithmetic::power2::pow2;
use vstd::prelude::*;

verus! {

/// One audio sample: the bit pattern of an IEEE 754 single-precision number.
#[derive(Clone, Copy, Debug, PartialEq, Eq, Structural)]
pub struct Sample {
    pub bits: u32,
}

/// A double-precision number, held as its bit pattern.
#[derive(Clone, Copy, Debug, PartialEq, Eq, Structural)]
pub struct Double {
    pub bits: u64,
}

impl Double {
    /// Whether the number is greater than zero (and is a number).
    pub open spec fn positive(self) -> bool {
        0 < self.bits <= 0x7ff0_0000_0000_0000
    }

    /// Whether the number is greater than zero (and is a number).
    pub fn is_positive(self) -> (r: bool)
        ensures
            r == self.positive(),
    {
        0 < self.bits && self.bits <= 0x7ff0_0000_0000_0000
    }
}

/// The bits of infinity; patterns above it (without their sign) are not numbers.
pub const INFINITY_BITS: u32 = 0x7f80_0000;

/// The sign bit.
pub const SIGN_BIT: u32 = 0x8000_0000;

impl Sample {
    /// Digital silence.
    pub open spec fn silence() -> Sample {
        Sample { bits: 0 }
    }

    /// The bits without the sign.
    pub open spec fn unsigned_bits(self) -> u32 {
        if self.bits >= SIGN_BIT {
            (self.bits - SIGN_BIT) as u32
        } else {
            self.bits
        }
    }

    /// Whether the sign bit is set.
    pub open spec fn negative(self) -> bool {
        self.bits >= SIGN_BIT
    }

    /// Whether the pattern is not a number.
    pub open spec fn is_nan(self) -> bool {
        self.unsigned_bits() > INFINITY_BITS
    }

    /// How loud the sample is: its magnitude as a bit pattern. What is not a
    /// number is not heard.
    pub open spec fn loudness(self) -> u32 {
        if self.is_nan() {
            0
        } else {
            self.unsigned_bits()
        }
    }

    /// The magnitude of a finite sample in units of the smallest positive
    /// single-precision number, two to the power of minus 149.
    pub open spec fn units(self) -> nat {
        let exponent = self.unsigned_bits() / 0x80_0000;
        let fraction = self.unsigned_bits() % 0x80_0000;
        if exponent == 0 {
            fraction as nat
        } else {
            (0x80_0000 + fraction) as nat * pow2((exponent - 1) as nat)
        }
    }

    /// How loud the sample is.
    pub fn level(self) -> (r: u32)
        ensures
            r == self.loudness(),
    {
        let unsigned: u32 = if self.bits >= SIGN_BIT {
            self.bits - SIGN_BIT
        } else {
            self.bits
        };
        if unsigned > INFINITY_BITS {
            0
        } else {
            unsigned
        }
    }

    /// The sample as 16-bit PCM: 32768 times the sample, cut off towards zero and
    /// held within the range of the type.
    pub open spec fn pcm(self) -> int {
        let scaled = if self.unsigned_bits() == INFINITY_BITS {
            32768
        } else {
            // 32768 times the magnitude, in units of two to the power of minus 149.
            (self.units() / pow2(134)) as int
        };
        if self.is_nan() {
            0
        } else if self.negative() {
            if scaled > 32768 {
                -32768
            } else {
                -scaled
            }
        } else if scaled > 32767 {
            32767
        } else {
            scaled
        }
    }
}

/// Louder means of greater magnitude: the order of the bit patterns is the order
/// of the numbers that they stand for.
pub proof fn loudness_orders_magnitudes(a: Sample, b: Sample)
    requires
        a.unsigned_bits() < INFINITY_BITS,
        b.unsigned_bits() < INFINITY_BITS,
    ensures
        a.loudness() < b.loudness() <==> a.units() < b.units(),
{
    if a.unsigned_bits() < b.unsigned_bits() {
        lemma_units_increase(a, b);
    } else if b.unsigned_bits() < a.unsigned_bits() {
        lemma_units_increase(b, a);
    }
}

pub(crate) proof fn lemma_units_increase(a: Sample, b: Sample)
    requires
        a.unsigned_bits() < b.unsigned_bits(),
    ensures
        a.units() < b.units(),
{
    let ea = (a.unsigned_bits() / 0x80_0000) as nat;
    let eb = (b.unsigned_bits() / 0x80_0000) as nat;
    let fa = (a.unsigned_bits() % 0x80_0000) as nat;
    let fb = (b.unsigned_bits() % 0x80_0000) as nat;
    lemma_units_below(a);
    if ea == eb {
        if ea > 0 {
            let p = pow2((ea - 1) as nat);
            vstd::arithmetic::power2::lemma_pow2_pos((ea - 1) as nat);
            assert((0x80_0000 + fa) * p < (0x80_0000 + fb) * p) by (nonlinear_arith)
                requires
                    fa < fb,
                    p > 0,
            ;
        }
    } else {
        assert(ea < eb);
        let p = pow2((eb - 1) as nat);
        if ea < eb - 1 {
            vstd::arithmetic::power2::lemma_pow2_strictly_increases(ea, (eb - 1) as nat);
        }
        vstd::arithmetic::power2::lemma_pow2_pos((eb - 1) as nat);
        assert(0x80_0000 * pow2(ea) <= (0x80_0000 + fb) * p) by (nonlinear_arith)
            requires
                pow2(ea) <= p,
                fb >= 0,
                p > 0,
        ;
    }
}

/// The magnitude of a sample is less than that of the next higher exponent.
proof fn lemma_units_below(a: Sample)
    ensures
        a.units() < 0x80_0000 * pow2((a.unsigned_bits() / 0x80_0000) as nat),
{
    let e = (a.unsigned_bits() / 0x80_0000) as nat;
    let f = (a.unsigned_bits() % 0x80_0000) as nat;
    vstd::arithmetic::power2::lemma_pow2_pos(e);
    if e == 0 {
        vstd::arithmetic::power2::lemma2_to64();
    } else {
        vstd::arithmetic::power2::lemma_pow2_unfold(e);
        let p = pow2((e - 1) as nat);
        vstd::arithmetic::power2::lemma_pow2_pos((e - 1) as nat);
        assert((0x80_0000 + f) * p < 0x80_0000 * (2 * p)) by (nonlinear_arith)
            requires
                f < 0x80_0000,
                p > 0,
        ;
    }
}

/// `n` shifted right by `s` bits.
pub(crate) fn shift_right(n: u32, s: u32) -> (r: u32)
    requires
        s < 32,
    ensures
        r == n as nat / pow2(s as nat),
{
    proof {
        vstd::bits::lemma_u32_shr_is_div(n, s);
    }
    n >> s
}

/// The sample as 16-bit PCM.
pub fn to_i16(sample: Sample) -> (r: i16)
    ensures
        r == sample.pcm(),
{
    let negative: bool = sample.bits >= SIGN_BIT;
    let unsigned: u32 = if negative {
        sample.bits - SIGN_BIT
    } else {
        sample.bits
    };
    if unsigned > INFINITY_BITS {
        return 0;
    }
    let exponent: u32 = unsigned / 0x80_0000;
    let fraction: u32 = unsigned % 0x80_0000;
    let scaled: u32 = if exponent >= 127 {
        proof {
            lemma_scaled_large(sample);
        }
        32768
    } else if exponent < 112 {
        proof {
            lemma_scaled_small(sample);
        }
        0
    } else {
        proof {
            lemma_scaled_middle(sample);
        }
        shift_right(0x80_0000 + fraction, 135 - exponent)
    };
    if negative {
        if scaled >= 32768 {
            -32768
        } else {
            -(scaled as i16)
        }
    } else if scaled > 32767 {
        32767
    } else {
        scaled as i16
    }
}

proof fn lemma_scaled_large(sample: Sample)
    requires
        sample.unsigned_bits() / 0x80_0000 >= 127,
    ensures
        sample.units() / pow2(134) >= 32768,
{
    let e = (sample.unsigned_bits() / 0x80_0000) as nat;
    let f = (sample.unsigned_bits() % 0x80_0000) as nat;
    let p = pow2(134);
    vstd::arithmetic::power2::lemma_pow2_pos(134);
    vstd::arithmetic::power2::lemma2_to64();
    vstd::arithmetic::power2::lemma_pow2_adds(126, 8);
    if e > 127 {
        vstd::arithmetic::power2::lemma_pow2_strictly_increases(126, (e - 1) as nat);
    }
    let q = pow2((e - 1) as nat);
    assert((0x80_0000 + f) * q >= 32768 * p) by (nonlinear_arith)
        requires
            q >= pow2(126),
            p == pow2(126) * 256,
            f >= 0,
            pow2(126) >= 0,
    ;
    vstd::arithmetic::div_mod::lemma_div_is_ordered(
        32768 * p as int,
        sample.units() as int,
        p as int,
    );
    vstd::arithmetic::div_mod::lemma_div_by_multiple(32768, p as int);
}

proof fn lemma_scaled_small(sample: Sample)
    requires
        sample.unsigned_bits() / 0x80_0000 < 112,
    ensures
        sample.units() / pow2(134) == 0,
{
    let e = (sample.unsigned_bits() / 0x80_0000) as nat;
    lemma_units_below(sample);
    vstd::arithmetic::power2::lemma2_to64();
    vstd::arithmetic::power2::lemma_pow2_adds(111, 23);
    if e < 111 {
        vstd::arithmetic::power2::lemma_pow2_strictly_increases(e, 111);
    }
    assert(sample.units() < pow2(134));
    vstd::arithmetic::div_mod::lemma_basic_div(sample.units() as int, pow2(134) as int);
}

proof fn lemma_scaled_middle(sample: Sample)
    requires
        112 <= sample.unsigned_bits() / 0x80_0000 < 127,
    ensures
        sample.units() / pow2(134) == (0x80_0000 + sample.unsigned_bits() % 0x80_0000) as nat
            / pow2((135 - sample.unsigned_bits() / 0x80_0000) as nat),
        sample.units() / pow2(134) < 32768,
{
    let e = (sample.unsigned_bits() / 0x80_0000) as nat;
    let g = (0x80_0000 + sample.unsigned_bits() % 0x80_0000) as nat;
    let a = pow2((e - 1) as nat);
    let b = pow2((135 - e) as nat);
    vstd::arithmetic::power2::lemma_pow2_pos((e - 1) as nat);
    vstd::arithmetic::power2::lemma_pow2_pos((135 - e) as nat);
    vstd::arithmetic::power2::lemma_pow2_adds((e - 1) as nat, (135 - e) as nat);
    assert(pow2(134) == a * b);
    vstd::arithmetic::div_mod::lemma_div_denominator((g * a) as int, a as int, b as int);
    vstd::arithmetic::div_mod::lemma_div_by_multiple(g as int, a as int);
    vstd::arithmetic::power2::lemma2_to64();
    if e < 126 {
        vstd::arithmetic::power2::lemma_pow2_strictly_increases(9, (135 - e) as nat);
    }
    assert(g < 32768 * b) by (nonlinear_arith)
        requires
            g < 0x100_0000,
            b >= 512,
    ;
    vstd::arithmetic::div_mod::lemma_multiply_divide_lt(g as int, b as int, 32768);
}

/// Samples as 16-bit PCM, one for one.
pub open spec fn pcm_of(samples: Seq<Sample>) -> Seq<i16> {
    samples.map_values(|s: Sample| s.pcm() as i16)
}

/// Samples as 16-bit PCM, one for one.
pub fn samples_to_i16(samples: &Vec<Sample>) -> (r: Vec<i16>)
    ensures
        r@ == pcm_of(samples@),
{
    let mut r: Vec<i16> = Vec::new();
    let mut i: usize = 0;
    while i < samples.len()
        invariant
            0 <= i <= samples@.len(),
            r@ == pcm_of(samples@.take(i as int)),
        decreases samples@.len() - i,
    {
        r.push(to_i16(samples[i]));
        assert(r@ =~= pcm_of(samples@.take(i + 1)));
        i += 1;
    }
    assert(samples@.take(samples@.len() as int) =~= samples@);
    r
}

/// What PCM of a finite sample is: 32768 times its magnitude, cut off towards zero,
/// with its sign, and held within the range of the type.
pub proof fn pcm_is_scaled_and_cut_off(s: Sample)
    requires
        s.bits as int % 0x8000_0000 < 0x7f80_0000,
    ensures
        ({
            let p = s.pcm();
            let one = pow2(134);
            &&& -32768 <= p <= 32767
            &&& s.bits < 0x8000_0000 ==> 0 <= p && p * one <= s.units() && (p < 32767 ==> s.units()
                < (p + 1) * one)
            &&& s.bits >= 0x8000_0000 ==> p <= 0 && -p * one <= s.units() && (-32768 < p
                ==> s.units() < (-p + 1) * one)
        }),
{
    let one = pow2(134) as int;
    let u = s.units() as int;
    let q = u / one;
    vstd::arithmetic::power2::lemma_pow2_pos(134);
    vstd::arithmetic::div_mod::lemma_fundamental_div_mod(u, one);
    vstd::arithmetic::div_mod::lemma_div_pos_is_pos(u, one);
    assert(q * one <= u < (q + 1) * one) by (nonlinear_arith)
        requires
            u == one * q + u % one,
            0 <= u % one < one,
    ;
    assert(32767 <= q ==> 32767 * one <= u) by (nonlinear_arith)
        requires
            q * one <= u,
            one > 0,
    ;
    assert(32768 <= q ==> 32768 * one <= u) by (nonlinear_arith)
        requires
            q * one <= u,
            one > 0,
    ;
}

/// PCM of infinity is the end of the range, and of what is not a number silence.
pub proof fn pcm_of_what_is_not_finite(s: Sample)
    requires
        s.bits as int % 0x8000_0000 >= 0x7f80_0000,
    ensures
        s.pcm() == (if s.bits as int % 0x8000_0000 > 0x7f80_0000 {
            0int
        } else if s.bits < 0x8000_0000 {
            32767
        } else {
            -32768
        }),
{
}

/// The magnitude that bits stand for: a fraction of 23 bits, with one more in front
/// and raised by the exponent less one, unless that is zero.
pub proof fn units_are_those_of_the_format(s: Sample)
    ensures
        ({
            let m = s.bits as int % 0x8000_0000;
            m < 0x80_0000 ==> s.units() == m
        }),
        ({
            let m = s.bits as int % 0x8000_0000;
            m >= 0x80_0000 ==> s.units() == ((m % 0x80_0000) as nat + 0x80_0000nat) * pow2(
                (m / 0x80_0000 - 1) as nat,
            )
        }),
{
}

/// Samples are converted each by itself, in order.
pub proof fn samples_are_converted_in_order(samples: Seq<Sample>, i: int)
    requires
        0 <= i < samples.len(),
    ensures
        pcm_of(samples).len() == samples.len(),
        pcm_of(samples)[i] == samples[i].pcm() as i16,
{
}

} // verus!
