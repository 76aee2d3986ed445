//! Samples multiplied by a factor, rounded as single-precision arithmetic does.

use crate::rounding::{
    lemma_nearest_even_at_most, lemma_nearest_float_at_most, lemma_nearest_float_by_bits,
    lemma_nearest_float_error, lemma_nearest_float_of_multiples, lemma_nearest_float_of_quotient, nearest_even,
    nearest_single, round_half_even, spacing,
};
use crate::sample::{shift_right, Sample, INFINITY_BITS, SIGN_BIT};
use vstd::arithmetic::power2::pow2;
use vstd::prelude::*;

verus! {

// ---------------------------------------------------------------------------
// The fade
// ---------------------------------------------------------------------------

/// What infinity times zero is: not a number.
pub const NAN_BITS: u32 = 0x7fc0_0000;

/// `i` over `n` as a single-precision number, in units of the smallest positive
/// one.
pub open spec fn ratio_units(i: nat, n: nat) -> nat {
    nearest_single(i * pow2(149), n)
}

impl Sample {
    /// Whether this is `s` times `i` over `n`: the factor is rounded first, then
    /// the product. What is not a number stays as it is.
    pub open spec fn is_faded(self, s: Sample, i: nat, n: nat) -> bool {
        if s.is_nan() {
            self == s
        } else if s.unsigned_bits() == INFINITY_BITS {
            self == (if i == 0 {
                Sample { bits: NAN_BITS }
            } else {
                s
            })
        } else {
            &&& self.negative() == s.negative()
            &&& !self.is_nan()
            &&& self.units() == nearest_single(s.units() * ratio_units(i, n), pow2(149))
        }
    }
}

/// Whether `after` is `before` with its first `n` samples faded in: sample `i` of
/// them is multiplied by `i` over `n`.
pub open spec fn fades_in(after: Seq<Sample>, before: Seq<Sample>, n: int) -> bool {
    &&& after.len() == before.len()
    &&& forall|i: int|
        0 <= i < n && i < before.len() ==> (#[trigger] after[i]).is_faded(
            before[i],
            i as nat,
            n as nat,
        )
    &&& forall|i: int| n <= i < before.len() ==> #[trigger] after[i] == before[i]
}

/// `p` times two to the `up`, over two to the `down`, as a single-precision
/// number: its leading bits and the exponent that they are to be raised by.
fn round_bits(p: u64, up: u32, down: u32) -> (r: (u32, u32))
    requires
        p < 0x1_0000_0000_0000,
        up <= 1000,
        down <= 60,
        up > down ==> p >= 0x80_0000,
    ensures
        r.0 * pow2(r.1 as nat) == nearest_single(
            p as nat * pow2(up as nat),
            pow2(down as nat),
        ),
        r.0 <= 0x100_0000,
        r.1 > 0 ==> r.0 >= 0x80_0000,
        r.1 > 0 ==> r.1 + down <= up + 24,
{
    let mut d: u32 = 0;
    let mut unit: u64 = 1;
    proof {
        vstd::arithmetic::power2::lemma2_to64();
        assert(p / 1 == p);
    }
    while d + up < down || p / unit >= 0x100_0000
        invariant
            p < 0x1_0000_0000_0000,
            up <= 1000,
            down <= 60,
            up > down ==> p >= 0x80_0000,
            unit == pow2(d as nat),
            0 < unit <= 0x1000_0000_0000_0000,
            d <= 60,
            d <= 24 || d + up <= down,
            d + up > down ==> p / unit >= 0x80_0000,
        decreases 60 - d,
    {
        proof {
            let ghost u = unit as int;
            vstd::arithmetic::power2::lemma_pow2_unfold((d + 1) as nat);
            vstd::arithmetic::power2::lemma2_to64();
            vstd::arithmetic::div_mod::lemma_div_denominator(p as int, u, 2);
            vstd::arithmetic::div_mod::lemma_fundamental_div_mod(p as int, u);
            if p as int / u >= 0x100_0000 {
                assert(u < 0x100_0000) by (nonlinear_arith)
                    requires
                        p >= u * (p as int / u),
                        p as int / u >= 0x100_0000,
                        p < 0x1_0000_0000_0000,
                        u > 0,
                ;
                if d >= 24 {
                    if d > 24 {
                        vstd::arithmetic::power2::lemma_pow2_strictly_increases(24, d as nat);
                    }
                }
            }
            vstd::arithmetic::power2::lemma2_to64_rest();
            if d + 1 < 60 {
                vstd::arithmetic::power2::lemma_pow2_strictly_increases((d + 1) as nat, 60);
            }
        }
        d += 1;
        unit = unit * 2;
    }
    let mant: u128 = round_half_even(p as u128, unit as u128);
    let x: u32 = d + up - down;
    proof {
        lemma_nearest_float_by_bits(
            p as nat,
            up as nat,
            down as nat,
            d as nat,
            x as nat,
            0x80_0000,
        );
    }
    (mant as u32, x)
}

/// The bit pattern of a magnitude.
fn pack(mant: u32, x: u32) -> (bits: u32)
    requires
        mant <= 0x100_0000,
        x <= 253,
        x > 0 ==> mant >= 0x80_0000,
    ensures
        bits <= INFINITY_BITS,
        (Sample { bits }).units() == mant * pow2(x as nat),
        !(Sample { bits }).negative(),
{
    proof {
        vstd::arithmetic::power2::lemma2_to64();
        vstd::arithmetic::power2::lemma_pow2_unfold((x + 1) as nat);
        let bits = (x * 0x80_0000 + mant) as u32;
        let px = pow2(x as nat);
        let s = Sample { bits };
        if mant == 0x100_0000 {
            assert(bits / 0x80_0000 == x + 2 && bits % 0x80_0000 == 0);
            assert(s.units() == 0x80_0000 * pow2((x + 1) as nat));
        } else if mant >= 0x80_0000 {
            assert(bits / 0x80_0000 == x + 1 && bits % 0x80_0000 == mant - 0x80_0000);
            assert(s.units() == mant as nat * px);
        } else {
            assert(s.units() == mant);
            assert(mant * px == mant) by (nonlinear_arith)
                requires
                    px == 1,
            ;
        }
    }
    x * 0x80_0000 + mant
}

/// The leading bits of a magnitude, and the exponent that they are raised by.
fn unpack(unsigned: u32) -> (r: (u32, u32))
    requires
        unsigned < INFINITY_BITS,
    ensures
        (Sample { bits: unsigned }).units() == r.0 * pow2(r.1 as nat),
        r.0 < 0x100_0000,
        r.1 <= 253,
        r.1 > 0 ==> r.0 >= 0x80_0000,
{
    let exponent: u32 = unsigned / 0x80_0000;
    let fraction: u32 = unsigned % 0x80_0000;
    proof {
        vstd::arithmetic::power2::lemma2_to64();
        assert(fraction * pow2(0) == fraction) by (nonlinear_arith)
            requires
                pow2(0) == 1,
        ;
    }
    if exponent == 0 {
        (fraction, 0)
    } else {
        (0x80_0000 + fraction, exponent - 1)
    }
}

/// `i` over `n` as a single-precision number: its leading bits and the power of
/// two that they are divided by.
fn fraction(i: u32, n: u32) -> (r: (u32, u32))
    requires
        0 < i < n < 0x100_0000,
    ensures
        ratio_units(i as nat, n as nat) == r.0 * pow2((149 - r.1) as nat),
        0x80_0000 <= r.0 <= 0x100_0000,
        24 <= r.1 <= 48,
{
    let mut scaled: u64 = i as u64;
    let mut k: u32 = 0;
    proof {
        vstd::arithmetic::power2::lemma2_to64();
        vstd::arithmetic::div_mod::lemma_basic_div(i as int, n as int);
    }
    while scaled / (n as u64) < 0x80_0000
        invariant
            0 < i < n < 0x100_0000,
            scaled == i * pow2(k as nat),
            scaled / (n as u64) < 0x100_0000,
            scaled < 0x1_0000_0000_0000,
            k <= 48,
        decreases 48 - k,
    {
        proof {
            let ghost s = scaled as int;
            vstd::arithmetic::power2::lemma_pow2_unfold((k + 1) as nat);
            let ghost pk = pow2(k as nat) as int;
            assert(i * (2 * pk) == 2 * (i * pk)) by (nonlinear_arith);
            vstd::arithmetic::div_mod::lemma_fundamental_div_mod(s, n as int);
            vstd::arithmetic::div_mod::lemma_fundamental_div_mod(2 * s, n as int);
            assert(s < 0x80_0000 * n) by (nonlinear_arith)
                requires
                    s == n * (s / (n as int)) + s % (n as int),
                    s % (n as int) < n,
                    s / (n as int) + 1 <= 0x80_0000,
                    n > 0,
            ;
            assert(2 * s / (n as int) < 0x100_0000) by (nonlinear_arith)
                requires
                    n * (2 * s / (n as int)) <= 2 * s,
                    2 * s < 0x100_0000 * n,
                    n > 0,
            ;
            vstd::arithmetic::power2::lemma2_to64_rest();
            if k >= 48 {
                assert(s >= pk) by (nonlinear_arith)
                    requires
                        s == i * pk,
                        i >= 1,
                        pk >= 0,
                ;
            }
        }
        scaled = scaled * 2;
        k += 1;
    }
    let m: u128 = round_half_even(scaled as u128, n as u128);
    proof {
        let ghost s = scaled as nat;
        let ghost x = (149 - k) as nat;
        let ghost c = pow2(x);
        vstd::arithmetic::div_mod::lemma_fundamental_div_mod(s as int, n as int);
        // A fraction below one with 24 bits before the point was raised by at
        // least as many.
        if k < 24 {
            vstd::arithmetic::power2::lemma2_to64();
            if k < 23 {
                vstd::arithmetic::power2::lemma_pow2_strictly_increases(k as nat, 23);
            }
            let ghost pk = pow2(k as nat) as int;
            assert(s < 0x80_0000 * n) by (nonlinear_arith)
                requires
                    s == i * pk,
                    0 < pk <= 0x80_0000,
                    0 < i < n,
            ;
            assert(s >= 0x80_0000 * n) by (nonlinear_arith)
                requires
                    s >= n * (s as int / n as int),
                    s as int / n as int >= 0x80_0000,
                    n > 0,
            ;
        }
        vstd::arithmetic::power2::lemma_pow2_adds(k as nat, x);
        vstd::arithmetic::power2::lemma_pow2_pos(x);
        let ghost pk = pow2(k as nat);
        assert(i as nat * (pk * c) == s * c) by (nonlinear_arith)
            requires
                s == i * pk,
        ;
        lemma_nearest_float_of_quotient(s, n as nat, x, 0x80_0000);
    }
    (m as u32, k)
}

/// `s` times `i` over `n`.
fn fade_sample(s: Sample, i: u32, n: u32) -> (r: Sample)
    requires
        i < n < 0x100_0000,
    ensures
        r.is_faded(s, i as nat, n as nat),
{
    let negative: bool = s.bits >= SIGN_BIT;
    let unsigned: u32 = if negative {
        s.bits - SIGN_BIT
    } else {
        s.bits
    };
    if unsigned > INFINITY_BITS {
        return s;
    }
    if unsigned == INFINITY_BITS {
        return if i == 0 {
            Sample { bits: NAN_BITS }
        } else {
            s
        };
    }
    proof {
        vstd::arithmetic::power2::lemma2_to64();
        vstd::arithmetic::power2::lemma_pow2_pos(149);
    }
    let magnitude: u32 = if i == 0 {
        proof {
            lemma_nothing(n as nat);
            assert(0 * pow2(149) == 0);
            let u = s.units();
            assert(u * ratio_units(0, n as nat) == 0) by (nonlinear_arith)
                requires
                    ratio_units(0, n as nat) == 0,
            ;
            lemma_nothing(pow2(149));
        }
        0
    } else {
        let (lead, up) = unpack(unsigned);
        let (m, down) = fraction(i, n);
        proof {
            assert(lead * m < 0x1_0000_0000_0000) by (nonlinear_arith)
                requires
                    lead < 0x100_0000,
                    0 < m <= 0x100_0000,
            ;
        }
        let p: u64 = lead as u64 * m as u64;
        proof {
            if up > 0 {
                assert(p >= 0x80_0000) by (nonlinear_arith)
                    requires
                        lead >= 0x80_0000,
                        m >= 1,
                        p == lead * m,
                ;
            }
        }
        let (mant, x) = round_bits(p, up, down);
        proof {
            let ghost c = pow2((149 - down) as nat);
            let ghost pu = pow2(up as nat);
            let ghost pd = pow2(down as nat);
            vstd::arithmetic::power2::lemma_pow2_pos((149 - down) as nat);
            vstd::arithmetic::power2::lemma_pow2_pos(down as nat);
            vstd::arithmetic::power2::lemma_pow2_adds(down as nat, (149 - down) as nat);
            lemma_nearest_float_of_multiples((p as nat) * pu, pd, c, 0x100_0000);
            assert((lead * pu) * (m * c) == ((lead * m) * pu) * c) by (nonlinear_arith);
            assert(s.units() == (Sample { bits: unsigned }).units());
        }
        pack(mant, x)
    };
    if negative {
        Sample { bits: magnitude + SIGN_BIT }
    } else {
        Sample { bits: magnitude }
    }
}

proof fn lemma_nothing(d: nat)
    requires
        d > 0,
    ensures
        nearest_single(0, d) == 0,
{
    vstd::arithmetic::div_mod::lemma_basic_div(0, d as int);
    assert(0nat / d == 0);
    assert(d * 1 == d) by (nonlinear_arith);
    lemma_nearest_even_at_most(0, d, 0);
    assert(spacing(0, 0x100_0000) == 1);
    assert(nearest_even(0, d) * 1 == 0);
}

/// Fades in the first `n` samples.
pub fn fade_in(samples: &mut Vec<Sample>, n: usize)
    requires
        n <= old(samples)@.len(),
        n < 0x100_0000,
    ensures
        fades_in(final(samples)@, old(samples)@, n as int),
{
    let mut i: usize = 0;
    while i < n
        invariant
            i <= n <= old(samples)@.len(),
            n < 0x100_0000,
            samples@.len() == old(samples)@.len(),
            forall|j: int|
                0 <= j < i ==> (#[trigger] samples@[j]).is_faded(
                    old(samples)@[j],
                    j as nat,
                    n as nat,
                ),
            forall|j: int| i <= j < samples@.len() ==> #[trigger] samples@[j] == old(samples)@[j],
        decreases n - i,
    {
        let s: Sample = fade_sample(samples[i], i as u32, n as u32);
        samples[i] = s;
        i += 1;
    }
}

// ---------------------------------------------------------------------------
// What fading keeps
// ---------------------------------------------------------------------------

/// The leading bits of a finite sample, and the exponent that they are raised by.
proof fn lemma_unpacked(s: Sample) -> (r: (nat, nat))
    ensures
        s.units() == r.0 * pow2(r.1),
        r.0 < 0x100_0000,
{
    vstd::arithmetic::power2::lemma2_to64();
    let exponent = (s.unsigned_bits() / 0x80_0000) as nat;
    let fraction = (s.unsigned_bits() % 0x80_0000) as nat;
    if exponent == 0 {
        assert(fraction * pow2(0) == fraction) by (nonlinear_arith)
            requires
                pow2(0) == 1,
        ;
        (fraction, 0)
    } else {
        ((0x80_0000 + fraction) as nat, (exponent - 1) as nat)
    }
}

/// Fading only attenuates: no sample gets louder.
pub proof fn fading_only_attenuates(r: Sample, s: Sample, i: nat, n: nat)
    requires
        r.is_faded(s, i, n),
        i < n,
    ensures
        r.loudness() <= s.loudness(),
{
    if !s.is_nan() && s.unsigned_bits() != INFINITY_BITS {
        let p = pow2(149);
        let factor = ratio_units(i, n);
        let u = s.units();
        vstd::arithmetic::power2::lemma_pow2_pos(149);
        assert(1 * p == p) by (nonlinear_arith);
        assert(i * p <= (1 * p) * n) by (nonlinear_arith)
            requires
                i < n,
        ;
        lemma_nearest_float_at_most(i * p, n, 1, 149, 0x80_0000);
        let (lead, up) = lemma_unpacked(s);
        assert(u * factor <= u * p) by (nonlinear_arith)
            requires
                factor <= p,
        ;
        lemma_nearest_float_at_most(u * factor, p, lead, up, 0x80_0000);
        if s.unsigned_bits() < r.unsigned_bits() {
            crate::sample::lemma_units_increase(s, r);
        }
    }
}

/// What fading gives is determined.
pub proof fn fading_is_determined(a: Sample, b: Sample, s: Sample, i: nat, n: nat)
    requires
        a.is_faded(s, i, n),
        b.is_faded(s, i, n),
    ensures
        a == b,
{
    if a.unsigned_bits() < b.unsigned_bits() {
        crate::sample::lemma_units_increase(a, b);
    } else if b.unsigned_bits() < a.unsigned_bits() {
        crate::sample::lemma_units_increase(b, a);
    }
}

// ---------------------------------------------------------------------------
// Symmetric PCM
// ---------------------------------------------------------------------------

impl Sample {
    /// The sample as 16-bit PCM on a symmetric scale: 32767 times the sample, held
    /// between minus one and one, rounded and then cut off towards zero.
    pub open spec fn symmetric_pcm(self) -> int {
        let magnitude = if self.unsigned_bits() >= ONE_BITS {
            32767
        } else {
            (nearest_single(self.units() * 32767, 1) / pow2(149)) as int
        };
        if self.is_nan() {
            0
        } else if self.negative() {
            -magnitude
        } else {
            magnitude
        }
    }
}

/// The bits of one.
pub const ONE_BITS: u32 = 0x3f80_0000;

/// The sample as 16-bit PCM on a symmetric scale.
pub fn to_symmetric_i16(sample: Sample) -> (r: i16)
    ensures
        r == sample.symmetric_pcm(),
        -32767 <= r,
{
    let negative: bool = sample.bits >= SIGN_BIT;
    let unsigned: u32 = if negative {
        sample.bits - SIGN_BIT
    } else {
        sample.bits
    };
    if unsigned > INFINITY_BITS {
        return 0;
    }
    let magnitude: u32 = if unsigned >= ONE_BITS {
        32767
    } else {
        symmetric_magnitude(unsigned)
    };
    if negative {
        -(magnitude as i16)
    } else {
        magnitude as i16
    }
}

/// 32767 times a magnitude below one.
fn symmetric_magnitude(unsigned: u32) -> (r: u32)
    requires
        unsigned < ONE_BITS,
    ensures
        r == nearest_single((Sample { bits: unsigned }).units() * 32767, 1) / pow2(149),
        r <= 32767,
{
    let (lead, up) = unpack(unsigned);
    let p: u64 = lead as u64 * 32767;
    let (mant, x) = round_bits(p, up, 0);
    let ghost u = (Sample { bits: unsigned }).units();
    proof {
        vstd::arithmetic::power2::lemma2_to64();
        vstd::arithmetic::power2::lemma_pow2_pos(149);
        let pu = pow2(up as nat);
        assert((lead * 32767) * pu == (lead * pu) * 32767) by (nonlinear_arith);
        assert(u * 32767 == p as nat * pu);
        // The product of one and 32767 bounds the rounded product.
        crate::sample::lemma_units_increase(
            Sample { bits: unsigned },
            Sample { bits: ONE_BITS },
        );
        vstd::arithmetic::power2::lemma_pow2_adds(23, 126);
        assert((Sample { bits: ONE_BITS }).units() == 0x80_0000 * pow2(126));
        assert(u < pow2(149));
        assert(u * 32767 <= (32767 * pow2(149)) * 1) by (nonlinear_arith)
            requires
                u < pow2(149),
        ;
        lemma_nearest_float_at_most(u * 32767, 1, 32767, 149, 0x80_0000);
        let v = mant * pow2(x as nat);
        assert(v <= 32767 * pow2(149));
        vstd::arithmetic::div_mod::lemma_div_is_ordered(
            v as int,
            32767 * pow2(149) as int,
            pow2(149) as int,
        );
        vstd::arithmetic::div_mod::lemma_div_by_multiple(32767, pow2(149) as int);
        assert(x < 149) by {
            if x >= 149 {
                vstd::arithmetic::power2::lemma_pow2_adds((x - 149) as nat, 149);
                vstd::arithmetic::power2::lemma_pow2_pos((x - 149) as nat);
                let a = pow2((x - 149) as nat);
                let b = pow2(149);
                assert(mant * (a * b) > 32767 * b) by (nonlinear_arith)
                    requires
                        mant >= 0x80_0000,
                        a >= 1,
                        b >= 1,
                ;
            }
        }
    }
    let drop: u32 = 149 - x;
    proof {
        let a = pow2(x as nat);
        let b = pow2(drop as nat);
        vstd::arithmetic::power2::lemma_pow2_pos(x as nat);
        vstd::arithmetic::power2::lemma_pow2_pos(drop as nat);
        vstd::arithmetic::power2::lemma_pow2_adds(x as nat, drop as nat);
        vstd::arithmetic::div_mod::lemma_div_denominator((mant * a) as int, a as int, b as int);
        vstd::arithmetic::div_mod::lemma_div_by_multiple(mant as int, a as int);
        if drop >= 32 {
            if drop > 32 {
                vstd::arithmetic::power2::lemma_pow2_strictly_increases(32, drop as nat);
            }
            vstd::arithmetic::div_mod::lemma_basic_div(mant as int, b as int);
        }
    }
    if drop >= 32 {
        0
    } else {
        shift_right(mant, drop)
    }
}

/// The fade is linear: a finite sample becomes `i` over `n` of itself, to within the
/// precision of the numbers, and keeps its sign.
pub proof fn fade_is_linear(r: Sample, s: Sample, i: nat, n: nat)
    requires
        r.is_faded(s, i, n),
        i < n < 0x100_0000,
        s.bits as int % 0x8000_0000 < 0x7f80_0000,
    ensures
        (r.bits >= 0x8000_0000) == (s.bits >= 0x8000_0000),
        ({
            let off = r.units() * n - s.units() * i;
            let slack = s.units() * i + n * 0x40_0000;
            -slack <= off * 0x40_0000 <= slack
        }),
{
    let p = pow2(149) as int;
    let u = s.units() as int;
    let v = r.units() as int;
    let f = ratio_units(i, n) as int;
    let nn = n as int;
    let ii = i as int;
    vstd::arithmetic::power2::lemma2_to64();
    vstd::arithmetic::power2::lemma_pow2_strictly_increases(64, 149);
    vstd::arithmetic::power2::lemma_pow2_pos(149);
    if i == 0 {
        lemma_nothing(n);
        assert(0 * pow2(149) == 0);
        assert(u * f == 0) by (nonlinear_arith)
            requires
                f == 0,
        ;
        lemma_nothing(pow2(149));
        assert(v * nn == 0 && u * ii == 0) by (nonlinear_arith)
            requires
                v == 0,
                ii == 0,
        ;
    } else {
        lemma_nearest_float_error(i * pow2(149), n, 0x80_0000);
        let e1 = f * nn - ii * p;
        assert(e1 * 0x100_0000 <= ii * p && -e1 * 0x100_0000 <= ii * p) by (nonlinear_arith)
            requires
                2 * e1 <= nn || (2 * e1) * 0x80_0000 <= ii * p,
                -2 * e1 <= nn || (-2 * e1) * 0x80_0000 <= ii * p,
                0 < nn < 0x100_0000,
                ii >= 1,
                p > 0x1_0000_0000_0000_0000,
        ;
        assert(u * f >= 0) by (nonlinear_arith)
            requires
                u >= 0,
                f >= 0,
        ;
        lemma_nearest_float_error((u * f) as nat, pow2(149), 0x80_0000);
        let e2 = v * p - u * f;
        let w = u * ii;
        assert(w >= 0) by (nonlinear_arith)
            requires
                w == u * ii,
                u >= 0,
                ii >= 0,
        ;
        // The two errors, over the common denominator.
        let a = u * e1;
        assert(a * 0x100_0000 <= w * p && -a * 0x100_0000 <= w * p) by (nonlinear_arith)
            requires
                a == u * e1,
                w == u * ii,
                u >= 0,
                e1 * 0x100_0000 <= ii * p,
                -e1 * 0x100_0000 <= ii * p,
        ;
        let b = e2 * nn;
        let c = (u * f) * nn;
        assert(c == w * p + a) by (nonlinear_arith)
            requires
                c == (u * f) * nn,
                e1 == f * nn - ii * p,
                a == u * e1,
                w == u * ii,
        ;
        assert(2 * e2 <= p ==> 2 * b <= p * nn) by (nonlinear_arith)
            requires
                b == e2 * nn,
                nn > 0,
        ;
        assert(-2 * e2 <= p ==> -2 * b <= p * nn) by (nonlinear_arith)
            requires
                b == e2 * nn,
                nn > 0,
        ;
        assert((2 * e2) * 0x80_0000 <= u * f ==> (2 * b) * 0x80_0000 <= c) by (nonlinear_arith)
            requires
                b == e2 * nn,
                c == (u * f) * nn,
                nn > 0,
        ;
        assert((-2 * e2) * 0x80_0000 <= u * f ==> (-2 * b) * 0x80_0000 <= c) by (nonlinear_arith)
            requires
                b == e2 * nn,
                c == (u * f) * nn,
                nn > 0,
        ;
        let off = v * nn - w;
        assert(off * p == a + b) by (nonlinear_arith)
            requires
                off == v * nn - w,
                e2 == v * p - u * f,
                b == e2 * nn,
                c == (u * f) * nn,
                c == w * p + a,
        ;
        let slack = w + nn * 0x40_0000;
        assert(slack * p == w * p + (p * nn) * 0x40_0000) by (nonlinear_arith)
            requires
                slack == w + nn * 0x40_0000,
        ;
        assert(w * p >= 0) by (nonlinear_arith)
            requires
                w >= 0,
                p > 0,
        ;
        assert(p * nn >= 0) by (nonlinear_arith)
            requires
                nn >= 0,
                p > 0,
        ;
        assert((a + b) * 0x40_0000 <= slack * p);
        assert(-(a + b) * 0x40_0000 <= slack * p);
        assert(off * 0x40_0000 <= slack) by (nonlinear_arith)
            requires
                (off * p) * 0x40_0000 <= slack * p,
                p > 0,
        ;
        assert(-slack <= off * 0x40_0000) by (nonlinear_arith)
            requires
                -(off * p) * 0x40_0000 <= slack * p,
                p > 0,
        ;
    }
}

/// What is not finite: what is not a number stays so, infinity stays so, and infinity
/// times nothing is not a number.
pub proof fn fading_what_is_not_finite(r: Sample, s: Sample, i: nat, n: nat)
    requires
        r.is_faded(s, i, n),
        s.bits as int % 0x8000_0000 >= 0x7f80_0000,
    ensures
        s.bits as int % 0x8000_0000 > 0x7f80_0000 || i == 0 ==> r.bits as int % 0x8000_0000
            > 0x7f80_0000,
        s.bits as int % 0x8000_0000 == 0x7f80_0000 && i > 0 ==> r == s,
{
}

} // verus!
