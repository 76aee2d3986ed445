//! Double-precision numbers: seconds of audio, what is left of them, and how many
//! samples that is, rounded as double-precision arithmetic does.

use crate::rounding::{
    lemma_nearest_even_at_most, lemma_nearest_float_at_most, lemma_nearest_float_by_bits,
    lemma_nearest_float_error, lemma_nearest_float_of_quotient, lemma_nearest_float_shape,
    nearest_double, nearest_even, round_half_even, spacing,
};
use crate::sample::Double;
use crate::seconds::{double_quotient, power_of_two, Seconds};
use vstd::arithmetic::power2::{lemma2_to64, lemma2_to64_rest, lemma_pow2_adds, lemma_pow2_pos, pow2};
use vstd::prelude::*;

verus! {

/// The bits of infinity; patterns above it (without their sign) are not numbers.
pub const INFINITY_BITS: u64 = 0x7ff0_0000_0000_0000;

/// The sign bit.
pub const SIGN_BIT: u64 = 0x8000_0000_0000_0000;

impl Double {
    /// The bits without the sign.
    pub open spec fn unsigned_bits(self) -> u64 {
        if self.bits >= SIGN_BIT {
            (self.bits - SIGN_BIT) as u64
        } else {
            self.bits
        }
    }

    /// Whether the sign bit is set.
    pub open spec fn negative(self) -> bool {
        self.bits >= SIGN_BIT
    }

    /// Whether the pattern is not a number.
    pub open spec fn is_nan(self) -> bool {
        self.unsigned_bits() > INFINITY_BITS
    }

    /// Whether the number is infinite, of either sign.
    pub open spec fn is_infinite(self) -> bool {
        self.unsigned_bits() == INFINITY_BITS
    }

    /// The magnitude of a finite number in units of the smallest positive
    /// double-precision number, two to the power of minus 1074.
    pub open spec fn units(self) -> nat {
        let exponent = self.unsigned_bits() / 0x10_0000_0000_0000;
        let fraction = self.unsigned_bits() % 0x10_0000_0000_0000;
        if exponent == 0 {
            fraction as nat
        } else {
            (0x10_0000_0000_0000 + fraction) as nat * pow2((exponent - 1) as nat)
        }
    }

    /// A finite number in the same units.
    pub open spec fn signed_units(self) -> int {
        if self.negative() {
            -(self.units() as int)
        } else {
            self.units() as int
        }
    }
}

impl Seconds {
    /// The seconds as a double-precision number, in units of the smallest positive
    /// one.
    pub open spec fn double_units(self) -> nat {
        nearest_double(self.samples as nat * pow2(1074), self.sample_rate as nat)
    }
}

/// Whether `t` units are no more than `limit`.
pub open spec fn is_at_most(t: nat, limit: Double) -> bool {
    if limit.is_nan() {
        false
    } else if limit.is_infinite() {
        !limit.negative()
    } else {
        t <= limit.signed_units()
    }
}

/// Whether `r` is `t` units less `keep`, which is less, rounded. What is not a number
/// stays so.
pub open spec fn is_difference(r: Double, t: nat, keep: Double) -> bool {
    if keep.is_nan() {
        r == keep
    } else if keep.is_infinite() {
        r == (Double { bits: INFINITY_BITS })
    } else {
        &&& !r.negative()
        &&& !r.is_nan()
        &&& r.units() == nearest_double((t - keep.signed_units()) as nat, 1)
    }
}

/// How many whole samples `seconds` are, which are not negative: the product with the
/// rate is rounded, then cut off. More than `limit` are not counted, and what is not a
/// number is none.
pub open spec fn whole_samples(seconds: Double, sample_rate: u32, limit: nat) -> nat {
    let product = if seconds.is_nan() {
        0
    } else if seconds.is_infinite() {
        if sample_rate == 0 {
            0
        } else {
            limit
        }
    } else {
        nearest_double(seconds.units() * sample_rate as nat, 1) / pow2(1074)
    };
    if product > limit {
        limit
    } else {
        product
    }
}

// ---------------------------------------------------------------------------
// Bits
// ---------------------------------------------------------------------------

/// The leading bits of a magnitude, and the exponent that they are raised by.
fn unpack(unsigned: u64) -> (r: (u64, u32))
    requires
        unsigned < INFINITY_BITS,
    ensures
        (Double { bits: unsigned }).units() == r.0 * pow2(r.1 as nat),
        r.0 < 0x20_0000_0000_0000,
        r.1 <= 2045,
        r.1 > 0 ==> r.0 >= 0x10_0000_0000_0000,
{
    let exponent: u64 = unsigned / 0x10_0000_0000_0000;
    let fraction: u64 = unsigned % 0x10_0000_0000_0000;
    proof {
        lemma2_to64();
        assert(fraction * pow2(0) == fraction) by (nonlinear_arith)
            requires
                pow2(0) == 1,
        ;
    }
    if exponent == 0 {
        (fraction, 0)
    } else {
        (0x10_0000_0000_0000 + fraction, (exponent - 1) as u32)
    }
}

/// The bit pattern of a magnitude.
fn pack(mant: u64, x: u32) -> (bits: u64)
    requires
        mant <= 0x20_0000_0000_0000,
        x <= 2045,
        x > 0 ==> mant >= 0x10_0000_0000_0000,
    ensures
        bits <= INFINITY_BITS,
        (Double { bits }).units() == mant * pow2(x as nat),
        !(Double { bits }).negative(),
{
    proof {
        lemma2_to64();
        vstd::arithmetic::power2::lemma_pow2_unfold((x + 1) as nat);
        let bits = (x * 0x10_0000_0000_0000 + mant) as u64;
        let px = pow2(x as nat);
        let s = Double { bits };
        if mant == 0x20_0000_0000_0000 {
            assert(bits / 0x10_0000_0000_0000 == x + 2 && bits % 0x10_0000_0000_0000 == 0);
            assert(s.units() == 0x10_0000_0000_0000 * pow2((x + 1) as nat));
        } else if mant >= 0x10_0000_0000_0000 {
            assert(bits / 0x10_0000_0000_0000 == x + 1 && bits % 0x10_0000_0000_0000 == mant
                - 0x10_0000_0000_0000);
            assert(s.units() == mant as nat * px);
        } else {
            assert(s.units() == mant);
            assert(mant * px == mant) by (nonlinear_arith)
                requires
                    px == 1,
            ;
        }
    }
    x as u64 * 0x10_0000_0000_0000 + mant
}

/// `p` times two to the `up` as a double-precision number: its leading bits and the
/// exponent that they are raised by.
fn round_bits(p: u128, up: u32) -> (r: (u64, u32))
    requires
        0 < p < 0x1000_0000_0000_0000_0000_0000_0000_0000,
        up <= 2045,
    ensures
        r.0 * pow2(r.1 as nat) == nearest_double(p as nat * pow2(up as nat), 1),
        r.0 <= 0x20_0000_0000_0000,
        r.1 > 0 ==> r.0 >= 0x10_0000_0000_0000,
        r.1 <= up + 71,
{
    let mut p2: u128 = p;
    let mut up2: u32 = up;
    while p2 < 0x10_0000_0000_0000 && up2 > 0
        invariant
            0 < p2 < 0x1000_0000_0000_0000_0000_0000_0000_0000,
            up2 <= up,
            p2 as nat * pow2(up2 as nat) == p as nat * pow2(up as nat),
        decreases up2,
    {
        proof {
            vstd::arithmetic::power2::lemma_pow2_unfold(up2 as nat);
            let c = pow2((up2 - 1) as nat);
            let v = p2 as nat;
            assert(v * (2 * c) == (v * 2) * c) by (nonlinear_arith);
        }
        p2 = p2 * 2;
        up2 = up2 - 1;
    }
    let mut d: u32 = 0;
    let mut unit: u128 = 1;
    proof {
        lemma2_to64();
        lemma2_to64_rest();
        lemma_pow2_adds(64, 7);
        assert(p2 / 1 == p2);
    }
    while p2 / unit >= 0x20_0000_0000_0000
        invariant
            0 < p2 < 0x1000_0000_0000_0000_0000_0000_0000_0000,
            unit == pow2(d as nat),
            0 < unit <= 0x80_0000_0000_0000_0000,
            pow2(71) == 0x80_0000_0000_0000_0000,
            d <= 71,
            d > 0 ==> p2 / unit >= 0x10_0000_0000_0000,
            d == 0 ==> unit == 1,
        decreases 71 - d,
    {
        proof {
            let u = unit as int;
            vstd::arithmetic::power2::lemma_pow2_unfold((d + 1) as nat);
            vstd::arithmetic::div_mod::lemma_div_denominator(p2 as int, u, 2);
            vstd::arithmetic::div_mod::lemma_fundamental_div_mod(p2 as int, u);
            assert(u < 0x80_0000_0000_0000_0000) by (nonlinear_arith)
                requires
                    p2 >= u * (p2 as int / u),
                    p2 as int / u >= 0x20_0000_0000_0000,
                    p2 < 0x1000_0000_0000_0000_0000_0000_0000_0000,
                    u > 0,
            ;
            if d + 1 < 71 {
                vstd::arithmetic::power2::lemma_pow2_strictly_increases((d + 1) as nat, 71);
            }
        }
        d += 1;
        unit = unit * 2;
    }
    let mant: u128 = round_half_even(p2, unit);
    let x: u32 = up2 + d;
    proof {
        lemma_nearest_float_by_bits(
            p2 as nat,
            up2 as nat,
            0,
            d as nat,
            x as nat,
            0x10_0000_0000_0000,
        );
    }
    (mant as u64, x)
}

/// A number of all bits is not changed by adding what is far below it.
proof fn lemma_tiny_sum(m: nat, d: nat, tiny: nat, up: nat)
    requires
        0x10_0000_0000_0000 <= m < 0x20_0000_0000_0000,
        tiny < 0x20_0000_0000_0000,
        d >= 71,
    ensures
        nearest_double((m * pow2(d) + tiny) * pow2(up), 1) == m * pow2(d + up),
{
    let pd = pow2(d);
    let p = m * pd + tiny;
    lemma_far(d);
    vstd::arithmetic::div_mod::lemma_fundamental_div_mod_converse(
        p as int,
        pd as int,
        m as int,
        tiny as int,
    );
    lemma2_to64();
    lemma_nearest_float_by_bits(p, up, 0, d, d + up, 0x10_0000_0000_0000);
}

/// A number of all bits is not changed by taking away what is far below it.
proof fn lemma_tiny_difference(m: nat, d: nat, tiny: nat, up: nat)
    requires
        0x10_0000_0000_0000 <= m < 0x20_0000_0000_0000,
        tiny < 0x20_0000_0000_0000,
        d >= 71,
    ensures
        m * pow2(d) > tiny,
        nearest_double(((m * pow2(d) - tiny) as nat) * pow2(up), 1) == m * pow2(d + up),
{
    let pd = pow2(d);
    lemma_far(d);
    assert(m * pd > tiny) by (nonlinear_arith)
        requires
            m >= 1,
            pd > tiny,
    ;
    let p = (m * pd - tiny) as nat;
    lemma2_to64();
    if tiny == 0 {
        lemma_tiny_sum(m, d, 0, up);
    } else if m > 0x10_0000_0000_0000 {
        assert(p == pd * (m - 1) + (pd - tiny)) by (nonlinear_arith)
            requires
                p == m * pd - tiny,
        ;
        vstd::arithmetic::div_mod::lemma_fundamental_div_mod_converse(
            p as int,
            pd as int,
            m - 1,
            pd - tiny,
        );
        lemma_nearest_float_by_bits(p, up, 0, d, d + up, 0x10_0000_0000_0000);
    } else {
        let e = (d - 1) as nat;
        let pe = pow2(e);
        vstd::arithmetic::power2::lemma_pow2_unfold(d);
        lemma_far(e);
        assert(p == pe * 0x1f_ffff_ffff_ffff + (pe - tiny));
        vstd::arithmetic::div_mod::lemma_fundamental_div_mod_converse(
            p as int,
            pe as int,
            0x1f_ffff_ffff_ffff,
            pe - tiny,
        );
        lemma_nearest_float_by_bits(p, up, 0, e, e + up, 0x10_0000_0000_0000);
        vstd::arithmetic::power2::lemma_pow2_unfold(d + up);
        let c = pow2(e + up);
        assert(0x20_0000_0000_0000 * c == 0x10_0000_0000_0000 * (2 * c)) by (nonlinear_arith);
    }
}

proof fn lemma_far(d: nat)
    requires
        d >= 70,
    ensures
        pow2(d) >= 0x40_0000_0000_0000_0000,
{
    lemma2_to64();
    lemma2_to64_rest();
    lemma_pow2_adds(64, 6);
    if d > 70 {
        vstd::arithmetic::power2::lemma_pow2_strictly_increases(70, d);
    }
}

/// A number of no more than all bits is the nearest to itself.
proof fn lemma_nearest_to_itself(m: nat, up: nat)
    requires
        m < 0x20_0000_0000_0000,
        up > 0 ==> m >= 0x10_0000_0000_0000,
    ensures
        nearest_double(m * pow2(up), 1) == m * pow2(up),
{
    lemma2_to64();
    assert(m / 1 == m && m % 1 == 0);
    lemma_nearest_float_by_bits(m, up, 0, 0, up, 0x10_0000_0000_0000);
}

// ---------------------------------------------------------------------------
// Differences
// ---------------------------------------------------------------------------

/// Seconds that are not none, as a double-precision number: its leading bits and the
/// exponent that they are raised by.
fn seconds_bits(seconds: Seconds) -> (r: (u64, u32))
    requires
        seconds.sample_rate > 0,
        0 < seconds.samples < 0x20_0000_0000_0000,
    ensures
        seconds.double_units() == r.0 * pow2(r.1 as nat),
        0x10_0000_0000_0000 <= r.0 < 0x20_0000_0000_0000,
        990 <= r.1 <= 1075,
{
    let (m, k) = double_quotient(seconds);
    let up: u32 = 1074 - k;
    proof {
        let n = seconds.samples as nat;
        let d = seconds.sample_rate as nat;
        let pk = pow2(k as nat);
        let c = pow2(up as nat);
        lemma_pow2_adds(k as nat, up as nat);
        assert(n * (pk * c) == (n * pk) * c) by (nonlinear_arith);
        lemma_nearest_float_of_quotient(n * pk, d, up as nat, 0x10_0000_0000_0000);
        vstd::arithmetic::power2::lemma_pow2_unfold((up + 1) as nat);
        assert(0x20_0000_0000_0000 * c == 0x10_0000_0000_0000 * (2 * c)) by (nonlinear_arith);
    }
    if m == 0x20_0000_0000_0000 {
        (0x10_0000_0000_0000, up + 1)
    } else {
        (m as u64, up)
    }
}

/// The sum of two magnitudes, the second of which is raised no further than the
/// first.
fn sum_bits(m: u64, a: u32, n: u64, b: u32) -> (r: (u64, u32))
    requires
        0x10_0000_0000_0000 <= m < 0x20_0000_0000_0000,
        n < 0x20_0000_0000_0000,
        b <= a <= 2045,
        a - b <= 70 ==> a <= 1945,
    ensures
        r.0 * pow2(r.1 as nat) == nearest_double(
            m as nat * pow2(a as nat) + n as nat * pow2(b as nat),
            1,
        ),
        r.0 <= 0x20_0000_0000_0000,
        r.1 > 0 ==> r.0 >= 0x10_0000_0000_0000,
        r.1 <= 2045,
{
    let d: u32 = a - b;
    proof {
        lemma_pow2_adds(d as nat, b as nat);
        let pd = pow2(d as nat);
        let pb = pow2(b as nat);
        assert(m * (pd * pb) + n * pb == (m * pd + n) * pb) by (nonlinear_arith);
    }
    if d > 70 {
        proof {
            lemma_tiny_sum(m as nat, d as nat, n as nat, b as nat);
        }
        return (m, a);
    }
    let unit: u128 = power_of_two(d);
    proof {
        lemma_unit_bound(d as nat);
        assert(m * unit < 0x800_0000_0000_0000_0000_0000_0000_0000) by (nonlinear_arith)
            requires
                m < 0x20_0000_0000_0000,
                0 < unit <= 0x40_0000_0000_0000_0000,
        ;
        assert(m * unit > 0) by (nonlinear_arith)
            requires
                m > 0,
                unit > 0,
        ;
    }
    round_bits(m as u128 * unit + n as u128, b)
}

proof fn lemma_unit_bound(d: nat)
    requires
        d <= 70,
    ensures
        pow2(d) <= 0x40_0000_0000_0000_0000,
{
    lemma2_to64();
    lemma2_to64_rest();
    lemma_pow2_adds(64, 6);
    if d < 70 {
        vstd::arithmetic::power2::lemma_pow2_strictly_increases(d, 70);
    }
}

/// The difference of two magnitudes, if the first is greater.
fn difference_bits(m: u64, a: u32, n: u64, b: u32) -> (r: Option<(u64, u32)>)
    requires
        0x10_0000_0000_0000 <= m < 0x20_0000_0000_0000,
        n < 0x20_0000_0000_0000,
        b > 0 ==> n >= 0x10_0000_0000_0000,
        a <= 1075,
        b <= 2045,
    ensures
        r is Some <==> m * pow2(a as nat) > n * pow2(b as nat),
        r matches Some((mant, x)) ==> {
            &&& mant * pow2(x as nat) == nearest_double(
                (m * pow2(a as nat) - n * pow2(b as nat)) as nat,
                1,
            )
            &&& mant <= 0x20_0000_0000_0000
            &&& x > 0 ==> mant >= 0x10_0000_0000_0000
            &&& x <= 2045
        },
{
    if b <= a {
        let d: u32 = a - b;
        let ghost pd = pow2(d as nat);
        let ghost pb = pow2(b as nat);
        proof {
            lemma_pow2_adds(d as nat, b as nat);
            lemma_pow2_pos(b as nat);
            assert(m * (pd * pb) - n * pb == (m * pd - n) * pb) by (nonlinear_arith);
            assert(m * pd > n <==> (m * pd - n) * pb > 0) by (nonlinear_arith)
                requires
                    pb > 0,
            ;
        }
        if d > 70 {
            proof {
                lemma_tiny_difference(m as nat, d as nat, n as nat, b as nat);
            }
            return Some((m, a));
        }
        let unit: u128 = power_of_two(d);
        proof {
            lemma_unit_bound(d as nat);
            assert(m * unit < 0x800_0000_0000_0000_0000_0000_0000_0000) by (nonlinear_arith)
                requires
                    m < 0x20_0000_0000_0000,
                    0 < unit <= 0x40_0000_0000_0000_0000,
            ;
        }
        let raised: u128 = m as u128 * unit;
        if raised <= n as u128 {
            return None;
        }
        return Some(round_bits(raised - n as u128, b));
    }
    let d: u32 = b - a;
    let ghost pd = pow2(d as nat);
    let ghost pa = pow2(a as nat);
    proof {
        lemma_pow2_adds(d as nat, a as nat);
        lemma_pow2_pos(a as nat);
        assert(m * pa - n * (pd * pa) == (m - n * pd) * pa) by (nonlinear_arith);
        assert(m > n * pd <==> (m - n * pd) * pa > 0) by (nonlinear_arith)
            requires
                pa > 0,
        ;
    }
    if d > 70 {
        proof {
            lemma_far(d as nat);
            assert(n * pd >= m) by (nonlinear_arith)
                requires
                    n >= 1,
                    pd >= m,
            ;
        }
        return None;
    }
    let unit: u128 = power_of_two(d);
    proof {
        lemma_unit_bound(d as nat);
        assert(n * unit < 0x800_0000_0000_0000_0000_0000_0000_0000) by (nonlinear_arith)
            requires
                n < 0x20_0000_0000_0000,
                0 < unit <= 0x40_0000_0000_0000_0000,
        ;
    }
    let raised: u128 = n as u128 * unit;
    if m as u128 <= raised {
        return None;
    }
    Some(round_bits(m as u128 - raised, a))
}

/// What is left of `seconds` beyond `keep`, if they are more.
pub fn seconds_beyond(seconds: Seconds, keep: Double) -> (r: Option<Double>)
    requires
        seconds.sample_rate > 0,
        seconds.samples < 0x20_0000_0000_0000,
    ensures
        r is None <==> is_at_most(seconds.double_units(), keep),
        r matches Some(left) ==> is_difference(left, seconds.double_units(), keep),
{
    let negative: bool = keep.bits >= SIGN_BIT;
    let unsigned: u64 = if negative {
        keep.bits - SIGN_BIT
    } else {
        keep.bits
    };
    if unsigned > INFINITY_BITS {
        return Some(keep);
    }
    if unsigned == INFINITY_BITS {
        return if negative {
            Some(Double { bits: INFINITY_BITS })
        } else {
            None
        };
    }
    let (n, b) = unpack(unsigned);
    proof {
        assert(keep.units() == (Double { bits: unsigned }).units());
        lemma_pow2_pos(b as nat);
    }
    if seconds.samples == 0 {
        proof {
            lemma_nothing(seconds.sample_rate as nat);
            assert(0 * pow2(1074) == 0);
            lemma_nearest_to_itself(n as nat, b as nat);
        }
        if !negative || n == 0 {
            proof {
                assert(n == 0 ==> n * pow2(b as nat) == 0) by (nonlinear_arith);
            }
            return None;
        }
        proof {
            assert(n * pow2(b as nat) > 0) by (nonlinear_arith)
                requires
                    n > 0,
                    pow2(b as nat) > 0,
            ;
        }
        return Some(Double { bits: unsigned });
    }
    let (m, a) = seconds_bits(seconds);
    let ghost t = m * pow2(a as nat);
    proof {
        lemma_pow2_pos(a as nat);
        assert(t > 0) by (nonlinear_arith)
            requires
                t == m * pow2(a as nat),
                m > 0,
                pow2(a as nat) > 0,
        ;
    }
    if !negative {
        return match difference_bits(m, a, n, b) {
            Some((mant, x)) => Some(Double { bits: pack(mant, x) }),
            None => None,
        };
    }
    let (mant, x) = if b <= a {
        sum_bits(m, a, n, b)
    } else {
        sum_bits(n, b, m, a)
    };
    Some(Double { bits: pack(mant, x) })
}

pub(crate) proof fn lemma_nothing(d: nat)
    requires
        d > 0,
    ensures
        nearest_double(0, d) == 0,
{
    vstd::arithmetic::div_mod::lemma_basic_div(0, d as int);
    assert(0nat / d == 0);
    assert(d * 1 == d) by (nonlinear_arith);
    lemma_nearest_even_at_most(0, d, 0);
    assert(spacing(0, 0x20_0000_0000_0000) == 1);
    assert(nearest_even(0, d) * 1 == 0);
}

// ---------------------------------------------------------------------------
// Samples
// ---------------------------------------------------------------------------

/// How many whole samples `seconds` are, no more than `limit`.
pub fn count_samples(seconds: Double, sample_rate: u32, limit: usize) -> (r: usize)
    requires
        seconds.is_nan() || !seconds.negative(),
    ensures
        r == whole_samples(seconds, sample_rate, limit as nat),
{
    let negative: bool = seconds.bits >= SIGN_BIT;
    let unsigned: u64 = if negative {
        seconds.bits - SIGN_BIT
    } else {
        seconds.bits
    };
    if unsigned > INFINITY_BITS {
        return 0;
    }
    if unsigned == INFINITY_BITS {
        return if sample_rate == 0 {
            0
        } else {
            limit
        };
    }
    let (lead, up) = unpack(unsigned);
    let ghost pu = pow2(up as nat);
    proof {
        assert(lead * sample_rate < 0x1000_0000_0000_0000_0000_0000) by (nonlinear_arith)
            requires
                lead < 0x20_0000_0000_0000,
                sample_rate < 0x1_0000_0000,
        ;
        assert((lead * sample_rate) * pu == (lead * pu) * sample_rate) by (nonlinear_arith);
        lemma_pow2_pos(1074);
    }
    let p: u128 = lead as u128 * sample_rate as u128;
    if p == 0 {
        proof {
            assert(p as nat * pu == 0) by (nonlinear_arith)
                requires
                    p == 0,
            ;
            lemma_nothing(1);
            vstd::arithmetic::div_mod::lemma_basic_div(0, pow2(1074) as int);
        }
        return 0;
    }
    let (mant, x) = round_bits(p, up);
    let ghost v = mant * pow2(x as nat);
    let n: u128 = if x >= 1074 {
        let s: u32 = x - 1074;
        proof {
            lemma_pow2_adds(s as nat, 1074);
            let c = pow2(s as nat);
            let e = pow2(1074);
            assert(v == (mant * c) * e) by (nonlinear_arith)
                requires
                    v == mant * (c * e),
            ;
            vstd::arithmetic::div_mod::lemma_div_by_multiple((mant * c) as int, e as int);
        }
        if s >= 12 {
            proof {
                lemma2_to64();
                if s > 12 {
                    vstd::arithmetic::power2::lemma_pow2_strictly_increases(12, s as nat);
                }
                let c = pow2(s as nat);
                assert(mant * c >= 0x1_0000_0000_0000_0000) by (nonlinear_arith)
                    requires
                        mant >= 0x10_0000_0000_0000,
                        c >= 0x1000,
                ;
            }
            return limit;
        }
        let unit: u128 = power_of_two(s);
        proof {
            lemma2_to64();
            vstd::arithmetic::power2::lemma_pow2_strictly_increases(s as nat, 12);
            assert(mant * unit < 0x1_0000_0000_0000_0000_0000) by (nonlinear_arith)
                requires
                    mant <= 0x20_0000_0000_0000,
                    0 < unit < 0x1000,
            ;
        }
        mant as u128 * unit
    } else {
        let s: u32 = 1074 - x;
        proof {
            let c = pow2(x as nat);
            let e = pow2(s as nat);
            lemma_pow2_pos(x as nat);
            lemma_pow2_pos(s as nat);
            lemma_pow2_adds(x as nat, s as nat);
            vstd::arithmetic::div_mod::lemma_div_denominator(v as int, c as int, e as int);
            vstd::arithmetic::div_mod::lemma_div_by_multiple(mant as int, c as int);
            if s >= 64 {
                lemma2_to64();
                if s > 64 {
                    vstd::arithmetic::power2::lemma_pow2_strictly_increases(64, s as nat);
                }
                vstd::arithmetic::div_mod::lemma_basic_div(mant as int, e as int);
            }
        }
        if s >= 64 {
            0
        } else {
            mant as u128 / power_of_two(s)
        }
    };
    if n > limit as u128 {
        limit
    } else {
        n as usize
    }
}

// ---------------------------------------------------------------------------
// How far rounding goes
// ---------------------------------------------------------------------------

/// What is left of seconds is no more samples than there were.
pub proof fn no_more_is_left(seconds: Seconds, keep: Double, left: Double, limit: nat)
    requires
        seconds.sample_rate > 0,
        seconds.samples < 0x10_0000_0000_0000,
        !keep.is_nan(),
        !keep.negative(),
        !is_at_most(seconds.double_units(), keep),
        is_difference(left, seconds.double_units(), keep),
    ensures
        !left.is_infinite(),
        nearest_double(left.units() * seconds.sample_rate as nat, 1) / pow2(1074)
            <= seconds.samples,
        whole_samples(left, seconds.sample_rate, limit) <= seconds.samples,
{
    let q = seconds.samples as nat;
    let rate = seconds.sample_rate as nat;
    let one = pow2(1074);
    let half = pow2(1073);
    let t = seconds.double_units();
    let r = left.units();
    lemma_pow2_pos(1073);
    vstd::arithmetic::power2::lemma_pow2_unfold(1074);
    lemma_one_is_large();
    // The seconds are off by less than half a sample.
    lemma_nearest_float_error(q * one, rate, 0x10_0000_0000_0000);
    let off = t * rate - q * one;
    assert(off <= half) by (nonlinear_arith)
        requires
            2 * off <= rate || (2 * off) * 0x10_0000_0000_0000 <= q * one,
            rate < 0x1_0000_0000,
            one >= 0x1_0000_0000_0000_0000,
            one == 2 * half,
            q < 0x10_0000_0000_0000,
    ;
    let bound = ((2 * q + 1) as nat) * half;
    assert(t * rate <= bound) by (nonlinear_arith)
        requires
            t * rate == q * one + off,
            off <= half,
            one == 2 * half,
            bound == (2 * q + 1) * half,
    ;
    // What is left is no more than there was.
    let (lead, up) = lemma_nearest_float_shape(q * one, rate, 0x10_0000_0000_0000);
    let diff = (t - keep.signed_units()) as nat;
    assert((lead * pow2(up)) * 1 == t);
    lemma_nearest_float_at_most(diff, 1, lead, up, 0x10_0000_0000_0000);
    assert(r <= t);
    assert(r * rate <= bound) by (nonlinear_arith)
        requires
            r <= t,
            t * rate <= bound,
    ;
    assert(bound * 1 == bound);
    lemma_nearest_float_at_most(
        r * rate,
        1,
        (2 * q + 1) as nat,
        1073,
        0x10_0000_0000_0000,
    );
    let product = nearest_double(r * rate, 1);
    assert(product < one * (q + 1)) by (nonlinear_arith)
        requires
            product <= bound,
            bound == (2 * q + 1) * half,
            one == 2 * half,
            half > 0,
    ;
    vstd::arithmetic::div_mod::lemma_multiply_divide_lt(
        product as int,
        one as int,
        q as int + 1,
    );
    if left.is_infinite() {
        lemma_pow2_adds(52, 2046);
        lemma2_to64_rest();
        assert(r == 0x10_0000_0000_0000 * pow2(2046));
        vstd::arithmetic::power2::lemma_pow2_strictly_increases(1074, 2046);
        assert(t <= bound) by (nonlinear_arith)
            requires
                t * rate <= bound,
                rate >= 1,
                t >= 0,
        ;
        assert(bound < r) by (nonlinear_arith)
            requires
                bound == (2 * q + 1) * half,
                one == 2 * half,
                q < 0x10_0000_0000_0000,
                r == 0x10_0000_0000_0000 * pow2(2046),
                pow2(2046) > one,
        ;
    }
}

/// What is taken away, in samples, is what there was less what is kept, to within two
/// samples.
pub proof fn nearly_all_is_left(seconds: Seconds, keep: Double, left: Double, limit: nat)
    requires
        seconds.sample_rate > 0,
        seconds.samples < 0x1_0000_0000_0000,
        seconds.samples <= limit,
        !keep.is_nan(),
        !keep.negative(),
        !is_at_most(seconds.double_units(), keep),
        is_difference(left, seconds.double_units(), keep),
    ensures
        ({
            let taken = whole_samples(left, seconds.sample_rate, limit);
            let kept = keep.units() * seconds.sample_rate as nat;
            let rest = (seconds.samples - taken) * pow2(1074);
            kept - pow2(1074) <= rest <= kept + 2 * pow2(1074)
        }),
{
    no_more_is_left(seconds, keep, left, limit);
    let q = seconds.samples as int;
    let rate = seconds.sample_rate as int;
    let one = pow2(1074) as int;
    let k = keep.units() as int;
    let t = seconds.double_units() as int;
    let r = left.units() as int;
    let product = nearest_double((r * rate) as nat, 1) as int;
    let taken = whole_samples(left, seconds.sample_rate, limit) as int;
    lemma_one_is_large();
    assert(r * rate >= 0) by (nonlinear_arith)
        requires
            r >= 0,
            rate >= 0,
    ;
    lemma_nearest_float_error((q * one) as nat, rate as nat, 0x10_0000_0000_0000);
    let e1 = t * rate - q * one;
    assert(-one <= 16 * e1 <= one) by (nonlinear_arith)
        requires
            2 * e1 <= rate || (2 * e1) * 0x10_0000_0000_0000 <= q * one,
            -2 * e1 <= rate || (-2 * e1) * 0x10_0000_0000_0000 <= q * one,
            rate < 0x1_0000_0000,
            one >= 0x1_0000_0000_0000_0000,
            0 <= q < 0x1_0000_0000_0000,
    ;
    lemma_nearest_float_error((t - k) as nat, 1, 0x10_0000_0000_0000);
    let e2 = r - (t - k);
    assert(t * rate <= 0x1_0000_0000_0000 * one + one) by (nonlinear_arith)
        requires
            t * rate == q * one + e1,
            16 * e1 <= one,
            q < 0x1_0000_0000_0000,
            one > 0,
    ;
    let f2 = e2 * rate;
    assert(-one <= 8 * f2 <= one) by {
        lemma_scaled_error(e2, rate, t - k, t, one);
    }
    lemma_nearest_float_error((r * rate) as nat, 1, 0x10_0000_0000_0000);
    let e3 = product - r * rate;
    assert(r * rate == (t - k) * rate + f2) by (nonlinear_arith)
        requires
            e2 == r - (t - k),
            f2 == e2 * rate,
    ;
    assert((t - k) * rate == t * rate - k * rate) by (nonlinear_arith);
    assert(k * rate >= 0) by (nonlinear_arith)
        requires
            k >= 0,
            rate >= 0,
    ;
    assert(r * rate <= 0x1_0000_0000_0000 * one + 2 * one);
    assert(-one <= 8 * e3 <= one) by (nonlinear_arith)
        requires
            2 * e3 <= 1 || (2 * e3) * 0x10_0000_0000_0000 <= r * rate,
            -2 * e3 <= 1 || (-2 * e3) * 0x10_0000_0000_0000 <= r * rate,
            r * rate <= 0x1_0000_0000_0000 * one + 2 * one,
            one >= 0x1_0000_0000_0000_0000,
    ;
    assert(product == q * one - k * rate + e1 + f2 + e3);
    assert(taken == product / one);
    vstd::arithmetic::div_mod::lemma_fundamental_div_mod(product, one);
    assert((q - taken) * one == q * one - one * taken) by (nonlinear_arith);
}

proof fn lemma_scaled_error(e: int, rate: int, d: int, t: int, one: int)
    requires
        0 <= d <= t,
        1 <= rate < 0x1_0000_0000,
        t * rate <= 0x1_0000_0000_0000 * one + one,
        one >= 0x1_0000_0000_0000_0000,
        2 * e <= 1 || (2 * e) * 0x10_0000_0000_0000 <= d,
        -2 * e <= 1 || (-2 * e) * 0x10_0000_0000_0000 <= d,
    ensures
        -one <= 8 * (e * rate) <= one,
{
    let f = e * rate;
    assert(d * rate <= t * rate) by (nonlinear_arith)
        requires
            d <= t,
            rate >= 1,
    ;
    assert(2 * e <= 1 ==> 2 * f <= rate) by (nonlinear_arith)
        requires
            f == e * rate,
            rate >= 1,
    ;
    assert(-2 * e <= 1 ==> -2 * f <= rate) by (nonlinear_arith)
        requires
            f == e * rate,
            rate >= 1,
    ;
    assert((2 * e) * 0x10_0000_0000_0000 <= d ==> (2 * f) * 0x10_0000_0000_0000 <= d * rate)
        by (nonlinear_arith)
        requires
            f == e * rate,
            rate >= 1,
    ;
    assert((-2 * e) * 0x10_0000_0000_0000 <= d ==> (-2 * f) * 0x10_0000_0000_0000 <= d * rate)
        by (nonlinear_arith)
        requires
            f == e * rate,
            rate >= 1,
    ;
}

proof fn lemma_one_is_large()
    ensures
        pow2(1074) >= 0x1_0000_0000_0000_0000,
{
    lemma2_to64();
    vstd::arithmetic::power2::lemma_pow2_strictly_increases(64, 1074);
}

/// Whether a tail is longer than what is kept is decided by their lengths, to within one
/// sample.
pub proof fn longer_tails_are_told_apart(seconds: Seconds, keep: Double)
    requires
        seconds.sample_rate > 0,
        seconds.samples < 0x1_0000_0000_0000,
        !keep.is_nan(),
        !keep.is_infinite(),
        !keep.negative(),
    ensures
        ({
            let kept = keep.units() * seconds.sample_rate as nat;
            &&& (seconds.samples + 1) * pow2(1074) <= kept ==> is_at_most(
                seconds.double_units(),
                keep,
            )
            &&& kept <= (seconds.samples - 1) * pow2(1074) ==> !is_at_most(
                seconds.double_units(),
                keep,
            )
        }),
{
    let q = seconds.samples as int;
    let rate = seconds.sample_rate as int;
    let one = pow2(1074) as int;
    let t = seconds.double_units() as int;
    let k = keep.units() as int;
    lemma_one_is_large();
    lemma_nearest_float_error((q * one) as nat, rate as nat, 0x10_0000_0000_0000);
    let e = t * rate - q * one;
    assert(-one < e < one) by (nonlinear_arith)
        requires
            2 * e <= rate || (2 * e) * 0x10_0000_0000_0000 <= q * one,
            -2 * e <= rate || (-2 * e) * 0x10_0000_0000_0000 <= q * one,
            rate < 0x1_0000_0000,
            one >= 0x1_0000_0000_0000_0000,
            0 <= q < 0x1_0000_0000_0000,
    ;
    assert((q + 1) * one == q * one + one && (q - 1) * one == q * one - one) by (nonlinear_arith);
    assert(t * rate < k * rate ==> t < k) by (nonlinear_arith)
        requires
            rate > 0,
    ;
    assert(t * rate > k * rate ==> t > k) by (nonlinear_arith)
        requires
            rate > 0,
    ;
}

/// The magnitude that bits stand for: a fraction of 52 bits, with one more in front and
/// raised by the exponent less one, unless that is zero. The first bit is the sign.
pub proof fn units_are_those_of_the_format(x: Double)
    ensures
        ({
            let m = x.bits as int % 0x8000_0000_0000_0000;
            &&& m < 0x10_0000_0000_0000 ==> x.units() == m
            &&& m >= 0x10_0000_0000_0000 ==> x.units() == ((m % 0x10_0000_0000_0000) as nat
                + 0x10_0000_0000_0000nat) * pow2((m / 0x10_0000_0000_0000 - 1) as nat)
            &&& x.is_nan() <==> m > 0x7ff0_0000_0000_0000
            &&& x.is_infinite() <==> m == 0x7ff0_0000_0000_0000
            &&& x.signed_units() == (if x.bits >= 0x8000_0000_0000_0000 {
                -(x.units() as int)
            } else {
                x.units() as int
            })
        }),
{
}

} // verus!
