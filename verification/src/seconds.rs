//! Stretches of audio in seconds, and how they are written.

use crate::rounding::{lemma_nearest_even_error, nearest_even, round_half_even};
use crate::text::{self, decimal_text};
use vstd::arithmetic::power2::pow2;
use vstd::prelude::*;

verus! {

/// A stretch of audio in seconds, as the exact quotient of a number of samples
/// and the sample rate.
#[derive(Clone, Copy, Debug, PartialEq, Eq, Structural)]
pub struct Seconds {
    pub samples: usize,
    pub sample_rate: u32,
}

/// How many binary places, `k` or more, the double-precision number nearest to
/// `n` over `d` has: as many as leave 53 significant bits.
pub open spec fn places(n: nat, d: nat, k: nat) -> nat
    decreases MOST_PLACES - k,
{
    if k >= MOST_PLACES || n * pow2(k + 1) / d >= pow2(53) {
        k
    } else {
        places(n, d, k + 1)
    }
}

/// The most binary places that a positive quotient of samples and rate can have.
pub const MOST_PLACES: u32 = 84;

impl Seconds {
    /// Whether this is more than `limit` whole seconds.
    pub open spec fn exceeds(self, limit: int) -> bool {
        self.samples > limit * self.sample_rate
    }

    /// Whether this is less than `limit` whole seconds.
    pub open spec fn falls_short_of(self, limit: int) -> bool {
        self.samples < limit * self.sample_rate
    }

    /// The tenths of a second, rounded from the double-precision number that is
    /// nearest to the quotient.
    pub open spec fn tenths(self) -> nat {
        let k = places(self.samples as nat, self.sample_rate as nat, 0);
        let m = nearest_even(self.samples as nat * pow2(k), self.sample_rate as nat);
        nearest_even(10 * m, pow2(k))
    }

    /// The seconds with one decimal. Without a sample rate there is no number.
    pub open spec fn shown(self) -> Seq<char> {
        if self.sample_rate == 0 {
            if self.samples == 0 {
                "NaN"@
            } else {
                "inf"@
            }
        } else {
            decimal_text(self.tenths() / 10) + seq!['.'] + decimal_text(self.tenths() % 10)
        }
    }
}

/// Two to the `k`.
pub(crate) fn power_of_two(k: u32) -> (r: u128)
    requires
        k < 127,
    ensures
        r == pow2(k as nat),
        0 < r < 0x8000_0000_0000_0000_0000_0000_0000_0000,
{
    let mut r: u128 = 1;
    let mut i: u32 = 0;
    proof {
        vstd::arithmetic::power2::lemma2_to64();
        vstd::arithmetic::power2::lemma2_to64_rest();
        vstd::arithmetic::power2::lemma_pow2_adds(64, 62);
    }
    while i < k
        invariant
            i <= k < 127,
            r == pow2(i as nat),
            0 < r <= 0x4000_0000_0000_0000_0000_0000_0000_0000,
            pow2(126) == 0x4000_0000_0000_0000_0000_0000_0000_0000,
        decreases k - i,
    {
        proof {
            vstd::arithmetic::power2::lemma_pow2_unfold((i + 1) as nat);
            if i + 1 < 126 {
                vstd::arithmetic::power2::lemma_pow2_strictly_increases((i + 1) as nat, 126);
            }
        }
        r = r * 2;
        i += 1;
    }
    r
}

/// The double-precision number nearest to the quotient: its leading bits, and how
/// many binary places they have.
pub(crate) fn double_quotient(seconds: Seconds) -> (r: (u128, u32))
    requires
        seconds.sample_rate > 0,
        seconds.samples < 0x20_0000_0000_0000,
    ensures
        r.1 == places(seconds.samples as nat, seconds.sample_rate as nat, 0),
        r.1 <= MOST_PLACES,
        r.0 == nearest_even(
            seconds.samples as nat * pow2(r.1 as nat),
            seconds.sample_rate as nat,
        ),
        r.0 <= 0x20_0000_0000_0000,
        seconds.samples > 0 ==> 0x10_0000_0000_0000 <= seconds.samples as nat * pow2(r.1 as nat) / (
        seconds.sample_rate as nat) < 0x20_0000_0000_0000,
{
    let d: u128 = seconds.sample_rate as u128;
    let ghost n = seconds.samples as nat;
    // The quotient is `scaled` over `d`, in units of two to the minus `k`.
    let mut scaled: u128 = seconds.samples as u128;
    let mut k: u32 = 0;
    proof {
        vstd::arithmetic::power2::lemma2_to64();
        vstd::arithmetic::power2::lemma2_to64_rest();
        vstd::arithmetic::power2::lemma_pow2_adds(64, 20);
        assert(scaled / d < 0x20_0000_0000_0000) by (nonlinear_arith)
            requires
                scaled < 0x20_0000_0000_0000,
                d >= 1,
        ;
    }
    while k < MOST_PLACES && scaled * 2 / d < 0x20_0000_0000_0000
        invariant
            k <= MOST_PLACES,
            0 < d <= u32::MAX,
            d == seconds.sample_rate,
            n == seconds.samples,
            scaled == n * pow2(k as nat),
            scaled / d < 0x20_0000_0000_0000,
            scaled < 0x20_0000_0000_0000_0000_0000,
            places(n, d as nat, k as nat) == places(n, d as nat, 0),
            pow2(53) == 0x20_0000_0000_0000,
            pow2(84) == 0x10_0000_0000_0000_0000_0000,
        decreases MOST_PLACES - k,
    {
        proof {
            vstd::arithmetic::power2::lemma_pow2_unfold((k + 1) as nat);
            if k + 1 < 84 {
                vstd::arithmetic::power2::lemma_pow2_strictly_increases((k + 1) as nat, 84);
            }
            let p = pow2(k as nat);
            assert(n * (2 * p) == 2 * (n * p)) by (nonlinear_arith);
            let t = scaled * 2;
            vstd::arithmetic::div_mod::lemma_fundamental_div_mod(t as int, d as int);
            assert(t < 0x20_0000_0000_0000_0000_0000) by (nonlinear_arith)
                requires
                    t == d * (t / d as int) + t % (d as int),
                    0 <= t % (d as int) < d,
                    t / (d as int) < 0x20_0000_0000_0000,
                    0 < d <= u32::MAX,
            ;
        }
        scaled = scaled * 2;
        k += 1;
    }
    let m: u128 = round_half_even(scaled, d);
    proof {
        if k < 84 {
            vstd::arithmetic::power2::lemma_pow2_strictly_increases(k as nat, 84);
        }
        vstd::arithmetic::power2::lemma_pow2_pos(k as nat);
        assert(scaled * 2 == n * pow2((k + 1) as nat)) by {
            vstd::arithmetic::power2::lemma_pow2_unfold((k + 1) as nat);
            let p = pow2(k as nat);
            assert(n * (2 * p) == 2 * (n * p)) by (nonlinear_arith);
        }
    }
    proof {
        if n > 0 {
            let e = d as int;
            vstd::arithmetic::div_mod::lemma_fundamental_div_mod(scaled as int, e);
            vstd::arithmetic::div_mod::lemma_fundamental_div_mod(scaled * 2, e);
            if k < 84 {
                assert(scaled >= 0x10_0000_0000_0000 * e) by (nonlinear_arith)
                    requires
                        scaled * 2 >= e * (scaled * 2 / e),
                        scaled * 2 / e >= 0x20_0000_0000_0000,
                        e > 0,
                ;
            } else {
                assert(scaled >= pow2(84)) by (nonlinear_arith)
                    requires
                        scaled == n * pow2(84),
                        n >= 1,
                ;
            }
            assert(scaled as int / e >= 0x10_0000_0000_0000) by (nonlinear_arith)
                requires
                    scaled < e * (scaled as int / e) + e,
                    scaled >= 0x10_0000_0000_0000 * e,
                    e > 0,
            ;
        }
    }
    (m, k)
}

/// The seconds with one decimal, as a double-precision number is written.
pub fn seconds_text(seconds: Seconds) -> (r: String)
    requires
        seconds.samples < 0x20_0000_0000_0000,
    ensures
        r@ == seconds.shown(),
        r@.len() <= 41,
{
    if seconds.sample_rate == 0 {
        proof {
            reveal_strlit("NaN");
            reveal_strlit("inf");
        }
        return if seconds.samples == 0 {
            "NaN".to_owned()
        } else {
            "inf".to_owned()
        };
    }
    let (m, k) = double_quotient(seconds);
    let unit: u128 = power_of_two(k);
    let tenths: u128 = round_half_even(10 * m, unit);
    proof {
        assert(10 * m / (unit as int) <= 10 * m) by (nonlinear_arith)
            requires
                unit >= 1,
                m >= 0,
        ;
    }
    let whole: String = text::decimal((tenths / 10) as u64);
    let tenth: String = text::decimal((tenths % 10) as u64);
    let mut r: String = whole;
    r.push('.');
    let r: String = text::concat(r.as_str(), tenth.as_str());
    proof {
        text::decimal_is_short((tenths / 10) as nat);
        text::decimal_is_short((tenths % 10) as nat);
    }
    assert(r@ =~= seconds.shown());
    r
}

/// The tenths are those of the quotient, to within one.
pub proof fn tenths_are_near(seconds: Seconds)
    requires
        seconds.sample_rate > 0,
        seconds.samples < 0x1_0000_0000_0000 * seconds.sample_rate,
    ensures
        -(seconds.sample_rate as int) <= seconds.tenths() * seconds.sample_rate - 10
            * seconds.samples <= seconds.sample_rate,
{
    let n = seconds.samples as nat;
    let d = seconds.sample_rate as nat;
    let k = places(n, d, 0);
    let p = pow2(k);
    vstd::arithmetic::power2::lemma2_to64();
    vstd::arithmetic::power2::lemma2_to64_rest();
    vstd::arithmetic::power2::lemma_pow2_pos(k);
    lemma_many_places(n, d);
    if k > 4 {
        vstd::arithmetic::power2::lemma_pow2_strictly_increases(4, k);
    }
    let m = nearest_even(n * p, d);
    let t = nearest_even(10 * m, p);
    lemma_nearest_even_error(n * p, d);
    lemma_nearest_even_error(10 * m, p);
    let a = m * d - n * p;
    let b = t * p - 10 * m;
    let off = t * d - 10 * n;
    assert(off * p == b * d + 10 * a) by (nonlinear_arith)
        requires
            off == t * d - 10 * n,
            a == m * d - n * p,
            b == t * p - 10 * m,
    ;
    assert(2 * (b * d) <= p * d && -2 * (b * d) <= p * d) by (nonlinear_arith)
        requires
            2 * b <= p,
            -2 * b <= p,
            d > 0,
    ;
    assert(10 * d <= p * d) by (nonlinear_arith)
        requires
            p >= 16,
            d > 0,
    ;
    assert(off <= d) by (nonlinear_arith)
        requires
            off * p <= p * d,
            p > 0,
    ;
    assert(-(d as int) <= off) by (nonlinear_arith)
        requires
            -(off * p) <= p * d,
            p > 0,
    ;
}

proof fn lemma_many_places(n: nat, d: nat)
    requires
        d > 0,
        n < 0x1_0000_0000_0000 * d,
    ensures
        places(n, d, 0) >= 4,
{
    vstd::arithmetic::power2::lemma2_to64();
    vstd::arithmetic::power2::lemma2_to64_rest();
    reveal_with_fuel(places, 5);
    lemma_small_quotient(n, d, 2);
    lemma_small_quotient(n, d, 4);
    lemma_small_quotient(n, d, 8);
    lemma_small_quotient(n, d, 16);
    lemma_places_grow(n, d, 4);
}

proof fn lemma_small_quotient(n: nat, d: nat, c: nat)
    requires
        d > 0,
        n < 0x1_0000_0000_0000 * d,
        c <= 16,
    ensures
        n * c / d < 0x20_0000_0000_0000,
{
    vstd::arithmetic::div_mod::lemma_fundamental_div_mod((n * c) as int, d as int);
    let q = n * c / d;
    assert(q < 0x20_0000_0000_0000) by (nonlinear_arith)
        requires
            d * q <= n * c,
            n < 0x1_0000_0000_0000 * d,
            c <= 16,
            d > 0,
    ;
}

proof fn lemma_places_grow(n: nat, d: nat, k: nat)
    ensures
        places(n, d, k) >= k,
    decreases MOST_PLACES - k,
{
    if k < MOST_PLACES && n * pow2(k + 1) / d < pow2(53) {
        lemma_places_grow(n, d, k + 1);
    }
}

/// Seconds are shown as the tenths, with a point before the last digit.
pub proof fn tenths_are_shown(seconds: Seconds)
    requires
        seconds.sample_rate > 0,
    ensures
        ({
            let s = seconds.shown();
            let n = s.len() as int;
            &&& n >= 3
            &&& s[n - 2] == '.'
            &&& 10 * text::digits_value(s.take(n - 2)) + text::digits_value(s.skip(n - 1))
                == seconds.tenths()
        }),
{
    let t = seconds.tenths();
    let s = seconds.shown();
    let n = s.len() as int;
    text::decimal_reads_back(t / 10);
    text::decimal_reads_back(t % 10);
    let whole = decimal_text(t / 10);
    let last = decimal_text(t % 10);
    assert(last.len() == 1);
    assert(s.take(n - 2) =~= whole);
    assert(s.skip(n - 1) =~= last);
}

} // verus!
