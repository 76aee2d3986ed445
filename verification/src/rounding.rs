//! Rounding as binary floating-point arithmetic does it: to the nearest number,
//! and to the even one of two that are equally near.

use vstd::arithmetic::power2::pow2;
use vstd::prelude::*;

verus! {

/// The integer nearest to `n` over `d`; of two that are equally near, the even
/// one.
pub open spec fn nearest_even(n: nat, d: nat) -> nat {
    let q = n / d;
    let r = n % d;
    if 2 * r < d || (2 * r == d && q % 2 == 0) {
        q
    } else {
        q + 1
    }
}

/// The integer nearest to `n` over `d`.
pub fn round_half_even(n: u128, d: u128) -> (r: u128)
    requires
        0 < d,
        n < 0x8000_0000_0000_0000_0000_0000_0000_0000,
        d < 0x8000_0000_0000_0000_0000_0000_0000_0000,
    ensures
        r == nearest_even(n as nat, d as nat),
        n / d <= r <= n / d + 1,
{
    let q: u128 = n / d;
    let rest: u128 = n % d;
    if 2 * rest < d || (2 * rest == d && q % 2 == 0) {
        q
    } else {
        q + 1
    }
}

/// How far binary floating-point numbers stand apart at a magnitude of `n`, both in
/// units of the smallest positive one: by one unit below `top`, which is two to the
/// number of their bits, and twice as far with each further bit.
pub open spec fn spacing(n: nat, top: nat) -> nat
    decreases n,
{
    if n < top || n == 0 {
        1
    } else {
        2 * spacing(n / 2, top)
    }
}

/// The floating-point number nearest to `n` over `d`, in units of the smallest
/// positive one. The range of the exponent is not bounded from above.
pub open spec fn nearest_float(n: nat, d: nat, top: nat) -> nat {
    let s = spacing(n / d, top);
    nearest_even(n, d * s) * s
}

/// The single-precision number nearest to `n` over `d`: one of 24 bits.
pub open spec fn nearest_single(n: nat, d: nat) -> nat {
    nearest_float(n, d, 0x100_0000)
}

/// The double-precision number nearest to `n` over `d`: one of 53 bits.
pub open spec fn nearest_double(n: nat, d: nat) -> nat {
    nearest_float(n, d, 0x20_0000_0000_0000)
}

/// Rounding looks at the quotient alone.
pub(crate) proof fn lemma_nearest_even_of_multiples(n: nat, d: nat, c: nat)
    requires
        d > 0,
        c > 0,
    ensures
        nearest_even(n * c, d * c) == nearest_even(n, d),
        (n * c) / (d * c) == n / d,
        d * c > 0,
{
    let q = n / d;
    let r = n % d;
    vstd::arithmetic::div_mod::lemma_fundamental_div_mod(n as int, d as int);
    assert(d * c > 0) by (nonlinear_arith)
        requires
            d > 0,
            c > 0,
    ;
    assert(n * c == q * (d * c) + r * c) by (nonlinear_arith)
        requires
            n == d * q + r,
    ;
    assert(0 <= r * c < d * c) by (nonlinear_arith)
        requires
            0 <= r < d,
            c > 0,
    ;
    vstd::arithmetic::div_mod::lemma_fundamental_div_mod_converse(
        (n * c) as int,
        (d * c) as int,
        q as int,
        (r * c) as int,
    );
    assert(2 * (r * c) < d * c <==> 2 * r < d) by (nonlinear_arith)
        requires
            c > 0,
    ;
    assert(2 * (r * c) == d * c <==> 2 * r == d) by (nonlinear_arith)
        requires
            c > 0,
    ;
}

/// The nearest number depends on the quotient alone.
pub(crate) proof fn lemma_nearest_float_of_multiples(n: nat, d: nat, c: nat, top: nat)
    requires
        d > 0,
        c > 0,
    ensures
        nearest_float(n * c, d * c, top) == nearest_float(n, d, top),
{
    lemma_nearest_even_of_multiples(n, d, c);
    let s = spacing(n / d, top);
    lemma_spacing_is_positive(n / d, top);
    assert(d * s > 0) by (nonlinear_arith)
        requires
            d > 0,
            s > 0,
    ;
    lemma_nearest_even_of_multiples(n, d * s, c);
    assert((d * s) * c == (d * c) * s) by (nonlinear_arith);
}

pub(crate) proof fn lemma_spacing_is_positive(n: nat, top: nat)
    ensures
        spacing(n, top) > 0,
    decreases n,
{
    if n >= top && n > 0 {
        lemma_spacing_is_positive(n / 2, top);
    }
}

/// The spacing at a magnitude of all bits followed by `x` more.
pub(crate) proof fn lemma_spacing(n: nat, x: nat, half: nat)
    requires
        half > 0,
        n < (2 * half) * pow2(x),
        x > 0 ==> half * pow2(x) <= n,
    ensures
        spacing(n, 2 * half) == pow2(x),
    decreases x,
{
    vstd::arithmetic::power2::lemma2_to64();
    if x > 0 {
        vstd::arithmetic::power2::lemma_pow2_unfold(x);
        vstd::arithmetic::power2::lemma_pow2_pos((x - 1) as nat);
        let p = pow2((x - 1) as nat);
        assert(half * (2 * p) == 2 * (half * p)) by (nonlinear_arith);
        assert((2 * half) * (2 * p) == 2 * ((2 * half) * p)) by (nonlinear_arith);
        assert((2 * half) * p == 2 * (half * p)) by (nonlinear_arith);
        assert(half * p >= half) by (nonlinear_arith)
            requires
                p >= 1,
        ;
        lemma_spacing(n / 2, (x - 1) as nat, half);
    } else {
        assert((2 * half) * pow2(0) == 2 * half) by (nonlinear_arith)
            requires
                pow2(0) == 1,
        ;
    }
}

/// Rounding to the nearest number, done on the leading bits: `p` times two to the
/// `up`, over two to the `down`, where `d` low bits of `p` are rounded away and
/// `x` is what is left of the exponent.
pub(crate) proof fn lemma_nearest_float_by_bits(
    p: nat,
    up: nat,
    down: nat,
    d: nat,
    x: nat,
    half: nat,
)
    requires
        half > 0,
        d + up == x + down,
        p / pow2(d) < 2 * half,
        x > 0 ==> p / pow2(d) >= half,
    ensures
        nearest_float(p * pow2(up), pow2(down), 2 * half) == nearest_even(p, pow2(d)) * pow2(x),
{
    let pd = pow2(d);
    let pu = pow2(up);
    let pn = pow2(down);
    let px = pow2(x);
    let top = 2 * half;
    vstd::arithmetic::power2::lemma_pow2_pos(d);
    vstd::arithmetic::power2::lemma_pow2_pos(up);
    vstd::arithmetic::power2::lemma_pow2_pos(down);
    vstd::arithmetic::power2::lemma_pow2_pos(x);
    vstd::arithmetic::power2::lemma_pow2_adds(d, up);
    vstd::arithmetic::power2::lemma_pow2_adds(x, down);
    assert(pd * pu == px * pn);
    vstd::arithmetic::div_mod::lemma_fundamental_div_mod(p as int, pd as int);
    let q = p / pd;
    let num = p * pu;
    let t = num / pn;
    vstd::arithmetic::div_mod::lemma_fundamental_div_mod(num as int, pn as int);
    assert(p < top * pd) by (nonlinear_arith)
        requires
            p < pd * q + pd,
            q + 1 <= top,
            pd > 0,
    ;
    assert(num < (top * px) * pn) by (nonlinear_arith)
        requires
            num == p * pu,
            p < top * pd,
            pu > 0,
            pd * pu == px * pn,
    ;
    assert(t < top * px) by (nonlinear_arith)
        requires
            pn * t <= num,
            num < (top * px) * pn,
            pn > 0,
    ;
    if x > 0 {
        assert(p >= half * pd) by (nonlinear_arith)
            requires
                p >= pd * q,
                q >= half,
                pd > 0,
        ;
        assert(num >= (half * px) * pn) by (nonlinear_arith)
            requires
                num == p * pu,
                p >= half * pd,
                pu > 0,
                pd * pu == px * pn,
        ;
        assert(t >= half * px) by (nonlinear_arith)
            requires
                pn * t + pn > num,
                num >= (half * px) * pn,
                pn > 0,
        ;
    }
    lemma_spacing(t, x, half);
    assert(pn * px == pd * pu) by (nonlinear_arith)
        requires
            pd * pu == px * pn,
    ;
    lemma_nearest_even_of_multiples(p, pd, pu);
}

/// Rounding a quotient of all bits before the point, raised by `x` bits.
pub(crate) proof fn lemma_nearest_float_of_quotient(s: nat, n: nat, x: nat, half: nat)
    requires
        half > 0,
        n > 0,
        half <= s / n < 2 * half,
    ensures
        nearest_float(s * pow2(x), n, 2 * half) == nearest_even(s, n) * pow2(x),
{
    let c = pow2(x);
    let q = s / n;
    let t = (s * c) / n;
    let top = 2 * half;
    vstd::arithmetic::power2::lemma_pow2_pos(x);
    vstd::arithmetic::div_mod::lemma_fundamental_div_mod(s as int, n as int);
    vstd::arithmetic::div_mod::lemma_fundamental_div_mod((s * c) as int, n as int);
    assert(s * c < (top * c) * n) by (nonlinear_arith)
        requires
            s < n * q + n,
            q + 1 <= top,
            n > 0,
            c > 0,
    ;
    assert(t < top * c) by (nonlinear_arith)
        requires
            n * t <= s * c,
            s * c < (top * c) * n,
            n > 0,
    ;
    assert(s * c >= (half * c) * n) by (nonlinear_arith)
        requires
            s >= n * q,
            q >= half,
            n > 0,
            c > 0,
    ;
    assert(t >= half * c) by (nonlinear_arith)
        requires
            n * t + n > s * c,
            s * c >= (half * c) * n,
            n > 0,
    ;
    lemma_spacing(t, x, half);
    lemma_nearest_even_of_multiples(s, n, c);
}

/// The spacing at `n` is a power of two, and is one or leaves all bits of `n`.
pub(crate) proof fn lemma_spacing_shape(n: nat, half: nat) -> (x: nat)
    requires
        half > 0,
    ensures
        spacing(n, 2 * half) == pow2(x),
        x > 0 ==> half * pow2(x) <= n,
        n < (2 * half) * pow2(x),
    decreases n,
{
    vstd::arithmetic::power2::lemma2_to64();
    if n < 2 * half {
        assert((2 * half) * pow2(0) == 2 * half) by (nonlinear_arith)
            requires
                pow2(0) == 1,
        ;
        0
    } else {
        let y = lemma_spacing_shape(n / 2, half);
        vstd::arithmetic::power2::lemma_pow2_unfold((y + 1) as nat);
        let p = pow2(y);
        assert(half * (2 * p) == 2 * (half * p)) by (nonlinear_arith);
        assert((2 * half) * (2 * p) == 2 * ((2 * half) * p)) by (nonlinear_arith);
        if y == 0 {
            assert(half * pow2(1) == 2 * half) by (nonlinear_arith)
                requires
                    pow2(1) == 2,
            ;
        }
        (y + 1) as nat
    }
}

/// A nearest number has no more than all bits, raised by some.
pub(crate) proof fn lemma_nearest_float_shape(n: nat, d: nat, half: nat) -> (r: (nat, nat))
    requires
        half > 0,
        d > 0,
    ensures
        nearest_float(n, d, 2 * half) == r.0 * pow2(r.1),
        r.0 < 2 * half,
{
    let t = n / d;
    let x = lemma_spacing_shape(t, half);
    let s = pow2(x);
    let e = nearest_even(n, d * s);
    vstd::arithmetic::power2::lemma_pow2_pos(x);
    vstd::arithmetic::div_mod::lemma_fundamental_div_mod(n as int, d as int);
    assert(d * s > 0) by (nonlinear_arith)
        requires
            d > 0,
            s > 0,
    ;
    assert(n <= (2 * half) * (d * s)) by (nonlinear_arith)
        requires
            n < d * t + d,
            t + 1 <= (2 * half) * s,
            d > 0,
    ;
    lemma_nearest_even_at_most(n, d * s, 2 * half);
    if e == 2 * half {
        vstd::arithmetic::power2::lemma_pow2_unfold((x + 1) as nat);
        assert((2 * half) * s == half * (2 * s)) by (nonlinear_arith);
        (half, (x + 1) as nat)
    } else {
        (e, x)
    }
}

/// What is rounded does not pass a number of all bits raised by `up` bits.
pub(crate) proof fn lemma_nearest_float_at_most(n: nat, d: nat, lead: nat, up: nat, half: nat)
    requires
        half > 0,
        d > 0,
        lead < 2 * half,
        n <= (lead * pow2(up)) * d,
    ensures
        nearest_float(n, d, 2 * half) <= lead * pow2(up),
{
    let u = lead * pow2(up);
    let t = n / d;
    let x = lemma_spacing_shape(t, half);
    let s = spacing(t, 2 * half);
    lemma_spacing_is_positive(t, 2 * half);
    vstd::arithmetic::div_mod::lemma_fundamental_div_mod(n as int, d as int);
    assert(t <= u) by (nonlinear_arith)
        requires
            d * t <= n,
            n <= u * d,
            d > 0,
    ;
    vstd::arithmetic::power2::lemma2_to64();
    vstd::arithmetic::power2::lemma_pow2_pos(up);
    assert(x <= up) by {
        if x > up {
            vstd::arithmetic::power2::lemma_pow2_unfold((up + 1) as nat);
            if x > up + 1 {
                vstd::arithmetic::power2::lemma_pow2_strictly_increases((up + 1) as nat, x);
            }
            let pu = pow2(up);
            assert(lead * pu < half * pow2(x)) by (nonlinear_arith)
                requires
                    lead < 2 * half,
                    pow2(x) >= 2 * pu,
                    pu > 0,
            ;
        }
    }
    let w = lead * pow2((up - x) as nat);
    vstd::arithmetic::power2::lemma_pow2_adds((up - x) as nat, x);
    let pw = pow2((up - x) as nat);
    assert(u == w * s) by (nonlinear_arith)
        requires
            u == lead * pow2(up),
            pow2(up) == pw * s,
            w == lead * pw,
    ;
    assert(d * s > 0) by (nonlinear_arith)
        requires
            d > 0,
            s > 0,
    ;
    assert(n <= w * (d * s)) by (nonlinear_arith)
        requires
            n <= u * d,
            u == w * s,
    ;
    lemma_nearest_even_at_most(n, d * s, w);
    let e = nearest_even(n, d * s);
    assert(e * s <= w * s) by (nonlinear_arith)
        requires
            e <= w,
    ;
}

/// Rounding is off by no more than half of what it rounds to.
pub(crate) proof fn lemma_nearest_even_error(n: nat, d: nat)
    requires
        d > 0,
    ensures
        -(d as int) <= 2 * (nearest_even(n, d) * d - n) <= d,
{
    let q = n / d;
    let r = n % d;
    vstd::arithmetic::div_mod::lemma_fundamental_div_mod(n as int, d as int);
    assert(q * d == d * q && (q + 1) * d == d * q + d) by (nonlinear_arith);
}

/// The nearest number is off by no more than half of the spacing, which is one or
/// a small part of the number.
pub(crate) proof fn lemma_nearest_float_error(n: nat, d: nat, half: nat)
    requires
        half > 0,
        d > 0,
    ensures
        ({
            let off = nearest_float(n, d, 2 * half) * d - n;
            &&& 2 * off <= d || (2 * off) * half <= n
            &&& -2 * off <= d || (-2 * off) * half <= n
        }),
{
    let t = n / d;
    let x = lemma_spacing_shape(t, half);
    let s = spacing(t, 2 * half);
    lemma_spacing_is_positive(t, 2 * half);
    vstd::arithmetic::div_mod::lemma_fundamental_div_mod(n as int, d as int);
    assert(d * s > 0) by (nonlinear_arith)
        requires
            d > 0,
            s > 0,
    ;
    lemma_nearest_even_error(n, d * s);
    let e = nearest_even(n, d * s);
    let off = nearest_float(n, d, 2 * half) * d - n;
    assert(e * s * d == e * (d * s)) by (nonlinear_arith);
    vstd::arithmetic::power2::lemma2_to64();
    if x == 0 {
        assert(d * s == d) by (nonlinear_arith)
            requires
                s == 1,
        ;
    } else {
        assert((d * s) * half <= n) by (nonlinear_arith)
            requires
                half * s <= t,
                d * t <= n,
                d > 0,
        ;
        assert(2 * off * half <= (d * s) * half) by (nonlinear_arith)
            requires
                2 * off <= d * s,
                half > 0,
        ;
        assert(-2 * off * half <= (d * s) * half) by (nonlinear_arith)
            requires
                -2 * off <= d * s,
                half > 0,
        ;
    }
}

/// What is rounded does not pass a multiple of the spacing.
pub(crate) proof fn lemma_nearest_even_at_most(n: nat, d: nat, w: nat)
    requires
        d > 0,
        n <= w * d,
    ensures
        nearest_even(n, d) <= w,
{
    let q = n / d;
    let r = n % d;
    vstd::arithmetic::div_mod::lemma_fundamental_div_mod(n as int, d as int);
    assert(q <= w) by (nonlinear_arith)
        requires
            d * q <= n,
            n <= w * d,
            d > 0,
    ;
    if q == w {
        assert(r == 0) by (nonlinear_arith)
            requires
                n == d * q + r,
                q == w,
                n <= w * d,
                r >= 0,
        ;
    }
}

/// Rounding gives the nearest integer, and of two the even one.
pub proof fn nearest_is_nearest(n: nat, d: nat, k: int)
    requires
        d > 0,
    ensures
        ({
            let e = nearest_even(n, d) as int;
            let off = if e * d < n {
                n - e * d
            } else {
                e * d - n
            };
            let other = if k * d < n {
                n - k * d
            } else {
                k * d - n
            };
            &&& off <= other
            &&& off == other && k != e ==> e % 2 == 0
        }),
{
    let q = n as int / d as int;
    let r = n as int % d as int;
    let dd = d as int;
    vstd::arithmetic::div_mod::lemma_fundamental_div_mod(n as int, dd);
    assert(q * dd == dd * q && (q + 1) * dd == dd * q + dd) by (nonlinear_arith);
    assert(k <= q ==> k * dd <= q * dd) by (nonlinear_arith)
        requires
            dd > 0,
    ;
    assert(k < q ==> k * dd <= q * dd - dd) by (nonlinear_arith)
        requires
            dd > 0,
    ;
    assert(k >= q + 1 ==> k * dd >= (q + 1) * dd) by (nonlinear_arith)
        requires
            dd > 0,
    ;
    assert(k > q + 1 ==> k * dd >= (q + 1) * dd + dd) by (nonlinear_arith)
        requires
            dd > 0,
    ;
}

} // verus!
