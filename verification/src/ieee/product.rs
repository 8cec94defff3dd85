//! Products with small integers, and half-precision numbers.

use super::pack::{lemma_nearest_scaled, lemma_nearest_whole};
use super::single::{from_count, lemma_nearest_range, lemma_whole_exact, negate, times};
use super::{
    excess, finite, is_nan, lemma_excess_is, lemma_nearest_value, lemma_normalized, lemma_scaled,
    magnitude, nearest, negative, one, shift, signed, significand, unsigned, INF, NAN, STEP,
};
use vstd::arithmetic::power2::{lemma2_to64, lemma_pow2_adds, lemma_pow2_pos, pow2};
use vstd::prelude::*;

verus! {

/// An integer times a number, correctly rounded. The integer zero is positive.
pub open spec fn multiple(q: int, b: u32) -> u32 {
    let neg = (q < 0) != negative(b);
    if is_nan(b) || !finite(b) && q == 0 {
        NAN
    } else if !finite(b) {
        signed(neg, INF as int)
    } else {
        signed(neg, nearest(vstd::math::abs(q) * magnitude(unsigned(b))))
    }
}

/// An integer times a number, correctly rounded.
pub fn multiply(q: i32, b: u32) -> (r: u32)
    requires
        -128 <= q <= 128,
    ensures
        r == multiple(q as int, b),
{
    let n: usize = (if q < 0 {
        -q
    } else {
        q
    }) as usize;
    proof {
        lemma_whole_exact(n as int);
        lemma_pow2_pos(149);
        let m = magnitude(unsigned(b));
        assert((n * one()) * m == (n * m) * one() && 1 * one() == one()) by (nonlinear_arith);
        lemma_nearest_scaled(n * m, 1, one());
        lemma_nearest_whole(n * m);
    }
    let a: u32 = from_count(n);
    times(
        if q < 0 {
            negate(a)
        } else {
            a
        },
        b,
    )
}

/// The magnitude of an unsigned half-precision pattern, in units of 2^-24. The largest
/// exponent is an exponent like the others here: infinities and NaNs are not told apart.
pub open spec fn half_magnitude(x: int) -> int {
    if x < 1024 {
        x
    } else {
        (1024 + x % 1024) * pow2((x / 1024 - 1) as nat)
    }
}

/// A half-precision number in single precision.
pub open spec fn widened(h: u16) -> u32 {
    signed(h >= 0x8000, nearest(half_magnitude(h as int % 0x8000) * pow2(125)))
}

/// Widening loses nothing.
pub proof fn lemma_widened_exact(h: u16)
    ensures
        finite(widened(h)),
        negative(widened(h)) <==> h >= 0x8000,
        magnitude(unsigned(widened(h))) == half_magnitude(h as int % 0x8000) * pow2(125),
{
    let x = h as int % 0x8000;
    let (m, e) = if x < 1024 {
        (x, 0int)
    } else {
        (1024 + x % 1024, x / 1024 - 1)
    };
    lemma2_to64();
    lemma_pow2_adds(e as nat, 125);
    lemma_pow2_pos((e + 125) as nat);
    let w = pow2((e + 125) as nat) as int;
    let n = half_magnitude(x) * pow2(125);
    assert(n == m * w) by (nonlinear_arith)
        requires
            n == (m * pow2(e as nat)) * pow2(125) || (n == m * pow2(125) && e == 0),
            w == pow2(e as nat) * pow2(125),
            e == 0 ==> pow2(e as nat) == 1,
    ;
    if m > 0 {
        let (p, k) = lemma_normalized(m, 13);
        lemma_pow2_adds(k as nat, (e + 125 - k) as nat);
        let (a, b) = (pow2(k as nat) as int, pow2((e + 125 - k) as nat) as int);
        assert(m * w == p * b) by (nonlinear_arith)
            requires
                p == m * a,
                w == a * b,
        ;
        lemma_scaled(p, e + 125 - k);
        assert(excess(p) == 0);
        assert(p % 1 == 0);
        assert(p / 1 == p);
        assert(n == p * b);
        assert(nearest(n) == (e + 125 - k) * STEP + p);
        lemma_nearest_value(n);
        lemma_pow2_pos((e + 125 - k) as nat);
        assert(0x80_0000 * b <= p * b < 0x100_0000 * b) by (nonlinear_arith)
            requires
                0x80_0000 <= p < 0x100_0000,
                b > 0,
        ;
        lemma_excess_is(n, e + 125 - k);
        vstd::arithmetic::div_mod::lemma_div_by_multiple(p, b);
        vstd::arithmetic::div_mod::lemma_mod_multiples_basic(p, b);
    } else {
        assert(n == 0) by (nonlinear_arith)
            requires
                n == m * w,
                m == 0,
        ;
        assert(0int % 1 == 0);
    }
}

/// A half-precision number in single precision.
pub fn f16_to_f32(h: u16) -> (r: u32)
    ensures
        r == widened(h),
{
    let x: u32 = (h % 0x8000) as u32;
    proof {
        lemma2_to64();
        lemma_pow2_pos(149);
        lemma_pow2_adds(23, 238);
        lemma_pow2_adds(112, 149);
        lemma_pow2_adds(13, 112);
        let (m, g) = (magnitude(8192 * x), half_magnitude(x as int));
        let (u, v) = (pow2(112) as int, pow2((x as int / 1024 - 1) as nat) as int);
        assert(magnitude(0x7780_0000) == u * one()) by {
            assert(significand(0x7780_0000) == 0x80_0000 && shift(0x7780_0000) == 238);
        }
        if x < 1024 {
            assert(m == 8192 * g) by {
                assert((8192 * x) * 1 == 8192 * x);
            }
        } else {
            assert(significand(8192 * x) == 8192 * (1024 + x as int % 1024) && shift(8192 * x)
                == x as int / 1024 - 1);
            let c = 1024 + x as int % 1024;
            assert((8192 * c) * v == 8192 * (c * v)) by (nonlinear_arith);
        }
        let n = g * pow2(125);
        assert(m * (u * one()) == n * one() && 1 * one() == one()) by (nonlinear_arith)
            requires
                m == 8192 * g,
                n == g * (8192 * u),
        ;
        lemma_nearest_scaled(n, 1, one());
        lemma_nearest_whole(n);
        lemma_pow2_pos(125);
        lemma_pow2_pos((x as int / 1024 - 1) as nat);
        assert(0 <= n) by (nonlinear_arith)
            requires
                n == g * pow2(125),
                g == x || g == (1024 + x as int % 1024) * v && v > 0,
        ;
        lemma_nearest_range(n, 1);
    }
    // Half-precision exponents start 112 steps later.
    let v: u32 = times(8192 * x, 0x7780_0000);
    assert(v == nearest(half_magnitude(x as int) * pow2(125)));
    if h >= 0x8000 {
        negate(v)
    } else {
        v
    }
}

} // verus!
