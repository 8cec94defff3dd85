//! IEEE 754 single-precision numbers as bit patterns, and their arithmetic on integers.
//!
//! A finite number is an integer multiple of 2^-149, the smallest positive one. `magnitude`
//! and `value` count in those units, so every statement below is about integers.

pub mod calls;
pub mod double;
pub mod pack;
pub mod product;
pub mod ratio;
pub mod root;
pub mod rounding;
pub mod single;

use rounding::{half_even, lemma_half_even};
use vstd::arithmetic::power2::{lemma_pow2_adds, lemma_pow2_pos, lemma_pow2_unfold, pow2};
use vstd::prelude::*;

verus! {

/// The sign bit.
pub const SIGN: u32 = 0x8000_0000;

/// Positive infinity.
pub const INF: u32 = 0x7F80_0000;

/// The quiet NaN that stands for every NaN here.
pub const NAN: u32 = 0x7FC0_0000;

/// One step of the exponent.
pub const STEP: u32 = 0x80_0000;

/// The pattern without its sign.
pub open spec fn unsigned(b: u32) -> int {
    b as int % 0x8000_0000
}

/// The sign bit is set.
pub open spec fn negative(b: u32) -> bool {
    b >= SIGN
}

/// Neither an infinity nor a NaN.
pub open spec fn finite(b: u32) -> bool {
    unsigned(b) < INF
}

/// Not a number.
pub open spec fn is_nan(b: u32) -> bool {
    unsigned(b) > INF
}

/// The 24-bit significand of an unsigned pattern.
pub open spec fn significand(x: int) -> int {
    if x < STEP {
        x
    } else {
        STEP + x % STEP as int
    }
}

/// What the significand of an unsigned pattern is shifted by.
pub open spec fn shift(x: int) -> int {
    if x < STEP {
        0
    } else {
        x / STEP as int - 1
    }
}

/// The magnitude of an unsigned finite pattern.
pub open spec fn magnitude(x: int) -> int {
    significand(x) * pow2(shift(x) as nat)
}

/// The value of a finite number.
pub open spec fn value(b: u32) -> int {
    if negative(b) {
        -magnitude(unsigned(b))
    } else {
        magnitude(unsigned(b))
    }
}

/// How many bits a magnitude has beyond the 24 of a significand.
pub open spec fn excess(n: int) -> int
    decreases n,
{
    if n < 0x100_0000 {
        0
    } else {
        1 + excess(n / 2)
    }
}

/// The unsigned pattern nearest to a magnitude, ties to even; infinity if it is too large.
pub open spec fn nearest(n: int) -> int {
    let x = excess(n) * STEP + half_even(n, pow2(excess(n) as nat) as int);
    if x < INF {
        x
    } else {
        INF as int
    }
}

/// `excess` shifts a magnitude into 24 bits, and no further.
pub proof fn lemma_excess(n: int)
    requires
        0 <= n,
    ensures
        excess(n) >= 0,
        n < 0x100_0000 * pow2(excess(n) as nat),
        excess(n) > 0 ==> n >= 0x80_0000 * pow2(excess(n) as nat),
    decreases n,
{
    lemma_pow2_pos(excess(n) as nat);
    if n < 0x100_0000 {
        assert(pow2(0) == 1) by {
            vstd::arithmetic::power2::lemma2_to64();
        }
    } else {
        let s = excess(n / 2);
        lemma_excess(n / 2);
        lemma_pow2_unfold((s + 1) as nat);
        if s == 0 {
            assert(pow2(0) == 1) by {
                vstd::arithmetic::power2::lemma2_to64();
            }
        }
    }
}

/// The number of excess bits is determined by the range of the magnitude.
pub proof fn lemma_excess_is(n: int, s: int)
    requires
        0 <= s,
        s > 0 ==> n >= 0x80_0000 * pow2(s as nat),
        0 <= n < 0x100_0000 * pow2(s as nat),
    ensures
        excess(n) == s,
    decreases s,
{
    lemma_pow2_pos(s as nat);
    if s == 0 {
        assert(pow2(0) == 1) by {
            vstd::arithmetic::power2::lemma2_to64();
        }
    } else {
        lemma_pow2_unfold(s as nat);
        lemma_pow2_pos((s - 1) as nat);
        assert(n >= 0x100_0000 * pow2((s - 1) as nat));
        lemma_excess_is(n / 2, s - 1);
    }
}

/// Rounding a finite number leaves it as it is.
pub proof fn lemma_nearest_exact(x: int)
    requires
        0 <= x < INF,
    ensures
        nearest(magnitude(x)) == x,
{
    let (m, s) = (significand(x), shift(x));
    let p = pow2(s as nat) as int;
    lemma_pow2_pos(s as nat);
    assert(0x80_0000 * p <= m * p < 0x100_0000 * p || x < STEP) by (nonlinear_arith)
        requires
            p > 0,
            0x80_0000 <= m < 0x100_0000 || x < STEP,
    ;
    assert(pow2(0) == 1) by {
        vstd::arithmetic::power2::lemma2_to64();
    }
    assert(0 <= m * p) by (nonlinear_arith)
        requires
            p > 0,
            m >= 0,
    ;
    if x < STEP {
        assert(m * p == m) by (nonlinear_arith)
            requires
                p == 1,
        ;
    }
    lemma_excess_is(m * p, s);
    vstd::arithmetic::div_mod::lemma_div_by_multiple(m, p);
    vstd::arithmetic::div_mod::lemma_mod_multiples_basic(m, p);
}

/// The magnitude that rounding yields: the nearest multiple of the last significant bit.
pub proof fn lemma_nearest_value(n: int)
    requires
        0 <= n,
        nearest(n) < INF,
    ensures
        magnitude(nearest(n)) == half_even(n, pow2(excess(n) as nat) as int) * pow2(
            excess(n) as nat,
        ),
        0 <= nearest(n),
{
    let s = excess(n);
    let p = pow2(s as nat) as int;
    let h = half_even(n, p);
    lemma_excess(n);
    lemma_pow2_pos(s as nat);
    lemma_half_even(n, p, 0);
    vstd::arithmetic::div_mod::lemma_fundamental_div_mod(n, p);
    let q = n / p;
    assert(q < 0x100_0000) by (nonlinear_arith)
        requires
            n == p * q + n % p,
            0 <= n % p,
            n < 0x100_0000 * p,
            0 < p,
    ;
    assert(q >= 0 && (s > 0 ==> q >= 0x80_0000)) by (nonlinear_arith)
        requires
            n == p * q + n % p,
            n % p < p,
            n >= 0,
            s > 0 ==> n >= 0x80_0000 * p,
            0 < p,
    ;
    if s == 0 {
        assert(p == 1) by {
            vstd::arithmetic::power2::lemma2_to64();
        }
        assert(n % 1 == 0);
    }
    let x = s * STEP + h;
    if h == 0x100_0000 {
        assert(x == (s + 2) * STEP);
        assert(significand(x) == STEP && shift(x) == s + 1);
        lemma_pow2_unfold((s + 1) as nat);
        assert(STEP * (2 * p) == h * p) by (nonlinear_arith)
            requires
                h == 0x100_0000,
                STEP == 0x80_0000,
        ;
    } else {
        assert(significand(x) == h && shift(x) == s);
    }
}

/// Rounding picks a nearest finite number: none is nearer to `n` than `nearest(n)`.
pub proof fn lemma_nearest(n: int, y: int)
    requires
        0 <= n,
        nearest(n) < INF,
        0 <= y < INF,
    ensures
        vstd::math::abs(magnitude(nearest(n)) - n) <= vstd::math::abs(magnitude(y) - n),
{
    let s = excess(n);
    let p = pow2(s as nat) as int;
    lemma_nearest_value(n);
    lemma_excess(n);
    lemma_pow2_pos(s as nat);
    let (m, t) = (significand(y), shift(y));
    lemma_pow2_pos(t as nat);
    if t >= s {
        lemma_pow2_adds(s as nat, (t - s) as nat);
        let u = pow2((t - s) as nat) as int;
        assert(m * (p * u) == (m * u) * p) by (nonlinear_arith);
        lemma_half_even(n, p, m * u);
    } else {
        lemma_pow2_adds(t as nat, (s - t - 1) as nat);
        lemma_pow2_unfold(s as nat);
        lemma_pow2_pos((s - t - 1) as nat);
        let (a, u) = (pow2(t as nat) as int, pow2((s - t - 1) as nat) as int);
        assert(m * a <= 0x80_0000 * p) by (nonlinear_arith)
            requires
                p == 2 * (a * u),
                u >= 1,
                a >= 1,
                0 <= m < 0x100_0000,
        ;
        lemma_half_even(n, p, 0x80_0000);
    }
}

/// The pattern of `x` with a sign.
pub open spec fn signed(neg: bool, x: int) -> u32 {
    (if neg {
        SIGN + x
    } else {
        x
    }) as u32
}

/// Scaling a rounded number by a power of two scales its pattern by exponent steps.
pub proof fn lemma_scaled(p: int, e: int)
    requires
        0 <= p,
        0 <= e,
        e == 0 || p >= STEP,
    ensures
        nearest(p * pow2(e as nat)) == {
            let x = (excess(p) + e) * STEP + half_even(p, pow2(excess(p) as nat) as int);
            if x < INF {
                x
            } else {
                INF as int
            }
        },
{
    let s = excess(p);
    let (u, w) = (pow2(s as nat) as int, pow2(e as nat) as int);
    lemma_excess(p);
    lemma_pow2_pos(s as nat);
    lemma_pow2_pos(e as nat);
    lemma_pow2_adds(s as nat, e as nat);
    if s == 0 {
        assert(u == 1) by {
            vstd::arithmetic::power2::lemma2_to64();
        }
    }
    if e == 0 {
        assert(w == 1) by {
            vstd::arithmetic::power2::lemma2_to64();
        }
    }
    assert(0 <= p * w && p * w < 0x100_0000 * (u * w)) by (nonlinear_arith)
        requires
            0 <= p < 0x100_0000 * u,
            w > 0,
    ;
    if s + e > 0 {
        assert(p >= 0x80_0000 * u);
        assert(p * w >= 0x80_0000 * (u * w)) by (nonlinear_arith)
            requires
                p >= 0x80_0000 * u,
                w > 0,
        ;
    }
    lemma_excess_is(p * w, s + e);
    // The quotient and the remainder scale along.
    let (q, r) = (p / u, p % u);
    vstd::arithmetic::div_mod::lemma_fundamental_div_mod(p, u);
    assert(p * w == q * (u * w) + r * w) by (nonlinear_arith)
        requires
            p == u * q + r,
    ;
    assert(0 <= r * w && r * w < u * w) by (nonlinear_arith)
        requires
            0 <= r < u,
            w > 0,
    ;
    vstd::arithmetic::div_mod::lemma_fundamental_div_mod_converse(p * w, u * w, q, r * w);
    assert((2 * (r * w) > u * w <==> 2 * r > u) && (2 * (r * w) == u * w <==> 2 * r == u))
        by (nonlinear_arith)
        requires
            w > 0,
    ;
}

/// The number 1, in units of the smallest positive number.
pub open spec fn one() -> int {
    pow2(149) as int
}

/// A 24-bit number, scaled up by a power of two, as a pattern.
pub proof fn lemma_pattern(h: int, e: int)
    requires
        STEP <= h <= 0x100_0000,
        0 <= e < 250,
    ensures
        nearest(h * pow2(e as nat)) == e * STEP + h,
{
    lemma_scaled(h, e);
    vstd::arithmetic::power2::lemma2_to64();
    if h < 0x100_0000 {
        assert(excess(h) == 0);
        assert(h % 1 == 0);
    } else {
        assert(excess(0x80_0000) == 0);
        assert(excess(h) == 1);
        assert(half_even(h, 2) == STEP);
    }
}

/// Shifts a number below 2^11 up until it fills 24 bits.
pub proof fn lemma_normalized(m: int, k: nat) -> (r: (int, int))
    requires
        1 <= m,
        m * pow2(k) < 0x100_0000,
        13 <= k <= 23,
    ensures
        r.0 == m * pow2(r.1 as nat),
        0x80_0000 <= r.0 < 0x100_0000,
        13 <= r.1 <= 23,
    decreases 23 - k,
{
    if m * pow2(k) >= 0x80_0000 {
        (m * pow2(k), k as int)
    } else {
        lemma_pow2_unfold(k + 1);
        let p = pow2(k) as int;
        assert(m * (2 * p) == 2 * (m * p)) by (nonlinear_arith);
        if k == 23 {
            vstd::arithmetic::power2::lemma2_to64();
            assert(m * 0x80_0000 >= 0x80_0000);
        }
        lemma_normalized(m, k + 1)
    }
}

} // verus!
