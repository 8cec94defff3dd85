//! Double-precision numbers, rounded to decimals.

use super::rounding::{
    beyond, half_even, lemma_beyond_bound, lemma_beyond_is, lemma_half_even_between,
    lemma_half_even_scaled, rounded, shifted_down,
};
use vstd::arithmetic::power2::{
    lemma2_to64, lemma2_to64_rest, lemma_pow2_adds, lemma_pow2_pos, lemma_pow2_unfold, pow2,
};
use vstd::prelude::*;

verus! {

/// The sign bit.
pub const SIGN: u64 = 0x8000_0000_0000_0000;

/// Positive infinity.
pub const INF: u64 = 0x7FF0_0000_0000_0000;

/// One step of the exponent.
pub const STEP: u64 = 0x10_0000_0000_0000;

/// The 53-bit significand of an unsigned pattern.
pub open spec fn significand(x: int) -> int {
    if x < STEP {
        x
    } else {
        STEP + x % STEP as int
    }
}

/// What the significand of an unsigned pattern is shifted by.
pub open spec fn shift(x: int) -> int {
    if x < STEP {
        0
    } else {
        x / STEP as int - 1
    }
}

/// The magnitude of an unsigned finite pattern, in units of 2^-1074.
pub open spec fn magnitude(x: int) -> int {
    significand(x) * pow2(shift(x) as nat)
}

/// `floor(|v| * scale + 0.5)`, where both operations round to double precision, and the
/// result is at most `u64::MAX`. A NaN gives zero.
pub open spec fn units(b: u64, scale: int) -> int {
    let x = b as int % 0x8000_0000_0000_0000;
    if x > INF {
        0
    } else if x == INF {
        u64::MAX as int
    } else {
        let p = rounded(magnitude(x) * scale, 1, 53);
        let q = rounded(p + pow2(1073), 1, 53) / pow2(1074) as int;
        if q <= u64::MAX {
            q
        } else {
            u64::MAX as int
        }
    }
}

/// Units are a 64-bit number.
pub proof fn lemma_units_range(b: u64, scale: int)
    requires
        0 <= scale,
    ensures
        0 <= units(b, scale) <= u64::MAX,
{
    let x = b as int % 0x8000_0000_0000_0000;
    if x < INF {
        let n = magnitude(x) * scale;
        assert(0 <= n) by (nonlinear_arith)
            requires
                n == significand(x) * pow2(shift(x) as nat) * scale,
                0 <= significand(x),
                0 <= scale,
        ;
        lemma_rounded_nonnegative(n);
        lemma_rounded_nonnegative(rounded(n, 1, 53) + pow2(1073));
        lemma_pow2_pos(1074);
        vstd::arithmetic::div_mod::lemma_div_pos_is_pos(
            rounded(rounded(n, 1, 53) + pow2(1073), 1, 53),
            pow2(1074) as int,
        );
    }
}

proof fn lemma_rounded_nonnegative(n: int)
    requires
        0 <= n,
    ensures
        0 <= rounded(n, 1, 53),
{
    let u = pow2(beyond(n / 1, 53) as nat) as int;
    lemma_pow2_pos(beyond(n / 1, 53) as nat);
    assert(1 * u == u);
    vstd::arithmetic::div_mod::lemma_div_pos_is_pos(n, u);
    let h = half_even(n, u);
    assert(0 <= h * u) by (nonlinear_arith)
        requires
            0 <= h,
            0 <= u,
    ;
}

/// Rounding a number that is scaled up by a power of two.
proof fn lemma_rounded_up(n: int, e: int, m: int, g: int)
    requires
        0 <= n,
        0 <= e,
        0 <= g,
        g == beyond(n, 53),
        m == half_even(n, pow2(g as nat) as int),
        n < 0x20_0000_0000_0000 * pow2(g as nat),
        g > 0 ==> 2 * n >= 0x20_0000_0000_0000 * pow2(g as nat),
        e > 0 ==> n >= 0x10_0000_0000_0000,
    ensures
        rounded(n * pow2(e as nat), 1, 53) == m * pow2((g + e) as nat),
{
    lemma2_to64();
    lemma2_to64_rest();
    let (u, w) = (pow2(e as nat) as int, pow2(g as nat) as int);
    lemma_pow2_pos(e as nat);
    lemma_pow2_pos(g as nat);
    lemma_pow2_adds(g as nat, e as nat);
    assert(0 <= n * u && n * u < 0x20_0000_0000_0000 * (w * u)) by (nonlinear_arith)
        requires
            0 <= n < 0x20_0000_0000_0000 * w,
            u > 0,
    ;
    if g + e > 0 {
        if g == 0 {
            assert(w == 1);
        }
        assert(n * u >= 0x10_0000_0000_0000 * (w * u)) by (nonlinear_arith)
            requires
                n >= 0x10_0000_0000_0000 * w,
                u > 0,
        ;
    }
    lemma_beyond_is(n * u, 53, g + e);
    assert((n * u) / 1 == n * u);
    lemma_half_even_scaled(n, w, u);
    assert(1 * (w * u) == w * u);
}

/// A half does not change a number whose last bit is worth two or more.
proof fn lemma_half_lost(m: int, e: int)
    requires
        0x10_0000_0000_0000 <= m <= 0x20_0000_0000_0000,
        1075 <= e,
    ensures
        rounded(m * pow2(e as nat) + pow2(1073), 1, 53) == m * pow2(e as nat),
    decreases m,
{
    lemma2_to64();
    lemma2_to64_rest();
    if m == 0x20_0000_0000_0000 {
        lemma_pow2_unfold((e + 1) as nat);
        let w = pow2(e as nat) as int;
        assert(0x20_0000_0000_0000 * w == 0x10_0000_0000_0000 * (2 * w)) by (nonlinear_arith);
        lemma_half_lost(0x10_0000_0000_0000, e + 1);
    } else {
        let (u, half) = (pow2(e as nat) as int, pow2(1073) as int);
        lemma_pow2_pos(1073);
        lemma_pow2_adds(1073, (e - 1073) as nat);
        let k = pow2((e - 1073) as nat) as int;
        lemma_pow2_adds(2, (e - 1075) as nat);
        lemma_pow2_pos((e - 1075) as nat);
        assert(u >= 4 * half) by (nonlinear_arith)
            requires
                u == half * k,
                k >= 4,
                half > 0,
        ;
        let n = m * u + half;
        assert(0x10_0000_0000_0000 * u <= n && n < 0x20_0000_0000_0000 * u) by (nonlinear_arith)
            requires
                n == m * u + half,
                0 < half < u,
                0x10_0000_0000_0000 <= m,
                m + 1 <= 0x20_0000_0000_0000,
        ;
        lemma_beyond_is(n, 53, e);
        assert(n / 1 == n);
        assert(1 * u == u);
        vstd::arithmetic::div_mod::lemma_fundamental_div_mod_converse(n, u, m, half);
    }
}

/// A half and a speck are below one.
proof fn lemma_speck(m: int, e: int)
    requires
        0 <= m <= 0x20_0000_0000_0000,
        0 <= e < 1004,
    ensures
        0 <= rounded(m * pow2(e as nat) + pow2(1073), 1, 53) < pow2(1074),
{
    lemma2_to64();
    lemma2_to64_rest();
    let (u, half) = (pow2(e as nat) as int, pow2(1073) as int);
    lemma_pow2_pos(e as nat);
    lemma_pow2_pos(1073);
    lemma_pow2_adds(e as nat, (1073 - e) as nat);
    lemma_pow2_adds(69, (1073 - e - 69) as nat);
    lemma_pow2_adds(60, 9);
    lemma_pow2_pos((1073 - e - 69) as nat);
    let k = pow2((1073 - e) as nat) as int;
    lemma_pow2_unfold(1074);
    let n = m * u + half;
    assert(0 <= m * u <= 0x20_0000_0000_0000 * u) by (nonlinear_arith)
        requires
            0 <= m <= 0x20_0000_0000_0000,
            u > 0,
    ;
    // Twice the sum is below three halves.
    assert(k >= 0x20_0000_0000_0000_0000) by (nonlinear_arith)
        requires
            k == 0x20_0000_0000_0000_0000 * pow2((1073 - e - 69) as nat),
            pow2((1073 - e - 69) as nat) >= 1,
    ;
    assert(2 * (m * u) <= half) by (nonlinear_arith)
        requires
            m * u <= 0x20_0000_0000_0000 * u,
            half == u * k,
            k >= 0x20_0000_0000_0000_0000,
            u > 0,
    ;
    lemma_pow2_adds(53, 1021);
    assert(n < pow2(53) * pow2(1021));
    lemma_beyond_bound(n, 53, 1021);
    let s = beyond(n, 53);
    let w = pow2(s as nat) as int;
    lemma_pow2_pos(s as nat);
    lemma_pow2_adds(s as nat, (1072 - s) as nat);
    lemma_pow2_unfold(1073);
    let v = pow2((1072 - s) as nat) as int;
    // Three halves of a half is a multiple of every unit up to there.
    assert((3 * v) * w * 1 == 3 * (w * v) && 0 * w * 1 == 0) by (nonlinear_arith);
    assert(n / 1 == n);
    lemma_half_even_between(n, 1, w, 0, 3 * v);
    assert((3 * v) * w == 3 * (w * v) && 0 * w == 0) by (nonlinear_arith);
    assert(1 * w == w);
}

/// Dividing by a power of two, in steps.
fn halved(n: u128, k: u32) -> (r: u128)
    requires
        k <= 100,
    ensures
        r == n as int / pow2(k as nat) as int,
{
    let mut r: u128 = n;
    let mut i: u32 = 0;
    proof {
        lemma2_to64();
        assert(n as int / 1 == n);
    }
    while i < k
        invariant
            i <= k <= 100,
            r == n as int / pow2(i as nat) as int,
        decreases k - i,
    {
        proof {
            lemma_pow2_unfold((i + 1) as nat);
            lemma_pow2_pos(i as nat);
            vstd::arithmetic::div_mod::lemma_div_denominator(n as int, pow2(i as nat) as int, 2);
            assert(pow2(i as nat) * 2 == pow2((i + 1) as nat));
        }
        r /= 2;
        i += 1;
    }
    r
}

/// Multiplying by a power of two, in steps.
fn doubled(n: u128, k: u32) -> (r: u128)
    requires
        n <= 0x40_0000_0000_0000,
        k <= 70,
    ensures
        r == n * pow2(k as nat),
        r <= 0x1000_0000_0000_0000_0000_0000_0000_0000,
{
    let mut r: u128 = n;
    let mut i: u32 = 0;
    proof {
        lemma2_to64();
        lemma2_to64_rest();
        assert(n * 1 == n);
        lemma_pow2_adds(60, 10);
    }
    while i < k
        invariant
            i <= k <= 70,
            n <= 0x40_0000_0000_0000,
            r == n * pow2(i as nat),
            pow2(70) == 0x40_0000_0000_0000_0000,
        decreases k - i,
    {
        proof {
            lemma_pow2_unfold((i + 1) as nat);
            let w = pow2(i as nat) as int;
            assert(n * (2 * w) == 2 * (n * w)) by (nonlinear_arith);
            vstd::arithmetic::power2::lemma_pow2_strictly_increases(i as nat, 70);
            assert(n * w <= 0x40_0000_0000_0000 * 0x40_0000_0000_0000_0000) by (nonlinear_arith)
                requires
                    n <= 0x40_0000_0000_0000,
                    0 <= w <= 0x40_0000_0000_0000_0000,
            ;
        }
        r *= 2;
        i += 1;
    }
    proof {
        if k < 70 {
            vstd::arithmetic::power2::lemma_pow2_strictly_increases(k as nat, 70);
        }
        let w = pow2(k as nat) as int;
        assert(n * w <= 0x40_0000_0000_0000 * 0x40_0000_0000_0000_0000) by (nonlinear_arith)
            requires
                n <= 0x40_0000_0000_0000,
                0 <= w <= 0x40_0000_0000_0000_0000,
        ;
    }
    r
}

/// The part of `m * 2^e` above the point, `1074` bits from the right.
proof fn lemma_floor(m: int, g: int, e: int)
    requires
        0 <= m,
        0 <= g,
        0 <= e <= 1074,
    ensures
        (m * pow2((g + e) as nat)) / pow2(1074) as int == (m * pow2(g as nat)) / pow2(
            (1074 - e) as nat,
        ) as int,
{
    lemma_pow2_adds(g as nat, e as nat);
    lemma_pow2_adds(e as nat, (1074 - e) as nat);
    lemma_pow2_pos(e as nat);
    lemma_pow2_pos((1074 - e) as nat);
    let (a, u, d) = (
        pow2(g as nat) as int,
        pow2(e as nat) as int,
        pow2((1074 - e) as nat) as int,
    );
    assert(m * (a * u) == u * (m * a)) by (nonlinear_arith);
    assert(0 <= m * a) by (nonlinear_arith)
        requires
            0 <= m,
            0 <= a,
    ;
    vstd::arithmetic::div_mod::lemma_div_multiples_vanish_quotient(u, m * a, d);
}

/// `m * 2^e + 1/2`, rounded, without its fraction.
fn half_up(m: u128, e: u32) -> (r: u64)
    requires
        m <= 0x20_0000_0000_0000,
        e <= 3000,
        e > 0 ==> m >= 0x10_0000_0000_0000,
    ensures
        ({
            let q = rounded(m * pow2(e as nat) + pow2(1073), 1, 53) / pow2(1074) as int;
            r == if q <= u64::MAX {
                q
            } else {
                u64::MAX as int
            }
        }),
{
    proof {
        lemma2_to64();
        lemma2_to64_rest();
    }
    if e >= 1075 {
        let k: u32 = if e - 1074 < 12 {
            e - 1074
        } else {
            12
        };
        let v: u128 = doubled(m, k);
        proof {
            lemma_half_lost(m as int, e as int);
            lemma_pow2_adds(1074, (e - 1074) as nat);
            lemma_pow2_pos(1074);
            let (a, b) = (pow2(1074) as int, pow2((e - 1074) as nat) as int);
            assert(m * (a * b) == (m * b) * a) by (nonlinear_arith);
            assert(0 <= m * b) by (nonlinear_arith)
                requires
                    0 <= m,
                    0 <= b,
            ;
            vstd::arithmetic::div_mod::lemma_div_by_multiple(m * b, a);
            if e - 1074 >= 12 {
                if e - 1074 > 12 {
                    vstd::arithmetic::power2::lemma_pow2_strictly_increases(
                        12,
                        (e - 1074) as nat,
                    );
                }
                assert(m * b >= 0x10_0000_0000_0000 * 4096) by (nonlinear_arith)
                    requires
                        m >= 0x10_0000_0000_0000,
                        b >= 4096,
                ;
                assert(v >= 0x10_0000_0000_0000 * 4096) by (nonlinear_arith)
                    requires
                        v == m * 4096,
                        m >= 0x10_0000_0000_0000,
                ;
            }
        }
        return if v <= 0xFFFF_FFFF_FFFF_FFFF {
            v as u64
        } else {
            u64::MAX
        };
    }
    if e < 1004 {
        proof {
            lemma_speck(m as int, e as int);
            let q = rounded(m * pow2(e as nat) + pow2(1073), 1, 53);
            vstd::arithmetic::div_mod::lemma_fundamental_div_mod_converse(
                q,
                pow2(1074) as int,
                0,
                q,
            );
        }
        return 0;
    }
    // The sum in units of 2^-1074 times 2^at.
    let j: u32 = 1074 - e;
    let (n, at): (u128, u32) = if j == 0 {
        (2 * m + 1, 1073)
    } else {
        (m + doubled(1, j - 1), e)
    };
    proof {
        let sum = m * pow2(e as nat) + pow2(1073);
        if j == 0 {
            lemma_pow2_unfold(1074);
            let half = pow2(1073) as int;
            assert(sum == n * half) by (nonlinear_arith)
                requires
                    sum == m * (2 * half) + half,
                    n == 2 * m + 1,
            ;
        } else {
            lemma_pow2_adds(e as nat, (j - 1) as nat);
            let (u, d) = (pow2(e as nat) as int, pow2((j - 1) as nat) as int);
            assert(1 * d == d);
            assert(sum == n * u) by (nonlinear_arith)
                requires
                    sum == m * u + u * d,
                    n == m + d,
            ;
        }
        assert(sum == n * pow2(at as nat));
        lemma_pow2_adds(60, 10);
        if 0 < j {
            vstd::arithmetic::power2::lemma_pow2_strictly_increases((j - 1) as nat, 70);
        }
    }
    let (h, g): (u128, u32) = shifted_down(n, 0x20_0000_0000_0000, Ghost(53));
    proof {
        lemma_rounded_up(n as int, at as int, h as int, g as int);
        lemma_floor(h as int, g as int, at as int);
        lemma_pow2_pos(g as nat);
        // The sum has at most 72 bits.
        let w = pow2(g as nat) as int;
        if g > 24 {
            vstd::arithmetic::power2::lemma_pow2_strictly_increases(24, g as nat);
            assert(0x20_0000_0000_0000 * w > 0x20_0000_0000_0000 * 0x100_0000) by (nonlinear_arith)
                requires
                    w > 0x100_0000,
            ;
            assert(false);
        }
    }
    let v: u128 = halved(doubled(h, g), 1074 - at);
    if v <= 0xFFFF_FFFF_FFFF_FFFF {
        v as u64
    } else {
        u64::MAX
    }
}

/// `|v| * scale`, rounded to the nearest integer, halves up.
pub fn to_units(b: u64, scale: u64) -> (r: u64)
    requires
        1 <= scale <= 10000000000000000000,
    ensures
        r == units(b, scale as int),
{
    let x: u64 = b % SIGN;
    if x > INF {
        return 0;
    }
    if x == INF {
        return u64::MAX;
    }
    let m: u64 = if x < STEP {
        x
    } else {
        STEP + x % STEP
    };
    let e: u32 = if x < STEP {
        0
    } else {
        (x / STEP - 1) as u32
    };
    proof {
        lemma2_to64();
        lemma2_to64_rest();
        assert(m * scale <= 0x20_0000_0000_0000 * 10000000000000000000) by (nonlinear_arith)
            requires
                0 <= m <= 0x20_0000_0000_0000,
                0 <= scale <= 10000000000000000000,
        ;
    }
    let n: u128 = m as u128 * scale as u128;
    let (h, g): (u128, u32) = shifted_down(n, 0x20_0000_0000_0000, Ghost(53));
    proof {
        if e > 0 {
            assert(n >= 0x10_0000_0000_0000) by (nonlinear_arith)
                requires
                    n == m * scale,
                    m >= 0x10_0000_0000_0000,
                    scale >= 1,
            ;
        }
        lemma_rounded_up(n as int, e as int, h as int, g as int);
        let u = pow2(e as nat) as int;
        assert((m * u) * scale == n * u) by (nonlinear_arith)
            requires
                n == m * scale,
        ;
        if g == 0 {
            assert(h == n) by {
                assert(n as int / 1 == n && n as int % 1 == 0);
            }
        }
    }
    half_up(h, g + e)
}

/// Rounding to 53 bits is off by at most half of the last bit.
proof fn lemma_rounded_error(n: int)
    requires
        0 <= n,
    ensures
        -n <= 0x20_0000_0000_0000 * (rounded(n, 1, 53) - n) <= n,
{
    lemma2_to64();
    lemma2_to64_rest();
    let g = beyond(n, 53);
    assert(n / 1 == n);
    lemma_beyond_range(n);
    let u = pow2(g as nat) as int;
    lemma_pow2_pos(g as nat);
    assert(1 * u == u);
    let (q, r, h) = (n / u, n % u, half_even(n, u));
    vstd::arithmetic::div_mod::lemma_fundamental_div_mod(n, u);
    if g == 0 {
        assert(u == 1);
        assert(n % 1 == 0 && n / 1 == n);
        assert(h * 1 == h);
    } else {
        assert(2 * (h * u - n) <= u && -u <= 2 * (h * u - n)) by (nonlinear_arith)
            requires
                n == u * q + r,
                0 <= r < u,
                h == q && 2 * r <= u || h == q + 1 && 2 * r >= u,
        ;
    }
}

/// A number with bits beyond 53 fills 53.
proof fn lemma_beyond_range(n: int)
    requires
        0 <= n,
    ensures
        0 <= beyond(n, 53),
        beyond(n, 53) > 0 ==> n >= 0x10_0000_0000_0000 * pow2(beyond(n, 53) as nat),
    decreases n,
{
    lemma2_to64();
    lemma2_to64_rest();
    if n >= 0x20_0000_0000_0000 {
        lemma_beyond_range(n / 2);
        lemma_pow2_unfold(beyond(n, 53) as nat);
        lemma_pow2_unfold(1);
    }
}

/// Units are the magnitude in units, to the nearest number, but for what rounding twice to
/// double precision makes of it, one part in 2^50: at most half a unit more, and half a unit
/// less. A NaN has none, and there are at most `u64::MAX`.
pub proof fn lemma_units_near(b: u64, scale: int)
    requires
        0 <= scale,
        units(b, scale) < u64::MAX,
    ensures
        ({
            let x = b as int % 0x8000_0000_0000_0000;
            let (n, s) = (magnitude(x) * scale, pow2(1074) as int);
            let off = units(b, scale) * s - n;
            &&& x > INF ==> units(b, scale) == 0
            &&& x < INF ==> 0x4_0000_0000_0000 * (2 * off - s) <= n + s
            &&& x < INF ==> -(n + s) <= 0x4_0000_0000_0000 * (2 * off + s)
        }),
{
    let x = b as int % 0x8000_0000_0000_0000;
    if x < INF {
        let n = magnitude(x) * scale;
        assert(0 <= n) by (nonlinear_arith)
            requires
                n == significand(x) * pow2(shift(x) as nat) * scale,
                0 <= significand(x),
                0 <= scale,
        ;
        let (s, half) = (pow2(1074) as int, pow2(1073) as int);
        lemma_pow2_unfold(1074);
        lemma_pow2_pos(1073);
        let r = rounded(n, 1, 53);
        lemma_rounded_nonnegative(n);
        lemma_rounded_error(n);
        lemma_rounded_error(r + half);
        let p = rounded(r + half, 1, 53);
        vstd::arithmetic::div_mod::lemma_fundamental_div_mod(p, s);
        let u = p / s;
        assert(u * s == s * u) by (nonlinear_arith);
        assert(units(b, scale) == u);
    }
}

} // verus!
