//! Quotients of small integers.

use super::{
    excess, lemma_excess, lemma_excess_is, lemma_nearest_value, lemma_scaled,
    magnitude, nearest, one, INF, STEP,
};
use super::pack::{lemma_nearest_scaled, nearest_of};
use super::single::{from_count, lemma_nearest_range, lemma_whole_exact, over};
use super::rounding::{
    beyond, divided, half_even, lemma_beyond_bound, lemma_beyond_is, lemma_half_even,
    lemma_half_even_between, lemma_half_even_range, lemma_half_even_scaled, rounded, shifted_down,
};
use vstd::arithmetic::power2::{lemma_pow2_adds, lemma_pow2_pos, lemma_pow2_unfold, pow2};
use vstd::prelude::*;

verus! {

/// Scales `n / d` up by a power of two until it has `p` bits; returns the scaled numerator,
/// the power and its exponent.
fn scaled_up(n: u128, d: u128, p: u32) -> (r: (u128, u128, u32))
    requires
        1 <= n < 0x10_0000,
        1 <= d <= 0x1_0000,
        21 <= p <= 53,
        n < d * 0x10_0000,
    ensures
        r.0 == n * pow2(r.2 as nat),
        r.1 == pow2(r.2 as nat),
        r.1 <= 0x40_0000_0000_0000_0000,
        r.2 <= 70,
        pow2((p - 1) as nat) * d <= r.0,
        r.0 < pow2(p as nat) * d,
{
    let mut x: u128 = n;
    let mut w: u128 = 1;
    let mut f: u32 = 0;
    let mut top: u128 = 1;
    let mut i: u32 = 1;
    proof {
        vstd::arithmetic::power2::lemma2_to64();
        vstd::arithmetic::power2::lemma2_to64_rest();
    }
    while i < p
        invariant
            1 <= i <= p <= 53,
            top == pow2((i - 1) as nat),
            top <= 0x10_0000_0000_0000,
            pow2(52) == 0x10_0000_0000_0000,
        decreases p - i,
    {
        proof {
            lemma_pow2_unfold(i as nat);
            if i < 52 {
                vstd::arithmetic::power2::lemma_pow2_strictly_increases(i as nat, 52);
            }
        }
        top *= 2;
        i += 1;
    }
    assert(top * d <= 0x10_0000_0000_0000 * 0x1_0000 && top * d >= 1) by (nonlinear_arith)
        requires
            1 <= top <= 0x10_0000_0000_0000,
            1 <= d <= 0x1_0000,
    ;
    let least: u128 = top * d;
    proof {
        if p > 21 {
            vstd::arithmetic::power2::lemma_pow2_strictly_increases(20, (p - 1) as nat);
        }
        lemma_pow2_unfold(p as nat);
        assert(pow2(20) == 0x10_0000);
        assert(n < 2 * least) by (nonlinear_arith)
            requires
                n < d * 0x10_0000,
                least == top * d,
                top >= 0x10_0000,
        ;
        assert(n * 1 == n);
        assert(pow2(69) == 0x20_0000_0000_0000_0000) by {
            lemma_pow2_adds(60, 9);
        }
    }
    while x < least
        invariant
            1 <= n,
            x == n * pow2(f as nat),
            w == pow2(f as nat),
            w <= 0x40_0000_0000_0000_0000,
            f <= 69 ==> w <= 0x20_0000_0000_0000_0000,
            x < 2 * least,
            least <= 0x10_0000_0000_0000 * 0x1_0000,
            f <= 70,
            pow2(69) == 0x20_0000_0000_0000_0000,
        decreases 70 - f,
    {
        proof {
            lemma_pow2_unfold((f + 1) as nat);
            assert(n * (2 * w) == 2 * (n * w)) by (nonlinear_arith);
            if f >= 69 {
                if f == 70 {
                    lemma_pow2_unfold(70);
                }
                assert(n * w >= w) by (nonlinear_arith)
                    requires
                        n >= 1,
                        w >= 0,
                ;
                assert(false);
            }
            if f < 68 {
                vstd::arithmetic::power2::lemma_pow2_strictly_increases((f + 1) as nat, 69);
            }
        }
        x *= 2;
        w *= 2;
        f += 1;
    }
    assert(pow2(p as nat) * d == 2 * least) by (nonlinear_arith)
        requires
            pow2(p as nat) == 2 * top,
            least == top * d,
    ;
    (x, w, f)
}

/// `base + n / d`, computed in double precision and converted to single precision: every
/// step is correctly rounded.
pub open spec fn offset_quotient(base: int, n: int, d: int) -> int {
    nearest(rounded(base * one() + rounded(n * one(), d, 53), 1, 53))
}

/// Zero stays zero.
proof fn lemma_rounded_zero(d: int, p: nat)
    requires
        0 < d,
    ensures
        rounded(0 * one(), d, p) == 0,
        nearest(0) == 0,
{
    vstd::arithmetic::power2::lemma2_to64();
    assert(0 * one() == 0) by (nonlinear_arith);
    assert(0int / d == 0 && 0int % d == 0) by (nonlinear_arith)
        requires
            d > 0,
    ;
    let u = pow2(beyond(0int / d, p) as nat) as int;
    assert(beyond(0, p) == 0);
    assert(u == 1);
    assert(d * u == d);
    assert(half_even(0, d) == 0);
    assert(rounded(0, d, p) == half_even(0, d * u) * u);
    assert(0int % 1 == 0);
}

/// Rounding a number that was scaled up by a power of two.
proof fn lemma_rounded_scaled(n: int, d: int, f: int, p: nat)
    requires
        0 < d,
        0 <= f <= 149,
        0 < p,
        0 <= n,
        n * pow2(f as nat) < pow2(p) * d,
        f < 149 ==> pow2((p - 1) as nat) * d <= n * pow2(f as nat),
    ensures
        rounded(n * one(), d, p) == half_even(n * pow2(f as nat), d) * pow2((149 - f) as nat),
{
    let e = 149 - f;
    let (u, w) = (pow2(e as nat) as int, pow2(f as nat) as int);
    lemma_pow2_pos(e as nat);
    lemma_pow2_pos(f as nat);
    lemma_pow2_pos(p);
    lemma_pow2_adds(f as nat, e as nat);
    let x = n * w;
    assert(n * one() == x * u) by (nonlinear_arith)
        requires
            x == n * w,
            one() == w * u,
    ;
    let (lo, hi) = (pow2((p - 1) as nat) as int, pow2(p) as int);
    let q = (x * u) / d;
    assert(0 <= x * u) by (nonlinear_arith)
        requires
            0 <= n,
            x == n * w,
            0 < w,
            0 < u,
    ;
    vstd::arithmetic::div_mod::lemma_fundamental_div_mod(x * u, d);
    let r = (x * u) % d;
    assert(q < hi * u) by (nonlinear_arith)
        requires
            x * u == d * q + r,
            0 <= r < d,
            x < hi * d,
            0 < u,
            0 < d,
    ;
    assert(0 <= q) by (nonlinear_arith)
        requires
            x * u == d * q + r,
            r < d,
            0 <= x * u,
            0 < d,
    ;
    if e > 0 {
        assert(q >= lo * u) by (nonlinear_arith)
            requires
                x * u == d * q + r,
                0 <= r < d,
                lo * d <= x,
                0 < u,
                0 < d,
        ;
    }
    lemma_beyond_is(q, p, e);
    lemma_half_even_scaled(x, d, u);
}

/// `n / d` in single precision, correctly rounded.
pub fn divide(n: u32, d: u32) -> (r: u32)
    requires
        n <= 255,
        1 <= d <= 255,
    ensures
        r == nearest_of(n * one(), d as int),
{
    proof {
        lemma_whole_exact(n as int);
        lemma_whole_exact(d as int);
        lemma_pow2_pos(149);
        lemma_nearest_scaled(n * one(), d as int, one());
        lemma_nearest_range(n * one(), d as int);
    }
    over(from_count(n as usize), from_count(d as usize))
}

/// `n * 2^e` in double precision, converted to single precision.
fn to_single(n: u128, e: u32) -> (r: u32)
    requires
        0x10_0000_0000_0000 <= n < 0x10_0000_0000_0000_0000_0000,
        e <= 149,
    ensures
        r == nearest(rounded(n * pow2(e as nat), 1, 53)),
{
    proof {
        vstd::arithmetic::power2::lemma2_to64();
        vstd::arithmetic::power2::lemma2_to64_rest();
    }
    let (m, g): (u128, u32) = shifted_down(n, 0x20_0000_0000_0000, Ghost(53));
    proof {
        let (u, w) = (pow2(e as nat) as int, pow2(g as nat) as int);
        lemma_pow2_pos(e as nat);
        lemma_pow2_pos(g as nat);
        lemma_pow2_adds(g as nat, e as nat);
        if g == 0 {
            assert(w == 1);
        }
        assert(0 <= n * u && n * u < 0x20_0000_0000_0000 * (w * u) && n * u >= 0x10_0000_0000_0000
            * (w * u)) by (nonlinear_arith)
            requires
                n < 0x20_0000_0000_0000 * w,
                n >= 0x10_0000_0000_0000 * w,
                u > 0,
        ;
        lemma_beyond_is(n * u, 53, g + e);
        assert((n * u) / 1 == n * u);
        lemma_half_even_scaled(n as int, w, u);
        assert(1 * (w * u) == w * u);
        assert(rounded(n * u, 1, 53) == m * pow2((g + e) as nat));
    }
    let (h, l): (u128, u32) = shifted_down(m, 0x100_0000, Ghost(24));
    proof {
        lemma_pow2_pos(l as nat);
        lemma_excess_is(m as int, l as int);
        lemma_scaled(m as int, g + e);
    }
    let y: u32 = (l + g + e) * STEP + h as u32;
    if y < INF {
        y
    } else {
        INF
    }
}

/// `base + n / d`, computed in double precision and converted to single precision.
pub fn add_ratio(base: u32, n: u32, d: u32) -> (r: u32)
    requires
        base <= 255,
        1 <= d <= 4096,
        n <= 255 * d,
        n < 0x10_0000,
    ensures
        r == offset_quotient(base as int, n as int, d as int),
{
    proof {
        vstd::arithmetic::power2::lemma2_to64();
        vstd::arithmetic::power2::lemma2_to64_rest();
    }
    if n == 0 {
        proof {
            lemma_rounded_zero(d as int, 53);
        }
        if base == 0 {
            proof {
                lemma_rounded_zero(1, 53);
            }
            return 0;
        }
        let (x, w, f): (u128, u128, u32) = scaled_up(base as u128, 1, 53);
        proof {
            lemma_pow2_adds(f as nat, (149 - f) as nat);
            let u = pow2((149 - f) as nat) as int;
            assert(x * u == base * one()) by (nonlinear_arith)
                requires
                    x == base * w,
                    one() == w * u,
            ;
        }
        return to_single(x, 149 - f);
    }
    // The quotient is m / 2^f in double precision.
    let (x, w, f): (u128, u128, u32) = scaled_up(n as u128, d as u128, 53);
    proof {
        lemma_half_even_range(x as int, d as int, 0x10_0000_0000_0000, 0x20_0000_0000_0000);
        lemma_rounded_scaled(n as int, d as int, f as int, 53);
    }
    let m: u128 = divided(x, d as u128);
    proof {
        assert(base * w <= 255 * 0x40_0000_0000_0000_0000) by (nonlinear_arith)
            requires
                base <= 255,
                w <= 0x40_0000_0000_0000_0000,
        ;
        lemma_pow2_adds(f as nat, (149 - f) as nat);
        let u = pow2((149 - f) as nat) as int;
        assert((base * w + m) * u == base * one() + m * u) by (nonlinear_arith)
            requires
                one() == w * u,
        ;
    }
    to_single(base as u128 * w + m, 149 - f)
}

/// Rounding a number between two small whole numbers leaves it between them.
proof fn lemma_rounded_between(n: int, d: int, p: nat, lo: int, hi: int)
    requires
        0 < d,
        24 <= p,
        lo <= hi <= 256,
        lo * one() * d <= n <= hi * one() * d,
    ensures
        lo * one() <= rounded(n, d, p) <= hi * one(),
{
    vstd::arithmetic::power2::lemma2_to64();
    let q = n / d;
    vstd::arithmetic::div_mod::lemma_fundamental_div_mod(n, d);
    lemma_pow2_pos(149);
    if p > 24 {
        vstd::arithmetic::power2::lemma_pow2_strictly_increases(24, p);
    }
    assert(q < pow2(p) * one()) by (nonlinear_arith)
        requires
            n == d * q + n % d,
            0 <= n % d,
            n <= hi * one() * d,
            hi <= 256,
            0 < one(),
            0 < d,
            pow2(p) >= 0x100_0000,
    ;
    lemma_beyond_bound(q, p, 149);
    let s = beyond(q, p);
    lemma_pow2_adds(s as nat, (149 - s) as nat);
    let (u, v) = (pow2(s as nat) as int, pow2((149 - s) as nat) as int);
    lemma_pow2_pos(s as nat);
    assert(lo * one() == lo * v * u && hi * one() == hi * v * u) by (nonlinear_arith)
        requires
            one() == u * v,
    ;
    lemma_half_even_between(n, d, u, lo * v, hi * v);
}

/// So does rounding to single precision.
proof fn lemma_nearest_between(n: int, lo: int, hi: int)
    requires
        0 <= lo <= hi <= 256,
        lo * one() <= n <= hi * one(),
    ensures
        0 <= nearest(n) < INF,
        lo * one() <= magnitude(nearest(n)) <= hi * one(),
{
    vstd::arithmetic::power2::lemma2_to64();
    lemma_pow2_pos(149);
    assert(0 <= lo * one() && hi * one() <= 256 * one()) by (nonlinear_arith)
        requires
            0 <= lo,
            hi <= 256,
            0 < one(),
    ;
    let s = excess(n);
    lemma_excess(n);
    if s > 149 {
        vstd::arithmetic::power2::lemma_pow2_strictly_increases(149, s as nat);
        assert(false);
    }
    lemma_pow2_adds(s as nat, (149 - s) as nat);
    let (u, v) = (pow2(s as nat) as int, pow2((149 - s) as nat) as int);
    lemma_pow2_pos(s as nat);
    assert(lo * one() == lo * v * u && hi * one() == hi * v * u) by (nonlinear_arith)
        requires
            one() == u * v,
    ;
    assert(lo * v * u * 1 == lo * v * u && hi * v * u * 1 == hi * v * u);
    assert(1 * u == u);
    lemma_half_even_between(n, 1, u, lo * v, hi * v);
    lemma_half_even(n, u, 0);
    assert(n / u < 0x100_0000) by (nonlinear_arith)
        requires
            0 <= n < 0x100_0000 * u,
            u > 0,
    ;
    lemma_nearest_value(n);
}

/// `base + n / d` lies between `base + lo` and `base + hi` when `n / d` is from `lo` to `hi`.
pub proof fn lemma_offset_quotient_between(base: int, n: int, d: int, lo: int, hi: int)
    requires
        0 <= base,
        0 <= lo <= hi,
        base + hi <= 256,
        0 < d,
        lo * d <= n <= hi * d,
    ensures
        0 <= offset_quotient(base, n, d) < INF,
        (base + lo) * one() <= magnitude(offset_quotient(base, n, d)) <= (base + hi) * one(),
{
    lemma_pow2_pos(149);
    assert(lo * one() * d <= n * one() && n * one() <= hi * one() * d) by (nonlinear_arith)
        requires
            lo * d <= n <= hi * d,
            0 < one(),
    ;
    lemma_rounded_between(n * one(), d, 53, lo, hi);
    let r = rounded(n * one(), d, 53);
    assert((base + lo) * one() * 1 <= base * one() + r && base * one() + r <= (base + hi) * one()
        * 1) by (nonlinear_arith)
        requires
            lo * one() <= r <= hi * one(),
    ;
    lemma_rounded_between(base * one() + r, 1, 53, base + lo, base + hi);
    lemma_nearest_between(rounded(base * one() + r, 1, 53), base + lo, base + hi);
}

/// The step that single-precision numbers from 128 to 256 have: 2^-16.
pub open spec fn fine() -> int {
    pow2(133) as int
}

/// Rounding a number below 256 leaves it between two neighbouring multiples of the step.
proof fn lemma_rounded_fine(n: int, d: int, p: nat, lo: int, hi: int)
    requires
        0 < d,
        24 <= p,
        0 <= lo <= hi < 0x100_0000,
        lo * fine() * d <= n <= hi * fine() * d,
    ensures
        lo * fine() <= rounded(n, d, p) <= hi * fine(),
{
    vstd::arithmetic::power2::lemma2_to64();
    let q = n / d;
    vstd::arithmetic::div_mod::lemma_fundamental_div_mod(n, d);
    lemma_pow2_pos(133);
    if p > 24 {
        vstd::arithmetic::power2::lemma_pow2_strictly_increases(24, p);
    }
    assert(q < pow2(p) * fine()) by (nonlinear_arith)
        requires
            n == d * q + n % d,
            0 <= n % d,
            n <= hi * fine() * d,
            hi < 0x100_0000,
            0 < fine(),
            0 < d,
            pow2(p) >= 0x100_0000,
    ;
    lemma_beyond_bound(q, p, 133);
    let s = beyond(q, p);
    lemma_pow2_adds(s as nat, (133 - s) as nat);
    let (u, v) = (pow2(s as nat) as int, pow2((133 - s) as nat) as int);
    lemma_pow2_pos(s as nat);
    assert(lo * fine() == lo * v * u && hi * fine() == hi * v * u) by (nonlinear_arith)
        requires
            fine() == u * v,
    ;
    lemma_half_even_between(n, d, u, lo * v, hi * v);
}

/// So does rounding to single precision.
proof fn lemma_nearest_fine(n: int, lo: int, hi: int)
    requires
        0 <= lo <= hi < 0x100_0000,
        lo * fine() <= n <= hi * fine(),
        nearest(n) < INF,
    ensures
        lo * fine() <= magnitude(nearest(n)) <= hi * fine(),
{
    vstd::arithmetic::power2::lemma2_to64();
    lemma_pow2_pos(133);
    assert(0 <= lo * fine() && hi * fine() < 0x100_0000 * fine()) by (nonlinear_arith)
        requires
            0 <= lo,
            hi < 0x100_0000,
            0 < fine(),
    ;
    let s = excess(n);
    lemma_excess(n);
    if s > 133 {
        lemma_pow2_unfold(134);
        if s > 134 {
            vstd::arithmetic::power2::lemma_pow2_strictly_increases(134, s as nat);
        }
        assert(false);
    }
    lemma_pow2_adds(s as nat, (133 - s) as nat);
    let (u, v) = (pow2(s as nat) as int, pow2((133 - s) as nat) as int);
    lemma_pow2_pos(s as nat);
    assert(lo * fine() == lo * v * u && hi * fine() == hi * v * u) by (nonlinear_arith)
        requires
            fine() == u * v,
    ;
    assert(lo * v * u * 1 == lo * v * u && hi * v * u * 1 == hi * v * u);
    assert(1 * u == u);
    lemma_half_even_between(n, 1, u, lo * v, hi * v);
    lemma_nearest_value(n);
}

/// `base + n / d` is off by at most 2^-16, for numbers up to 255.
pub proof fn lemma_offset_quotient_near(base: int, n: int, d: int)
    requires
        0 <= base,
        0 <= n,
        0 < d,
        base * d + n <= 255 * d,
    ensures
        ({
            let m = magnitude(offset_quotient(base, n, d));
            -(fine() * d) <= m * d - (base * d + n) * one() <= fine() * d
        }),
{
    let u = fine();
    lemma_pow2_pos(133);
    lemma_pow2_adds(16, 133);
    vstd::arithmetic::power2::lemma2_to64();
    assert(one() == 65536 * u);
    let l = (n * 65536) / d;
    vstd::arithmetic::div_mod::lemma_fundamental_div_mod(n * 65536, d);
    let h = l + 1;
    assert(l * d <= n * 65536 && n * 65536 <= h * d && 0 <= l) by (nonlinear_arith)
        requires
            n * 65536 == d * l + (n * 65536) % d,
            0 <= (n * 65536) % d < d,
            h == l + 1,
            0 <= n,
            0 < d,
    ;
    let b = base * 65536;
    assert(b + h < 0x100_0000) by (nonlinear_arith)
        requires
            l * d <= n * 65536,
            h == l + 1,
            base * d + n <= 255 * d,
            b == base * 65536,
            0 < d,
    ;
    assert(l * u * d <= n * one() && n * one() <= h * u * d) by (nonlinear_arith)
        requires
            l * d <= n * 65536,
            n * 65536 <= h * d,
            one() == 65536 * u,
            0 < u,
    ;
    lemma_rounded_fine(n * one(), d, 53, l, h);
    let r = rounded(n * one(), d, 53);
    assert((b + l) * u * 1 <= base * one() + r && base * one() + r <= (b + h) * u * 1)
        by (nonlinear_arith)
        requires
            l * u <= r <= h * u,
            b == base * 65536,
            one() == 65536 * u,
    ;
    lemma_rounded_fine(base * one() + r, 1, 53, b + l, b + h);
    let t = rounded(base * one() + r, 1, 53);
    assert(0 * d <= n && n <= (255 - base) * d && 0 <= 255 - base) by (nonlinear_arith)
        requires
            0 <= n,
            base * d + n <= 255 * d,
            0 < d,
    ;
    lemma_offset_quotient_between(base, n, d, 0, 255 - base);
    lemma_nearest_fine(t, b + l, b + h);
    let m = magnitude(offset_quotient(base, n, d));
    assert(-(u * d) <= m * d - (base * d + n) * one() && m * d - (base * d + n) * one() <= u * d)
        by (nonlinear_arith)
        requires
            (b + l) * u <= m <= (b + h) * u,
            l * d <= n * 65536,
            n * 65536 <= h * d,
            h == l + 1,
            b == base * 65536,
            one() == 65536 * u,
            0 < d,
            0 < u,
    ;
}

/// Half of a small number is exact.
pub proof fn lemma_half_of(n: int)
    requires
        0 <= n < 512,
    ensures
        2 * magnitude(offset_quotient(0, n, 2)) == n * one(),
{
    let u = fine();
    lemma_pow2_pos(133);
    lemma_pow2_adds(16, 133);
    vstd::arithmetic::power2::lemma2_to64();
    assert(one() == 65536 * u);
    let l = n * 32768;
    assert(l * u * 2 == n * one()) by (nonlinear_arith)
        requires
            l == n * 32768,
            one() == 65536 * u,
    ;
    lemma_rounded_fine(n * one(), 2, 53, l, l);
    let r = rounded(n * one(), 2, 53);
    assert(0 * one() + r == l * u * 1);
    lemma_rounded_fine(0 * one() + r, 1, 53, l, l);
    lemma_offset_quotient_between(0, n, 2, 0, 256);
    lemma_nearest_fine(rounded(0 * one() + r, 1, 53), l, l);
}

} // verus!
