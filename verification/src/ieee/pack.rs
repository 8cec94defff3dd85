//! From exact quotients to the nearest number.

use super::rounding::{
    divided, half_even, lemma_half_even, lemma_half_even_range, lemma_half_even_scaled,
    shifted_down,
};
use super::{
    excess, lemma_excess, lemma_excess_is, lemma_scaled, magnitude, nearest, shift, significand,
    INF, STEP,
};
use vstd::arithmetic::div_mod::{
    lemma_fundamental_div_mod, lemma_fundamental_div_mod_converse,
};
use vstd::arithmetic::power2::{
    lemma2_to64, lemma2_to64_rest, lemma_pow2_adds, lemma_pow2_pos, lemma_pow2_strictly_increases,
    lemma_pow2_unfold, pow2,
};
use vstd::prelude::*;

verus! {

/// The unsigned pattern nearest to `n / d`, ties to even; infinity if it is too large.
pub open spec fn nearest_of(n: int, d: int) -> int {
    let s = excess(n / d);
    let x = s * STEP + half_even(n, d * pow2(s as nat));
    if x < INF {
        x
    } else {
        INF as int
    }
}

/// A whole number is a quotient by one.
pub proof fn lemma_nearest_whole(n: int)
    ensures
        nearest_of(n, 1) == nearest(n),
{
    let p = pow2(excess(n) as nat) as int;
    assert(n / 1 == n);
    assert(1 * p == p);
}

/// A common factor does not change what is nearest.
pub proof fn lemma_nearest_scaled(n: int, d: int, u: int)
    requires
        0 < d,
        0 < u,
    ensures
        nearest_of(n * u, d * u) == nearest_of(n, d),
{
    let (q, r) = (n / d, n % d);
    lemma_fundamental_div_mod(n, d);
    assert(n * u == q * (d * u) + r * u && 0 <= r * u && r * u < d * u) by (nonlinear_arith)
        requires
            n == d * q + r,
            0 <= r < d,
            0 < u,
    ;
    lemma_fundamental_div_mod_converse(n * u, d * u, q, r * u);
    let p = pow2(excess(q) as nat) as int;
    lemma_pow2_pos(excess(q) as nat);
    assert((d * u) * p == (d * p) * u && d * p > 0) by (nonlinear_arith)
        requires
            0 < d,
            0 < p,
    ;
    lemma_half_even_scaled(n, d * p, u);
}

/// The bits of a quotient beyond the 24 of a significand bound the quotient.
pub proof fn lemma_quotient_range(n: int, d: int)
    requires
        0 <= n,
        0 < d,
    ensures
        ({
            let p = pow2(excess(n / d) as nat) as int;
            &&& p > 0
            &&& excess(n / d) >= 0
            &&& n < 0x100_0000 * (d * p)
            &&& excess(n / d) > 0 ==> n >= 0x80_0000 * (d * p)
            &&& excess(n / d) == 0 ==> p == 1
            &&& 0 <= half_even(n, d * p) <= 0x100_0000
            &&& excess(n / d) > 0 ==> half_even(n, d * p) >= 0x80_0000
        }),
{
    let q = n / d;
    lemma_fundamental_div_mod(n, d);
    assert(q >= 0) by (nonlinear_arith)
        requires
            n == d * q + n % d,
            n % d < d,
            0 <= n,
            0 < d,
    ;
    lemma_excess(q);
    let s = excess(q);
    let p = pow2(s as nat) as int;
    lemma_pow2_pos(s as nat);
    if s == 0 {
        lemma2_to64();
    }
    assert(n < 0x100_0000 * (d * p) && d * p > 0) by (nonlinear_arith)
        requires
            n == d * q + n % d,
            n % d < d,
            q + 1 <= 0x100_0000 * p,
            0 < d,
            0 < p,
    ;
    if s > 0 {
        assert(n >= 0x80_0000 * (d * p)) by (nonlinear_arith)
            requires
                n == d * q + n % d,
                0 <= n % d,
                q >= 0x80_0000 * p,
                0 < d,
        ;
        lemma_half_even_range(n, d * p, 0x80_0000, 0x100_0000);
    } else {
        assert(0 * (d * p) <= n);
        lemma_half_even_range(n, d * p, 0, 0x100_0000);
    }
}

/// The magnitude that rounding yields: the nearest multiple of the last significant bit.
pub proof fn lemma_nearest_of_value(n: int, d: int)
    requires
        0 <= n,
        0 < d,
        nearest_of(n, d) < INF,
    ensures
        ({
            let p = pow2(excess(n / d) as nat) as int;
            magnitude(nearest_of(n, d)) == half_even(n, d * p) * p
        }),
        0 <= nearest_of(n, d),
{
    let s = excess(n / d);
    let p = pow2(s as nat) as int;
    let h = half_even(n, d * p);
    lemma_quotient_range(n, d);
    let x = s * STEP + h;
    if h == 0x100_0000 {
        assert(significand(x) == STEP && shift(x) == s + 1);
        lemma_pow2_unfold((s + 1) as nat);
        assert(STEP * (2 * p) == h * p) by (nonlinear_arith)
            requires
                h == 0x100_0000,
                STEP == 0x80_0000,
        ;
    } else {
        assert(significand(x) == h && shift(x) == s);
    }
}

/// Rounding picks a nearest finite number: none is nearer to `n / d` than `nearest_of(n, d)`.
pub proof fn lemma_nearest_of(n: int, d: int, y: int)
    requires
        0 <= n,
        0 < d,
        nearest_of(n, d) < INF,
        0 <= y < INF,
    ensures
        vstd::math::abs(magnitude(nearest_of(n, d)) * d - n) <= vstd::math::abs(
            magnitude(y) * d - n,
        ),
{
    let s = excess(n / d);
    let p = pow2(s as nat) as int;
    let h = half_even(n, d * p);
    lemma_nearest_of_value(n, d);
    lemma_quotient_range(n, d);
    assert(d * p > 0 && (h * p) * d == h * (d * p)) by (nonlinear_arith)
        requires
            0 < d,
            0 < p,
    ;
    let (m, t) = (significand(y), shift(y));
    lemma_pow2_pos(t as nat);
    let a = pow2(t as nat) as int;
    if t >= s {
        lemma_pow2_adds(s as nat, (t - s) as nat);
        let u = pow2((t - s) as nat) as int;
        assert((m * (p * u)) * d == (m * u) * (d * p)) by (nonlinear_arith);
        lemma_half_even(n, d * p, m * u);
    } else {
        lemma_pow2_adds(t as nat, (s - t - 1) as nat);
        lemma_pow2_unfold(s as nat);
        lemma_pow2_pos((s - t - 1) as nat);
        let u = pow2((s - t - 1) as nat) as int;
        assert((m * a) * d <= 0x80_0000 * (d * p)) by (nonlinear_arith)
            requires
                p == 2 * (a * u),
                u >= 1,
                a >= 1,
                0 <= m < 0x100_0000,
                0 < d,
        ;
        lemma_half_even(n, d * p, 0x80_0000);
    }
}

/// What exponents are counted from by `pack`.
pub const BIAS: u32 = 200;

/// The unsigned pattern nearest to `m * 2^e / 2^BIAS`.
pub fn pack(m: u128, e: u32) -> (r: u32)
    requires
        0 < m < 0x10_0000_0000_0000_0000_0000_0000,
        e <= 1000,
    ensures
        r == nearest_of(m * pow2(e as nat), pow2(200) as int),
{
    let ghost n = m * pow2(e as nat);
    let ghost all = pow2(200) as int;
    proof {
        lemma2_to64();
        lemma2_to64_rest();
        lemma_pow2_pos(200);
    }
    let y: u64 = if e >= BIAS {
        pack_up(m, e - BIAS)
    } else {
        pack_down(m, BIAS - e)
    };
    proof {
        if e >= BIAS {
            let f = e - 200;
            lemma_pow2_adds(200, f as nat);
            let u = pow2(f as nat) as int;
            assert(n == (m * u) * all && 1 * all == all) by (nonlinear_arith)
                requires
                    n == m * (all * u),
            ;
            lemma_nearest_scaled(m * u, 1, all);
            lemma_nearest_whole(m * u);
        } else {
            let k = 200 - e;
            lemma_pow2_adds(k as nat, e as nat);
            lemma_pow2_pos(k as nat);
            lemma_pow2_pos(e as nat);
            lemma_nearest_scaled(m as int, pow2(k as nat) as int, pow2(e as nat) as int);
        }
    }
    if y < INF as u64 {
        y as u32
    } else {
        INF
    }
}

/// The pattern nearest to `m * 2^f`, not yet limited.
fn pack_up(m: u128, f: u32) -> (y: u64)
    requires
        0 < m < 0x10_0000_0000_0000_0000_0000_0000,
        f <= 1000,
    ensures
        nearest(m * pow2(f as nat)) == if y < INF {
            y as int
        } else {
            INF as int
        },
{
    let ghost n = m * pow2(f as nat);
    let mut x: u128 = m;
    let mut t: u32 = f;
    proof {
        lemma2_to64();
        lemma2_to64_rest();
    }
    while x < 0x80_0000 && t > 0
        invariant
            0 < x < 0x10_0000_0000_0000_0000_0000_0000,
            t <= 1000,
            n == x * pow2(t as nat),
        decreases t,
    {
        proof {
            lemma_pow2_unfold(t as nat);
            let w = pow2((t - 1) as nat) as int;
            assert(x * (2 * w) == (2 * x) * w) by (nonlinear_arith);
        }
        x *= 2;
        t -= 1;
    }
    let (h, g): (u128, u32) = shifted_down(x, 0x100_0000, Ghost(24));
    proof {
        lemma_excess_is(x as int, g as int);
        lemma_scaled(x as int, t as int);
    }
    (g + t) as u64 * STEP as u64 + h as u64
}

/// The pattern nearest to `m / 2^k`, not yet limited.
fn pack_down(m: u128, k: u32) -> (y: u64)
    requires
        0 < m < 0x10_0000_0000_0000_0000_0000_0000,
        1 <= k <= 200,
    ensures
        nearest_of(m as int, pow2(k as nat) as int) == if y < INF {
            y as int
        } else {
            INF as int
        },
{
    proof {
        lemma2_to64();
        lemma2_to64_rest();
        lemma_pow2_adds(50, 50);
        lemma_pow2_pos(k as nat);
    }
    if k > 101 {
        proof {
            let d = pow2(k as nat) as int;
            lemma_pow2_unfold(101);
            lemma_pow2_strictly_increases(101, k as nat);
            assert(m as int / d == 0 && m as int % d == m) by {
                lemma_fundamental_div_mod_converse(m as int, d, 0, m as int);
            }
            assert(d * 1 == d);
        }
        return 0;
    }
    let mut d: u128 = 1;
    let mut i: u32 = 0;
    proof {
        lemma_pow2_unfold(101);
    }
    while i < k
        invariant
            i <= k <= 101,
            d == pow2(i as nat),
            d <= 0x20_0000_0000_0000_0000_0000_0000,
            pow2(101) == 0x20_0000_0000_0000_0000_0000_0000,
        decreases k - i,
    {
        proof {
            lemma_pow2_unfold((i + 1) as nat);
            if i + 1 < 101 {
                lemma_pow2_strictly_increases((i + 1) as nat, 101);
            }
        }
        d *= 2;
        i += 1;
    }
    let q: u128 = m / d;
    proof {
        lemma_fundamental_div_mod(m as int, d as int);
        assert(0 <= q <= m) by (nonlinear_arith)
            requires
                m == d * q + m as int % d as int,
                0 <= m as int % d as int,
                d >= 1,
        ;
    }
    let (_, s): (u128, u32) = shifted_down(q, 0x100_0000, Ghost(24));
    let ghost (whole, p) = (d as int, pow2(s as nat) as int);
    proof {
        lemma_pow2_pos(s as nat);
        lemma_excess_is(q as int, s as int);
        lemma_quotient_range(m as int, whole);
        if s > 0 {
            assert(whole * p <= m);
        }
    }
    let mut u: u128 = d;
    let mut j: u32 = 0;
    while j < s
        invariant
            j <= s,
            p == pow2(s as nat),
            0 < whole,
            s > 0 ==> whole * p <= m,
            m < 0x10_0000_0000_0000_0000_0000_0000,
            u == whole * pow2(j as nat),
            u <= 0x20_0000_0000_0000_0000_0000_0000,
        decreases s - j,
    {
        proof {
            lemma_pow2_unfold((j + 1) as nat);
            if j + 1 < s {
                lemma_pow2_strictly_increases((j + 1) as nat, s as nat);
            }
            let (a, b) = (pow2(j as nat) as int, pow2((j + 1) as nat) as int);
            assert(whole * b == 2 * (whole * a) && whole * b <= whole * p) by (nonlinear_arith)
                requires
                    b == 2 * a,
                    b <= p,
                    0 < whole,
            ;
        }
        u *= 2;
        j += 1;
    }
    proof {
        lemma_fundamental_div_mod(m as int, u as int);
        lemma_half_even(m as int, u as int, 0);
        assert(m as int / u as int <= m) by (nonlinear_arith)
            requires
                m == u * (m as int / u as int) + m as int % u as int,
                0 <= m as int % u as int,
                u >= 1,
                m >= 0,
        ;
    }
    let h: u128 = divided(m, u);
    s as u64 * STEP as u64 + h as u64
}

/// Rounding half to even sees no more of a remainder than whether there is one, as long as
/// the quotient keeps a bit to spare.
proof fn lemma_half_even_sticky(n: int, d: int, q: int, r: int, u: int, m: int)
    requires
        0 < d,
        n == d * q + r,
        0 <= r < d,
        0 <= q,
        2 <= u,
        u % 2 == 0,
        m == 2 * q + if r > 0 {
            1int
        } else {
            0
        },
    ensures
        half_even(n, d * u) == half_even(m, 2 * u),
{
    let (k, x) = (q / u, q % u);
    lemma_fundamental_div_mod(q, u);
    let y = d * x + r;
    assert(n == k * (d * u) + y && 0 <= y && y < d * u) by (nonlinear_arith)
        requires
            n == d * q + r,
            q == u * k + x,
            0 <= x <= u - 1,
            0 <= r < d,
            y == d * x + r,
            0 < d,
    ;
    lemma_fundamental_div_mod_converse(n, d * u, k, y);
    let z = m - 2 * q + 2 * x;
    assert(m == k * (2 * u) + z) by (nonlinear_arith)
        requires
            q == u * k + x,
            z == m - 2 * q + 2 * x,
    ;
    lemma_fundamental_div_mod_converse(m, 2 * u, k, z);
    let half = u / 2;
    assert(u == 2 * half);
    if x < half {
        assert(2 * y < d * u) by (nonlinear_arith)
            requires
                y == d * x + r,
                r < d,
                x + 1 <= half,
                u == 2 * half,
                0 < d,
        ;
    } else if x == half {
        assert(2 * y == d * u + 2 * r) by (nonlinear_arith)
            requires
                y == d * x + r,
                x == half,
                u == 2 * half,
        ;
    } else {
        assert(2 * y > d * u) by (nonlinear_arith)
            requires
                y == d * x + r,
                0 <= r,
                x >= half + 1,
                u == 2 * half,
                0 < d,
        ;
    }
}

/// The nearest number to a quotient is found from 26 bits of it, and from whether there is a
/// remainder.
pub proof fn lemma_nearest_sticky(n: int, d: int, q: int, r: int, m: int, e: int)
    requires
        0 < d,
        n == d * q + r,
        0 <= r < d,
        0x200_0000 <= q,
        m == 2 * q + if r > 0 {
            1int
        } else {
            0
        },
        0 <= e,
    ensures
        nearest_of(n * pow2(e as nat), d * pow2(199)) == nearest_of(
            m * pow2(e as nat),
            pow2(200) as int,
        ),
{
    let (w, low, all) = (pow2(e as nat) as int, pow2(199) as int, pow2(200) as int);
    lemma_pow2_pos(e as nat);
    lemma_pow2_pos(199);
    lemma_pow2_unfold(200);
    let (x, y) = (n * w, m * w);
    assert(0 <= x && 0 <= y && 0 < d * low && n >= 0x200_0000 * d) by (nonlinear_arith)
        requires
            n == d * q + r,
            0 <= r,
            0x200_0000 <= q,
            m >= q,
            0 < d,
            0 < w,
            0 < low,
            x == n * w,
            y == m * w,
    ;
    let s = excess(x / (d * low));
    let p = pow2(s as nat) as int;
    lemma_quotient_range(x, d * low);
    lemma_pow2_adds(199, s as nat);
    if e >= 199 + s {
        lemma_pow2_adds((199 + s) as nat, (e - 199 - s) as nat);
        lemma_pow2_pos((e - 199 - s) as nat);
        let v = pow2((e - 199 - s) as nat) as int;
        assert(false) by (nonlinear_arith)
            requires
                x == n * w,
                w == (low * p) * v,
                v >= 1,
                n >= 0x200_0000 * d,
                x < 0x100_0000 * ((d * low) * p),
                0 < d,
                0 < low,
                0 < p,
        ;
    }
    let k = 199 + s - e;
    lemma_pow2_adds(k as nat, e as nat);
    lemma_pow2_unfold(k as nat);
    lemma_pow2_pos((k - 1) as nat);
    let u = pow2(k as nat) as int;
    assert((d * low) * p == (d * u) * w && all * p == (2 * u) * w) by (nonlinear_arith)
        requires
            low * p == u * w,
            all == 2 * low,
    ;
    assert(q < 0x100_0000 * u) by (nonlinear_arith)
        requires
            x == n * w,
            x < 0x100_0000 * ((d * u) * w),
            n == d * q + r,
            0 <= r,
            0 < d,
            0 < w,
    ;
    assert(y < 0x100_0000 * ((2 * u) * w)) by (nonlinear_arith)
        requires
            y == m * w,
            m <= 2 * q + 1,
            q + 1 <= 0x100_0000 * u,
            0 < w,
    ;
    if s > 0 {
        assert(q >= 0x80_0000 * u) by (nonlinear_arith)
            requires
                x == n * w,
                x >= 0x80_0000 * ((d * u) * w),
                n == d * q + r,
                r < d,
                0 < d,
                0 < w,
        ;
        assert(y >= 0x80_0000 * ((2 * u) * w)) by (nonlinear_arith)
            requires
                y == m * w,
                m >= 2 * q,
                q >= 0x80_0000 * u,
                0 < w,
        ;
    }
    lemma_fundamental_div_mod(y, all);
    let (f, g) = (y / all, y % all);
    assert(0 <= f < 0x100_0000 * p && (s > 0 ==> f >= 0x80_0000 * p)) by (nonlinear_arith)
        requires
            y == all * f + g,
            0 <= g < all,
            0 <= y < 0x100_0000 * (all * p),
            s > 0 ==> y >= 0x80_0000 * (all * p),
    ;
    lemma_excess_is(f, s);
    assert(d * u > 0) by (nonlinear_arith)
        requires
            0 < d,
            0 < u,
    ;
    lemma_half_even_scaled(n, d * u, w);
    lemma_half_even_scaled(m, 2 * u, w);
    lemma_half_even_sticky(n, d, q, r, u, m);
}

/// A number stays the nearest one when something much smaller is added or taken away.
pub proof fn lemma_nearest_far(x: int, n: int)
    requires
        0 <= x < INF,
        shift(x) > 60,
        -pow2((shift(x) - 36) as nat) < n - magnitude(x) < pow2((shift(x) - 36) as nat),
    ensures
        nearest(n) == x,
        n > 0,
{
    let (m, s) = (significand(x), shift(x));
    let (p, tiny) = (pow2(s as nat) as int, pow2((s - 36) as nat) as int);
    lemma_pow2_pos((s - 36) as nat);
    lemma2_to64();
    lemma2_to64_rest();
    lemma_pow2_adds((s - 36) as nat, 36);
    lemma_pow2_unfold(s as nat);
    let half = pow2((s - 1) as nat) as int;
    assert(p == 0x10_0000_0000 * tiny);
    assert(x == s * STEP + m);
    assert(0x80_0000 * p <= m * p <= 0x100_0000 * p - p) by (nonlinear_arith)
        requires
            0x80_0000 <= m <= 0x100_0000 - 1,
            p > 0,
    ;
    let r = n - m * p;
    if r >= 0 {
        lemma_excess_is(n, s);
        lemma_fundamental_div_mod_converse(n, p, m, r);
    } else if m > 0x80_0000 {
        assert(m * p >= 0x80_0000 * p + p) by (nonlinear_arith)
            requires
                m >= 0x80_0000 + 1,
                p > 0,
        ;
        lemma_excess_is(n, s);
        assert(n == (m - 1) * p + (p + r)) by (nonlinear_arith)
            requires
                r == n - m * p,
        ;
        lemma_fundamental_div_mod_converse(n, p, m - 1, p + r);
    } else {
        lemma_excess_is(n, s - 1);
        assert(n == (0x100_0000 - 1) * half + (half + r)) by (nonlinear_arith)
            requires
                r == n - m * p,
                m == 0x80_0000,
                p == 2 * half,
        ;
        lemma_fundamental_div_mod_converse(n, half, 0x100_0000 - 1, half + r);
    }
}

} // verus!
