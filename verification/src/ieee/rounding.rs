//! Rounding to the nearest, ties to even.

use vstd::arithmetic::power2::{lemma_pow2_adds, lemma_pow2_pos, lemma_pow2_unfold, pow2};
use vstd::bits::lemma_u128_shr_is_div;
use vstd::prelude::*;

verus! {

/// `n / d` rounded to the nearest integer, ties to even.
pub open spec fn half_even(n: int, d: int) -> int {
    let (q, r) = (n / d, n % d);
    if 2 * r > d || 2 * r == d && q % 2 == 1 {
        q + 1
    } else {
        q
    }
}

/// No multiple of `d` is nearer to `n` than the one `half_even` picks.
pub proof fn lemma_half_even(n: int, d: int, k: int)
    requires
        0 < d,
    ensures
        vstd::math::abs(half_even(n, d) * d - n) <= vstd::math::abs(k * d - n),
        n / d <= half_even(n, d) <= n / d + 1,
        half_even(n, d) > n / d ==> n % d > 0,
{
    let (q, r, h) = (n / d, n % d, half_even(n, d));
    vstd::arithmetic::div_mod::lemma_fundamental_div_mod(n, d);
    assert(n == q * d + r) by (nonlinear_arith)
        requires
            n == d * q + r,
    ;
    if k <= q {
        assert(k * d <= q * d) by (nonlinear_arith)
            requires
                k <= q,
                0 < d,
        ;
    } else {
        assert(k * d >= q * d + d) by (nonlinear_arith)
            requires
                k >= q + 1,
                0 < d,
        ;
    }
    assert((q + 1) * d == q * d + d) by (nonlinear_arith);
}

/// How many bits a number has beyond `p`.
pub open spec fn beyond(n: int, p: nat) -> int
    decreases n,
{
    if n < pow2(p) || n <= 0 {
        0
    } else {
        1 + beyond(n / 2, p)
    }
}

/// `n / d` rounded to `p` significant bits, ties to even.
pub open spec fn rounded(n: int, d: int, p: nat) -> int {
    let u = pow2(beyond(n / d, p) as nat) as int;
    half_even(n, d * u) * u
}

/// The number of bits beyond `p` is determined by the range of the number.
pub proof fn lemma_beyond_is(n: int, p: nat, s: int)
    requires
        0 <= s,
        0 < p,
        s > 0 ==> n >= pow2((p - 1) as nat) * pow2(s as nat),
        0 <= n < pow2(p) * pow2(s as nat),
    ensures
        beyond(n, p) == s,
    decreases s,
{
    lemma_pow2_pos(p);
    lemma_pow2_pos((p - 1) as nat);
    lemma_pow2_pos(s as nat);
    if s == 0 {
        vstd::arithmetic::power2::lemma2_to64();
        assert(pow2(p) * 1 == pow2(p));
    } else {
        lemma_pow2_unfold(s as nat);
        lemma_pow2_unfold(p);
        lemma_pow2_pos((s - 1) as nat);
        let (a, b) = (pow2((p - 1) as nat) as int, pow2((s - 1) as nat) as int);
        assert(n >= 2 * a && n / 2 >= a * b && n / 2 < (2 * a) * b && n > 0) by (nonlinear_arith)
            requires
                n >= a * (2 * b),
                n < (2 * a) * (2 * b),
                a >= 1,
                b >= 1,
        ;
        lemma_beyond_is(n / 2, p, s - 1);
    }
}

/// A common factor does not change what is nearest.
pub proof fn lemma_half_even_scaled(n: int, d: int, u: int)
    requires
        0 < d,
        0 < u,
    ensures
        half_even(n * u, d * u) == half_even(n, d),
{
    let (q, r) = (n / d, n % d);
    vstd::arithmetic::div_mod::lemma_fundamental_div_mod(n, d);
    assert(n * u == q * (d * u) + r * u) by (nonlinear_arith)
        requires
            n == d * q + r,
    ;
    assert(0 <= r * u && r * u < d * u) by (nonlinear_arith)
        requires
            0 <= r < d,
            0 < u,
    ;
    vstd::arithmetic::div_mod::lemma_fundamental_div_mod_converse(n * u, d * u, q, r * u);
    assert((2 * (r * u) > d * u <==> 2 * r > d) && (2 * (r * u) == d * u <==> 2 * r == d))
        by (nonlinear_arith)
        requires
            u > 0,
    ;
}

/// Rounding is odd: it treats both signs alike.
pub proof fn lemma_half_even_odd(n: int, d: int)
    requires
        0 < d,
    ensures
        half_even(-n, d) == -half_even(n, d),
{
    let (q, r) = (n / d, n % d);
    vstd::arithmetic::div_mod::lemma_fundamental_div_mod(n, d);
    if r == 0 {
        assert(-n == (-q) * d + 0) by (nonlinear_arith)
            requires
                n == d * q + 0,
        ;
        vstd::arithmetic::div_mod::lemma_fundamental_div_mod_converse(-n, d, -q, 0);
    } else {
        assert(-n == (-q - 1) * d + (d - r)) by (nonlinear_arith)
            requires
                n == d * q + r,
        ;
        vstd::arithmetic::div_mod::lemma_fundamental_div_mod_converse(-n, d, -q - 1, d - r);
    }
}

/// Rounding to the bit of a quotient stays within its power of two.
pub proof fn lemma_half_even_range(n: int, d: int, lo: int, hi: int)
    requires
        0 < d,
        lo * d <= n < hi * d,
    ensures
        lo <= half_even(n, d) <= hi,
        lo <= n / d < hi,
{
    vstd::arithmetic::div_mod::lemma_fundamental_div_mod(n, d);
    let (q, r) = (n / d, n % d);
    assert(lo <= q < hi) by (nonlinear_arith)
        requires
            n == d * q + r,
            0 <= r < d,
            lo * d <= n < hi * d,
    ;
}

/// A larger number has at least as many bits to spare.
pub proof fn lemma_beyond_bound(n: int, p: nat, t: int)
    requires
        0 <= t,
        n < pow2(p) * pow2(t as nat),
    ensures
        0 <= beyond(n, p) <= t,
    decreases t,
{
    vstd::arithmetic::power2::lemma2_to64();
    if t == 0 {
        assert(pow2(p) * 1 == pow2(p));
    } else {
        lemma_pow2_unfold(t as nat);
        let (a, b) = (pow2(p) as int, pow2((t - 1) as nat) as int);
        assert(n / 2 < a * b) by (nonlinear_arith)
            requires
                n < a * (2 * b),
        ;
        lemma_beyond_bound(n / 2, p, t - 1);
    }
}

/// Rounding `n / d` to multiples of `u` keeps it between multiples of `u`.
pub proof fn lemma_half_even_between(n: int, d: int, u: int, lo: int, hi: int)
    requires
        0 < d,
        0 < u,
        lo * u * d <= n <= hi * u * d,
    ensures
        lo * u <= half_even(n, d * u) * u <= hi * u,
{
    let e = d * u;
    assert(0 < e && lo * e <= n <= hi * e) by (nonlinear_arith)
        requires
            e == d * u,
            0 < d,
            0 < u,
            lo * u * d <= n <= hi * u * d,
    ;
    let h = half_even(n, e);
    if n == hi * e {
        vstd::arithmetic::div_mod::lemma_fundamental_div_mod_converse(n, e, hi, 0);
        assert(lo <= hi) by (nonlinear_arith)
            requires
                lo * e <= hi * e,
                0 < e,
        ;
    } else {
        lemma_half_even_range(n, e, lo, hi);
    }
    assert(lo * u <= h * u <= hi * u) by (nonlinear_arith)
        requires
            lo <= h <= hi,
            0 < u,
    ;
}

/// `n / d` rounded to the nearest integer, ties to even.
pub fn divided(n: u128, d: u128) -> (h: u128)
    requires
        0 < d <= u128::MAX / 4,
        n / d < u128::MAX,
    ensures
        h == half_even(n as int, d as int),
{
    let (q, r): (u128, u128) = (n / d, n % d);
    if 2 * r > d || 2 * r == d && q % 2 == 1 {
        q + 1
    } else {
        q
    }
}

/// Shifts a number below 2^120 down to `p` bits, rounding; returns it and the shift.
pub fn shifted_down(n: u128, limit: u128, Ghost(p): Ghost<nat>) -> (r: (u128, u32))
    requires
        n < 0x100_0000_0000_0000_0000_0000_0000_0000,
        limit == pow2(p),
        0x100_0000 <= limit <= 0x20_0000_0000_0000,
        1 <= p,
    ensures
        r.1 == beyond(n as int, p),
        r.0 == half_even(n as int, pow2(r.1 as nat) as int),
        r.0 <= limit,
        r.1 > 0 ==> 2 * r.0 >= limit,
        r.1 <= 96,
        n < limit * pow2(r.1 as nat),
        r.1 > 0 ==> 2 * n >= limit * pow2(r.1 as nat),
{
    let mut d: u128 = 1;
    let mut g: u32 = 0;
    proof {
        vstd::arithmetic::power2::lemma2_to64();
        vstd::arithmetic::power2::lemma2_to64_rest();
        lemma_pow2_adds(48, 48);
        lemma_pow2_unfold(p);
        assert(n / 1 == n);
    }
    let mut more: bool = n >= limit;
    while more
        invariant
            more == (n / d >= limit),
            n < 0x100_0000_0000_0000_0000_0000_0000_0000,
            limit == pow2(p),
            limit == 2 * pow2((p - 1) as nat),
            0x100_0000 <= limit,
            d == pow2(g as nat),
            g <= 96,
            1 <= d <= 0x1_0000_0000_0000_0000_0000_0000,
            pow2(96) == 0x1_0000_0000_0000_0000_0000_0000,
            g > 0 ==> n / d >= pow2((p - 1) as nat),
        decreases 96 - g,
    {
        proof {
            lemma_pow2_unfold((g + 1) as nat);
            let (x, y, half) = (n as int, d as int, pow2((p - 1) as nat) as int);
            vstd::arithmetic::div_mod::lemma_fundamental_div_mod(x, y);
            let q = x / y;
            assert(x >= (2 * half) * y) by (nonlinear_arith)
                requires
                    x == y * q + x % y,
                    0 <= x % y,
                    q >= 2 * half,
                    y > 0,
            ;
            assert(x / (2 * y) >= half) by {
                assert(half * (2 * y) == (2 * half) * y) by (nonlinear_arith);
                vstd::arithmetic::div_mod::lemma_div_is_ordered(half * (2 * y), x, 2 * y);
                vstd::arithmetic::div_mod::lemma_div_by_multiple(half, 2 * y);
            }
            if g >= 96 {
                assert(x >= 0x100_0000 * y) by (nonlinear_arith)
                    requires
                        x >= (2 * half) * y,
                        2 * half >= 0x100_0000,
                        y > 0,
                ;
                assert(false);
            }
            if g < 95 {
                vstd::arithmetic::power2::lemma_pow2_strictly_increases((g + 1) as nat, 96);
            }
        }
        d *= 2;
        g += 1;
        proof {
            lemma_u128_shr_is_div(n, g as u128);
        }
        more = n >> (g as u128) >= limit;
    }
    proof {
        let (x, y, half) = (n as int, d as int, pow2((p - 1) as nat) as int);
        vstd::arithmetic::div_mod::lemma_fundamental_div_mod(x, y);
        let q = x / y;
        assert(x < limit * y && (g > 0 ==> x >= half * y)) by (nonlinear_arith)
            requires
                x == y * q + x % y,
                0 <= x % y < y,
                q < limit,
                g > 0 ==> q >= half,
                y > 0,
        ;
        if g > 0 {
            assert(2 * (half * y) == limit * y) by (nonlinear_arith)
                requires
                    limit == 2 * half,
            ;
        }
        lemma_beyond_is(x, p, g as int);
        lemma_half_even(x, y, 0);
    }
    (divided(n, d), g)
}

} // verus!
