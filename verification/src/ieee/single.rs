//! Single-precision arithmetic: every operation is correctly rounded, and every NaN is the
//! same one.

use super::pack::{
    lemma_nearest_far, lemma_nearest_scaled, lemma_nearest_sticky, lemma_nearest_whole, nearest_of,
    pack,
};
use super::{
    finite, is_nan, magnitude, nearest, negative, one, shift, signed, significand, unsigned, value,
    INF, NAN, SIGN, STEP,
};
use vstd::arithmetic::power2::{
    lemma2_to64, lemma2_to64_rest, lemma_pow2_adds, lemma_pow2_pos, lemma_pow2_strictly_increases,
    pow2,
};
use vstd::prelude::*;

verus! {

/// Positive or negative zero.
pub open spec fn is_zero(b: u32) -> bool {
    unsigned(b) == 0
}

/// The same number with the other sign.
pub open spec fn negated(b: u32) -> u32 {
    signed(!negative(b), unsigned(b))
}

/// The nearest number to a value. Zero gets the given sign.
pub open spec fn rounded_value(v: int, zero: bool) -> u32 {
    if v == 0 {
        signed(zero, 0)
    } else {
        signed(v < 0, nearest(vstd::math::abs(v) as int))
    }
}

/// The sum of two numbers. A sum of zero is positive, unless both numbers are negative.
pub open spec fn sum(a: u32, b: u32) -> u32 {
    if is_nan(a) || is_nan(b) {
        NAN
    } else if !finite(a) {
        if !finite(b) && a != b {
            NAN
        } else {
            a
        }
    } else if !finite(b) {
        b
    } else {
        rounded_value(value(a) + value(b), negative(a) && negative(b))
    }
}

/// The product of two numbers.
pub open spec fn product(a: u32, b: u32) -> u32 {
    let neg = negative(a) != negative(b);
    if is_nan(a) || is_nan(b) || !finite(a) && is_zero(b) || is_zero(a) && !finite(b) {
        NAN
    } else if !finite(a) || !finite(b) {
        signed(neg, INF as int)
    } else {
        signed(neg, nearest_of(magnitude(unsigned(a)) * magnitude(unsigned(b)), one()))
    }
}

/// The quotient of two numbers.
pub open spec fn quotient(a: u32, b: u32) -> u32 {
    let neg = negative(a) != negative(b);
    if is_nan(a) || is_nan(b) || !finite(a) && !finite(b) || is_zero(a) && is_zero(b) {
        NAN
    } else if !finite(a) || is_zero(b) {
        signed(neg, INF as int)
    } else if !finite(b) {
        signed(neg, 0)
    } else {
        signed(neg, nearest_of(magnitude(unsigned(a)) * one(), magnitude(unsigned(b))))
    }
}

/// What numbers are ordered by: zeros are equal, and infinities are at the ends.
pub open spec fn rank(b: u32) -> int {
    if negative(b) {
        -unsigned(b)
    } else {
        unsigned(b)
    }
}

/// The first number is strictly larger. A NaN is neither larger nor smaller than anything.
pub open spec fn above(a: u32, b: u32) -> bool {
    !is_nan(a) && !is_nan(b) && rank(a) > rank(b)
}

/// The larger of two numbers, and the first of equals. A NaN gives way.
pub open spec fn larger(a: u32, b: u32) -> u32 {
    if is_nan(a) || above(b, a) {
        b
    } else {
        a
    }
}

/// The significand of an unsigned pattern, and what it is shifted by.
fn parts(x: u32) -> (r: (u32, u32))
    requires
        x < INF,
    ensures
        r.0 == significand(x as int),
        r.1 == shift(x as int),
        r.0 < 0x100_0000,
        r.1 <= 253,
        r.1 > 0 ==> r.0 >= STEP,
        x > 0 ==> r.0 > 0,
{
    if x < STEP {
        (x, 0)
    } else {
        (STEP + x % STEP, x / STEP - 1)
    }
}

/// A pattern with a sign.
fn with_sign(neg: bool, x: u32) -> (r: u32)
    requires
        x < SIGN,
    ensures
        r == signed(neg, x as int),
{
    if neg {
        SIGN + x
    } else {
        x
    }
}

/// The same number with the other sign.
pub fn negate(b: u32) -> (r: u32)
    ensures
        r == negated(b),
{
    if b >= SIGN {
        b - SIGN
    } else {
        b + SIGN
    }
}

/// Nothing rounds to zero.
pub proof fn lemma_nearest_zero(d: int)
    requires
        0 < d,
    ensures
        nearest_of(0, d) == 0,
{
    lemma2_to64();
    assert(0int / d == 0 && 0int % d == 0) by (nonlinear_arith)
        requires
            0 < d,
    ;
    assert(d * 1 == d);
}

/// The product of two numbers.
pub fn times(a: u32, b: u32) -> (r: u32)
    ensures
        r == product(a, b),
{
    let (x, y): (u32, u32) = (a % SIGN, b % SIGN);
    let neg: bool = (a >= SIGN) != (b >= SIGN);
    if x > INF || y > INF || x == INF && y == 0 || x == 0 && y == INF {
        return NAN;
    }
    if x == INF || y == INF {
        return with_sign(neg, INF);
    }
    let ((m, e), (n, f)): ((u32, u32), (u32, u32)) = (parts(x), parts(y));
    let ghost exact = magnitude(x as int) * magnitude(y as int);
    proof {
        lemma_pow2_pos(149);
        lemma2_to64();
        lemma2_to64_rest();
    }
    if m == 0 || n == 0 {
        proof {
            assert(exact == 0) by (nonlinear_arith)
                requires
                    exact == (m * pow2(e as nat)) * (n * pow2(f as nat)),
                    m == 0 || n == 0,
            ;
            lemma_nearest_zero(one());
        }
        return with_sign(neg, 0);
    }
    assert(0 < m * n < 0x1_0000_0000_0000) by (nonlinear_arith)
        requires
            0 < m < 0x100_0000,
            0 < n < 0x100_0000,
    ;
    let p: u128 = m as u128 * n as u128;
    proof {
        lemma_pow2_adds(e as nat, f as nat);
        lemma_pow2_adds((e + f) as nat, 51);
        lemma_pow2_adds(149, 51);
        lemma_pow2_pos(51);
        let (u, v, w) = (pow2(e as nat) as int, pow2(f as nat) as int, pow2(51) as int);
        assert(exact * w == p * ((u * v) * w)) by (nonlinear_arith)
            requires
                exact == (m * u) * (n * v),
                p == m * n,
        ;
        lemma_nearest_scaled(exact, one(), w);
    }
    with_sign(neg, pack(p, e + f + 51))
}

/// The quotient of two numbers.
pub fn over(a: u32, b: u32) -> (r: u32)
    ensures
        r == quotient(a, b),
{
    let (x, y): (u32, u32) = (a % SIGN, b % SIGN);
    let neg: bool = (a >= SIGN) != (b >= SIGN);
    if x > INF || y > INF || x == INF && y == INF || x == 0 && y == 0 {
        return NAN;
    }
    if x == INF || y == 0 {
        return with_sign(neg, INF);
    }
    if y == INF {
        return with_sign(neg, 0);
    }
    let ((m, e), (n, f)): ((u32, u32), (u32, u32)) = (parts(x), parts(y));
    let ghost (top, bottom) = (magnitude(x as int) * one(), magnitude(y as int));
    proof {
        lemma_pow2_pos(149);
        lemma_pow2_pos(e as nat);
        lemma_pow2_pos(f as nat);
        lemma2_to64();
        lemma2_to64_rest();
        let v = pow2(f as nat) as int;
        assert(n * v > 0) by (nonlinear_arith)
            requires
                n > 0,
                v > 0,
        ;
    }
    if m == 0 {
        proof {
            assert(top == 0) by (nonlinear_arith)
                requires
                    top == (m * pow2(e as nat)) * one(),
                    m == 0,
            ;
            lemma_nearest_zero(bottom);
        }
        return with_sign(neg, 0);
    }
    let d: u128 = n as u128;
    let c: u128 = m as u128 * 0x1000_0000_0000_0000;
    let (q, rest): (u128, u128) = (c / d, c % d);
    let odd: u128 = if rest > 0 {
        1
    } else {
        0
    };
    proof {
        vstd::arithmetic::div_mod::lemma_fundamental_div_mod(c as int, d as int);
        assert(0x200_0000 <= q <= c) by (nonlinear_arith)
            requires
                c == d * q + rest,
                0 <= rest < d,
                1 <= d < 0x100_0000,
                c >= 0x1000_0000_0000_0000,
        ;
        let g = e + 288 - f;
        lemma_nearest_sticky(c as int, d as int, q as int, rest as int, 2 * q + odd, g);
        // Both fractions, brought to the same terms.
        let (u, v, w, k) = (
            pow2(e as nat) as int,
            pow2(f as nat) as int,
            pow2(g as nat) as int,
            pow2(199) as int,
        );
        lemma_pow2_adds(60, g as nat);
        lemma_pow2_pos(g as nat);
        lemma_pow2_pos(199);
        let t = pow2((199 - f) as nat) as int;
        if f <= 199 {
            // top * 2^(199 - f) / (bottom * 2^(199 - f))
            lemma_pow2_adds(f as nat, (199 - f) as nat);
            lemma_pow2_adds(e as nat, 149);
            lemma_pow2_adds((e + 149) as nat, (199 - f) as nat);
            lemma_pow2_pos((199 - f) as nat);
            assert(top * t == c * w && bottom * t == d * k) by (nonlinear_arith)
                requires
                    top == (m * u) * one(),
                    bottom == d * v,
                    c == m * 0x1000_0000_0000_0000,
                    (u * one()) * t == 0x1000_0000_0000_0000 * w,
                    v * t == k,
            ;
            lemma_nearest_scaled(top, bottom, t);
        } else {
            // The other way round.
            let z = pow2((f - 199) as nat) as int;
            lemma_pow2_adds(199, (f - 199) as nat);
            lemma_pow2_adds(e as nat, 149);
            lemma_pow2_adds((g + 60) as nat, (f - 199) as nat);
            lemma_pow2_pos((f - 199) as nat);
            assert(top == (c * w) * z && bottom == (d * k) * z && d * k > 0) by (nonlinear_arith)
                requires
                    top == (m * u) * one(),
                    bottom == d * v,
                    c == m * 0x1000_0000_0000_0000,
                    u * one() == (0x1000_0000_0000_0000 * w) * z,
                    v == k * z,
                    d > 0,
                    k > 0,
            ;
            lemma_nearest_scaled(c * w, d * k, z);
        }
    }
    with_sign(neg, pack(2 * q + odd, e + 288 - f))
}

/// A power of two.
fn power(k: u32) -> (r: u128)
    requires
        k <= 60,
    ensures
        r == pow2(k as nat),
        1 <= r <= 0x1000_0000_0000_0000,
{
    let mut r: u128 = 1;
    let mut i: u32 = 0;
    proof {
        lemma2_to64();
        lemma2_to64_rest();
    }
    while i < k
        invariant
            i <= k <= 60,
            r == pow2(i as nat),
            1 <= r <= 0x1000_0000_0000_0000,
            pow2(60) == 0x1000_0000_0000_0000,
        decreases k - i,
    {
        proof {
            vstd::arithmetic::power2::lemma_pow2_unfold((i + 1) as nat);
            if i + 1 < 60 {
                lemma_pow2_strictly_increases((i + 1) as nat, 60);
            }
        }
        r *= 2;
        i += 1;
    }
    r
}

/// A sum is the larger number itself when the other is much smaller.
proof fn lemma_sum_far(a: u32, b: u32)
    requires
        finite(a),
        finite(b),
        shift(unsigned(a)) > shift(unsigned(b)) + 60,
    ensures
        sum(a, b) == a,
        sum(b, a) == a,
{
    let (x, y) = (unsigned(a), unsigned(b));
    let (n, f, e) = (significand(y), shift(y), shift(x));
    lemma2_to64();
    lemma2_to64_rest();
    lemma_pow2_adds(24, f as nat);
    lemma_pow2_pos(f as nat);
    if f + 24 < e - 36 {
        lemma_pow2_strictly_increases((f + 24) as nat, (e - 36) as nat);
    }
    let w = pow2(f as nat) as int;
    assert(0 <= n * w < 0x100_0000 * w) by (nonlinear_arith)
        requires
            0 <= n < 0x100_0000,
            w > 0,
    ;
    let v = vstd::math::abs(value(a) + value(b)) as int;
    lemma_pow2_pos(e as nat);
    lemma_pow2_pos((e - 36) as nat);
    lemma_pow2_adds((e - 36) as nat, 36);
    let (m, p) = (significand(x), pow2(e as nat) as int);
    assert(m * p >= p) by (nonlinear_arith)
        requires
            m >= 1,
            p > 0,
    ;
    assert(p > pow2((e - 36) as nat)) by (nonlinear_arith)
        requires
            p == pow2((e - 36) as nat) * pow2(36),
            pow2(36) >= 2,
            pow2((e - 36) as nat) >= 1,
    ;
    if negative(a) == negative(b) {
        lemma_nearest_far(x, magnitude(x) + magnitude(y));
        assert(v == magnitude(x) + magnitude(y));
    } else {
        lemma_nearest_far(x, magnitude(x) - magnitude(y));
        assert(v == magnitude(x) - magnitude(y));
    }
}

/// The sum of two numbers.
pub fn plus(a: u32, b: u32) -> (r: u32)
    ensures
        r == sum(a, b),
{
    let (x, y): (u32, u32) = (a % SIGN, b % SIGN);
    let (neg_a, neg_b): (bool, bool) = (a >= SIGN, b >= SIGN);
    if x > INF || y > INF || x == INF && y == INF && a != b {
        return NAN;
    }
    if x == INF {
        return a;
    }
    if y == INF {
        return b;
    }
    let ((m, e), (n, f)): ((u32, u32), (u32, u32)) = (parts(x), parts(y));
    if e > f + 60 {
        proof {
            lemma_sum_far(a, b);
        }
        return a;
    }
    if f > e + 60 {
        proof {
            lemma_sum_far(b, a);
        }
        return b;
    }
    let g: u32 = if e < f {
        e
    } else {
        f
    };
    let (u, v): (u128, u128) = (power(e - g), power(f - g));
    assert(0 <= m * u < 0x10_0000_0000_0000_0000_0000 && 0 <= n * v
        < 0x10_0000_0000_0000_0000_0000) by (nonlinear_arith)
        requires
            0 <= m < 0x100_0000,
            0 <= n < 0x100_0000,
            0 <= u <= 0x1000_0000_0000_0000,
            0 <= v <= 0x1000_0000_0000_0000,
    ;
    let (c, d): (u128, u128) = (m as u128 * u, n as u128 * v);
    let (t, neg): (u128, bool) = if neg_a == neg_b {
        (c + d, neg_a)
    } else if c >= d {
        (c - d, neg_a)
    } else {
        (d - c, neg_b)
    };
    let ghost exact = value(a) + value(b);
    let ghost w = pow2(g as nat) as int;
    proof {
        lemma_pow2_adds((e - g) as nat, g as nat);
        lemma_pow2_adds((f - g) as nat, g as nat);
        lemma_pow2_pos(g as nat);
        assert(magnitude(x as int) == c * w && magnitude(y as int) == d * w) by (nonlinear_arith)
            requires
                magnitude(x as int) == m * (u * w),
                magnitude(y as int) == n * (v * w),
                c == m * u,
                d == n * v,
        ;
        assert(exact == if neg {
            -(t * w)
        } else {
            t * w
        }) by (nonlinear_arith)
            requires
                exact == (if neg_a {
                    -(c * w)
                } else {
                    c * w
                }) + (if neg_b {
                    -(d * w)
                } else {
                    d * w
                }),
                neg_a == neg_b ==> t == c + d && neg == neg_a,
                neg_a != neg_b && c >= d ==> t == c - d && neg == neg_a,
                neg_a != neg_b && c < d ==> t == d - c && neg == neg_b,
        ;
    }
    if t == 0 {
        assert(exact == 0) by (nonlinear_arith)
            requires
                exact == t * w || exact == -(t * w),
                t == 0,
        ;
        return with_sign(neg_a && neg_b, 0);
    }
    proof {
        assert(t * w > 0) by (nonlinear_arith)
            requires
                t > 0,
                w > 0,
        ;
        lemma_pow2_adds(g as nat, 200);
        lemma_pow2_pos(200);
        let all = pow2(200) as int;
        assert(t * (w * all) == (t * w) * all && 1 * all == all) by (nonlinear_arith);
        lemma_nearest_scaled(t * w, 1, all);
        lemma_nearest_whole(t * w);
    }
    with_sign(neg, pack(t, g + 200))
}

/// Whether the first number is strictly larger.
pub fn is_above(a: u32, b: u32) -> (r: bool)
    ensures
        r == above(a, b),
{
    let (x, y): (u32, u32) = (a % SIGN, b % SIGN);
    if x > INF || y > INF {
        false
    } else if b < SIGN {
        a < SIGN && x > y
    } else if a < SIGN {
        x > 0 || y > 0
    } else {
        x < y
    }
}

/// The larger of two numbers, and the first of equals.
pub fn pick_larger(a: u32, b: u32) -> (r: u32)
    ensures
        r == larger(a, b),
{
    if a % SIGN > INF || is_above(b, a) {
        b
    } else {
        a
    }
}

/// A whole number.
pub open spec fn whole(n: int) -> u32 {
    nearest(n * one()) as u32
}

/// Small whole numbers are exact.
pub proof fn lemma_whole_exact(n: int)
    requires
        0 <= n < 2048,
    ensures
        finite(whole(n)),
        !negative(whole(n)),
        is_zero(whole(n)) <==> n == 0,
        magnitude(unsigned(whole(n))) == n * one(),
{
    lemma2_to64();
    lemma_zero_magnitude();
    if n == 0 {
        assert(0 * one() == 0) by (nonlinear_arith);
        lemma_nearest_zero(1);
        lemma_nearest_whole(0);
    } else {
        let (p, k) = super::lemma_normalized(n, 13);
        lemma_pow2_adds(k as nat, (149 - k) as nat);
        let (a, b) = (pow2(k as nat) as int, pow2((149 - k) as nat) as int);
        assert(n * one() == p * b) by (nonlinear_arith)
            requires
                p == n * a,
                one() == a * b,
        ;
        super::lemma_pattern(p, 149 - k);
        let x = (149 - k) * STEP + p;
        assert(significand(x) == p && shift(x) == 149 - k);
    }
}

/// The number nearest to a whole number.
pub fn from_count(n: usize) -> (r: u32)
    ensures
        r == whole(n as int),
{
    proof {
        lemma2_to64();
        lemma_pow2_pos(149);
    }
    if n == 0 {
        proof {
            assert(0 * one() == 0) by (nonlinear_arith);
            lemma_nearest_zero(1);
            lemma_nearest_whole(0);
        }
        return 0;
    }
    proof {
        lemma_pow2_adds(149, 200);
        lemma_pow2_pos(200);
        let (v, all) = (n * one(), pow2(200) as int);
        assert(n * (one() * all) == v * all && 1 * all == all) by (nonlinear_arith)
            requires
                v == n * one(),
        ;
        lemma_nearest_scaled(v, 1, all);
        lemma_nearest_whole(v);
    }
    pack(n as u128, 349)
}

/// Sums and products do not depend on the order of their operands.
pub proof fn lemma_commute(a: u32, b: u32)
    ensures
        sum(a, b) == sum(b, a),
        product(a, b) == product(b, a),
{
    let (x, y) = (magnitude(unsigned(a)), magnitude(unsigned(b)));
    assert(x * y == y * x) by (nonlinear_arith);
}

/// Adding to negative zero changes nothing.
pub proof fn lemma_nothing(b: u32)
    requires
        !is_nan(b),
    ensures
        sum(SIGN, b) == b,
        sum(b, SIGN) == b,
{
    lemma_zero_magnitude();
    if finite(b) {
        super::lemma_nearest_exact(unsigned(b));
        lemma_magnitude_sign(b);
    }
}

/// Patterns are ordered as their magnitudes are.
pub proof fn lemma_magnitude_grows(x: int, y: int)
    requires
        0 <= x < y < INF,
    ensures
        0 <= magnitude(x) < magnitude(y),
{
    let (m, e, n, f) = (significand(x), shift(x), significand(y), shift(y));
    let (u, v) = (pow2(e as nat) as int, pow2(f as nat) as int);
    lemma_pow2_pos(e as nat);
    lemma_pow2_pos(f as nat);
    if e == f {
        assert(m < n);
        assert(0 <= m * u < n * u) by (nonlinear_arith)
            requires
                0 <= m < n,
                u > 0,
        ;
    } else {
        lemma_pow2_adds(e as nat, (f - e) as nat);
        lemma_pow2_pos((f - e - 1) as nat);
        vstd::arithmetic::power2::lemma_pow2_unfold((f - e) as nat);
        let w = pow2((f - e) as nat) as int;
        assert(0 <= m * u < n * v) by (nonlinear_arith)
            requires
                0 <= m < 0x100_0000,
                n >= 0x80_0000,
                v == u * w,
                w >= 2,
                u > 0,
        ;
    }
}

/// Zero has no magnitude.
pub proof fn lemma_zero_magnitude()
    ensures
        magnitude(0) == 0,
{
    let p = pow2(0) as int;
    assert(0 * p == 0) by (nonlinear_arith);
}

/// The order of finite numbers is that of their values.
pub proof fn lemma_order(a: u32, b: u32)
    requires
        finite(a),
        finite(b),
    ensures
        above(a, b) <==> value(a) > value(b),
{
    let (x, y) = (unsigned(a), unsigned(b));
    lemma_zero_magnitude();
    if 0 < x {
        lemma_magnitude_grows(0, x);
    }
    if 0 < y {
        lemma_magnitude_grows(0, y);
    }
    if x < y {
        lemma_magnitude_grows(x, y);
    } else if y < x {
        lemma_magnitude_grows(y, x);
    }
}

/// No finite number is nearer to a value than what it is rounded to.
proof fn lemma_rounded_value(v: int, zero: bool, y: u32)
    requires
        finite(rounded_value(v, zero)),
        finite(y),
    ensures
        vstd::math::abs(value(rounded_value(v, zero)) - v) <= vstd::math::abs(value(y) - v),
{
    lemma_zero_magnitude();
    let n = vstd::math::abs(v) as int;
    lemma_nearest_range(n, 1);
    lemma_nearest_whole(n);
    if v != 0 {
        super::lemma_nearest_value(n);
        super::lemma_nearest(n, unsigned(y));
        super::lemma_nearest(n, 0);
        lemma_magnitude_sign(y);
    }
}

/// A nearest pattern has no sign of its own.
pub proof fn lemma_nearest_range(n: int, d: int)
    requires
        0 <= n,
        0 < d,
    ensures
        0 <= nearest_of(n, d) <= INF,
{
    if nearest_of(n, d) < INF {
        super::pack::lemma_nearest_of_value(n, d);
    }
}

/// A finite sum is a nearest finite number to the exact sum.
pub proof fn lemma_sum_nearest(a: u32, b: u32, y: u32)
    requires
        finite(a),
        finite(b),
        finite(sum(a, b)),
        finite(y),
    ensures
        ({
            let v = value(a) + value(b);
            vstd::math::abs(value(sum(a, b)) - v) <= vstd::math::abs(value(y) - v)
        }),
{
    lemma_rounded_value(value(a) + value(b), negative(a) && negative(b), y);
}

/// A finite product is a nearest finite number to the exact product.
pub proof fn lemma_product_nearest(a: u32, b: u32, y: u32)
    requires
        finite(a),
        finite(b),
        finite(product(a, b)),
        finite(y),
    ensures
        ({
            let v = value(a) * value(b);
            vstd::math::abs(value(product(a, b)) * one() - v) <= vstd::math::abs(
                value(y) * one() - v,
            )
        }),
{
    let (x, z) = (magnitude(unsigned(a)), magnitude(unsigned(b)));
    lemma_magnitude_sign(a);
    lemma_magnitude_sign(b);
    lemma_pow2_pos(149);
    assert(0 <= x * z) by (nonlinear_arith)
        requires
            0 <= x,
            0 <= z,
    ;
    lemma_nearest_range(x * z, one());
    lemma_signed_nearest(x * z, one(), negative(a) != negative(b), y);
    let v = value(a) * value(b);
    assert(v == if negative(a) != negative(b) {
        -(x * z)
    } else {
        x * z
    }) by (nonlinear_arith)
        requires
            v == (if negative(a) {
                -x
            } else {
                x
            }) * (if negative(b) {
                -z
            } else {
                z
            }),
    ;
}

/// A finite quotient is a nearest finite number to the exact quotient.
pub proof fn lemma_quotient_nearest(a: u32, b: u32, y: u32)
    requires
        finite(a),
        finite(b),
        !is_zero(b),
        finite(quotient(a, b)),
        finite(y),
    ensures
        ({
            let v = value(a) * one();
            vstd::math::abs(value(quotient(a, b)) * value(b) - v) <= vstd::math::abs(
                value(y) * value(b) - v,
            )
        }),
{
    let (x, z) = (magnitude(unsigned(a)) * one(), magnitude(unsigned(b)));
    lemma_magnitude_sign(a);
    lemma_magnitude_sign(b);
    lemma_pow2_pos(149);
    assert(0 <= x) by (nonlinear_arith)
        requires
            x == magnitude(unsigned(a)) * one(),
            0 <= magnitude(unsigned(a)),
            0 < one(),
    ;
    let neg = negative(a) != negative(b);
    lemma_nearest_range(x, z);
    lemma_signed_nearest(x, z, neg, y);
    let (r, v) = (value(quotient(a, b)), value(a) * one());
    assert(v == if negative(a) {
        -x
    } else {
        x
    }) by (nonlinear_arith)
        requires
            v == value(a) * one(),
            x == magnitude(unsigned(a)) * one(),
            value(a) == if negative(a) {
                -magnitude(unsigned(a))
            } else {
                magnitude(unsigned(a))
            },
    ;
    let t = value(y);
    if negative(b) {
        assert(r * -z == -(r * z) && t * -z == -(t * z)) by (nonlinear_arith);
    }
}

proof fn lemma_magnitude_sign(b: u32)
    requires
        finite(b),
    ensures
        0 <= magnitude(unsigned(b)),
        !is_zero(b) ==> 0 < magnitude(unsigned(b)),
{
    lemma_zero_magnitude();
    if unsigned(b) > 0 {
        lemma_magnitude_grows(0, unsigned(b));
    }
}

/// The nearest pattern with a sign is nearest to the quotient with that sign.
proof fn lemma_signed_nearest(n: int, d: int, neg: bool, y: u32)
    requires
        0 <= n,
        0 < d,
        nearest_of(n, d) < INF,
        finite(y),
    ensures
        ({
            let v = if neg {
                -n
            } else {
                n
            };
            vstd::math::abs(value(signed(neg, nearest_of(n, d))) * d - v) <= vstd::math::abs(
                value(y) * d - v,
            )
        }),
{
    lemma_nearest_range(n, d);
    super::pack::lemma_nearest_of(n, d, unsigned(y));
    super::pack::lemma_nearest_of(n, d, 0);
    lemma_magnitude_sign(y);
    lemma_zero_magnitude();
    let (x, z) = (nearest_of(n, d), magnitude(unsigned(y)));
    let r = magnitude(x);
    assert(-r * d == -(r * d) && -z * d == -(z * d) && 0 * d == 0 && 0 <= z * d)
        by (nonlinear_arith)
        requires
            0 <= z,
            0 < d,
    ;
}

/// A number less itself is zero, and a number less a smaller one is not negative.
pub proof fn lemma_difference(a: u32, b: u32)
    requires
        !is_nan(a),
        !is_nan(b),
        !above(b, a),
    ensures
        !above(0, sum(a, negated(b))),
        finite(a) ==> sum(a, negated(a)) == 0,
{
    lemma_zero_magnitude();
    if finite(a) && finite(b) {
        lemma_order(b, a);
        lemma_magnitude_sign(a);
        lemma_magnitude_sign(b);
        let v = value(a) - value(b);
        assert(value(negated(b)) == -value(b));
        lemma_nearest_range(vstd::math::abs(v) as int, 1);
        lemma_nearest_whole(vstd::math::abs(v) as int);
    }
}

} // verus!
