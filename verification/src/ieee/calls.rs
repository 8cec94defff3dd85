//! What one operation gives: the number nearest to the exact result, and what becomes of
//! zeros, infinities and what is no number.

use super::double::{lemma_units_near, magnitude as double_magnitude, to_units};
use super::pack::{lemma_nearest_whole, lemma_quotient_range, nearest_of};
use super::product::{f16_to_f32, half_magnitude, lemma_widened_exact, multiply};
use super::ratio::{add_ratio, divide, fine, lemma_offset_quotient_near};
use super::root::sqrt;
use super::rounding::{half_even, lemma_half_even};
use super::single::{
    from_count, is_above, is_zero, lemma_magnitude_grows, lemma_nearest_range, lemma_order,
    lemma_product_nearest, lemma_quotient_nearest, lemma_sum_nearest, lemma_zero_magnitude, negate,
    over, pick_larger, plus, times,
};
use super::{
    excess, finite, is_nan, magnitude, negative, one, shift, significand, unsigned, value, INF,
    SIGN, STEP,
};
use vstd::arithmetic::power2::{
    lemma2_to64, lemma_pow2_adds, lemma_pow2_pos, lemma_pow2_strictly_increases, lemma_pow2_unfold,
    pow2,
};
use vstd::math::abs;
use vstd::prelude::*;

verus! {

/// The largest finite number.
pub open spec fn largest() -> int {
    0xFF_FFFF * (pow2(253) as int)
}

/// The nearest pattern is finite where the quotient is not larger than the largest number, and
/// infinity where it is at least the power of two behind it.
proof fn lemma_finite_nearest(n: int, d: int)
    requires
        0 <= n,
        0 < d,
    ensures
        n <= largest() * d ==> nearest_of(n, d) < INF,
        n >= 0x100_0000 * pow2(253) * d ==> nearest_of(n, d) == INF,
{
    let s = excess(n / d);
    let p = pow2(s as nat) as int;
    let top = pow2(253) as int;
    lemma_quotient_range(n, d);
    lemma_pow2_pos(253);
    lemma_pow2_unfold(254);
    if s >= 254 {
        if s > 254 {
            lemma_pow2_strictly_increases(254, s as nat);
        }
        assert(0x80_0000 * (d * p) > 0xFF_FFFF * top * d) by (nonlinear_arith)
            requires
                p >= 2 * top,
                top > 0,
                d > 0,
        ;
    } else {
        if s < 253 {
            lemma_pow2_strictly_increases(s as nat, 253);
        }
        assert(0x100_0000 * (d * p) <= 0x100_0000 * top * d) by (nonlinear_arith)
            requires
                p <= top,
                d > 0,
        ;
        if s == 253 && n <= largest() * d {
            let e = d * p;
            lemma_half_even(n, e, 0xFF_FFFF);
            assert(e > 0 && n <= 0xFF_FFFF * e) by (nonlinear_arith)
                requires
                    e == d * p,
                    d > 0,
                    p > 0,
                    n <= 0xFF_FFFF * p * d,
            ;
        }
    }
}

/// Numbers are multiples of the smallest one: other than zero, none is below it.
proof fn lemma_sign(b: u32)
    requires
        finite(b),
    ensures
        0 <= magnitude(unsigned(b)),
        is_zero(b) <==> value(b) == 0,
        !is_zero(b) && negative(b) ==> value(b) < 0,
        !is_zero(b) && !negative(b) ==> value(b) > 0,
{
    lemma_zero_magnitude();
    if unsigned(b) > 0 {
        lemma_magnitude_grows(0, unsigned(b));
    }
}

/// The sum of two finite numbers is finite unless it is too large, and no finite number is
/// nearer to the exact sum. A sum of zero is positive, unless both are negative. An infinity
/// stays what it is, except that two different ones have no sum.
pub proof fn lemma_plus_call(a: u32, b: u32, r: u32, y: u32)
    requires
        call_ensures(plus, (a, b), r),
        finite(y),
    ensures
        is_nan(a) || is_nan(b) ==> is_nan(r),
        !is_nan(a) && !is_nan(b) && !finite(a) && !finite(b) ==> (a == b && r == a) || (a != b
            && is_nan(r)),
        !is_nan(a) && finite(b) && !finite(a) ==> r == a,
        !is_nan(b) && finite(a) && !finite(b) ==> r == b,
        finite(a) && finite(b) && abs(value(a) + value(b)) <= largest() ==> {
            let v = value(a) + value(b);
            &&& finite(r)
            &&& abs(value(r) - v) <= abs(value(y) - v)
            &&& v == 0 ==> r == if negative(a) && negative(b) {
                SIGN
            } else {
                0
            }
            &&& v != 0 ==> (negative(r) <==> v < 0)
        },
{
    if finite(a) && finite(b) {
        let v = value(a) + value(b);
        let n = abs(v) as int;
        lemma_nearest_range(n, 1);
        lemma_nearest_whole(n);
        if n <= largest() {
            lemma_finite_nearest(n, 1);
            lemma_sum_nearest(a, b, y);
        }
    }
}

/// Where another pattern is as near, the nearest one is even.
proof fn lemma_ties(n: int, d: int, y: int)
    requires
        0 <= n,
        0 < d,
        nearest_of(n, d) < INF,
        0 <= y < INF,
        y != nearest_of(n, d),
        abs(magnitude(nearest_of(n, d)) * d - n) == abs(magnitude(y) * d - n),
    ensures
        nearest_of(n, d) % 2 == 0,
{
    let s = excess(n / d);
    let p = pow2(s as nat) as int;
    let e = d * p;
    let h = half_even(n, e);
    let x = nearest_of(n, d);
    let (m, w) = (magnitude(x), magnitude(y));
    lemma_quotient_range(n, d);
    super::pack::lemma_nearest_of_value(n, d);
    lemma_pow2_pos(s as nat);
    assert(m == h * p);
    assert(e > 0 && m * d == h * e) by (nonlinear_arith)
        requires
            e == d * p,
            m == h * p,
            d > 0,
            p > 0,
    ;
    if x < y {
        lemma_magnitude_grows(x, y);
    } else {
        lemma_magnitude_grows(y, x);
    }
    let (q, r) = (n / e, n % e);
    vstd::arithmetic::div_mod::lemma_fundamental_div_mod(n, e);
    assert(e * q == q * e && (q + 1) * e == e * q + e) by (nonlinear_arith);
    if 2 * r == e {
        assert(h % 2 == 0);
        assert((s * STEP + h) % 2 == 0);
    } else {
        assert(2 * abs(h * e - n) < e);
        assert(m * d != w * d) by (nonlinear_arith)
            requires
                m != w,
                d > 0,
        ;
        assert(m * d + w * d == 2 * n);
        assert(abs(m * d - w * d) < e);
        assert(-p < m - w < p) by (nonlinear_arith)
            requires
                -e < m * d - w * d < e,
                e == d * p,
                d > 0,
        ;
        let (g, t) = (significand(y), shift(y));
        let u = pow2(t as nat) as int;
        lemma_pow2_pos(t as nat);
        if t >= s {
            lemma_pow2_adds(s as nat, (t - s) as nat);
            let f = g * pow2((t - s) as nat);
            assert(w == f * p) by (nonlinear_arith)
                requires
                    w == g * u,
                    u == p * pow2((t - s) as nat),
                    f == g * pow2((t - s) as nat),
            ;
            assert(h == f) by (nonlinear_arith)
                requires
                    -p < h * p - f * p < p,
                    p > 0,
            ;
        } else {
            lemma_pow2_unfold(s as nat);
            if t < s - 1 {
                lemma_pow2_strictly_increases(t as nat, (s - 1) as nat);
            }
            assert(w < 0x80_0000 * p) by (nonlinear_arith)
                requires
                    w == g * u,
                    0 <= g < 0x100_0000,
                    2 * u <= p,
                    0 < u,
            ;
            assert(m * d + w * d < 2 * n || m > 0x80_0000 * p) by (nonlinear_arith)
                requires
                    w < 0x80_0000 * p,
                    n >= 0x80_0000 * (d * p),
                    d > 0,
            ;
            assert(h > 0x80_0000) by (nonlinear_arith)
                requires
                    h * p > 0x80_0000 * p,
                    p > 0,
            ;
            assert(h * p - w > p) by (nonlinear_arith)
                requires
                    h >= 0x80_0001,
                    w < 0x80_0000 * p,
                    p > 0,
            ;
        }
    }
}

/// Of two numbers that are as near to an exact sum, the even one is given.
pub proof fn lemma_plus_ties(a: u32, b: u32, r: u32, y: u32)
    requires
        call_ensures(plus, (a, b), r),
        finite(a),
        finite(b),
        finite(r),
        finite(y),
        value(y) != value(r),
        ({
            let v = value(a) + value(b);
            abs(value(r) - v) == abs(value(y) - v)
        }),
    ensures
        r as int % 2 == 0,
{
    let v = value(a) + value(b);
    let n = abs(v) as int;
    lemma_sign(y);
    lemma_sign(r);
    lemma_zero_magnitude();
    lemma_nearest_range(n, 1);
    lemma_nearest_whole(n);
    if v != 0 {
        lemma_sum_nearest(a, b, 0);
        super::lemma_nearest(n, unsigned(y));
        if is_zero(y) || negative(y) == (v < 0) {
            lemma_ties(n, 1, unsigned(y));
        }
    }
}

/// The product of two finite numbers is finite unless it is too large, and no finite number is
/// nearer to the exact product. It is negative exactly if one of them is. An infinity times
/// zero is no number; times anything else it is an infinity.
pub proof fn lemma_times_call(a: u32, b: u32, r: u32, y: u32)
    requires
        call_ensures(times, (a, b), r),
        finite(y),
    ensures
        is_nan(a) || is_nan(b) ==> is_nan(r),
        !finite(a) && is_zero(b) || is_zero(a) && !finite(b) ==> is_nan(r),
        !is_nan(r) ==> (negative(r) <==> negative(a) != negative(b)),
        !is_nan(a) && !is_nan(b) && !is_zero(a) && !is_zero(b) && (!finite(a) || !finite(b))
            ==> unsigned(r) == INF,
        finite(a) && finite(b) && abs(value(a) * value(b)) <= largest() * one() ==> {
            let v = value(a) * value(b);
            &&& finite(r)
            &&& abs(value(r) * one() - v) <= abs(value(y) * one() - v)
        },
{
    lemma_pow2_pos(149);
    if finite(a) && finite(b) {
        lemma_sign(a);
        lemma_sign(b);
        let (x, z) = (magnitude(unsigned(a)), magnitude(unsigned(b)));
        let v = value(a) * value(b);
        assert(abs(v) == x * z && 0 <= x * z) by (nonlinear_arith)
            requires
                v == value(a) * value(b),
                value(a) == x || value(a) == -x,
                value(b) == z || value(b) == -z,
                0 <= x,
                0 <= z,
        ;
        lemma_nearest_range(x * z, one());
        if abs(v) <= largest() * one() {
            lemma_finite_nearest(x * z, one());
            lemma_product_nearest(a, b, y);
        }
    }
}

/// The quotient of two finite numbers is finite unless it is too large, and no finite number is
/// nearer to the exact quotient. It is negative exactly if one of them is. Divided by zero,
/// anything but zero is an infinity, and divided by an infinity, zero.
pub proof fn lemma_over_call(a: u32, b: u32, r: u32, y: u32)
    requires
        call_ensures(over, (a, b), r),
        finite(y),
    ensures
        is_nan(a) || is_nan(b) ==> is_nan(r),
        !finite(a) && !finite(b) || is_zero(a) && is_zero(b) ==> is_nan(r),
        !is_nan(r) ==> (negative(r) <==> negative(a) != negative(b)),
        !is_nan(a) && !is_zero(a) && is_zero(b) ==> unsigned(r) == INF,
        finite(a) && !finite(b) && !is_nan(b) ==> is_zero(r),
        !finite(a) && !is_nan(a) && finite(b) ==> unsigned(r) == INF,
        finite(a) && finite(b) && !is_zero(b) && abs(value(a)) * one() <= largest() * abs(
            value(b),
        ) ==> {
            let v = value(a) * one();
            &&& finite(r)
            &&& abs(value(r) * value(b) - v) <= abs(value(y) * value(b) - v)
        },
{
    lemma_pow2_pos(149);
    if finite(a) && finite(b) && !is_zero(b) {
        lemma_sign(a);
        lemma_sign(b);
        let (x, z) = (magnitude(unsigned(a)), magnitude(unsigned(b)));
        assert(0 <= x * one()) by (nonlinear_arith)
            requires
                0 <= x,
                0 < one(),
        ;
        lemma_nearest_range(x * one(), z);
        if abs(value(a)) * one() <= largest() * abs(value(b)) {
            lemma_finite_nearest(x * one(), z);
            lemma_quotient_nearest(a, b, y);
        }
    }
}

/// Negation changes the sign and nothing else.
pub proof fn lemma_negate_call(b: u32, r: u32)
    requires
        call_ensures(negate, (b,), r),
    ensures
        negative(r) != negative(b),
        unsigned(r) == unsigned(b),
        value(r) == -value(b),
{
}

/// One number is above another by their values. Infinities are at the ends, and what is no
/// number is above nothing and below nothing.
pub proof fn lemma_above_call(a: u32, b: u32, r: bool)
    requires
        call_ensures(is_above, (a, b), r),
    ensures
        is_nan(a) || is_nan(b) ==> !r,
        finite(a) && finite(b) ==> (r <==> value(a) > value(b)),
        a == INF && !is_nan(b) ==> (r <==> b != INF),
        b == INF ==> !r,
        b == SIGN + INF && !is_nan(a) ==> (r <==> a != b),
        a == SIGN + INF ==> !r,
{
    if finite(a) && finite(b) {
        lemma_order(a, b);
    }
}

/// The larger of two is one of them and not below the other. A number is preferred to what is
/// none, and the first one to an equal one.
pub proof fn lemma_larger_call(a: u32, b: u32, r: u32, above: bool)
    requires
        call_ensures(pick_larger, (a, b), r),
        call_ensures(is_above, (b, a), above),
    ensures
        r == if above || is_nan(a) {
            b
        } else {
            a
        },
        !is_nan(a) || !is_nan(b) ==> !is_nan(r),
{
}

/// A count becomes the number nearest to it.
pub proof fn lemma_count_call(n: usize, r: u32, y: u32)
    requires
        call_ensures(from_count, (n,), r),
        finite(y),
        !negative(y),
    ensures
        finite(r),
        !negative(r),
        abs(value(r) - n * one()) <= abs(value(y) - n * one()),
{
    lemma_pow2_pos(149);
    let v = n * one();
    assert(0 <= v <= 0x1_0000_0000_0000_0000 * one()) by (nonlinear_arith)
        requires
            v == n * one(),
            0 <= n <= 0x1_0000_0000_0000_0000,
            0 < one(),
    ;
    lemma2_to64();
    lemma_pow2_adds(64, 149);
    lemma_pow2_strictly_increases(213, 253);
    lemma_finite_nearest(v, 1);
    lemma_nearest_whole(v);
    lemma_nearest_range(v, 1);
    super::lemma_nearest(v, unsigned(y));
}

/// The root of a positive number is off by at most half a unit in its last place. What is
/// negative, zero or no number has the root zero, and infinity is its own.
pub proof fn lemma_root_call(b: u32, r: u32)
    requires
        call_ensures(sqrt, (b,), r),
    ensures
        is_nan(b) || negative(b) || b == 0 ==> r == 0,
        b == INF ==> r == INF,
        0 < b < INF ==> {
            let (w, u) = (value(r), pow2(shift(r as int) as nat) as int);
            let n = value(b) * one();
            &&& finite(r)
            &&& !negative(r)
            &&& (2 * w - u) * (2 * w - u) <= 4 * n <= (2 * w + u) * (2 * w + u)
        },
{
}

/// A small integer times a finite number is the number nearest to the exact product.
pub proof fn lemma_multiply_call(q: i32, b: u32, r: u32, y: u32)
    requires
        -128 <= q <= 128,
        call_ensures(multiply, (q, b), r),
        finite(b),
        abs(q * value(b)) <= largest(),
        finite(y),
    ensures
        finite(r),
        abs(value(r) - q * value(b)) <= abs(value(y) - q * value(b)),
        negative(r) <==> (q < 0) != negative(b),
{
    lemma_sign(b);
    lemma_sign(y);
    let (x, k) = (magnitude(unsigned(b)), abs(q as int) as int);
    let v = q * value(b);
    assert(abs(v) == k * x && 0 <= k * x && (v < 0 ==> (q < 0) != negative(b)) && (v > 0 ==> (q < 0)
        == negative(b))) by (nonlinear_arith)
        requires
            v == q * value(b),
            value(b) == if negative(b) {
                -x
            } else {
                x
            },
            k == if q < 0 {
                -q
            } else {
                q as int
            },
            0 <= x,
    ;
    lemma_finite_nearest(k * x, 1);
    lemma_nearest_whole(k * x);
    lemma_nearest_range(k * x, 1);
    super::lemma_nearest(k * x, unsigned(y));
    super::lemma_nearest(k * x, 0);
    lemma_zero_magnitude();
}

/// A half-precision number keeps its sign and its value in single precision.
pub proof fn lemma_widen_call(h: u16, r: u32)
    requires
        call_ensures(f16_to_f32, (h,), r),
    ensures
        finite(r),
        negative(r) <==> h >= 0x8000,
        magnitude(unsigned(r)) == half_magnitude(h as int % 0x8000) * pow2(125),
        // Below 1024 a half is a multiple of 2^-24, and each 1024 more double it.
        h < 1024 ==> value(r) == h * pow2(125),
        1024 <= h < 0x8000 ==> value(r) == (1024 + h as int % 1024) * pow2(
            (h as int / 1024 - 1) as nat,
        ) * pow2(125),
{
    lemma_widened_exact(h);
}

/// A ratio of small numbers is the number nearest to it.
pub proof fn lemma_divide_call(n: u32, d: u32, r: u32, y: u32)
    requires
        n <= 255,
        1 <= d <= 255,
        call_ensures(divide, (n, d), r),
        finite(y),
        !negative(y),
    ensures
        finite(r),
        !negative(r),
        abs(value(r) * d - n * one()) <= abs(value(y) * d - n * one()),
{
    lemma_pow2_pos(149);
    let v = n * one();
    assert(0 <= v <= 256 * one()) by (nonlinear_arith)
        requires
            v == n * one(),
            0 <= n <= 256,
            0 < one(),
    ;
    lemma2_to64();
    lemma_pow2_adds(8, 149);
    lemma_pow2_strictly_increases(157, 253);
    lemma_pow2_pos(253);
    assert(largest() * d >= largest()) by (nonlinear_arith)
        requires
            d >= 1,
            largest() >= 0,
    ;
    lemma_finite_nearest(v, d as int);
    lemma_nearest_range(v, d as int);
    super::pack::lemma_nearest_of(v, d as int, unsigned(y));
}

/// A ratio added to a small number is off by at most 2^-16.
pub proof fn lemma_add_ratio_call(base: u32, n: u32, d: u32, r: u32)
    requires
        1 <= d <= 4096,
        base * d + n <= 255 * d,
        call_ensures(add_ratio, (base, n, d), r),
    ensures
        finite(r),
        !negative(r),
        -(fine() * d) <= value(r) * d - (base * d + n) * one() <= fine() * d,
{
    lemma_offset_quotient_near(base as int, n as int, d as int);
    assert(0 <= base <= 255 && n <= (255 - base) * d) by (nonlinear_arith)
        requires
            base * d + n <= 255 * d,
            1 <= d,
            0 <= base,
            0 <= n,
    ;
    super::ratio::lemma_offset_quotient_between(
        base as int,
        n as int,
        d as int,
        0,
        255 - base as int,
    );
}

/// A double-precision number in units, rounded half up: off by at most half a unit, but for
/// what the multiplication and the addition round away.
pub proof fn lemma_units_call(b: u64, scale: u64, r: u64)
    requires
        1 <= scale <= 10000000000000000000,
        call_ensures(to_units, (b, scale), r),
        r < u64::MAX,
    ensures
        ({
            let x = b as int % 0x8000_0000_0000_0000;
            let (n, s) = (double_magnitude(x) * scale, pow2(1074) as int);
            let off = r * s - n;
            &&& x > super::double::INF ==> r == 0
            &&& x < super::double::INF ==> 0x4_0000_0000_0000 * (2 * off - s) <= n + s
            &&& x < super::double::INF ==> -(n + s) <= 0x4_0000_0000_0000 * (2 * off + s)
        }),
{
    lemma_units_near(b, scale as int);
}

} // verus!
