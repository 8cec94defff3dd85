//! Square roots.

use super::{is_nan, magnitude, negative, one, shift, significand, INF, STEP};
use vstd::arithmetic::power2::{lemma_pow2_adds, lemma_pow2_pos, lemma_pow2_unfold, pow2};
use vstd::prelude::*;

verus! {

/// How often a number can be divided by four until it is below 2^48.
pub open spec fn root_shift(n: int) -> int
    decreases n,
{
    if n < 0x1_0000_0000_0000 {
        0
    } else {
        1 + root_shift(n / 4)
    }
}

/// `h * 2^s` is the multiple of `2^s` nearest to the square root of `n`, ties up.
pub open spec fn is_root(h: int, n: int, s: int) -> bool {
    let d = pow2((2 * s) as nat);
    h >= 1 && (2 * h - 1) * (2 * h - 1) * d <= 4 * n < (2 * h + 1) * (2 * h + 1) * d
}

/// The shift is determined by the range of the number.
proof fn lemma_root_shift(n: int, s: int)
    requires
        0 <= s,
        s > 0 ==> n >= 0x4000_0000_0000 * pow2((2 * s) as nat),
        0 <= n < 0x1_0000_0000_0000 * pow2((2 * s) as nat),
    ensures
        root_shift(n) == s,
    decreases s,
{
    if s == 0 {
        assert(pow2(0) == 1) by {
            vstd::arithmetic::power2::lemma2_to64();
        }
    } else {
        lemma_pow2_unfold((2 * s) as nat);
        lemma_pow2_unfold((2 * s - 1) as nat);
        lemma_pow2_pos((2 * s - 2) as nat);
        assert(pow2((2 * s) as nat) == 4 * pow2((2 * (s - 1)) as nat));
        lemma_root_shift(n / 4, s - 1);
    }
}

/// The square root of a number below 2^48, rounded to the nearest integer.
fn rounded_root(n: u64) -> (h: u64)
    requires
        0x4000_0000_0000 <= n < 0x1_0000_0000_0000,
    ensures
        0x80_0000 <= h <= 0x100_0000,
        (2 * h - 1) * (2 * h - 1) <= 4 * n < (2 * h + 1) * (2 * h + 1),
{
    let mut lo: u64 = 0x80_0000;
    let mut hi: u64 = 0x100_0000;
    assert(0x80_0000u64 * 0x80_0000u64 == 0x4000_0000_0000 && 0x100_0000u64 * 0x100_0000u64
        == 0x1_0000_0000_0000) by (nonlinear_arith);
    while hi - lo > 1
        invariant
            0x80_0000 <= lo < hi <= 0x100_0000,
            lo * lo <= n < hi * hi,
        decreases hi - lo,
    {
        let mid: u64 = lo + (hi - lo) / 2;
        assert(mid * mid <= 0x100_0000 * 0x100_0000) by (nonlinear_arith)
            requires
                0 <= mid <= 0x100_0000,
        ;
        if mid * mid <= n {
            lo = mid;
        } else {
            hi = mid;
        }
    }
    proof {
        assert(hi == lo + 1);
        assert((lo + 1) * (lo + 1) == lo * lo + 2 * lo + 1 && (2 * lo - 1) * (2 * lo - 1) == 4 * (lo
            * lo) - 4 * lo + 1 && (2 * lo + 1) * (2 * lo + 1) == 4 * (lo * lo) + 4 * lo + 1 && (2
            * lo + 3) * (2 * lo + 3) == 4 * (lo * lo) + 12 * lo + 9) by (nonlinear_arith);
        assert(lo * lo <= 0x100_0000 * 0x100_0000) by (nonlinear_arith)
            requires
                0 <= lo <= 0x100_0000,
        ;
    }
    if n > lo * lo + lo {
        lo + 1
    } else {
        lo
    }
}

/// There is one nearest multiple.
proof fn lemma_one_root(h: int, k: int, n: int, s: int)
    requires
        is_root(h, n, s),
        is_root(k, n, s),
    ensures
        h == k,
{
    let d = pow2((2 * s) as nat) as int;
    lemma_pow2_pos((2 * s) as nat);
    if h < k {
        assert((2 * h + 1) * (2 * h + 1) * d <= (2 * k - 1) * (2 * k - 1) * d) by (nonlinear_arith)
            requires
                1 <= h,
                h + 1 <= k,
                d > 0,
        ;
    } else if k < h {
        assert((2 * k + 1) * (2 * k + 1) * d <= (2 * h - 1) * (2 * h - 1) * d) by (nonlinear_arith)
            requires
                1 <= k,
                k + 1 <= h,
                d > 0,
        ;
    }
}

/// The square root of a number, correctly rounded. There is none of a negative number, of
/// zero or of a NaN: they give zero. Infinity is its own root.
pub open spec fn root_of(b: u32) -> u32 {
    if is_nan(b) || negative(b) || b == 0 {
        0
    } else if b == INF {
        INF
    } else {
        let n = magnitude(b as int) * one();
        let s = root_shift(n);
        (s * STEP + choose|h: int| is_root(h, n, s)) as u32
    }
}

/// The square root of a number, correctly rounded.
pub fn sqrt(b: u32) -> (r: u32)
    ensures
        r == root_of(b),
        // Half a unit in the last place less, its square is not more than the number; half a
        // unit more, it is not less.
        0 < b < INF ==> r < INF && ({
            let (w, u) = (magnitude(r as int), pow2(shift(r as int) as nat) as int);
            let n = magnitude(b as int) * one();
            (2 * w - u) * (2 * w - u) <= 4 * n <= (2 * w + u) * (2 * w + u)
        }),
{
    if b == 0 || b > INF {
        return 0;
    }
    if b == INF {
        return INF;
    }
    let m: u64 = (if b < STEP {
        b
    } else {
        STEP + b % STEP
    }) as u64;
    let e: u32 = if b < STEP {
        0
    } else {
        b / STEP - 1
    };
    let mut x: u64 = m;
    let mut t: u32 = 0;
    proof {
        vstd::arithmetic::power2::lemma2_to64();
        vstd::arithmetic::power2::lemma2_to64_rest();
    }
    while x < 0x4000_0000_0000
        invariant
            1 <= m < 0x100_0000,
            x == m * pow2(t as nat),
            x < 0x8000_0000_0000,
            t <= 46,
            pow2(46) == 0x4000_0000_0000,
        decreases 46 - t,
    {
        proof {
            lemma_pow2_unfold((t + 1) as nat);
            let w = pow2(t as nat) as int;
            assert(m * (2 * w) == 2 * (m * w)) by (nonlinear_arith);
            if t == 46 {
                assert(m * w >= w) by (nonlinear_arith)
                    requires
                        m >= 1,
                        w >= 0,
                ;
            }
        }
        x *= 2;
        t += 1;
    }
    if (e + 149 - t) % 2 == 1 {
        proof {
            lemma_pow2_unfold((t + 1) as nat);
            let w = pow2(t as nat) as int;
            assert(m * (2 * w) == 2 * (m * w)) by (nonlinear_arith);
        }
        x *= 2;
        t += 1;
    }
    let s: u32 = (e + 149 - t) / 2;
    let h: u64 = rounded_root(x);
    proof {
        let n = magnitude(b as int) * one();
        let d = pow2((2 * s) as nat) as int;
        lemma_pow2_adds(e as nat, 149);
        lemma_pow2_adds(t as nat, (2 * s) as nat);
        lemma_pow2_pos((2 * s) as nat);
        let (u, v, w) = (pow2(e as nat) as int, one(), pow2(t as nat) as int);
        assert(n == x * d) by (nonlinear_arith)
            requires
                n == (m * u) * v,
                x == m * w,
                u * v == w * d,
        ;
        assert(0x4000_0000_0000 * d <= n && n < 0x1_0000_0000_0000 * d) by (nonlinear_arith)
            requires
                n == x * d,
                0x4000_0000_0000 <= x < 0x1_0000_0000_0000,
                d > 0,
        ;
        lemma_root_shift(n, s as int);
        let (p, q) = ((2 * h - 1) * (2 * h - 1), (2 * h + 1) * (2 * h + 1));
        assert(p * d <= 4 * n && 4 * n < q * d) by (nonlinear_arith)
            requires
                p <= 4 * x,
                4 * x < q,
                n == x * d,
                d > 0,
        ;
        assert(is_root(h as int, n, s as int));
        let k = choose|k: int| is_root(k, n, s as int);
        lemma_one_root(h as int, k, n, s as int);
        let r = s * STEP + h;
        let a = pow2(s as nat) as int;
        lemma_pow2_adds(s as nat, s as nat);
        lemma_pow2_pos(s as nat);
        lemma_pow2_unfold((s + 1) as nat);
        let (wide, u) = (magnitude(r), pow2(shift(r) as nat) as int);
        if h < 0x100_0000 {
            assert(significand(r) == h && shift(r) == s);
        } else {
            assert(significand(r) == STEP && shift(r) == s + 1);
            assert(STEP * (2 * a) == 0x100_0000 * a);
        }
        assert((2 * wide - u) * (2 * wide - u) <= p * d && q * d <= (2 * wide + u) * (2 * wide
            + u)) by (nonlinear_arith)
            requires
                wide == h * a,
                d == a * a,
                u == a || u == 2 * a,
                a > 0,
                h >= 0x80_0000,
                p == (2 * h - 1) * (2 * h - 1),
                q == (2 * h + 1) * (2 * h + 1),
        ;
    }
    s * STEP + h as u32
}

} // verus!
