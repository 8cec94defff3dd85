//! Fixed-layout cropping for the 250x80 click captcha.
//!
//! Layout:
//!   * 4 prompt glyphs in a fixed 13px grid: x = 81 + 13k .. +12, rows 2..12.
//!   * 6 candidate glyphs in fixed slots separated by columns that never carry
//!     ink. Glyphs are ~24px, rotated, rows ~30..65.
//!   * Interference lines are light gray; glyph ink is dark (< 110).
//!
//! Ink and click centers are single-precision numbers, as bit patterns.

pub mod calls;
pub mod laws;

use crate::ieee::pack::nearest_of;
use crate::ieee::ratio::{add_ratio, divide, lemma_offset_quotient_between, offset_quotient};
use crate::ieee::rounding::{
    half_even, lemma_half_even_between, lemma_half_even_odd, lemma_half_even_scaled,
};
use crate::ieee::{finite, is_nan, magnitude, one, value, INF, SIGN, STEP};
use vstd::arithmetic::power2::{lemma_pow2_adds, lemma_pow2_pos, lemma_pow2_unfold, pow2};
use vstd::prelude::*;

verus! {

/// Image width.
pub const W: usize = 250;

/// Image height.
pub const H: usize = 80;

/// Left edge of the first prompt cell.
pub const PROMPT_X0: usize = 81;

/// Distance between prompt cells.
pub const PROMPT_PITCH: usize = 13;

/// Rows of the prompt glyphs.
pub const PROMPT_ROWS: (usize, usize) = (2, 14);

/// Side of a prompt crop.
pub const PROMPT_SIZE: usize = 16;

/// Columns of the candidate glyphs.
pub const SLOTS: [(usize, usize); 6] = [
    (0, 36),
    (37, 76),
    (77, 116),
    (117, 156),
    (157, 196),
    (198, 237),
];

/// Rows of the candidate glyphs.
pub const CAND_ROWS: (usize, usize) = (25, 78);

/// Side of a candidate crop.
pub const CAND_SIZE: usize = 40;

/// Pixels below this are glyph ink.
pub const INK_THRESHOLD: u8 = 110;

/// Pixels of a prompt crop.
pub const PROMPT_PIXELS: usize = 256;

/// Pixels of a candidate crop.
pub const CAND_PIXELS: usize = 1600;

/// Gray on white as ink in [0, 1].
pub open spec fn ink_of(g: u8) -> u32 {
    nearest_of((255 - g) * one(), 255) as u32
}

/// Gray on white as ink in [0, 1].
pub fn ink(g: u8) -> (r: u32)
    ensures
        r == ink_of(g),
{
    divide(255 - g as u32, 255)
}

/// The number can be rounded to an `i32`. A NaN rounds to zero.
pub open spec fn roundable(b: u32) -> bool {
    is_nan(b) || finite(b) && -0x8000_0000 * one() <= value(b) <= 0x8000_0000 * one()
}

/// The nearest integer, ties to even; 2^31 itself gives the largest `i32`.
pub open spec fn rounded_int(b: u32) -> int {
    if is_nan(b) {
        0
    } else if value(b) == 0x8000_0000 * one() {
        i32::MAX as int
    } else {
        half_even(value(b), one())
    }
}

/// The nearest integer to a magnitude, ties to even.
fn round_magnitude(x: u32) -> (r: u32)
    requires
        x < INF,
        magnitude(x as int) <= 0x8000_0000 * one(),
    ensures
        r == half_even(magnitude(x as int), one()),
        r <= 0x8000_0000,
        r == 0x8000_0000 <==> magnitude(x as int) == 0x8000_0000 * one(),
{
    let m: u64 = (if x < STEP {
        x
    } else {
        STEP + x % STEP
    }) as u64;
    let e: u32 = if x < STEP {
        0
    } else {
        x / STEP - 1
    };
    let ghost mag = magnitude(x as int);
    proof {
        vstd::arithmetic::power2::lemma2_to64();
        lemma_pow2_pos(149);
    }
    if e >= 149 {
        let mut k: u64 = m;
        let mut i: u32 = 0;
        assert(m * 1 == m);
        while i < e - 149
            invariant
                0 <= i <= e - 149,
                149 <= e < 254,
                0x80_0000 <= m < 0x100_0000,
                k == m * pow2(i as nat),
                mag == m * pow2(e as nat),
                mag <= 0x8000_0000 * one(),
                one() > 0,
            decreases e - 149 - i,
        {
            proof {
                lemma_pow2_unfold((i + 1) as nat);
                lemma_pow2_adds(i as nat, (e - i) as nat);
                lemma_pow2_adds(149, (e - i - 149) as nat);
                lemma_pow2_pos((e - i - 149) as nat);
                let (w, v, u) = (
                    pow2(i as nat) as int,
                    pow2((e - i) as nat) as int,
                    pow2((e - i - 149) as nat) as int,
                );
                assert(m * (2 * w) == 2 * (m * w)) by (nonlinear_arith);
                // Beyond 2^31 the magnitude would be out of range.
                assert(k <= 0x8000_0000) by (nonlinear_arith)
                    requires
                        k == m * w,
                        mag == m * (w * v),
                        v == one() * u,
                        u >= 1,
                        mag <= 0x8000_0000 * one(),
                        one() > 0,
                ;
            }
            k *= 2;
            i += 1;
        }
        proof {
            lemma_pow2_adds(i as nat, 149);
            let w = pow2(i as nat) as int;
            assert(mag == k * one()) by (nonlinear_arith)
                requires
                    mag == m * (w * one()),
                    k == m * w,
            ;
            assert(k <= 0x8000_0000) by (nonlinear_arith)
                requires
                    mag == k * one(),
                    mag <= 0x8000_0000 * one(),
                    one() > 0,
            ;
            vstd::arithmetic::div_mod::lemma_fundamental_div_mod_converse(
                mag,
                one(),
                k as int,
                0,
            );
            assert(k == 0x8000_0000 <==> mag == 0x8000_0000 * one()) by (nonlinear_arith)
                requires
                    mag == k * one(),
                    one() > 0,
            ;
        }
        return k as u32;
    }
    let ghost d = pow2((149 - e) as nat) as int;
    proof {
        lemma_pow2_adds(e as nat, (149 - e) as nat);
        lemma_pow2_pos(e as nat);
        lemma_pow2_pos((149 - e) as nat);
        let w = pow2(e as nat) as int;
        assert(one() == d * w) by (nonlinear_arith)
            requires
                one() == w * d,
        ;
        lemma_half_even_scaled(m as int, d, w);
        assert(mag < 0x100_0000 * one()) by (nonlinear_arith)
            requires
                mag == m * w,
                one() == d * w,
                d >= 1,
                w >= 1,
                0 <= m < 0x100_0000,
        ;
    }
    if 149 - e >= 25 {
        proof {
            if 149 - e > 25 {
                vstd::arithmetic::power2::lemma_pow2_strictly_increases(25, (149 - e) as nat);
            }
            vstd::arithmetic::div_mod::lemma_fundamental_div_mod_converse(
                m as int,
                d,
                0,
                m as int,
            );
        }
        return 0;
    }
    let mut p: u64 = 1;
    let mut i: u32 = 0;
    while i < 149 - e
        invariant
            125 <= e < 149,
            i <= 149 - e,
            p == pow2(i as nat),
            p <= 0x100_0000,
            pow2(24) == 0x100_0000,
        decreases 149 - e - i,
    {
        proof {
            lemma_pow2_unfold((i + 1) as nat);
            if i < 23 {
                vstd::arithmetic::power2::lemma_pow2_strictly_increases((i + 1) as nat, 24);
            }
        }
        p *= 2;
        i += 1;
    }
    let (q, r): (u64, u64) = (m / p, m % p);
    assert(m / p <= m) by (nonlinear_arith)
        requires
            p >= 1,
    ;
    if 2 * r > p || 2 * r == p && q % 2 == 1 {
        (q + 1) as u32
    } else {
        q as u32
    }
}

/// Python's round() on a single-precision number: nearest integer, ties to even.
pub fn round_half_even(x: u32) -> (r: i32)
    requires
        roundable(x),
    ensures
        r == rounded_int(x),
{
    let u: u32 = x % SIGN;
    if u > INF {
        return 0;
    }
    proof {
        lemma_pow2_pos(149);
    }
    let k: u32 = round_magnitude(u);
    if x >= SIGN {
        proof {
            lemma_half_even_odd(magnitude(u as int), one());
        }
        (-(k as i64)) as i32
    } else if k == 0x8000_0000 {
        i32::MAX
    } else {
        k as i32
    }
}

/// Pixel (`c`, `r`) of prompt crop `k`: a cell of the image, two pixels from the top and one
/// from the left, on blank.
pub open spec fn prompt_pixel(gray: Seq<u8>, k: int, r: int, c: int) -> u32 {
    if 2 <= r < 14 && 1 <= c < 15 {
        ink_of(gray[r * 250 + 79 + 13 * k + c])
    } else {
        0
    }
}

/// One row of a prompt crop.
fn prompt_row(gray: &[u8], k: usize, r: usize, out: &mut [u32])
    requires
        gray@.len() >= W * H,
        k < 4,
        r < 16,
        old(out)@.len() >= (k + 1) * 256,
    ensures
        final(out)@.len() == old(out)@.len(),
        forall|i: int|
            0 <= i < old(out)@.len() ==> #[trigger] final(out)@[i] == if k * 256 + r * 16 <= i < k
                * 256 + r * 16 + 16 {
                prompt_pixel(gray@, k as int, r as int, i % 16)
            } else {
                old(out)@[i]
            },
{
    let x0: usize = PROMPT_X0 + PROMPT_PITCH * k - 1;
    let mut c: usize = 0;
    while c < PROMPT_SIZE
        invariant
            c <= 16,
            x0 == 80 + 13 * k,
            gray@.len() >= W * H,
            k < 4,
            r < 16,
            out@.len() == old(out)@.len(),
            out@.len() >= (k + 1) * 256,
            forall|i: int|
                0 <= i < old(out)@.len() ==> #[trigger] out@[i] == if k * 256 + r * 16 <= i < k
                    * 256 + r * 16 + c {
                    prompt_pixel(gray@, k as int, r as int, i % 16)
                } else {
                    old(out)@[i]
                },
        decreases 16 - c,
    {
        let v: u32 = if PROMPT_ROWS.0 <= r && r < PROMPT_ROWS.1 && 1 <= c && c < 15 {
            ink(gray[r * W + x0 + c - 1])
        } else {
            0
        };
        let at: usize = k * PROMPT_PIXELS + r * PROMPT_SIZE + c;
        assert(at as int % 16 == c);
        out[at] = v;
        c += 1;
    }
}

/// How many of the `n` crops of `size` pixels fit into a buffer.
pub open spec fn crops_in(len: int, size: int, n: int) -> int {
    if len / size < n {
        len / size
    } else {
        n
    }
}

/// 4 prompt cells of 16x16 (row-major, concatenated); glyph at a fixed offset. A shorter
/// buffer gets the cells that fit.
pub fn prompt_crops(gray: &[u8], out: &mut [u32])
    requires
        gray@.len() >= W * H,
    ensures
        final(out)@.len() == old(out)@.len(),
        forall|i: int|
            0 <= i < old(out)@.len() ==> #[trigger] final(out)@[i] == if i / 256 < crops_in(
                old(out)@.len() as int,
                256,
                4,
            ) {
                prompt_pixel(gray@, i / 256, i % 256 / 16, i % 16)
            } else {
                old(out)@[i]
            },
{
    let ghost n = crops_in(out@.len() as int, 256, 4);
    let len: usize = out.len();
    let mut k: usize = 0;
    while k < 4 && k < len / PROMPT_PIXELS
        invariant
            k <= n <= 4,
            len == out@.len(),
            n == crops_in(len as int, 256, 4),
            gray@.len() >= W * H,
            out@.len() == old(out)@.len(),
            forall|i: int|
                0 <= i < old(out)@.len() ==> #[trigger] out@[i] == if i / 256 < k {
                    prompt_pixel(gray@, i / 256, i % 256 / 16, i % 16)
                } else {
                    old(out)@[i]
                },
        decreases 4 - k,
    {
        let mut r: usize = 0;
        while r < PROMPT_SIZE
            invariant
                r <= 16,
                k < n <= 4,
                len == out@.len(),
                n == crops_in(len as int, 256, 4),
                gray@.len() >= W * H,
                out@.len() == old(out)@.len(),
                forall|i: int|
                    0 <= i < old(out)@.len() ==> #[trigger] out@[i] == if i / 256 < k || i / 256
                        == k && i % 256 / 16 < r {
                        prompt_pixel(gray@, i / 256, i % 256 / 16, i % 16)
                    } else {
                        old(out)@[i]
                    },
            decreases 16 - r,
        {
            let ghost before = out@;
            prompt_row(gray, k, r, out);
            proof {
                assert forall|i: int| 0 <= i < old(out)@.len() implies #[trigger] out@[i] == if i
                    / 256 < k || i / 256 == k && i % 256 / 16 < r + 1 {
                    prompt_pixel(gray@, i / 256, i % 256 / 16, i % 16)
                } else {
                    old(out)@[i]
                } by {
                    let there = k * 256 + r * 16 <= i < k * 256 + r * 16 + 16;
                    assert(there <==> i / 256 == k && i % 256 / 16 == r);
                    assert(before[i] == if i / 256 < k || i / 256 == k && i % 256 / 16 < r {
                        prompt_pixel(gray@, i / 256, i % 256 / 16, i % 16)
                    } else {
                        old(out)@[i]
                    });
                }
            }
            r += 1;
        }
        k += 1;
    }
}

/// The image is dark at (`x`, `y`).
pub open spec fn is_dark(gray: Seq<u8>, y: int, x: int) -> bool {
    gray[y * 250 + x] < INK_THRESHOLD
}

/// Dark pixels among the `n` that start at (`x`, `y`) and go right.
pub open spec fn dark_across(gray: Seq<u8>, y: int, x: int, n: int) -> int
    decreases n,
{
    if n <= 0 {
        0
    } else {
        dark_across(gray, y, x, n - 1) + if is_dark(gray, y, x + n - 1) {
            1int
        } else {
            0
        }
    }
}

/// Dark pixels among the `n` that start at (`x`, `y`) and go down.
pub open spec fn dark_down(gray: Seq<u8>, y: int, x: int, n: int) -> int
    decreases n,
{
    if n <= 0 {
        0
    } else {
        dark_down(gray, y, x, n - 1) + if is_dark(gray, y + n - 1, x) {
            1int
        } else {
            0
        }
    }
}

/// Columns of slot `k`.
pub open spec fn slot_width(k: int) -> int {
    SLOTS[k].1 - SLOTS[k].0
}

/// Dark pixels in each row of slot `k`.
pub open spec fn row_histogram(gray: Seq<u8>, k: int) -> Seq<int> {
    Seq::new(53, |i: int| dark_across(gray, 25 + i, SLOTS[k].0 as int, slot_width(k)))
}

/// Dark pixels in each column of slot `k`.
pub open spec fn col_histogram(gray: Seq<u8>, k: int) -> Seq<int> {
    Seq::new(slot_width(k) as nat, |i: int| dark_down(gray, 25, SLOTS[k].0 + i, 53))
}

/// The sum of the first `n` entries.
pub open spec fn sum_to(hist: Seq<int>, n: int) -> int
    decreases n,
{
    if n <= 0 {
        0
    } else {
        sum_to(hist, n - 1) + hist[n - 1]
    }
}

/// The sum of all entries.
pub open spec fn total(hist: Seq<int>) -> int {
    sum_to(hist, hist.len() as int)
}

/// The first index at or after `i` at which `20 * cumulative sum` is past `bound`.
pub open spec fn first_past(hist: Seq<int>, bound: int, strict: bool, i: int) -> int
    decreases hist.len() - i,
{
    if i >= hist.len() {
        hist.len() as int
    } else if 20 * sum_to(hist, i + 1) > bound || !strict && 20 * sum_to(hist, i + 1) == bound {
        i
    } else {
        first_past(hist, bound, strict, i + 1)
    }
}

/// The 5% quantile: the first index with more than a twentieth of the total up to it.
pub open spec fn low_quantile(hist: Seq<int>) -> int {
    first_past(hist, total(hist), true, 0)
}

/// The 95% quantile: the first index with at least 19 twentieths of the total up to it.
pub open spec fn high_quantile(hist: Seq<int>) -> int {
    first_past(hist, 19 * total(hist), false, 0)
}

/// `i`, clipped to the quantiles.
pub open spec fn clipped(i: int, lo: int, hi: int) -> int {
    let j = if i > lo {
        i
    } else {
        lo
    };
    if j < hi {
        j
    } else {
        hi
    }
}

/// The sum of the first `n` positions, clipped to [`lo`, `hi`] and weighted by `hist`.
pub open spec fn clipped_sum(hist: Seq<int>, lo: int, hi: int, n: int) -> int
    decreases n,
{
    if n <= 0 {
        0
    } else {
        clipped_sum(hist, lo, hi, n - 1) + clipped(n - 1, lo, hi) * hist[n - 1]
    }
}

/// Numerator of the mean position after clipping to the 5% and 95% quantiles; the
/// denominator is the total.
pub open spec fn clipped_weight(hist: Seq<int>) -> int {
    clipped_sum(hist, low_quantile(hist), high_quantile(hist), hist.len() as int)
}

/// The click center of slot `k`: the centroid of its dark pixels, winsorized so that stray
/// dark line pixels don't drag it; the middle of the slot when nothing is dark.
pub open spec fn center_of(gray: Seq<u8>, k: int) -> Seq<u32> {
    let (rows, cols) = (row_histogram(gray, k), col_histogram(gray, k));
    if total(rows) < 5 {
        seq![
            offset_quotient(0, SLOTS[k].0 + SLOTS[k].1, 2) as u32,
            offset_quotient(0, CAND_ROWS.0 + CAND_ROWS.1, 2) as u32,
        ]
    } else {
        seq![
            offset_quotient(SLOTS[k].0 as int, clipped_weight(cols), total(cols)) as u32,
            offset_quotient(CAND_ROWS.0 as int, clipped_weight(rows), total(rows)) as u32,
        ]
    }
}

/// A histogram as integers.
pub open spec fn counts_of(h: Seq<u32>) -> Seq<int> {
    Seq::new(h.len(), |i: int| h[i] as int)
}

proof fn lemma_counts_bounded(gray: Seq<u8>, y: int, x: int, n: int)
    requires
        0 <= n,
    ensures
        0 <= dark_across(gray, y, x, n) <= n,
        0 <= dark_down(gray, y, x, n) <= n,
    decreases n,
{
    if n > 0 {
        lemma_counts_bounded(gray, y, x, n - 1);
    }
}

/// Dark pixels per row and per column of slot `k`.
fn histograms(gray: &[u8], k: usize) -> (r: ([u32; 53], [u32; 40]))
    requires
        gray@.len() >= W * H,
        k < 6,
    ensures
        counts_of(r.0@) == row_histogram(gray@, k as int),
        counts_of(r.1@.take(slot_width(k as int))) == col_histogram(gray@, k as int),
{
    let (a, b): (usize, usize) = SLOTS[k];
    let n: usize = b - a;
    let mut rows: [u32; 53] = [0; 53];
    let mut cols: [u32; 40] = [0; 40];
    let mut y: usize = 0;
    while y < 53
        invariant
            y <= 53,
            k < 6,
            a == SLOTS[k as int].0,
            n == slot_width(k as int),
            n <= 40,
            a + n <= 237,
            gray@.len() >= W * H,
            forall|i: int|
                0 <= i < 53 ==> #[trigger] rows[i] == if i < y {
                    dark_across(gray@, 25 + i, a as int, n as int)
                } else {
                    0
                },
            forall|i: int|
                0 <= i < n ==> #[trigger] cols[i] == dark_down(gray@, 25, a + i, y as int),
        decreases 53 - y,
    {
        let mut x: usize = 0;
        while x < n
            invariant
                y < 53,
                x <= n,
                k < 6,
                a == SLOTS[k as int].0,
                n == slot_width(k as int),
                n <= 40,
                a + n <= 237,
                gray@.len() >= W * H,
                forall|i: int|
                    0 <= i < 53 ==> #[trigger] rows[i] == if i < y {
                        dark_across(gray@, 25 + i, a as int, n as int)
                    } else if i == y {
                        dark_across(gray@, 25 + i, a as int, x as int)
                    } else {
                        0
                    },
                forall|i: int|
                    0 <= i < n ==> #[trigger] cols[i] == dark_down(
                        gray@,
                        25,
                        a + i,
                        if i < x {
                            y + 1
                        } else {
                            y as int
                        },
                    ),
            decreases n - x,
        {
            proof {
                lemma_counts_bounded(gray@, 25 + y, a as int, x as int);
                lemma_counts_bounded(gray@, 25, a + x, y as int);
                assert(rows[y as int] == dark_across(gray@, 25 + y, a as int, x as int));
                assert(cols[x as int] == dark_down(gray@, 25, a + x, y as int));
            }
            if gray[(CAND_ROWS.0 + y) * W + a + x] < INK_THRESHOLD {
                rows[y] = rows[y] + 1;
                cols[x] = cols[x] + 1;
            }
            x += 1;
        }
        y += 1;
    }
    proof {
        assert(counts_of(rows@) =~= row_histogram(gray@, k as int));
        assert(counts_of(cols@.take(n as int)) =~= col_histogram(gray@, k as int)) by {
            assert forall|i: int| 0 <= i < n implies counts_of(cols@.take(n as int))[i]
                == col_histogram(gray@, k as int)[i] by {
                assert(cols[i] == dark_down(gray@, 25, a + i, 53));
            }
        }
    }
    (rows, cols)
}

/// Entries up to 64 have sums that fit.
proof fn lemma_sum_bound(h: Seq<int>, n: int)
    requires
        0 <= n <= h.len(),
        forall|i: int| 0 <= i < h.len() ==> 0 <= #[trigger] h[i] <= 64,
    ensures
        0 <= sum_to(h, n) <= 64 * n,
    decreases n,
{
    if n > 0 {
        lemma_sum_bound(h, n - 1);
    }
}

proof fn lemma_first_past(h: Seq<int>, bound: int, strict: bool, i: int)
    requires
        0 <= i <= h.len(),
    ensures
        i <= first_past(h, bound, strict, i) <= h.len(),
        h.len() > i && 20 * sum_to(h, h.len() as int) >= bound && !strict ==> first_past(
            h,
            bound,
            strict,
            i,
        ) < h.len(),
    decreases h.len() - i,
{
    if i < h.len() {
        lemma_first_past(h, bound, strict, i + 1);
    }
}

/// Sums of counts only grow.
pub proof fn lemma_sum_grows(h: Seq<int>, n: int, m: int)
    requires
        0 <= n <= m <= h.len(),
        forall|i: int| 0 <= i < h.len() ==> 0 <= #[trigger] h[i],
    ensures
        0 <= sum_to(h, n) <= sum_to(h, m),
    decreases m,
{
    if n < m {
        lemma_sum_grows(h, n, m - 1);
    } else if n > 0 {
        lemma_sum_grows(h, n - 1, m - 1);
    }
}

/// The clipped positions are within the histogram, so their mean is.
proof fn lemma_clipped_bound(h: Seq<int>, lo: int, hi: int, n: int)
    requires
        0 <= n <= h.len(),
        0 <= lo,
        0 <= hi,
        forall|i: int| 0 <= i < h.len() ==> 0 <= #[trigger] h[i],
    ensures
        0 <= clipped_sum(h, lo, hi, n) <= hi * sum_to(h, n),
    decreases n,
{
    if n > 0 {
        lemma_clipped_bound(h, lo, hi, n - 1);
        let (c, v, s) = (clipped(n - 1, lo, hi), h[n - 1], sum_to(h, n - 1));
        assert(0 <= c * v <= hi * v && hi * (s + v) == hi * s + hi * v) by (nonlinear_arith)
            requires
                0 <= c <= hi,
                0 <= v,
        ;
    } else {
        assert(hi * 0 == 0);
    }
}

/// Mean of positions weighted by `hist` after clipping them to its 5%/95% quantiles, as a
/// numerator and a denominator.
pub fn clipped_mean(hist: &[u32]) -> (r: (u32, u32))
    requires
        hist@.len() * total(counts_of(hist@)) <= u32::MAX,
    ensures
        r.0 == clipped_weight(counts_of(hist@)),
        r.1 == total(counts_of(hist@)),
{
    let ghost h = counts_of(hist@);
    let ghost sum = total(h);
    let n: usize = hist.len();
    let mut all: u32 = 0;
    let mut i: usize = 0;
    proof {
        lemma_sum_grows(h, 0, n as int);
        assert(n > 0 ==> sum <= n * sum) by (nonlinear_arith)
            requires
                sum >= 0,
        ;
    }
    while i < n
        invariant
            i <= n,
            n == hist@.len(),
            h == counts_of(hist@),
            0 <= total(h),
            n > 0 ==> total(h) <= u32::MAX,
            all == sum_to(h, i as int),
        decreases n - i,
    {
        proof {
            lemma_sum_grows(h, i + 1, n as int);
            assert(h[i as int] == hist@[i as int]);
        }
        all = all + hist[i];
        i += 1;
    }
    let (mut lo, mut hi): (usize, usize) = (n, n);
    let mut cum: u32 = 0;
    i = 0;
    while i < n
        invariant
            i <= n,
            n == hist@.len(),
            h == counts_of(hist@),
            all == total(h),
            cum == sum_to(h, i as int),
            lo == n ==> low_quantile(h) == first_past(h, total(h), true, i as int),
            lo < n ==> low_quantile(h) == lo,
            hi == n ==> high_quantile(h) == first_past(h, 19 * total(h), false, i as int),
            hi < n ==> high_quantile(h) == hi,
            lo <= n,
            hi <= n,
        decreases n - i,
    {
        proof {
            lemma_sum_grows(h, i + 1, n as int);
            assert(h[i as int] == hist@[i as int]);
        }
        cum = cum + hist[i];
        if lo == n && 20 * cum as u64 > all as u64 {
            lo = i;
        }
        if hi == n && 20 * cum as u64 >= 19 * all as u64 {
            hi = i;
        }
        i += 1;
    }
    let mut s: u32 = 0;
    i = 0;
    while i < n
        invariant
            i <= n,
            n == hist@.len(),
            h == counts_of(hist@),
            n * total(h) <= u32::MAX,
            lo == low_quantile(h),
            hi == high_quantile(h),
            lo <= n,
            hi <= n,
            s == clipped_sum(h, lo as int, hi as int, i as int),
        decreases n - i,
    {
        let j: usize = if i > lo {
            i
        } else {
            lo
        };
        let c: usize = if j < hi {
            j
        } else {
            hi
        };
        proof {
            let (t, sum) = (sum_to(h, i + 1), total(h));
            lemma_sum_grows(h, i as int, i + 1);
            lemma_sum_grows(h, i + 1, n as int);
            lemma_clipped_bound(h, lo as int, hi as int, i as int);
            lemma_clipped_bound(h, lo as int, hi as int, i + 1);
            assert(hi * t <= n * sum) by (nonlinear_arith)
                requires
                    0 <= hi <= n,
                    0 <= t <= sum,
            ;
            let v = h[i as int];
            assert(v == hist@[i as int]);
            lemma_sum_grows(h, 0, i as int);
            if v > 0 {
                // Something is counted, so positions are small.
                assert(n <= n * sum) by (nonlinear_arith)
                    requires
                        sum >= 1,
                        n >= 0,
                ;
                assert(0 <= c * v) by (nonlinear_arith)
                    requires
                        c >= 0,
                        v > 0,
                ;
            } else {
                let d = c as u32;
                assert(c * v == 0 && d * v == 0) by (nonlinear_arith)
                    requires
                        v == 0,
                ;
            }
        }
        s = s + c as u32 * hist[i];
        i += 1;
    }
    (s, all)
}

/// Counting column by column: the next row adds its dark pixels.
proof fn lemma_columns_step(gray: Seq<u8>, a: int, w: int, y: int, m: int)
    requires
        0 <= m <= w,
        0 <= y,
    ensures
        sum_to(Seq::new(w as nat, |i: int| dark_down(gray, 25, a + i, y + 1)), m) == sum_to(
            Seq::new(w as nat, |i: int| dark_down(gray, 25, a + i, y)),
            m,
        ) + dark_across(gray, 25 + y, a, m),
    decreases m,
{
    if m > 0 {
        lemma_columns_step(gray, a, w, y, m - 1);
    }
}

proof fn lemma_columns_blank(gray: Seq<u8>, a: int, w: int, m: int)
    requires
        0 <= m <= w,
    ensures
        sum_to(Seq::new(w as nat, |i: int| dark_down(gray, 25, a + i, 0)), m) == 0,
    decreases m,
{
    if m > 0 {
        lemma_columns_blank(gray, a, w, m - 1);
    }
}

proof fn lemma_count_twice(gray: Seq<u8>, k: int, n: int)
    requires
        0 <= k < 6,
        0 <= n <= 53,
    ensures
        sum_to(row_histogram(gray, k), n) == sum_to(
            Seq::new(
                slot_width(k) as nat,
                |i: int| dark_down(gray, 25, SLOTS[k].0 as int + i, n),
            ),
            slot_width(k),
        ),
    decreases n,
{
    let (a, w) = (SLOTS[k].0 as int, slot_width(k));
    if n > 0 {
        lemma_count_twice(gray, k, n - 1);
        lemma_columns_step(gray, a, w, n - 1, w);
    } else {
        lemma_columns_blank(gray, a, w, w);
    }
}

/// Counted by rows or by columns, a slot has as many dark pixels.
pub proof fn lemma_histograms_agree(gray: Seq<u8>, k: int)
    requires
        0 <= k < 6,
    ensures
        total(row_histogram(gray, k)) == total(col_histogram(gray, k)),
{
    lemma_count_twice(gray, k, 53);
    assert(col_histogram(gray, k) =~= Seq::new(
        slot_width(k) as nat,
        |i: int| dark_down(gray, 25, SLOTS[k].0 as int + i, 53),
    ));
}

/// A histogram with something in it has a mean position, which is one of its positions or
/// lies between them.
pub proof fn lemma_mean_inside(h: Seq<int>)
    requires
        1 <= h.len(),
        forall|i: int| 0 <= i < h.len() ==> 0 <= #[trigger] h[i] <= 64,
    ensures
        0 <= total(h) <= 64 * h.len(),
        total(h) > 0 ==> 0 <= clipped_weight(h) <= (h.len() - 1) * total(h),
{
    let n = h.len() as int;
    lemma_sum_bound(h, n);
    lemma_first_past(h, total(h), true, 0);
    lemma_first_past(h, 19 * total(h), false, 0);
    let (lo, hi) = (low_quantile(h), high_quantile(h));
    lemma_clipped_bound(h, lo, hi, n);
    if total(h) > 0 {
        let t = total(h);
        assert(hi * t <= (n - 1) * t) by (nonlinear_arith)
            requires
                hi <= n - 1,
                t >= 0,
        ;
    }
}

/// Counts of a slot are small.
pub proof fn lemma_histogram_entries(gray: Seq<u8>, k: int)
    requires
        0 <= k < 6,
    ensures
        forall|i: int| 0 <= i < 53 ==> 0 <= #[trigger] row_histogram(gray, k)[i] <= 64,
        forall|i: int| 0 <= i < slot_width(k) ==> 0 <= #[trigger] col_histogram(gray, k)[i] <= 64,
        36 <= slot_width(k) <= 40,
{
    assert forall|i: int| 0 <= i < 53 implies 0 <= #[trigger] row_histogram(gray, k)[i] <= 64 by {
        lemma_counts_bounded(gray, 25 + i, SLOTS[k].0 as int, slot_width(k));
    }
    assert forall|i: int| 0 <= i < slot_width(k) implies 0 <= #[trigger] col_histogram(gray, k)[i]
        <= 64 by {
        lemma_counts_bounded(gray, 25, SLOTS[k].0 + i, 53);
    }
}

/// A click center lies in its slot, whatever the image holds.
pub proof fn lemma_center_in_slot(gray: Seq<u8>, k: int)
    requires
        0 <= k < 6,
    ensures
        ({
            let c = center_of(gray, k);
            &&& finite(c[0]) && finite(c[1])
            &&& SLOTS[k].0 * one() <= value(c[0]) <= (SLOTS[k].1 - 1) * one()
            &&& CAND_ROWS.0 * one() <= value(c[1]) <= (CAND_ROWS.1 - 1) * one()
        }),
{
    let (a, b) = (SLOTS[k].0 as int, SLOTS[k].1 as int);
    let (rows, cols) = (row_histogram(gray, k), col_histogram(gray, k));
    lemma_histogram_entries(gray, k);
    lemma_histograms_agree(gray, k);
    if total(rows) < 5 {
        lemma_offset_quotient_between(0, a + b, 2, a, b - 1);
        lemma_offset_quotient_between(0, 103, 2, 25, 77);
    } else {
        lemma_mean_inside(rows);
        lemma_mean_inside(cols);
        assert(0 * total(cols) == 0);
        lemma_offset_quotient_between(a, clipped_weight(cols), total(cols), 0, b - a - 1);
        lemma_offset_quotient_between(25, clipped_weight(rows), total(rows), 0, 52);
    }
}

/// The click center of slot `k`.
fn center(gray: &[u8], k: usize) -> (r: [u32; 2])
    requires
        gray@.len() >= W * H,
        k < 6,
    ensures
        r@ == center_of(gray@, k as int),
{
    let (a, b): (usize, usize) = SLOTS[k];
    let (y0, y1): (usize, usize) = CAND_ROWS;
    let (rows, cols): ([u32; 53], [u32; 40]) = histograms(gray, k);
    let ghost (hr, hc) = (row_histogram(gray@, k as int), col_histogram(gray@, k as int));
    let used: &[u32] = &cols.as_slice()[0..b - a];
    proof {
        lemma_histogram_entries(gray@, k as int);
        lemma_histograms_agree(gray@, k as int);
        assert(used@ =~= cols@.take(slot_width(k as int)));
        lemma_mean_inside(hr);
        lemma_mean_inside(hc);
        let (ty, tx) = (total(hr), total(hc));
        assert(53 * ty <= 53 * 3392 && hc.len() * tx <= 40 * 2560) by (nonlinear_arith)
            requires
                0 <= ty <= 3392,
                0 <= tx <= 2560,
                0 <= hc.len() <= 40,
        ;
    }
    let (sy, ty): (u32, u32) = clipped_mean(rows.as_slice());
    let (sx, tx): (u32, u32) = clipped_mean(used);
    let r: [u32; 2] = if ty < 5 {
        // Nothing dark: fall back to the slot center.
        [add_ratio(0, (a + b) as u32, 2), add_ratio(0, (y0 + y1) as u32, 2)]
    } else {
        proof {
            assert((hc.len() - 1) * tx <= 39 * tx && (hr.len() - 1) * ty <= 52 * ty)
                by (nonlinear_arith)
                requires
                    hc.len() <= 40,
                    hr.len() == 53,
                    tx >= 0,
                    ty >= 0,
            ;
        }
        [add_ratio(a as u32, sx, tx), add_ratio(y0 as u32, sy, ty)]
    };
    assert(r@ =~= center_of(gray@, k as int));
    r
}

/// (x, y) click centers: dark-ink centroid inside each slot.
pub fn candidate_centers(gray: &[u8]) -> (r: [[u32; 2]; 6])
    requires
        gray@.len() >= W * H,
    ensures
        forall|k: int| 0 <= k < 6 ==> (#[trigger] r[k])@ == center_of(gray@, k),
{
    [
        center(gray, 0),
        center(gray, 1),
        center(gray, 2),
        center(gray, 3),
        center(gray, 4),
        center(gray, 5),
    ]
}

/// Pixel (`c`, `r`) of the crop of slot `k` around (`cx`, `cy`): the image where it is in the
/// slot, blank elsewhere.
pub open spec fn cand_pixel(gray: Seq<u8>, k: int, cx: int, cy: int, r: int, c: int) -> u32 {
    let (y, x) = (cy - 20 + r, cx - 20 + c);
    if CAND_ROWS.0 <= y < CAND_ROWS.1 && SLOTS[k].0 <= x < SLOTS[k].1 {
        ink_of(gray[y * 250 + x])
    } else {
        0
    }
}

/// A crop can be cut around the center: it rounds to a pixel, and so do the crop's edges.
pub open spec fn croppable(b: u32) -> bool {
    roundable(b) && i32::MIN + 20 <= rounded_int(b) <= i32::MAX - 20
}

/// Every click center can be cropped around, and rounds to a pixel of its slot.
pub proof fn lemma_center_croppable(gray: Seq<u8>, k: int)
    requires
        0 <= k < 6,
    ensures
        croppable(center_of(gray, k)[0]),
        croppable(center_of(gray, k)[1]),
        SLOTS[k].0 <= rounded_int(center_of(gray, k)[0]) < SLOTS[k].1,
        CAND_ROWS.0 <= rounded_int(center_of(gray, k)[1]) < CAND_ROWS.1,
{
    lemma_center_in_slot(gray, k);
    lemma_rounds_between(center_of(gray, k)[0], SLOTS[k].0 as int, SLOTS[k].1 - 1);
    lemma_rounds_between(center_of(gray, k)[1], CAND_ROWS.0 as int, CAND_ROWS.1 - 1);
}

/// A number between two whole numbers rounds to one between them.
pub proof fn lemma_rounds_between(b: u32, lo: int, hi: int)
    requires
        finite(b),
        0 <= lo <= hi < 0x8000_0000,
        lo * one() <= value(b) <= hi * one(),
    ensures
        roundable(b),
        lo <= rounded_int(b) <= hi,
{
    lemma_pow2_pos(149);
    let v = value(b);
    assert(v < 0x8000_0000 * one() && -0x8000_0000 * one() <= 0 && 0 <= lo * one())
        by (nonlinear_arith)
        requires
            v <= hi * one(),
            hi < 0x8000_0000,
            0 <= lo,
            0 < one(),
    ;
    assert(lo * one() * 1 <= v && v <= hi * one() * 1);
    lemma_half_even_between(v, 1, one(), lo, hi);
    assert(1 * one() == one());
    let h = half_even(v, one());
    assert(lo <= h <= hi) by (nonlinear_arith)
        requires
            lo * one() <= h * one() <= hi * one(),
            0 < one(),
    ;
}

/// One row of a candidate crop.
fn cand_row(gray: &[u8], k: usize, cx: i32, cy: i32, r: usize, out: &mut [u32])
    requires
        gray@.len() >= W * H,
        k < 6,
        r < 40,
        i32::MIN + 20 <= cx <= i32::MAX - 20,
        i32::MIN + 20 <= cy <= i32::MAX - 20,
        old(out)@.len() >= (k + 1) * 1600,
    ensures
        final(out)@.len() == old(out)@.len(),
        forall|i: int|
            0 <= i < old(out)@.len() ==> #[trigger] final(out)@[i] == if k * 1600 + r * 40 <= i < k
                * 1600 + r * 40 + 40 {
                cand_pixel(gray@, k as int, cx as int, cy as int, r as int, i % 40)
            } else {
                old(out)@[i]
            },
{
    let (ya, xa): (i32, i32) = (cy - 20, cx - 20);
    let (a, b): (i32, i32) = (SLOTS[k].0 as i32, SLOTS[k].1 as i32);
    let (y0, y1): (i32, i32) = (CAND_ROWS.0 as i32, CAND_ROWS.1 as i32);
    let y: i32 = ya + r as i32;
    let mut c: usize = 0;
    while c < CAND_SIZE
        invariant
            c <= 40,
            gray@.len() >= W * H,
            k < 6,
            r < 40,
            i32::MIN + 20 <= cx <= i32::MAX - 20,
            xa == cx - 20,
            y == cy - 20 + r,
            y0 == 25,
            y1 == 78,
            a == SLOTS[k as int].0,
            b == SLOTS[k as int].1,
            b <= 237,
            out@.len() == old(out)@.len(),
            out@.len() >= (k + 1) * 1600,
            forall|i: int|
                0 <= i < old(out)@.len() ==> #[trigger] out@[i] == if k * 1600 + r * 40 <= i < k
                    * 1600 + r * 40 + c {
                    cand_pixel(gray@, k as int, cx as int, cy as int, r as int, i % 40)
                } else {
                    old(out)@[i]
                },
        decreases 40 - c,
    {
        let x: i32 = xa + c as i32;
        let v: u32 = if y0 <= y && y < y1 && a <= x && x < b {
            ink(gray[y as usize * W + x as usize])
        } else {
            0
        };
        let at: usize = k * CAND_PIXELS + r * CAND_SIZE + c;
        assert(at as int % 40 == c);
        out[at] = v;
        c += 1;
    }
}

/// What `candidate_crops` puts at `i`.
pub open spec fn cand_value(gray: Seq<u8>, centers: Seq<Seq<u32>>, i: int) -> u32 {
    let k = i / 1600;
    cand_pixel(
        gray,
        k,
        rounded_int(centers[k][0]),
        rounded_int(centers[k][1]),
        i % 1600 / 40,
        i % 40,
    )
}

/// Six centers as a sequence.
pub open spec fn points_of(centers: [[u32; 2]; 6]) -> Seq<Seq<u32>> {
    Seq::new(6, |k: int| centers[k]@)
}

/// 6 crops of 40x40 centered on each candidate glyph (clipped to its slot). A shorter buffer
/// gets the crops that fit.
pub fn candidate_crops(gray: &[u8], centers: &[[u32; 2]; 6], out: &mut [u32])
    requires
        gray@.len() >= W * H,
        forall|k: int|
            0 <= k < 6 ==> croppable((#[trigger] centers[k])[0]) && croppable(centers[k][1]),
    ensures
        final(out)@.len() == old(out)@.len(),
        forall|i: int|
            0 <= i < old(out)@.len() ==> #[trigger] final(out)@[i] == if i / 1600 < crops_in(
                old(out)@.len() as int,
                1600,
                6,
            ) {
                cand_value(gray@, points_of(*centers), i)
            } else {
                old(out)@[i]
            },
{
    let ghost n = crops_in(out@.len() as int, 1600, 6);
    let ghost pts = points_of(*centers);
    let len: usize = out.len();
    let mut k: usize = 0;
    while k < 6 && k < len / CAND_PIXELS
        invariant
            k <= n <= 6,
            len == out@.len(),
            n == crops_in(len as int, 1600, 6),
            pts == points_of(*centers),
            gray@.len() >= W * H,
            forall|j: int|
                0 <= j < 6 ==> croppable((#[trigger] centers[j])[0]) && croppable(centers[j][1]),
            out@.len() == old(out)@.len(),
            forall|i: int|
                0 <= i < old(out)@.len() ==> #[trigger] out@[i] == if i / 1600 < k {
                    cand_value(gray@, pts, i)
                } else {
                    old(out)@[i]
                },
        decreases 6 - k,
    {
        assert(croppable(centers[k as int][0]));
        let (cx, cy): (i32, i32) = (
            round_half_even(centers[k][0]),
            round_half_even(centers[k][1]),
        );
        let mut r: usize = 0;
        while r < CAND_SIZE
            invariant
                r <= 40,
                k < n <= 6,
                len == out@.len(),
                n == crops_in(len as int, 1600, 6),
                cx == rounded_int(pts[k as int][0]),
                cy == rounded_int(pts[k as int][1]),
                i32::MIN + 20 <= cx <= i32::MAX - 20,
                i32::MIN + 20 <= cy <= i32::MAX - 20,
                gray@.len() >= W * H,
                out@.len() == old(out)@.len(),
                forall|i: int|
                    0 <= i < old(out)@.len() ==> #[trigger] out@[i] == if i / 1600 < k || i / 1600
                        == k && i % 1600 / 40 < r {
                        cand_value(gray@, pts, i)
                    } else {
                        old(out)@[i]
                    },
            decreases 40 - r,
        {
            let ghost before = out@;
            cand_row(gray, k, cx, cy, r, out);
            proof {
                assert forall|i: int| 0 <= i < old(out)@.len() implies #[trigger] out@[i] == if i
                    / 1600 < k || i / 1600 == k && i % 1600 / 40 < r + 1 {
                    cand_value(gray@, pts, i)
                } else {
                    old(out)@[i]
                } by {
                    let there = k * 1600 + r * 40 <= i < k * 1600 + r * 40 + 40;
                    assert(there <==> i / 1600 == k && i % 1600 / 40 == r);
                    assert(before[i] == if i / 1600 < k || i / 1600 == k && i % 1600 / 40 < r {
                        cand_value(gray@, pts, i)
                    } else {
                        old(out)@[i]
                    });
                }
            }
            r += 1;
        }
        k += 1;
    }
}

} // verus!
