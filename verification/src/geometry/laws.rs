//! What crops and click centers are, seen from the image.

use super::{
    cand_pixel, cand_value, center_of, clipped_sum, clipped_weight, col_histogram, dark_across,
    dark_down, first_past, high_quantile, ink_of, is_dark, lemma_histogram_entries,
    lemma_histograms_agree, lemma_mean_inside, low_quantile, prompt_pixel, rounded_int,
    row_histogram, slot_width, sum_to, total, SLOTS,
};
use crate::ieee::pack::{lemma_nearest_of, lemma_quotient_range, nearest_of};
use crate::ieee::ratio::{
    fine, lemma_half_of, lemma_offset_quotient_between, lemma_offset_quotient_near,
    offset_quotient,
};
use crate::ieee::rounding::lemma_half_even;
use crate::ieee::{excess, finite, magnitude, negative, one, value, INF};
use vstd::arithmetic::power2::{lemma_pow2_pos, pow2};
use vstd::prelude::*;

verus! {

/// Ink is the share of black in a pixel, (255 - gray) / 255, to the nearest number: no other is
/// nearer.
pub proof fn lemma_ink_is_nearest(g: u8, y: u32)
    requires
        finite(y),
        !negative(y),
    ensures
        finite(ink_of(g)),
        !negative(ink_of(g)),
        vstd::math::abs(255 * value(ink_of(g)) - (255 - g) * one()) <= vstd::math::abs(
            255 * value(y) - (255 - g) * one(),
        ),
{
    let n = (255 - g) * one();
    lemma_pow2_pos(149);
    assert(0 <= n <= 255 * one()) by (nonlinear_arith)
        requires
            n == (255 - g) * one(),
            0 <= g <= 255,
            0 < one(),
    ;
    lemma_quotient_range(n, 255);
    let s = excess(n / 255);
    let p = pow2(s as nat) as int;
    if s > 126 {
        vstd::arithmetic::power2::lemma_pow2_strictly_increases(126, s as nat);
        vstd::arithmetic::power2::lemma_pow2_adds(23, 126);
        vstd::arithmetic::power2::lemma2_to64();
        assert(0x80_0000 * (255 * p) > 255 * one()) by (nonlinear_arith)
            requires
                p > pow2(126),
                one() == 0x80_0000 * pow2(126),
        ;
    }
    assert(nearest_of(n, 255) < INF && 0 <= nearest_of(n, 255));
    lemma_nearest_of(n, 255, y as int);
}

/// Prompt crops hold the prompt cells of the image: rows 2 to 13, and of prompt `k` the 14
/// columns from 80 + 13 `k` on, in the same rows and from column 1 on.
pub proof fn lemma_prompt_shows_cell(gray: Seq<u8>, k: int, y: int, x: int)
    requires
        2 <= y < 14,
        80 + 13 * k <= x < 94 + 13 * k,
    ensures
        prompt_pixel(gray, k, y, x - 79 - 13 * k) == ink_of(gray[250 * y + x]),
{
}

/// Everything around them is blank.
pub proof fn lemma_prompt_blank(gray: Seq<u8>, k: int, r: int, c: int)
    requires
        r < 2 || r >= 14 || c < 1 || c >= 15,
    ensures
        prompt_pixel(gray, k, r, c) == 0,
{
}

/// Prompt cells are 13 pixels apart: in an image that is moved that far to the left, a prompt
/// is the next one of the image.
pub proof fn lemma_prompts_move(gray: Seq<u8>, moved: Seq<u8>, k: int, r: int, c: int)
    requires
        forall|y: int, x: int|
            0 <= y < 80 && 0 <= x < 237 ==> #[trigger] moved[y * 250 + x] == gray[y * 250 + x + 13],
        0 <= k < 3,
        0 <= r < 16,
        0 <= c < 16,
    ensures
        prompt_pixel(moved, k, r, c) == prompt_pixel(gray, k + 1, r, c),
{
    if 2 <= r < 14 && 1 <= c < 15 {
        let x = 79 + 13 * k + c;
        assert(moved[r * 250 + x] == gray[r * 250 + x + 13]);
    }
}

/// A candidate crop shows the image around its center, (20, 20) in the crop: every pixel of the
/// slot that is less than 20 to the right or below, or up to 20 to the left or above.
pub proof fn lemma_cand_shows_slot(gray: Seq<u8>, k: int, cx: int, cy: int, y: int, x: int)
    requires
        0 <= k < 6,
        25 <= y < 78,
        SLOTS[k].0 <= x < SLOTS[k].1,
        -20 <= y - cy < 20,
        -20 <= x - cx < 20,
    ensures
        cand_pixel(gray, k, cx, cy, 20 + y - cy, 20 + x - cx) == ink_of(gray[250 * y + x]),
{
}

/// What is not in the slot is blank.
pub proof fn lemma_cand_blank(gray: Seq<u8>, k: int, cx: int, cy: int, r: int, c: int)
    requires
        0 <= k < 6,
        cy + r - 20 < 25 || cy + r - 20 >= 78 || cx + c - 20 < SLOTS[k].0 || cx + c - 20
            >= SLOTS[k].1,
    ensures
        cand_pixel(gray, k, cx, cy, r, c) == 0,
{
}

/// A crop moves with its center: in an image that is moved, around a center that is moved as
/// far, it shows the same, as far as that is in the slot before and after.
pub proof fn lemma_cand_moves(
    gray: Seq<u8>,
    moved: Seq<u8>,
    k: int,
    cx: int,
    cy: int,
    dx: int,
    dy: int,
    r: int,
    c: int,
)
    requires
        0 <= k < 6,
        ({
            let (y, x) = (cy - 20 + r, cx - 20 + c);
            &&& 25 <= y < 78 && 25 <= y + dy < 78
            &&& SLOTS[k].0 <= x < SLOTS[k].1 && SLOTS[k].0 <= x + dx < SLOTS[k].1
            &&& moved[(y + dy) * 250 + x + dx] == gray[y * 250 + x]
        }),
    ensures
        cand_pixel(moved, k, cx + dx, cy + dy, r, c) == cand_pixel(gray, k, cx, cy, r, c),
{
}

/// Crops stand one behind the other, row by row, each around its own center, rounded.
pub proof fn lemma_cands_in_order(
    gray: Seq<u8>,
    centers: Seq<Seq<u32>>,
    k: int,
    r: int,
    c: int,
)
    requires
        0 <= k < 6,
        0 <= r < 40,
        0 <= c < 40,
    ensures
        cand_value(gray, centers, 1600 * k + 40 * r + c) == cand_pixel(
            gray,
            k,
            rounded_int(centers[k][0]),
            rounded_int(centers[k][1]),
            r,
            c,
        ),
{
    let i = 1600 * k + 40 * r + c;
    assert(i / 1600 == k && i % 1600 == 40 * r + c);
    assert((40 * r + c) / 40 == r);
    assert(i % 40 == c);
}

/// Rounding to a pixel: none is nearer, and of two that are as near it is the even one.
pub proof fn lemma_rounds_to_nearest(b: u32, k: int)
    requires
        finite(b),
        -0x8000_0000 * one() <= value(b) < 0x8000_0000 * one(),
    ensures
        vstd::math::abs(rounded_int(b) * one() - value(b)) <= vstd::math::abs(k * one() - value(b)),
        2 * vstd::math::abs(rounded_int(b) * one() - value(b)) == one() ==> rounded_int(b) % 2 == 0,
{
    lemma_pow2_pos(149);
    lemma_half_even(value(b), one(), k);
    let (v, d) = (value(b), one());
    vstd::arithmetic::div_mod::lemma_fundamental_div_mod(v, d);
    let (q, r) = (v / d, v % d);
    assert(q * d == d * q && (q + 1) * d == d * q + d) by (nonlinear_arith);
}

proof fn lemma_across(gray: Seq<u8>, other: Seq<u8>, y: int, x: int, n: int, at: int, more: int)
    requires
        0 <= n,
        forall|i: int|
            x <= i < x + n && i != at ==> #[trigger] is_dark(other, y, i) == is_dark(gray, y, i),
        x <= at < x + n ==> more == (if is_dark(other, y, at) {
            1int
        } else {
            0
        }) - (if is_dark(gray, y, at) {
            1int
        } else {
            0
        }),
    ensures
        dark_across(other, y, x, n) == dark_across(gray, y, x, n) + if x <= at < x + n {
            more
        } else {
            0
        },
    decreases n,
{
    if n > 0 {
        lemma_across(gray, other, y, x, n - 1, at, more);
        let i = x + n - 1;
        if i != at {
            assert(is_dark(other, y, i) == is_dark(gray, y, i));
        }
    }
}

proof fn lemma_down(gray: Seq<u8>, other: Seq<u8>, y: int, x: int, n: int, at: int, more: int)
    requires
        0 <= n,
        forall|i: int|
            y <= i < y + n && i != at ==> #[trigger] is_dark(other, i, x) == is_dark(gray, i, x),
        y <= at < y + n ==> more == (if is_dark(other, at, x) {
            1int
        } else {
            0
        }) - (if is_dark(gray, at, x) {
            1int
        } else {
            0
        }),
    ensures
        dark_down(other, y, x, n) == dark_down(gray, y, x, n) + if y <= at < y + n {
            more
        } else {
            0
        },
    decreases n,
{
    if n > 0 {
        lemma_down(gray, other, y, x, n - 1, at, more);
        let i = y + n - 1;
        if i != at {
            assert(is_dark(other, i, x) == is_dark(gray, i, x));
        }
    }
}

/// What a pixel counts for: when it turns dark, from 110 or more to less, its row and its
/// column of the slot that it is in have one more. Nothing else changes, and no other change of
/// it matters, nor any pixel outside the slot.
pub proof fn lemma_one_pixel(gray: Seq<u8>, y: int, x: int, v: u8, k: int)
    requires
        gray.len() == 20000,
        0 <= y < 80,
        0 <= x < 250,
        0 <= k < 6,
    ensures
        ({
            let other = gray.update(250 * y + x, v);
            let inside = 25 <= y < 78 && SLOTS[k].0 <= x < SLOTS[k].1;
            let turns = gray[250 * y + x] >= 110 && v < 110;
            let stays = (gray[250 * y + x] >= 110) == (v >= 110);
            &&& inside && turns ==> row_histogram(other, k) == row_histogram(gray, k).update(
                y - 25,
                row_histogram(gray, k)[y - 25] + 1,
            )
            &&& inside && turns ==> col_histogram(other, k) == col_histogram(gray, k).update(
                x - SLOTS[k].0,
                col_histogram(gray, k)[x - SLOTS[k].0] + 1,
            )
            &&& !inside || stays ==> row_histogram(other, k) == row_histogram(gray, k)
            &&& !inside || stays ==> col_histogram(other, k) == col_histogram(gray, k)
            &&& !inside || stays ==> center_of(other, k) == center_of(gray, k)
        }),
{
    let other = gray.update(250 * y + x, v);
    let (a, w) = (SLOTS[k].0 as int, slot_width(k));
    let inside = 25 <= y < 78 && SLOTS[k].0 <= x < SLOTS[k].1;
    let more = (if v < 110 {
        1int
    } else {
        0
    }) - (if gray[250 * y + x] < 110 {
        1int
    } else {
        0
    });
    assert forall|i: int, j: int| 0 <= i < 80 && 0 <= j < 250 && (i != y || j != x) implies
        #[trigger] is_dark(other, i, j) == is_dark(gray, i, j) by {
        assert(i * 250 + j != 250 * y + x) by {
            if i * 250 + j == 250 * y + x {
                assert(i == y && j == x);
            }
        }
    }
    let (r0, r1) = (row_histogram(gray, k), row_histogram(other, k));
    assert forall|i: int| 0 <= i < 53 implies r1[i] == r0[i] + if i == y - 25 && a <= x < a + w {
        more
    } else {
        0
    } by {
        if i == y - 25 {
            lemma_across(gray, other, 25 + i, a, w, x, more);
        } else {
            lemma_across(gray, other, 25 + i, a, w, -1, 0);
        }
    }
    let (c0, c1) = (col_histogram(gray, k), col_histogram(other, k));
    assert forall|i: int| 0 <= i < w implies c1[i] == c0[i] + if i == x - a && 25 <= y < 78 {
        more
    } else {
        0
    } by {
        if i == x - a {
            lemma_down(gray, other, 25, a + i, 53, y, more);
        } else {
            lemma_down(gray, other, 25, a + i, 53, -1, 0);
        }
    }
    if inside && more == 1 {
        assert(r1 =~= r0.update(y - 25, r0[y - 25] + 1));
        assert(c1 =~= c0.update(x - a, c0[x - a] + 1));
    }
    if !inside || more == 0 {
        assert(r1 =~= r0);
        assert(c1 =~= c0);
    }
}

/// An image without dark pixels counts nothing.
pub proof fn lemma_light_image(gray: Seq<u8>, k: int, i: int)
    requires
        gray.len() == 20000,
        forall|j: int| 0 <= j < 20000 ==> #[trigger] gray[j] >= 110,
        0 <= k < 6,
    ensures
        0 <= i < 53 ==> row_histogram(gray, k)[i] == 0,
        0 <= i < slot_width(k) ==> col_histogram(gray, k)[i] == 0,
{
    if 0 <= i < 53 {
        lemma_none_across(gray, 25 + i, SLOTS[k].0 as int, slot_width(k));
    }
    if 0 <= i < slot_width(k) {
        lemma_none_down(gray, 25, SLOTS[k].0 + i, 53);
    }
}

proof fn lemma_none_across(gray: Seq<u8>, y: int, x: int, n: int)
    requires
        gray.len() == 20000,
        forall|j: int| 0 <= j < 20000 ==> #[trigger] gray[j] >= 110,
        0 <= y < 80,
        0 <= x,
        0 <= n,
        x + n <= 250,
    ensures
        dark_across(gray, y, x, n) == 0,
    decreases n,
{
    if n > 0 {
        lemma_none_across(gray, y, x, n - 1);
        assert(gray[y * 250 + x + n - 1] >= 110);
    }
}

proof fn lemma_none_down(gray: Seq<u8>, y: int, x: int, n: int)
    requires
        gray.len() == 20000,
        forall|j: int| 0 <= j < 20000 ==> #[trigger] gray[j] >= 110,
        0 <= y,
        0 <= x < 250,
        0 <= n,
        y + n <= 80,
    ensures
        dark_down(gray, y, x, n) == 0,
    decreases n,
{
    if n > 0 {
        lemma_none_down(gray, y, x, n - 1);
        assert(gray[(y + n - 1) * 250 + x] >= 110);
    }
}

proof fn lemma_first_past_is(h: Seq<int>, bound: int, strict: bool, i: int)
    requires
        0 <= i <= h.len(),
    ensures
        ({
            let p = first_past(h, bound, strict, i);
            &&& i <= p <= h.len()
            &&& forall|j: int|
                i <= j < p ==> {
                    let s = 20 * #[trigger] sum_to(h, j + 1);
                    s < bound || strict && s == bound
                }
            &&& p < h.len() ==> 20 * sum_to(h, p + 1) > bound || !strict && 20 * sum_to(h, p + 1)
                == bound
        }),
    decreases h.len() - i,
{
    if i < h.len() {
        lemma_first_past_is(h, bound, strict, i + 1);
    }
}

/// The quantiles of counts: up to a twentieth of all lies below the low one, and more than that
/// up to it; less than 19 twentieths lie below the high one, and that or more up to it.
pub proof fn lemma_quantiles(h: Seq<int>)
    requires
        forall|i: int| 0 <= i < h.len() ==> 0 <= #[trigger] h[i],
        total(h) > 0,
    ensures
        ({
            let (lo, hi) = (low_quantile(h), high_quantile(h));
            &&& 0 <= lo <= hi < h.len()
            &&& 20 * sum_to(h, lo) <= total(h) < 20 * sum_to(h, lo + 1)
            &&& 20 * sum_to(h, hi) < 19 * total(h) <= 20 * sum_to(h, hi + 1)
        }),
{
    let n = h.len() as int;
    lemma_first_past_is(h, total(h), true, 0);
    lemma_first_past_is(h, 19 * total(h), false, 0);
    let (lo, hi) = (low_quantile(h), high_quantile(h));
    assert(n > 0);
    if lo == n {
        assert(20 * sum_to(h, n - 1 + 1) <= total(h));
    }
    if hi == n {
        assert(20 * sum_to(h, n - 1 + 1) < 19 * total(h));
    }
    if lo > 0 {
        assert(20 * sum_to(h, lo - 1 + 1) <= total(h));
    }
    if hi > 0 {
        assert(20 * sum_to(h, hi - 1 + 1) < 19 * total(h));
    }
    if hi < lo {
        assert(20 * sum_to(h, hi + 1) <= total(h));
    }
}

/// The sum of the first `n` positions, weighted by counts.
pub open spec fn moment(h: Seq<int>, n: int) -> int
    decreases n,
{
    if n <= 0 {
        0
    } else {
        moment(h, n - 1) + (n - 1) * h[n - 1]
    }
}

proof fn lemma_clipped_parts(h: Seq<int>, lo: int, hi: int, n: int)
    requires
        0 <= lo <= hi,
        0 <= n <= h.len(),
    ensures
        n <= lo ==> clipped_sum(h, lo, hi, n) == lo * sum_to(h, n),
        lo <= n <= hi + 1 ==> clipped_sum(h, lo, hi, n) == lo * sum_to(h, lo) + moment(h, n)
            - moment(h, lo),
        hi + 1 <= n ==> clipped_sum(h, lo, hi, n) == lo * sum_to(h, lo) + moment(h, hi + 1)
            - moment(h, lo) + hi * (sum_to(h, n) - sum_to(h, hi + 1)),
    decreases n,
{
    if n > 0 {
        lemma_clipped_parts(h, lo, hi, n - 1);
        let (v, s, t) = (h[n - 1], sum_to(h, n - 1), sum_to(h, hi + 1));
        assert(lo * (s + v) == lo * s + lo * v) by (nonlinear_arith);
        assert(hi * (s + v - t) == hi * (s - t) + hi * v) by (nonlinear_arith);
        assert(hi * (t - t) == 0) by (nonlinear_arith);
    } else {
        assert(lo * 0 == 0);
    }
}

/// Clipping moves what lies outside the quantiles onto them: all that is below the low one
/// counts as the low one, all that is above the high one as the high one, and all between them
/// as it is.
pub proof fn lemma_weight_is_clipped(h: Seq<int>)
    requires
        forall|i: int| 0 <= i < h.len() ==> 0 <= #[trigger] h[i],
        total(h) > 0,
    ensures
        ({
            let (lo, hi) = (low_quantile(h), high_quantile(h));
            clipped_weight(h) == lo * sum_to(h, lo) + (moment(h, hi + 1) - moment(h, lo)) + hi * (
            total(h) - sum_to(h, hi + 1))
        }),
{
    lemma_quantiles(h);
    let (lo, hi) = (low_quantile(h), high_quantile(h));
    lemma_clipped_parts(h, lo, hi, h.len() as int);
    if hi + 1 == h.len() {
        assert(hi * (total(h) - sum_to(h, hi + 1)) == 0) by (nonlinear_arith)
            requires
                total(h) == sum_to(h, hi + 1),
        ;
    }
}

/// A click center is the middle of its slot, exactly, where fewer than five pixels are dark;
/// else it is the mean of the clipped positions of the dark pixels, up to 2^-16.
pub proof fn lemma_center_is_mean(gray: Seq<u8>, k: int)
    requires
        0 <= k < 6,
    ensures
        ({
            let (c, rows, cols) = (center_of(gray, k), row_histogram(gray, k), col_histogram(
                gray,
                k,
            ));
            &&& total(rows) < 5 ==> 2 * value(c[0]) == (SLOTS[k].0 + SLOTS[k].1) * one()
            &&& total(rows) < 5 ==> 2 * value(c[1]) == 103 * one()
            &&& total(rows) >= 5 ==> {
                let n = total(cols);
                let (x, y) = (SLOTS[k].0 * n + clipped_weight(cols), 25 * n + clipped_weight(rows));
                &&& n == total(rows)
                &&& -(fine() * n) <= value(c[0]) * n - x * one() <= fine() * n
                &&& -(fine() * n) <= value(c[1]) * n - y * one() <= fine() * n
            }
        }),
{
    let (c, rows, cols) = (center_of(gray, k), row_histogram(gray, k), col_histogram(gray, k));
    let (a, b) = (SLOTS[k].0 as int, SLOTS[k].1 as int);
    lemma_histograms_agree(gray, k);
    if total(rows) < 5 {
        lemma_half_exact(a + b);
        lemma_half_exact(103);
    } else {
        lemma_histogram_entries(gray, k);
        lemma_mean_inside(cols);
        lemma_mean_inside(rows);
        let n = total(cols);
        let (u, v) = (clipped_weight(cols), clipped_weight(rows));
        assert(0 <= u && a * n + u <= 255 * n && 0 <= v && 25 * n + v <= 255 * n)
            by (nonlinear_arith)
            requires
                0 <= u <= (cols.len() - 1) * n,
                0 <= v <= (rows.len() - 1) * n,
                a + cols.len() <= 250,
                rows.len() == 53,
                0 < n,
                0 <= a,
        ;
        lemma_offset_quotient_near(a, u, n);
        lemma_offset_quotient_near(25, v, n);
        lemma_small_pattern(offset_quotient(a, u, n), a, u, n, cols.len() - 1);
        lemma_small_pattern(offset_quotient(25, v, n), 25, v, n, rows.len() - 1);
    }
}

proof fn lemma_small_pattern(x: int, base: int, n: int, d: int, hi: int)
    requires
        x == offset_quotient(base, n, d),
        0 <= base,
        0 <= hi,
        base + hi <= 256,
        0 < d,
        0 <= n <= hi * d,
    ensures
        0 <= x < INF,
        value(x as u32) == magnitude(x),
{
    assert(0 * d <= n);
    lemma_offset_quotient_between(base, n, d, 0, hi);
}

/// Half a small number is exact.
proof fn lemma_half_exact(n: int)
    requires
        0 < n < 512,
    ensures
        2 * value(offset_quotient(0, n, 2) as u32) == n * one(),
{
    lemma_small_pattern(offset_quotient(0, n, 2), 0, n, 2, 256);
    lemma_half_of(n);
}

} // verus!
