//! What one call cuts out, rounds or averages.

use super::laws::{
    lemma_center_is_mean, lemma_ink_is_nearest, lemma_quantiles, lemma_rounds_to_nearest,
    lemma_weight_is_clipped, moment,
};
use super::{
    cand_value, candidate_centers, candidate_crops, clipped_mean, clipped_weight, col_histogram,
    counts_of, high_quantile, ink, low_quantile, points_of, prompt_crops,
    round_half_even, roundable, row_histogram, sum_to, total, CAND_ROWS, H, SLOTS, W,
};
use crate::ieee::ratio::fine;
use crate::ieee::{finite, is_nan, negative, one, value};
use vstd::math::abs;
use vstd::prelude::*;

verus! {

/// Where the six slots are, from left to right: half-open ranges of columns, all in the same
/// rows.
pub proof fn lemma_slot_places()
    ensures
        SLOTS[0] == (0usize, 36usize),
        SLOTS[1] == (37usize, 76usize),
        SLOTS[2] == (77usize, 116usize),
        SLOTS[3] == (117usize, 156usize),
        SLOTS[4] == (157usize, 196usize),
        SLOTS[5] == (198usize, 237usize),
        CAND_ROWS == (25usize, 78usize),
        W == 250,
        H == 80,
{
}

/// Ink is the share of black in a pixel: white has none, black is one, and no number is nearer
/// to the share.
pub proof fn lemma_ink_call(g: u8, r: u32, y: u32)
    requires
        call_ensures(ink, (g,), r),
        finite(y),
        !negative(y),
    ensures
        finite(r),
        !negative(r),
        abs(255 * value(r) - (255 - g) * one()) <= abs(255 * value(y) - (255 - g) * one()),
{
    lemma_ink_is_nearest(g, y);
}

/// Rounding gives an integer that is as near as any, and the even one of two. What is no
/// number rounds to zero.
pub proof fn lemma_round_call(x: u32, r: i32, k: int)
    requires
        roundable(x),
        call_ensures(round_half_even, (x,), r),
    ensures
        is_nan(x) ==> r == 0,
        finite(x) && value(x) < 0x8000_0000 * one() ==> {
            &&& abs(r * one() - value(x)) <= abs(k * one() - value(x))
            &&& 2 * abs(r * one() - value(x)) == one() ==> r as int % 2 == 0
        },
        value(x) == 0x8000_0000 * one() && finite(x) ==> r == i32::MAX,
{
    if finite(x) && value(x) < 0x8000_0000 * one() {
        lemma_rounds_to_nearest(x, k);
    }
}

/// Prompt crops, pixel by pixel: rows 2 to 13 and columns 1 to 14 of crop `k` show the ink of
/// the image, in the same row and from column 80 on, 13 more for each crop before. All around
/// is blank.
pub proof fn lemma_prompt_crops_call(
    gray: &[u8],
    out: &mut [u32],
    k: int,
    r: int,
    c: int,
    v: u32,
)
    requires
        call_ensures(prompt_crops, (gray, out), ()),
        0 <= k < 4,
        0 <= r < 16,
        0 <= c < 16,
        256 * (k + 1) <= old(out)@.len(),
        call_ensures(ink, (gray@[250 * r + 79 + 13 * k + c],), v),
    ensures
        final(out)@.len() == old(out)@.len(),
        final(out)@[256 * k + 16 * r + c] == if 2 <= r < 14 && 1 <= c < 15 {
            v
        } else {
            0
        },
{
    let i = 256 * k + 16 * r + c;
    assert(i / 256 == k && i % 256 / 16 == r && i % 16 == c);
    assert(r * 250 + 79 + 13 * k + c == 250 * r + 79 + 13 * k + c);
    let n = old(out)@.len() as int;
    assert(n / 256 >= k + 1);
}

/// What is behind the prompt crops, or too short for another one, is left alone.
pub proof fn lemma_prompt_crops_end(gray: &[u8], out: &mut [u32], i: int)
    requires
        call_ensures(prompt_crops, (gray, out), ()),
        0 <= i < old(out)@.len(),
        i >= 1024 || old(out)@.len() < 256 * (i / 256 + 1),
    ensures
        final(out)@[i] == old(out)@[i],
{
}

/// Candidate crops, pixel by pixel: around the rounded center, which is at (20, 20), a crop
/// shows the ink of the image where it is in the crop's slot, and is blank elsewhere.
pub proof fn lemma_candidate_crops_call(
    gray: &[u8],
    centers: [[u32; 2]; 6],
    out: &mut [u32],
    k: int,
    r: int,
    c: int,
    cx: i32,
    cy: i32,
    v: u32,
)
    requires
        call_ensures(candidate_crops, (gray, &centers, out), ()),
        0 <= k < 6,
        0 <= r < 40,
        0 <= c < 40,
        1600 * (k + 1) <= old(out)@.len(),
        call_ensures(round_half_even, (centers[k][0],), cx),
        call_ensures(round_half_even, (centers[k][1],), cy),
        call_ensures(ink, (gray@[250 * (cy + r - 20) + (cx + c - 20)],), v),
    ensures
        final(out)@.len() == old(out)@.len(),
        final(out)@[1600 * k + 40 * r + c] == if 25 <= cy + r - 20 < 78 && SLOTS[k].0 <= cx + c
            - 20 < SLOTS[k].1 {
            v
        } else {
            0
        },
{
    let i = 1600 * k + 40 * r + c;
    assert(i / 1600 == k && i % 1600 == 40 * r + c);
    assert((40 * r + c) / 40 == r && i % 40 == c);
    let n = old(out)@.len() as int;
    assert(n / 1600 >= k + 1);
    assert(points_of(centers)[k] == centers[k]@);
    super::laws::lemma_cands_in_order(gray@, points_of(centers), k, r, c);
    assert(final(out)@[i] == cand_value(gray@, points_of(centers), i));
    let (y, x) = (cy + r - 20, cx + c - 20);
    assert(y * 250 + x == 250 * y + x);
}

/// What is behind the candidate crops, or too short for another one, is left alone.
pub proof fn lemma_candidate_crops_end(
    gray: &[u8],
    centers: [[u32; 2]; 6],
    out: &mut [u32],
    i: int,
)
    requires
        call_ensures(candidate_crops, (gray, &centers, out), ()),
        0 <= i < old(out)@.len(),
        i >= 9600 || old(out)@.len() < 1600 * (i / 1600 + 1),
    ensures
        final(out)@[i] == old(out)@[i],
{
}

/// The clipped mean is a sum over a count. The count is that of all entries; in the sum, the
/// positions below the 5% quantile count as that, and those above the 95% quantile as that.
pub proof fn lemma_clipped_mean_call(hist: &[u32], r: (u32, u32))
    requires
        call_ensures(clipped_mean, (hist,), r),
        total(counts_of(hist@)) > 0,
    ensures
        ({
            let h = counts_of(hist@);
            let (lo, hi) = (low_quantile(h), high_quantile(h));
            &&& h.len() == hist@.len()
            &&& forall|i: int| 0 <= i < h.len() ==> #[trigger] h[i] == hist@[i]
            &&& 0 <= lo <= hi < h.len()
            &&& 20 * sum_to(h, lo) <= total(h) < 20 * sum_to(h, lo + 1)
            &&& 20 * sum_to(h, hi) < 19 * total(h) <= 20 * sum_to(h, hi + 1)
            &&& r.1 == total(h)
            &&& r.0 == lo * sum_to(h, lo) + (moment(h, hi + 1) - moment(h, lo)) + hi * (total(h)
                - sum_to(h, hi + 1))
        }),
{
    let h = counts_of(hist@);
    lemma_quantiles(h);
    lemma_weight_is_clipped(h);
}

/// A click center is the middle of its slot where fewer than five pixels are dark; else it is
/// the mean of the clipped positions of the dark pixels, up to 2^-16.
pub proof fn lemma_centers_call(gray: &[u8], r: [[u32; 2]; 6], k: int)
    requires
        call_ensures(candidate_centers, (gray,), r),
        0 <= k < 6,
    ensures
        ({
            let (rows, cols) = (row_histogram(gray@, k), col_histogram(gray@, k));
            let (x, y) = (value(r[k][0]), value(r[k][1]));
            &&& total(rows) < 5 ==> 2 * x == (SLOTS[k].0 + SLOTS[k].1) * one()
            &&& total(rows) < 5 ==> 2 * y == 103 * one()
            &&& total(rows) >= 5 ==> {
                let n = total(cols);
                let (sx, sy) = (SLOTS[k].0 * n + clipped_weight(cols), 25 * n + clipped_weight(rows));
                &&& n == total(rows)
                &&& -(fine() * n) <= x * n - sx * one() <= fine() * n
                &&& -(fine() * n) <= y * n - sy * one() <= fine() * n
            }
        }),
{
    lemma_center_is_mean(gray@, k);
    assert(r[k]@ == super::center_of(gray@, k));
    assert(r[k][0] == r[k]@[0] && r[k][1] == r[k]@[1]);
}

} // verus!
