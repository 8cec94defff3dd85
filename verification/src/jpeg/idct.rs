//! The accurate integer inverse DCT, bit for bit.

use super::block::has_ac;
use crate::arith::{lemma_i64_as_i32, wrap32};
use vstd::arithmetic::power2::{lemma2_to64, lemma_pow2_pos, lemma_pow2_unfold, pow2};
use vstd::prelude::*;

verus! {

const CONST_BITS: u32 = 13;

const PASS1_BITS: u32 = 2;

/// `x / 2^n`, rounded to the nearest integer, halves up.
pub open spec fn descaled(x: int, n: int) -> int {
    (x + pow2((n - 1) as nat) as int) / pow2(n as nat) as int
}

/// `x + 128` limited to a sample, where `x` wraps around at 10 bits.
pub open spec fn range_limited(x: int) -> u8 {
    let v = (x + 512) % 1024 - 512 + 128;
    if v < 0 {
        0
    } else if v > 255 {
        255
    } else {
        v as u8
    }
}

/// The part of output `k < 4` that comes from the even inputs.
#[verifier::opaque]
pub open spec fn even_part(x0: int, x2: int, x4: int, x6: int, k: int) -> int {
    if k == 0 {
        8192 * x0 + 10703 * x2 + 8192 * x4 + 4433 * x6
    } else if k == 1 {
        8192 * x0 + 4433 * x2 - 8192 * x4 - 10704 * x6
    } else if k == 2 {
        8192 * x0 - 4433 * x2 - 8192 * x4 + 10704 * x6
    } else {
        8192 * x0 - 10703 * x2 + 8192 * x4 - 4433 * x6
    }
}

/// The part of output `k < 4` that comes from the odd inputs.
#[verifier::opaque]
pub open spec fn odd_part(x1: int, x3: int, x5: int, x7: int, k: int) -> int {
    if k == 0 {
        11363 * x1 + 9633 * x3 + 6437 * x5 + 2260 * x7
    } else if k == 1 {
        9633 * x1 - 2259 * x3 - 11362 * x5 - 6436 * x7
    } else if k == 2 {
        6437 * x1 - 11362 * x3 + 2261 * x5 + 9633 * x7
    } else {
        2260 * x1 - 6436 * x3 + 9633 * x5 - 11363 * x7
    }
}

/// Output `k` of the one-dimensional inverse transform of 8 inputs, scaled by 2^13:
/// the inputs times the transform's basis, whose even rows are symmetric and odd rows
/// antisymmetric.
pub open spec fn idct8(x: Seq<int>, k: int) -> int {
    if k < 4 {
        even_part(x[0], x[2], x[4], x[6], k) + odd_part(x[1], x[3], x[5], x[7], k)
    } else {
        even_part(x[0], x[2], x[4], x[6], 7 - k) - odd_part(x[1], x[3], x[5], x[7], 7 - k)
    }
}

/// Column `c` of the dequantized block.
pub open spec fn column(coef: Seq<i32>, q: Seq<u16>, c: int) -> Seq<int> {
    Seq::new(8, |r: int| coef[8 * r + c] * q[8 * r + c])
}

/// Entry (`r`, `c`) after the columns are transformed, scaled by 4 and kept in 32 bits.
pub open spec fn pass1(coef: Seq<i32>, q: Seq<u16>, r: int, c: int) -> int {
    wrap32(descaled(idct8(column(coef, q, c), r), 11))
}

/// Row `r` after the columns are transformed.
pub open spec fn pass1_row(coef: Seq<i32>, q: Seq<u16>, r: int) -> Seq<int> {
    Seq::new(8, |c: int| pass1(coef, q, r, c))
}

/// Sample (`r`, `c`) of the block with coefficients `coef` (row-major, not dequantized)
/// and quantization table `q`.
pub open spec fn sample(coef: Seq<i32>, q: Seq<u16>, r: int, c: int) -> u8 {
    range_limited(descaled(idct8(pass1_row(coef, q, r), c), 18))
}

/// An arithmetic right shift is a division that rounds down.
proof fn lemma_i64_shr(x: i64, n: u32)
    requires
        n < 64,
    ensures
        (x >> n) as int == x as int / pow2(n as nat) as int,
    decreases n,
{
    if n == 0 {
        lemma2_to64();
        assert(x >> 0u32 == x) by (bit_vector);
        assert(x as int / 1 == x);
    } else {
        let m = (n - 1) as u32;
        lemma_i64_shr(x, m);
        let y = x >> m;
        assert(x >> n == (x >> m) >> 1u32) by (bit_vector)
            requires
                0 < n < 64,
                m == n - 1,
        ;
        assert(y >> 1u32 == y / 2) by (bit_vector);
        lemma_pow2_unfold(n as nat);
        lemma_pow2_pos(m as nat);
        let p = pow2(m as nat) as int;
        let (a, r) = (x as int / p, x as int % p);
        vstd::arithmetic::div_mod::lemma_fundamental_div_mod(x as int, p);
        vstd::arithmetic::div_mod::lemma_mod_bound(x as int, p);
        assert(x == (a / 2) * (2 * p) + (p * (a % 2) + r)) by (nonlinear_arith)
            requires
                x == p * a + r,
                a == 2 * (a / 2) + a % 2,
        ;
        assert(0 <= p * (a % 2) + r < 2 * p) by (nonlinear_arith)
            requires
                0 <= r < p,
                0 <= a % 2 < 2,
        ;
        vstd::arithmetic::div_mod::lemma_fundamental_div_mod_converse(
            x as int,
            2 * p,
            a / 2,
            p * (a % 2) + r,
        );
    }
}

/// `x / 2^n`, rounded to the nearest integer, halves up.
pub fn descale(x: i64, n: u32) -> (r: i64)
    requires
        1 <= n <= 63,
        x + pow2((n - 1) as nat) <= i64::MAX,
    ensures
        r == descaled(x as int, n as int),
{
    let m: u32 = n - 1;
    proof {
        lemma_one_shl(m);
        lemma_i64_shr((x + (1i64 << m)) as i64, n);
    }
    (x + (1i64 << m)) >> n
}

proof fn lemma_one_shl(m: u32)
    requires
        m <= 62,
    ensures
        (1i64 << m) as int == pow2(m as nat),
    decreases m,
{
    if m == 0 {
        lemma2_to64();
        assert(1i64 << 0u32 == 1) by (bit_vector);
    } else {
        let k = (m - 1) as u32;
        lemma_one_shl(k);
        lemma_pow2_unfold(m as nat);
        assert(1i64 << m == 2 * (1i64 << k)) by (bit_vector)
            requires
                0 < m <= 62,
                k == m - 1,
        ;
    }
}

/// +128 and clamp, with wraparound at 10 bits.
pub fn range_limit(x: i64) -> (r: u8)
    ensures
        r == range_limited(x as int),
{
    assert(((x as i32) & 1023) as i64 == x & 1023) by (bit_vector);
    assert(x & 1023 == x % 1024) by (bit_vector);
    let v: i32 = (x as i32) & 1023;
    if v < 128 {
        (v + 128) as u8
    } else if v < 512 {
        255
    } else if v < 896 {
        0
    } else {
        (v - 896) as u8
    }
}

/// The integers of an array of inputs.
pub open spec fn ints(x: Seq<i64>) -> Seq<int> {
    Seq::new(8, |i: int| x[i] as int)
}

/// The largest dequantized coefficient: 2^31 times 65535.
pub const LARGEST: i64 = 0x7FFF_8000_0000;

/// A dequantized coefficient, or an entry of the first pass.
pub open spec fn in_range(x: i64) -> bool {
    -LARGEST <= x <= LARGEST
}

/// Even part of the 1-D pass. The multipliers are 13-bit fixed point: 4433 is 0.541.
fn idct_even(x0: i64, x2: i64, x4: i64, x6: i64) -> (r: (i64, i64, i64, i64))
    requires
        in_range(x0),
        in_range(x2),
        in_range(x4),
        in_range(x6),
    ensures
        r.0 == even_part(x0 as int, x2 as int, x4 as int, x6 as int, 0),
        r.1 == even_part(x0 as int, x2 as int, x4 as int, x6 as int, 1),
        r.2 == even_part(x0 as int, x2 as int, x4 as int, x6 as int, 2),
        r.3 == even_part(x0 as int, x2 as int, x4 as int, x6 as int, 3),
        -31521 * LARGEST <= r.0 <= 31521 * LARGEST,
        -31521 * LARGEST <= r.1 <= 31521 * LARGEST,
        -31521 * LARGEST <= r.2 <= 31521 * LARGEST,
        -31521 * LARGEST <= r.3 <= 31521 * LARGEST,
{
    reveal(even_part);
    let z1: i64 = (x2 + x6) * 4433;
    let tmp2: i64 = z1 - x6 * 15137;
    let tmp3: i64 = z1 + x2 * 6270;
    let s: i64 = x0 + x4;
    let d: i64 = x0 - x4;
    assert(s << 13u32 == s * 8192) by (bit_vector)
        requires
            -0x1_0000_0000_0000 <= s <= 0x1_0000_0000_0000,
    ;
    assert(d << 13u32 == d * 8192) by (bit_vector)
        requires
            -0x1_0000_0000_0000 <= d <= 0x1_0000_0000_0000,
    ;
    let tmp0: i64 = s << CONST_BITS;
    let tmp1: i64 = d << CONST_BITS;
    (tmp0 + tmp3, tmp1 + tmp2, tmp1 - tmp2, tmp0 - tmp3)
}

/// Odd part of the 1-D pass.
fn idct_odd(x1: i64, x3: i64, x5: i64, x7: i64) -> (r: (i64, i64, i64, i64))
    requires
        in_range(x1),
        in_range(x3),
        in_range(x5),
        in_range(x7),
    ensures
        r.0 == odd_part(x1 as int, x3 as int, x5 as int, x7 as int, 0),
        r.1 == odd_part(x1 as int, x3 as int, x5 as int, x7 as int, 1),
        r.2 == odd_part(x1 as int, x3 as int, x5 as int, x7 as int, 2),
        r.3 == odd_part(x1 as int, x3 as int, x5 as int, x7 as int, 3),
        -31521 * LARGEST <= r.0 <= 31521 * LARGEST,
        -31521 * LARGEST <= r.1 <= 31521 * LARGEST,
        -31521 * LARGEST <= r.2 <= 31521 * LARGEST,
        -31521 * LARGEST <= r.3 <= 31521 * LARGEST,
{
    reveal(odd_part);
    let z1: i64 = x7 + x1;
    let z2: i64 = x5 + x3;
    let z3: i64 = x7 + x3;
    let z4: i64 = x5 + x1;
    let z5: i64 = (z3 + z4) * 9633;
    let z1: i64 = -z1 * 7373;
    let z2: i64 = -z2 * 20995;
    let z3: i64 = -z3 * 16069 + z5;
    let z4: i64 = -z4 * 3196 + z5;
    let t0: i64 = x7 * 2446 + z1 + z3;
    let t1: i64 = x5 * 16819 + z2 + z4;
    let t2: i64 = x3 * 25172 + z2 + z3;
    let t3: i64 = x1 * 12299 + z1 + z4;
    (t3, t2, t1, t0)
}

/// One 1-D pass of the inverse DCT on 8 dequantized inputs.
pub fn idct_1d(x: [i64; 8]) -> (y: [i64; 8])
    requires
        forall|i: int| 0 <= i < 8 ==> in_range(#[trigger] x[i]),
    ensures
        forall|k: int| 0 <= k < 8 ==> (#[trigger] y[k]) as int == idct8(ints(x@), k),
        forall|k: int|
            0 <= k < 8 ==> -63042 * LARGEST <= #[trigger] y[k] <= 63042 * LARGEST,
{
    let (e0, e1, e2, e3): (i64, i64, i64, i64) = idct_even(x[0], x[2], x[4], x[6]);
    let (o0, o1, o2, o3): (i64, i64, i64, i64) = idct_odd(x[1], x[3], x[5], x[7]);
    [e0 + o0, e1 + o1, e2 + o2, e3 + o3, e3 - o3, e2 - o2, e1 - o1, e0 - o0]
}

/// With only its first input nonzero, the transform is flat, and both passes round it
/// exactly as a plain scaling does.
pub proof fn lemma_idct8_flat(x: Seq<int>, k: int)
    requires
        x.len() == 8,
        forall|i: int| 1 <= i < 8 ==> x[i] == 0,
        0 <= k < 8,
    ensures
        idct8(x, k) == 8192 * x[0],
        descaled(idct8(x, k), 11) == 4 * x[0],
        descaled(idct8(x, k), 18) == descaled(x[0], 5),
{
    reveal(even_part);
    reveal(odd_part);
    lemma2_to64();
    let y = idct8(x, k);
    assert(y == 8192 * x[0]);
    assert(descaled(y, 11) == (y + 1024) / 2048);
    assert(descaled(y, 18) == (y + 0x20000) / 0x40000);
    assert(descaled(x[0], 5) == (x[0] + 16) / 32);
}

/// The first pass, over the columns.
fn idct_columns(coef: &[i32; 64], q: &[u16; 64]) -> (ws: [i32; 64])
    ensures
        forall|i: int|
            0 <= i < 64 ==> (#[trigger] ws[i]) as int == pass1(coef@, q@, i / 8, i % 8),
{
    let mut ws: [i32; 64] = [0; 64];
    let mut c: usize = 0;
    while c < 8
        invariant
            c <= 8,
            forall|i: int|
                0 <= i < 64 && i % 8 < c ==> (#[trigger] ws[i]) as int == pass1(
                    coef@,
                    q@,
                    i / 8,
                    i % 8,
                ),
        decreases 8 - c,
    {
        let ghost col = column(coef@, q@, c as int);
        let mut x: [i64; 8] = [0; 8];
        let mut flat: bool = true;
        let mut r: usize = 0;
        while r < 8
            invariant
                r <= 8,
                c < 8,
                col == column(coef@, q@, c as int),
                forall|j: int| 0 <= j < r ==> (#[trigger] x[j]) as int == col[j],
                forall|j: int| 0 <= j < r ==> in_range(#[trigger] x[j]),
                flat ==> forall|j: int| 1 <= j < r ==> col[j] == 0,
            decreases 8 - r,
        {
            let a: i64 = coef[r * 8 + c] as i64;
            let b: i64 = q[r * 8 + c] as i64;
            assert(-LARGEST <= a * b <= LARGEST) by (nonlinear_arith)
                requires
                    -0x8000_0000 <= a <= 0x8000_0000,
                    0 <= b <= 0xFFFF,
                    LARGEST == 0x8000_0000 * 0xFFFF,
            ;
            assert(a == 0 ==> a * b == 0) by (nonlinear_arith);
            if r > 0 && a != 0 {
                flat = false;
            }
            x[r] = a * b;
            r += 1;
        }
        if flat {
            proof {
                lemma_i64_as_i32(((x[0]) << 2u32) as i64);
                let x0 = x[0];
                assert(x0 << 2u32 == x0 * 4) by (bit_vector)
                    requires
                        -0x8000_0000_0000 <= x0 <= 0x8000_0000_0000,
                ;
            }
            let dc: i32 = (x[0] << PASS1_BITS) as i32;
            let mut r: usize = 0;
            while r < 8
                invariant
                    r <= 8,
                    c < 8,
                    col == column(coef@, q@, c as int),
                    forall|j: int| 1 <= j < 8 ==> col[j] == 0,
                    dc as int == wrap32(4 * col[0]),
                    forall|i: int|
                        0 <= i < 64 && (i % 8 < c || i % 8 == c && i / 8 < r) ==> (
                        #[trigger] ws[i]) as int == pass1(coef@, q@, i / 8, i % 8),
                decreases 8 - r,
            {
                proof {
                    lemma_idct8_flat(col, r as int);
                }
                ws[r * 8 + c] = dc;
                r += 1;
            }
        } else {
            let y: [i64; 8] = idct_1d(x);
            assert(ints(x@) =~= col);
            let mut r: usize = 0;
            while r < 8
                invariant
                    r <= 8,
                    c < 8,
                    col == column(coef@, q@, c as int),
                    forall|k: int| 0 <= k < 8 ==> (#[trigger] y[k]) as int == idct8(col, k),
                    forall|k: int|
                        0 <= k < 8 ==> -63042 * LARGEST <= #[trigger] y[k] <= 63042 * LARGEST,
                    forall|i: int|
                        0 <= i < 64 && (i % 8 < c || i % 8 == c && i / 8 < r) ==> (
                        #[trigger] ws[i]) as int == pass1(coef@, q@, i / 8, i % 8),
                decreases 8 - r,
            {
                proof {
                    lemma2_to64();
                }
                let v: i64 = descale(y[r], CONST_BITS - PASS1_BITS);
                proof {
                    lemma_i64_as_i32(v);
                }
                ws[r * 8 + c] = v as i32;
                r += 1;
            }
        }
        c += 1;
    }
    ws
}

/// Offset `i` from the corner of an 8x8 block of a plane lies in the block.
pub open spec fn in_block(i: int) -> bool {
    0 <= i && i / 256 < 8 && i % 256 < 8
}

/// The last of `n` rows, `stride` apart, that starts at or before `i`.
pub open spec fn row_of(i: int, stride: int, n: int) -> int {
    if stride <= 0 || i / stride >= n {
        n - 1
    } else {
        i / stride
    }
}

/// Where `i` lies in that row; 8 or more if it is past the row's samples.
pub open spec fn col_of(i: int, stride: int, n: int) -> int {
    i - row_of(i, stride, n) * stride
}

/// `out` is `before` with the first `n` rows of the block in place, `stride` apart from its
/// start on. Where rows overlap, the later one shows.
pub open spec fn rows_painted(
    before: Seq<u8>,
    out: Seq<u8>,
    coef: Seq<i32>,
    q: Seq<u16>,
    stride: int,
    n: int,
) -> bool {
    &&& out.len() == before.len()
    &&& forall|i: int|
        0 <= i < out.len() ==> #[trigger] out[i] == if n > 0 && col_of(i, stride, n) < 8 {
            sample(coef, q, row_of(i, stride, n), col_of(i, stride, n))
        } else {
            before[i]
        }
}

/// `out` is `before` with the block in place, its rows `stride` apart from the start on.
pub open spec fn painted(
    before: Seq<u8>,
    out: Seq<u8>,
    coef: Seq<i32>,
    q: Seq<u16>,
    stride: int,
) -> bool {
    rows_painted(before, out, coef, q, stride, 8)
}

/// Rows that do not overlap: sample (`r`, `c`) lies at `r * stride + c`.
pub proof fn lemma_sample_place(r: int, c: int, stride: int)
    requires
        8 <= stride,
        0 <= r < 8,
        0 <= c < 8,
    ensures
        row_of(r * stride + c, stride, 8) == r,
        col_of(r * stride + c, stride, 8) == c,
{
    vstd::arithmetic::div_mod::lemma_fundamental_div_mod_converse(r * stride + c, stride, r, c);
}

/// Rows that do not overlap hold all their samples.
proof fn lemma_places(before: Seq<u8>, out: Seq<u8>, coef: Seq<i32>, q: Seq<u16>, stride: int)
    requires
        8 <= stride,
        out.len() >= 7 * stride + 8,
        painted(before, out, coef, q, stride),
    ensures
        forall|r: int, c: int|
            0 <= r < 8 && 0 <= c < 8 ==> out[r * stride + c] == #[trigger] sample(coef, q, r, c),
{
    assert forall|r: int, c: int| 0 <= r < 8 && 0 <= c < 8 implies out[r * stride + c]
        == #[trigger] sample(coef, q, r, c) by {
        lemma_sample_place(r, c, stride);
        lemma_row_fits(r, stride, out.len() as int);
    }
}

/// One more row is in place.
proof fn lemma_row_painted(
    before: Seq<u8>,
    mid: Seq<u8>,
    out: Seq<u8>,
    coef: Seq<i32>,
    q: Seq<u16>,
    stride: int,
    r: int,
)
    requires
        0 <= stride,
        0 <= r,
        rows_painted(before, mid, coef, q, stride, r),
        out.len() == mid.len(),
        forall|i: int|
            0 <= i < out.len() ==> #[trigger] out[i] == if r * stride <= i < r * stride + 8 {
                sample(coef, q, r, i - r * stride)
            } else {
                mid[i]
            },
    ensures
        rows_painted(before, out, coef, q, stride, r + 1),
{
    assert forall|i: int| 0 <= i < out.len() implies #[trigger] out[i] == if col_of(
        i,
        stride,
        r + 1,
    ) < 8 {
        sample(coef, q, row_of(i, stride, r + 1), col_of(i, stride, r + 1))
    } else {
        before[i]
    } by {
        if stride > 0 {
            let k = i / stride;
            vstd::arithmetic::div_mod::lemma_fundamental_div_mod(i, stride);
            assert(k >= r <==> r * stride <= i) by (nonlinear_arith)
                requires
                    i == stride * k + i % stride,
                    0 <= i % stride < stride,
            ;
            assert(k >= 0) by (nonlinear_arith)
                requires
                    i == stride * k + i % stride,
                    i % stride < stride,
                    0 <= i,
            ;
            if k >= r && r > 0 {
                // Rows before this one start earlier, so they do not reach further.
                assert((r - 1) * stride <= r * stride) by (nonlinear_arith)
                    requires
                        0 <= stride,
                ;
            }
        } else {
            assert(r * stride == 0 && (r - 1) * stride == 0) by (nonlinear_arith)
                requires
                    stride == 0,
            ;
        }
    }
}

/// Writes one row of samples at `at`.
fn store_row(out: &mut [u8], at: usize, s: &[u8; 8])
    requires
        at + 8 <= old(out)@.len(),
    ensures
        final(out)@.len() == old(out)@.len(),
        forall|i: int|
            0 <= i < old(out)@.len() ==> #[trigger] final(out)@[i] == if at <= i < at + 8 {
                s[i - at]
            } else {
                old(out)@[i]
            },
{
    let n: usize = out.len();
    let mut k: usize = 0;
    while k < 8
        invariant
            k <= 8,
            at + 8 <= n,
            n == out@.len(),
            n == old(out)@.len(),
            forall|i: int|
                0 <= i < n ==> #[trigger] out@[i] == if at <= i < at + k {
                    s[i - at]
                } else {
                    old(out)@[i]
                },
        decreases 8 - k,
    {
        out[at + k] = s[k];
        k += 1;
    }
}

/// A row's start, for rows of which the last one fits.
proof fn lemma_row_fits(r: int, stride: int, n: int)
    requires
        0 <= r < 8,
        0 <= stride,
        7 * stride + 8 <= n,
    ensures
        0 <= r * stride,
        r * stride + 8 <= n,
{
    assert(0 <= r * stride <= 7 * stride) by (nonlinear_arith)
        requires
            0 <= r <= 7,
            0 <= stride,
    ;
}

/// The samples of row `r`, from the first pass.
fn idct_row(
    ws: &[i32; 64],
    r: usize,
    Ghost(coef): Ghost<Seq<i32>>,
    Ghost(q): Ghost<Seq<u16>>,
) -> (s: [u8; 8])
    requires
        r < 8,
        forall|i: int| 0 <= i < 64 ==> (#[trigger] ws[i]) as int == pass1(coef, q, i / 8, i % 8),
    ensures
        forall|j: int| 0 <= j < 8 ==> #[trigger] s[j] == sample(coef, q, r as int, j),
{
    let ghost row = pass1_row(coef, q, r as int);
    let mut x: [i64; 8] = [0; 8];
    let mut flat: bool = true;
    let mut k: usize = 0;
    while k < 8
        invariant
            k <= 8,
            r < 8,
            row == pass1_row(coef, q, r as int),
            forall|i: int|
                0 <= i < 64 ==> (#[trigger] ws[i]) as int == pass1(coef, q, i / 8, i % 8),
            forall|j: int| 0 <= j < k ==> (#[trigger] x[j]) as int == row[j],
            forall|j: int| 0 <= j < k ==> in_range(#[trigger] x[j]),
            flat ==> forall|j: int| 1 <= j < k ==> row[j] == 0,
        decreases 8 - k,
    {
        let v: i32 = ws[r * 8 + k];
        if k > 0 && v != 0 {
            flat = false;
        }
        x[k] = v as i64;
        k += 1;
    }
    if flat {
        proof {
            lemma2_to64();
            assert forall|j: int| 0 <= j < 8 implies sample(coef, q, r as int, j) == range_limited(
                descaled(row[0], 5),
            ) by {
                lemma_idct8_flat(row, j);
            }
        }
        return [range_limit(descale(x[0], PASS1_BITS + 3)); 8];
    }
    let y: [i64; 8] = idct_1d(x);
    assert(ints(x@) =~= row);
    let mut s: [u8; 8] = [0; 8];
    let mut k: usize = 0;
    while k < 8
        invariant
            k <= 8,
            row == pass1_row(coef, q, r as int),
            forall|j: int| 0 <= j < 8 ==> (#[trigger] y[j]) as int == idct8(row, j),
            forall|j: int| 0 <= j < 8 ==> -63042 * LARGEST <= #[trigger] y[j] <= 63042 * LARGEST,
            forall|j: int| 0 <= j < k ==> #[trigger] s[j] == sample(coef, q, r as int, j),
        decreases 8 - k,
    {
        proof {
            lemma2_to64();
        }
        s[k] = range_limit(descale(y[k], CONST_BITS + PASS1_BITS + 3));
        k += 1;
    }
    s
}

/// Inverse DCT of `coef` (row-major, not dequantized): 8x8 samples into `out`, whose rows are
/// `stride` apart.
pub fn idct(coef: &[i32; 64], q: &[u16; 64], out: &mut [u8], stride: usize)
    requires
        old(out)@.len() >= 7 * stride + 8,
    ensures
        painted(old(out)@, final(out)@, coef@, q@, stride as int),
        stride >= 8 ==> forall|r: int, c: int|
            0 <= r < 8 && 0 <= c < 8 ==> final(out)@[r * stride + c] == #[trigger] sample(
                coef@,
                q@,
                r,
                c,
            ),
{
    let ws: [i32; 64] = idct_columns(coef, q);
    let n: usize = out.len();
    let mut r: usize = 0;
    while r < 8
        invariant
            r <= 8,
            n == out@.len(),
            n >= 7 * stride + 8,
            forall|i: int|
                0 <= i < 64 ==> (#[trigger] ws[i]) as int == pass1(coef@, q@, i / 8, i % 8),
            rows_painted(old(out)@, out@, coef@, q@, stride as int, r as int),
        decreases 8 - r,
    {
        let s: [u8; 8] = idct_row(&ws, r, Ghost(coef@), Ghost(q@));
        let ghost mid = out@;
        proof {
            lemma_row_fits(r as int, stride as int, n as int);
        }
        store_row(out, r * stride, &s);
        proof {
            lemma_row_painted(old(out)@, mid, out@, coef@, q@, stride as int, r as int);
        }
        r += 1;
    }
    proof {
        if stride >= 8 {
            lemma_places(old(out)@, out@, coef@, q@, stride as int);
        }
    }
}

/// A block without AC coefficients is one flat shade, computed from its DC coefficient
/// alone.
pub proof fn lemma_sample_flat(coef: Seq<i32>, q: Seq<u16>, r: int, c: int)
    requires
        coef.len() == 64,
        q.len() == 64,
        !has_ac(coef),
        0 <= r < 8,
        0 <= c < 8,
    ensures
        sample(coef, q, r, c) == range_limited(descaled(wrap32(4 * (coef[0] * q[0])), 5)),
{
    let row = pass1_row(coef, q, r);
    assert forall|k: int| 0 <= k < 8 implies #[trigger] row[k] == if k == 0 {
        wrap32(4 * (coef[0] * q[0]))
    } else {
        0
    } by {
        let col = column(coef, q, k);
        assert forall|j: int| 0 <= j < 8 && (j > 0 || k > 0) implies col[j] == 0 by {
            assert(coef[8 * j + k] == 0);
            let (a, b) = (coef[8 * j + k] as int, q[8 * j + k] as int);
            assert(a * b == 0) by (nonlinear_arith)
                requires
                    a == 0,
            ;
        }
        lemma_idct8_flat(col, r);
    }
    lemma_idct8_flat(row, c);
}

/// What `idct` computes for a block without AC coefficients.
pub fn idct_flat(coef: &[i32; 64], q: &[u16; 64], out: &mut [u8], stride: usize)
    requires
        !has_ac(coef@),
        old(out)@.len() >= 7 * stride + 8,
    ensures
        painted(old(out)@, final(out)@, coef@, q@, stride as int),
        stride >= 8 ==> forall|r: int, c: int|
            0 <= r < 8 && 0 <= c < 8 ==> final(out)@[r * stride + c] == #[trigger] sample(
                coef@,
                q@,
                r,
                c,
            ),
{
    let a: i64 = coef[0] as i64;
    let b: i64 = q[0] as i64;
    assert(-LARGEST <= a * b <= LARGEST) by (nonlinear_arith)
        requires
            -0x8000_0000 <= a <= 0x8000_0000,
            0 <= b <= 0xFFFF,
            LARGEST == 0x8000_0000 * 0xFFFF,
    ;
    let x: i64 = a * b;
    assert(x << 2u32 == x * 4) by (bit_vector)
        requires
            -0x8000_0000_0000 <= x <= 0x8000_0000_0000,
    ;
    proof {
        lemma_i64_as_i32((x << 2u32) as i64);
        lemma2_to64();
    }
    let dc: i32 = (x << PASS1_BITS) as i32;
    let v: u8 = range_limit(descale(dc as i64, PASS1_BITS + 3));
    let s: [u8; 8] = [v; 8];
    let n: usize = out.len();
    let mut r: usize = 0;
    while r < 8
        invariant
            r <= 8,
            n == out@.len(),
            n >= 7 * stride + 8,
            !has_ac(coef@),
            v == range_limited(descaled(wrap32(4 * (coef[0] * q[0])), 5)),
            forall|j: int| 0 <= j < 8 ==> #[trigger] s[j] == v,
            rows_painted(old(out)@, out@, coef@, q@, stride as int, r as int),
        decreases 8 - r,
    {
        let ghost mid = out@;
        proof {
            lemma_row_fits(r as int, stride as int, n as int);
            assert forall|c: int| 0 <= c < 8 implies #[trigger] sample(coef@, q@, r as int, c)
                == v by {
                lemma_sample_flat(coef@, q@, r as int, c);
            }
        }
        store_row(out, r * stride, &s);
        proof {
            lemma_row_painted(old(out)@, mid, out@, coef@, q@, stride as int, r as int);
        }
        r += 1;
    }
    proof {
        if stride >= 8 {
            lemma_places(old(out)@, out@, coef@, q@, stride as int);
        }
    }
}

/// The transform is linear.
pub proof fn lemma_idct8_linear(x: Seq<int>, y: Seq<int>, z: Seq<int>, a: int, b: int, k: int)
    requires
        forall|n: int| 0 <= n < 8 ==> #[trigger] z[n] == a * x[n] + b * y[n],
        0 <= k < 8,
    ensures
        idct8(z, k) == a * idct8(x, k) + b * idct8(y, k),
{
    reveal(even_part);
    reveal(odd_part);
    let (x0, x1, x2, x3, x4, x5, x6, x7) = (x[0], x[1], x[2], x[3], x[4], x[5], x[6], x[7]);
    let (y0, y1, y2, y3, y4, y5, y6, y7) = (y[0], y[1], y[2], y[3], y[4], y[5], y[6], y[7]);
    assert(z[0] == a * x0 + b * y0 && z[1] == a * x1 + b * y1 && z[2] == a * x2 + b * y2 && z[3]
        == a * x3 + b * y3 && z[4] == a * x4 + b * y4 && z[5] == a * x5 + b * y5 && z[6] == a * x6
        + b * y6 && z[7] == a * x7 + b * y7);
    let m = if k < 4 {
        k
    } else {
        7 - k
    };
    lemma_even_linear(x0, x2, x4, x6, y0, y2, y4, y6, a, b, m);
    lemma_odd_linear(x1, x3, x5, x7, y1, y3, y5, y7, a, b, m);
    let (e, f, o, p) = (
        even_part(x0, x2, x4, x6, m),
        even_part(y0, y2, y4, y6, m),
        odd_part(x1, x3, x5, x7, m),
        odd_part(y1, y3, y5, y7, m),
    );
    assert(a * e + b * f + (a * o + b * p) == a * (e + o) + b * (f + p)) by (nonlinear_arith);
    assert(a * e + b * f - (a * o + b * p) == a * (e - o) + b * (f - p)) by (nonlinear_arith);
}

proof fn lemma_even_linear(
    x0: int,
    x2: int,
    x4: int,
    x6: int,
    y0: int,
    y2: int,
    y4: int,
    y6: int,
    a: int,
    b: int,
    k: int,
)
    ensures
        even_part(a * x0 + b * y0, a * x2 + b * y2, a * x4 + b * y4, a * x6 + b * y6, k) == a
            * even_part(x0, x2, x4, x6, k) + b * even_part(y0, y2, y4, y6, k),
{
    reveal(even_part);
    lemma_sum_of_four(8192, x0, 10703, x2, 8192, x4, 4433, x6, a);
    lemma_sum_of_four(8192, y0, 10703, y2, 8192, y4, 4433, y6, b);
    lemma_sum_of_four(8192, x0, 4433, x2, -8192, x4, -10704, x6, a);
    lemma_sum_of_four(8192, y0, 4433, y2, -8192, y4, -10704, y6, b);
    lemma_sum_of_four(8192, x0, -4433, x2, -8192, x4, 10704, x6, a);
    lemma_sum_of_four(8192, y0, -4433, y2, -8192, y4, 10704, y6, b);
    lemma_sum_of_four(8192, x0, -10703, x2, 8192, x4, -4433, x6, a);
    lemma_sum_of_four(8192, y0, -10703, y2, 8192, y4, -4433, y6, b);
}

proof fn lemma_odd_linear(
    x1: int,
    x3: int,
    x5: int,
    x7: int,
    y1: int,
    y3: int,
    y5: int,
    y7: int,
    a: int,
    b: int,
    k: int,
)
    ensures
        odd_part(a * x1 + b * y1, a * x3 + b * y3, a * x5 + b * y5, a * x7 + b * y7, k) == a
            * odd_part(x1, x3, x5, x7, k) + b * odd_part(y1, y3, y5, y7, k),
{
    reveal(odd_part);
    lemma_sum_of_four(11363, x1, 9633, x3, 6437, x5, 2260, x7, a);
    lemma_sum_of_four(11363, y1, 9633, y3, 6437, y5, 2260, y7, b);
    lemma_sum_of_four(9633, x1, -2259, x3, -11362, x5, -6436, x7, a);
    lemma_sum_of_four(9633, y1, -2259, y3, -11362, y5, -6436, y7, b);
    lemma_sum_of_four(6437, x1, -11362, x3, 2261, x5, 9633, x7, a);
    lemma_sum_of_four(6437, y1, -11362, y3, 2261, y5, 9633, y7, b);
    lemma_sum_of_four(2260, x1, -6436, x3, 9633, x5, -11363, x7, a);
    lemma_sum_of_four(2260, y1, -6436, y3, 9633, y5, -11363, y7, b);
}

proof fn lemma_sum_of_four(
    c0: int,
    x0: int,
    c1: int,
    x1: int,
    c2: int,
    x2: int,
    c3: int,
    x3: int,
    a: int,
)
    ensures
        a * (c0 * x0 + c1 * x1 + c2 * x2 + c3 * x3) == c0 * (a * x0) + c1 * (a * x1) + c2 * (a * x2)
            + c3 * (a * x3),
{
    assert(a * (c0 * x0) == c0 * (a * x0)) by (nonlinear_arith);
    assert(a * (c1 * x1) == c1 * (a * x1)) by (nonlinear_arith);
    assert(a * (c2 * x2) == c2 * (a * x2)) by (nonlinear_arith);
    assert(a * (c3 * x3) == c3 * (a * x3)) by (nonlinear_arith);
    let (p, q, r, t) = (c0 * x0, c1 * x1, c2 * x2, c3 * x3);
    assert(a * (p + q + r + t) == a * p + a * q + a * r + a * t) by (nonlinear_arith);
}

/// Frequency `i` alone.
pub open spec fn frequency(i: int) -> Seq<int> {
    Seq::new(
        8,
        |n: int|
            if n == i {
                1int
            } else {
                0
            },
    )
}

/// The inner product of what frequencies `i` and `j` transform to.
pub open spec fn overlap(i: int, j: int) -> int {
    let (x, y) = (frequency(i), frequency(j));
    idct8(x, 0) * idct8(y, 0) + idct8(x, 1) * idct8(y, 1) + idct8(x, 2) * idct8(y, 2) + idct8(x, 3)
        * idct8(y, 3) + idct8(x, 4) * idct8(y, 4) + idct8(x, 5) * idct8(y, 5) + idct8(x, 6)
        * idct8(y, 6) + idct8(x, 7) * idct8(y, 7)
}

/// One where the wave changes its sign between `k` and `k + 1`.
pub open spec fn sign_change(i: int, k: int) -> int {
    if (idct8(frequency(i), k) > 0) != (idct8(frequency(i), k + 1) > 0) {
        1
    } else {
        0
    }
}

/// Frequencies transform to waves of one size, 2^13 times the root of 8, that are at right
/// angles to each other, up to one part in ten thousand. Wave `i` changes its sign `i` times,
/// and starts above zero; the first one is flat.
pub proof fn lemma_idct8_waves(i: int, j: int)
    requires
        0 <= i < 8,
        0 <= j < 8,
    ensures
        i == j ==> -50000 <= overlap(i, j) - 0x2000_0000 <= 50000,
        i != j ==> -50000 <= overlap(i, j) <= 50000,
        sign_change(i, 0) + sign_change(i, 1) + sign_change(i, 2) + sign_change(i, 3) + sign_change(
            i,
            4,
        ) + sign_change(i, 5) + sign_change(i, 6) == i,
        idct8(frequency(i), 0) > 0,
        idct8(frequency(0), j) == 0x2000,
{
    lemma_waves(i);
    lemma_waves(j);
    lemma_waves(0);
    lemma_overlap(i, j);
}

proof fn lemma_overlap(i: int, j: int)
    requires
        0 <= i < 8,
        0 <= j < 8,
    ensures
        i == j ==> -50000 <= overlap(i, j) - 0x2000_0000 <= 50000,
        i != j ==> -50000 <= overlap(i, j) <= 50000,
{
    lemma_waves(i);
    lemma_waves(j);
    let (x, y) = (frequency(i), frequency(j));
    let (a, b, c, d) = (idct8(x, 0), idct8(x, 1), idct8(x, 2), idct8(x, 3));
    let (e, f, g, h) = (idct8(y, 0), idct8(y, 1), idct8(y, 2), idct8(y, 3));
    let s = a * e + b * f + c * g + d * h;
    assert((-d) * (-h) == d * h && (-c) * (-g) == c * g && (-b) * (-f) == b * f && (-a) * (-e) == a
        * e && d * (-h) == -(d * h) && c * (-g) == -(c * g) && b * (-f) == -(b * f) && a * (-e)
        == -(a * e) && (-d) * h == -(d * h) && (-c) * g == -(c * g) && (-b) * f == -(b * f) && (-a)
        * e == -(a * e)) by (nonlinear_arith);
    assert(overlap(i, j) == if i % 2 == j % 2 {
        2 * s
    } else {
        0
    });
    if i % 2 == j % 2 {
        if i == 0 && j == 0 {
            assert(s == 268435456) by (nonlinear_arith)
                requires
                    s == a * e + b * f + c * g + d * h,
                    a == 8192 && b == 8192 && c == 8192 && d == 8192,
                    e == 8192 && f == 8192 && g == 8192 && h == 8192,
            ;
        }
        if i == 0 && j == 2 {
            assert(s == 0) by (nonlinear_arith)
                requires
                    s == a * e + b * f + c * g + d * h,
                    a == 8192 && b == 8192 && c == 8192 && d == 8192,
                    e == 10703 && f == 4433 && g == -4433 && h == -10703,
            ;
        }
        if i == 0 && j == 4 {
            assert(s == 0) by (nonlinear_arith)
                requires
                    s == a * e + b * f + c * g + d * h,
                    a == 8192 && b == 8192 && c == 8192 && d == 8192,
                    e == 8192 && f == -8192 && g == -8192 && h == 8192,
            ;
        }
        if i == 0 && j == 6 {
            assert(s == 0) by (nonlinear_arith)
                requires
                    s == a * e + b * f + c * g + d * h,
                    a == 8192 && b == 8192 && c == 8192 && d == 8192,
                    e == 4433 && f == -10704 && g == 10704 && h == -4433,
            ;
        }
        if i == 2 && j == 0 {
            assert(s == 0) by (nonlinear_arith)
                requires
                    s == a * e + b * f + c * g + d * h,
                    a == 10703 && b == 4433 && c == -4433 && d == -10703,
                    e == 8192 && f == 8192 && g == 8192 && h == 8192,
            ;
        }
        if i == 2 && j == 2 {
            assert(s == 268411396) by (nonlinear_arith)
                requires
                    s == a * e + b * f + c * g + d * h,
                    a == 10703 && b == 4433 && c == -4433 && d == -10703,
                    e == 10703 && f == 4433 && g == -4433 && h == -10703,
            ;
        }
        if i == 2 && j == 4 {
            assert(s == 0) by (nonlinear_arith)
                requires
                    s == a * e + b * f + c * g + d * h,
                    a == 10703 && b == 4433 && c == -4433 && d == -10703,
                    e == 8192 && f == -8192 && g == -8192 && h == 8192,
            ;
        }
        if i == 2 && j == 6 {
            assert(s == -8866) by (nonlinear_arith)
                requires
                    s == a * e + b * f + c * g + d * h,
                    a == 10703 && b == 4433 && c == -4433 && d == -10703,
                    e == 4433 && f == -10704 && g == 10704 && h == -4433,
            ;
        }
        if i == 4 && j == 0 {
            assert(s == 0) by (nonlinear_arith)
                requires
                    s == a * e + b * f + c * g + d * h,
                    a == 8192 && b == -8192 && c == -8192 && d == 8192,
                    e == 8192 && f == 8192 && g == 8192 && h == 8192,
            ;
        }
        if i == 4 && j == 2 {
            assert(s == 0) by (nonlinear_arith)
                requires
                    s == a * e + b * f + c * g + d * h,
                    a == 8192 && b == -8192 && c == -8192 && d == 8192,
                    e == 10703 && f == 4433 && g == -4433 && h == -10703,
            ;
        }
        if i == 4 && j == 4 {
            assert(s == 268435456) by (nonlinear_arith)
                requires
                    s == a * e + b * f + c * g + d * h,
                    a == 8192 && b == -8192 && c == -8192 && d == 8192,
                    e == 8192 && f == -8192 && g == -8192 && h == 8192,
            ;
        }
        if i == 4 && j == 6 {
            assert(s == 0) by (nonlinear_arith)
                requires
                    s == a * e + b * f + c * g + d * h,
                    a == 8192 && b == -8192 && c == -8192 && d == 8192,
                    e == 4433 && f == -10704 && g == 10704 && h == -4433,
            ;
        }
        if i == 6 && j == 0 {
            assert(s == 0) by (nonlinear_arith)
                requires
                    s == a * e + b * f + c * g + d * h,
                    a == 4433 && b == -10704 && c == 10704 && d == -4433,
                    e == 8192 && f == 8192 && g == 8192 && h == 8192,
            ;
        }
        if i == 6 && j == 2 {
            assert(s == -8866) by (nonlinear_arith)
                requires
                    s == a * e + b * f + c * g + d * h,
                    a == 4433 && b == -10704 && c == 10704 && d == -4433,
                    e == 10703 && f == 4433 && g == -4433 && h == -10703,
            ;
        }
        if i == 6 && j == 4 {
            assert(s == 0) by (nonlinear_arith)
                requires
                    s == a * e + b * f + c * g + d * h,
                    a == 4433 && b == -10704 && c == 10704 && d == -4433,
                    e == 8192 && f == -8192 && g == -8192 && h == 8192,
            ;
        }
        if i == 6 && j == 6 {
            assert(s == 268454210) by (nonlinear_arith)
                requires
                    s == a * e + b * f + c * g + d * h,
                    a == 4433 && b == -10704 && c == 10704 && d == -4433,
                    e == 4433 && f == -10704 && g == 10704 && h == -4433,
            ;
        }
        if i == 1 && j == 1 {
            assert(s == 268455027) by (nonlinear_arith)
                requires
                    s == a * e + b * f + c * g + d * h,
                    a == 11363 && b == 9633 && c == 6437 && d == 2260,
                    e == 11363 && f == 9633 && g == 6437 && h == 2260,
            ;
        }
        if i == 1 && j == 3 {
            assert(s == 16278) by (nonlinear_arith)
                requires
                    s == a * e + b * f + c * g + d * h,
                    a == 11363 && b == 9633 && c == 6437 && d == 2260,
                    e == 9633 && f == -2259 && g == -11362 && h == -6436,
            ;
        }
        if i == 1 && j == 5 {
            assert(s == 18122) by (nonlinear_arith)
                requires
                    s == a * e + b * f + c * g + d * h,
                    a == 11363 && b == 9633 && c == 6437 && d == 2260,
                    e == 6437 && f == -11362 && g == 2261 && h == 9633,
            ;
        }
        if i == 1 && j == 7 {
            assert(s == 9633) by (nonlinear_arith)
                requires
                    s == a * e + b * f + c * g + d * h,
                    a == 11363 && b == 9633 && c == 6437 && d == 2260,
                    e == 2260 && f == -6436 && g == 9633 && h == -11363,
            ;
        }
        if i == 3 && j == 1 {
            assert(s == 16278) by (nonlinear_arith)
                requires
                    s == a * e + b * f + c * g + d * h,
                    a == 9633 && b == -2259 && c == -11362 && d == -6436,
                    e == 11363 && f == 9633 && g == 6437 && h == 2260,
            ;
        }
        if i == 3 && j == 3 {
            assert(s == 268414910) by (nonlinear_arith)
                requires
                    s == a * e + b * f + c * g + d * h,
                    a == 9633 && b == -2259 && c == -11362 && d == -6436,
                    e == 9633 && f == -2259 && g == -11362 && h == -6436,
            ;
        }
        if i == 3 && j == 5 {
            assert(s == -13091) by (nonlinear_arith)
                requires
                    s == a * e + b * f + c * g + d * h,
                    a == 9633 && b == -2259 && c == -11362 && d == -6436,
                    e == 6437 && f == -11362 && g == 2261 && h == 9633,
            ;
        }
        if i == 3 && j == 7 {
            assert(s == -8374) by (nonlinear_arith)
                requires
                    s == a * e + b * f + c * g + d * h,
                    a == 9633 && b == -2259 && c == -11362 && d == -6436,
                    e == 2260 && f == -6436 && g == 9633 && h == -11363,
            ;
        }
        if i == 5 && j == 1 {
            assert(s == 18122) by (nonlinear_arith)
                requires
                    s == a * e + b * f + c * g + d * h,
                    a == 6437 && b == -11362 && c == 2261 && d == 9633,
                    e == 11363 && f == 9633 && g == 6437 && h == 2260,
            ;
        }
        if i == 5 && j == 3 {
            assert(s == -13091) by (nonlinear_arith)
                requires
                    s == a * e + b * f + c * g + d * h,
                    a == 6437 && b == -11362 && c == 2261 && d == 9633,
                    e == 9633 && f == -2259 && g == -11362 && h == -6436,
            ;
        }
        if i == 5 && j == 5 {
            assert(s == 268436823) by (nonlinear_arith)
                requires
                    s == a * e + b * f + c * g + d * h,
                    a == 6437 && b == -11362 && c == 2261 && d == 9633,
                    e == 6437 && f == -11362 && g == 2261 && h == 9633,
            ;
        }
        if i == 5 && j == 7 {
            assert(s == -6114) by (nonlinear_arith)
                requires
                    s == a * e + b * f + c * g + d * h,
                    a == 6437 && b == -11362 && c == 2261 && d == 9633,
                    e == 2260 && f == -6436 && g == 9633 && h == -11363,
            ;
        }
        if i == 7 && j == 1 {
            assert(s == 9633) by (nonlinear_arith)
                requires
                    s == a * e + b * f + c * g + d * h,
                    a == 2260 && b == -6436 && c == 9633 && d == -11363,
                    e == 11363 && f == 9633 && g == 6437 && h == 2260,
            ;
        }
        if i == 7 && j == 3 {
            assert(s == -8374) by (nonlinear_arith)
                requires
                    s == a * e + b * f + c * g + d * h,
                    a == 2260 && b == -6436 && c == 9633 && d == -11363,
                    e == 9633 && f == -2259 && g == -11362 && h == -6436,
            ;
        }
        if i == 7 && j == 5 {
            assert(s == -6114) by (nonlinear_arith)
                requires
                    s == a * e + b * f + c * g + d * h,
                    a == 2260 && b == -6436 && c == 9633 && d == -11363,
                    e == 6437 && f == -11362 && g == 2261 && h == 9633,
            ;
        }
        if i == 7 && j == 7 {
            assert(s == 268442154) by (nonlinear_arith)
                requires
                    s == a * e + b * f + c * g + d * h,
                    a == 2260 && b == -6436 && c == 9633 && d == -11363,
                    e == 2260 && f == -6436 && g == 9633 && h == -11363,
            ;
        }
    }
}

/// The waves in numbers.
proof fn lemma_waves(i: int)
    requires
        0 <= i < 8,
    ensures
        ({
            let x = frequency(i);
            let (a, b, c, d) = (idct8(x, 0), idct8(x, 1), idct8(x, 2), idct8(x, 3));
            let (e, f, g, h) = (idct8(x, 4), idct8(x, 5), idct8(x, 6), idct8(x, 7));
            &&& i == 0 ==> (a, b, c, d) == (8192int, 8192int, 8192int, 8192int)
            &&& i == 1 ==> (a, b, c, d) == (11363int, 9633int, 6437int, 2260int)
            &&& i == 2 ==> (a, b, c, d) == (10703int, 4433int, -4433int, -10703int)
            &&& i == 3 ==> (a, b, c, d) == (9633int, -2259int, -11362int, -6436int)
            &&& i == 4 ==> (a, b, c, d) == (8192int, -8192int, -8192int, 8192int)
            &&& i == 5 ==> (a, b, c, d) == (6437int, -11362int, 2261int, 9633int)
            &&& i == 6 ==> (a, b, c, d) == (4433int, -10704int, 10704int, -4433int)
            &&& i == 7 ==> (a, b, c, d) == (2260int, -6436int, 9633int, -11363int)
            &&& i % 2 == 0 ==> (e, f, g, h) == (d, c, b, a)
            &&& i % 2 == 1 ==> (e, f, g, h) == (-d, -c, -b, -a)
        }),
{
    reveal(even_part);
    reveal(odd_part);
}

/// Samples depend on the products of coefficients and quantization alone.
pub proof fn lemma_sample_of_products(
    coef: Seq<i32>,
    q: Seq<u16>,
    coef2: Seq<i32>,
    q2: Seq<u16>,
    r: int,
    c: int,
)
    requires
        forall|i: int| 0 <= i < 64 ==> #[trigger] coef[i] * q[i] == coef2[i] * q2[i],
    ensures
        sample(coef, q, r, c) == sample(coef2, q2, r, c),
{
    assert forall|x: int| 0 <= x < 8 implies #[trigger] column(coef, q, x) == column(
        coef2,
        q2,
        x,
    ) by {
        assert(column(coef, q, x) =~= column(coef2, q2, x));
    }
    assert(pass1_row(coef, q, r) =~= pass1_row(coef2, q2, r));
}

/// A DC coefficient that is `8 * n` larger makes every sample `n` larger, as far as that is a
/// sample.
#[verifier::rlimit(60)]
#[verifier::spinoff_prover]
pub proof fn lemma_dc_shifts(
    coef: Seq<i32>,
    q: Seq<u16>,
    coef2: Seq<i32>,
    q2: Seq<u16>,
    n: int,
    r: int,
    c: int,
)
    requires
        forall|i: int| 1 <= i < 64 ==> #[trigger] coef[i] * q[i] == coef2[i] * q2[i],
        coef2[0] * q2[0] == coef[0] * q[0] + 8 * n,
        0 <= r < 8,
        0 <= c < 8,
        0 < sample(coef, q, r, c) < 255,
        0 <= sample(coef, q, r, c) + n <= 255,
        -0x8000_0000 <= descaled(idct8(column(coef, q, 0), r), 11) + 32 * n < 0x8000_0000,
        -0x8000_0000 <= descaled(idct8(column(coef, q, 0), r), 11) < 0x8000_0000,
    ensures
        sample(coef2, q2, r, c) == sample(coef, q, r, c) + n,
{
    lemma2_to64();
    let (a, b) = (column(coef, q, 0), column(coef2, q2, 0));
    let up = Seq::new(8, |k: int| if k == 0 { 8 * n } else { 0 });
    assert forall|k: int| 0 <= k < 8 implies #[trigger] b[k] == 1 * a[k] + 1 * up[k] by {
        if k > 0 {
            assert(coef[8 * k + 0] * q[8 * k + 0] == coef2[8 * k] * q2[8 * k]);
        }
    }
    lemma_idct8_linear(a, up, b, 1, 1, r);
    lemma_idct8_flat(up, r);
    let p = idct8(a, r);
    assert(idct8(b, r) == p + 65536 * n);
    vstd::arithmetic::div_mod::lemma_hoist_over_denominator(p + 1024, 32 * n, 2048);
    assert((p + 1024) + 32 * n * 2048 == p + 65536 * n + 1024);
    let (x, y) = (pass1_row(coef, q, r), pass1_row(coef2, q2, r));
    let step = Seq::new(8, |k: int| if k == 0 { 32 * n } else { 0 });
    assert forall|k: int| 0 <= k < 8 implies #[trigger] y[k] == 1 * x[k] + 1 * step[k] by {
        if k > 0 {
            assert(column(coef, q, k) =~= column(coef2, q2, k)) by {
                assert forall|m: int| 0 <= m < 8 implies column(coef, q, k)[m] == column(
                    coef2,
                    q2,
                    k,
                )[m] by {
                    assert(coef[8 * m + k] * q[8 * m + k] == coef2[8 * m + k] * q2[8 * m + k]);
                }
            }
        }
    }
    lemma_idct8_linear(x, step, y, 1, 1, c);
    lemma_idct8_flat(step, c);
    let w = idct8(x, c);
    assert(idct8(y, c) == w + 262144 * n);
    vstd::arithmetic::div_mod::lemma_hoist_over_denominator(w + 131072, n, 262144);
}

/// A sample is 128 more than its value, limited to 0 to 255; values are taken modulo 1024.
pub proof fn lemma_range_limited(x: int, k: int)
    requires
        -512 <= x < 512,
    ensures
        -128 <= x <= 127 ==> range_limited(x) == x + 128,
        x > 127 ==> range_limited(x) == 255,
        x < -128 ==> range_limited(x) == 0,
        range_limited(x + 1024 * k) == range_limited(x),
{
    let v = x + 512;
    assert((v + 1024 * k) % 1024 == v);
}

/// A descaled number is the nearest to what it stands for, and the larger of two.
pub proof fn lemma_descaled_nearest(x: int, n: int)
    requires
        1 <= n,
    ensures
        ({
            let p = pow2(n as nat) as int;
            -p <= 2 * (x - p * descaled(x, n)) < p
        }),
{
    lemma_pow2_pos((n - 1) as nat);
    lemma_pow2_unfold(n as nat);
    let (p, h) = (pow2(n as nat) as int, pow2((n - 1) as nat) as int);
    vstd::arithmetic::div_mod::lemma_fundamental_div_mod(x + h, p);
}

} // verus!
