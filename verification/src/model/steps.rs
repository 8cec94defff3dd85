//! What each step of the network does with single-precision numbers.

use super::layout::{k_of, slot};
use super::maps::{at, inner, mean_map, pixel_sum, pool_value, unit_map, Weights};
use crate::ieee::pack::lemma_nearest_whole;
use crate::ieee::root::root_of;
use crate::ieee::single::{
    above, is_zero, larger, lemma_commute, lemma_magnitude_grows, lemma_nearest_range, lemma_nearest_zero,
    lemma_nothing, lemma_zero_magnitude, product, quotient, sum, whole,
};
use crate::ieee::{finite, is_nan, magnitude, one, unsigned, value, SIGN};
use crate::kernel::{act, dot};
use crate::scalar::{Scalar, Single};
use vstd::arithmetic::div_mod::lemma_fundamental_div_mod_converse;
use vstd::prelude::*;

verus! {

/// Equal as numbers: zeros of either sign are.
pub open spec fn same(a: u32, b: u32) -> bool {
    a == b || is_zero(a) && is_zero(b)
}

/// A rectifier keeps what is above zero, and makes zero of the rest.
pub proof fn lemma_rectified(s: Single)
    ensures
        above(s.0, 0) ==> act(true, s) == s,
        !above(s.0, 0) ==> is_zero(act(true, s).0),
        act(false, s) == s,
{
}

/// A 2x2 pool is one of its four pixels, and none of them is above it.
pub proof fn lemma_pooled(inp: Seq<Single>, n: int, c: int, y: int, x: int, k: int, dy: int, dx: int)
    requires
        0 <= dy <= 1,
        0 <= dx <= 1,
        forall|i: int, j: int|
            0 <= i <= 1 && 0 <= j <= 1 ==> !is_nan(
                #[trigger] inp[at(2 * y + 1 + i, 2 * x + 1 + j, k, n + 2, c)].0,
            ),
    ensures
        !above(
            inp[at(2 * y + 1 + dy, 2 * x + 1 + dx, k, n + 2, c)].0,
            pool_value(inp, n, c, y, x, k).0,
        ),
        exists|i: int, j: int|
            0 <= i <= 1 && 0 <= j <= 1 && pool_value(inp, n, c, y, x, k) == #[trigger] inp[at(
                2 * y + 1 + i,
                2 * x + 1 + j,
                k,
                n + 2,
                c,
            )],
{
    let a = inp[at(2 * y + 1 + 0, 2 * x + 1 + 0, k, n + 2, c)];
    let b = inp[at(2 * y + 1 + 0, 2 * x + 1 + 1, k, n + 2, c)];
    let d = inp[at(2 * y + 1 + 1, 2 * x + 1 + 0, k, n + 2, c)];
    let e = inp[at(2 * y + 1 + 1, 2 * x + 1 + 1, k, n + 2, c)];
    assert(!is_nan(a.0) && !is_nan(b.0) && !is_nan(d.0) && !is_nan(e.0));
    let r = pool_value(inp, n, c, y, x, k);
    assert(r == a || r == b || r == d || r == e);
}

proof fn lemma_add_zero(a: u32, z: u32)
    requires
        !is_nan(a),
        is_zero(z),
    ensures
        same(sum(a, z), a),
        !is_nan(sum(a, z)),
{
    lemma_nothing(a);
    lemma_zero_magnitude();
    assert(z == 0 || z == SIGN);
}

proof fn lemma_zero_times(z: u32, w: u32)
    requires
        is_zero(z),
        finite(w),
    ensures
        is_zero(product(z, w)),
        is_zero(product(w, z)),
{
    lemma_zero_magnitude();
    let m = magnitude(unsigned(w));
    assert(0 * m == 0 && m * 0 == 0);
    vstd::arithmetic::power2::lemma_pow2_pos(149);
    lemma_nearest_zero(one());
}

proof fn lemma_same_sum(a: u32, b: u32, p: u32)
    requires
        same(a, b),
        !is_nan(a),
        !is_nan(b),
    ensures
        same(sum(a, p), sum(b, p)),
{
    lemma_zero_magnitude();
}

proof fn lemma_finite_sum(a: u32, x: u32, w: u32)
    requires
        finite(a),
        finite(x),
        finite(w),
    ensures
        !is_nan(sum(a, product(x, w))),
{
    let p = product(x, w);
    vstd::arithmetic::power2::lemma_pow2_pos(149);
    lemma_magnitude_nonnegative(x);
    lemma_magnitude_nonnegative(w);
    let (m, n) = (magnitude(unsigned(x)), magnitude(unsigned(w)));
    assert(0 <= m * n) by (nonlinear_arith)
        requires
            0 <= m,
            0 <= n,
    ;
    lemma_nearest_range(m * n, one());
    assert(!is_nan(p));
    if finite(p) {
        let v = value(a) + value(p);
        let u = vstd::math::abs(v) as int;
        lemma_nearest_range(u, 1);
        lemma_nearest_whole(u);
    }
}

proof fn lemma_magnitude_nonnegative(b: u32)
    requires
        finite(b),
    ensures
        0 <= magnitude(unsigned(b)),
{
    lemma_zero_magnitude();
    if 0 < unsigned(b) {
        lemma_magnitude_grows(0, unsigned(b));
    }
}

/// Where one input is not zero, a sum of products is the bias and that one product.
proof fn lemma_dot_impulse(
    inp: Seq<Single>,
    a: int,
    stride: int,
    len: int,
    w: Seq<Single>,
    k: int,
    bias: Single,
    co: int,
    n: int,
    j: int,
)
    requires
        0 <= j,
        finite(bias.0),
        finite(inp[a + j / len * stride + j % len].0),
        forall|m: int|
            0 <= m < n && m != j ==> is_zero(#[trigger] inp[a + m / len * stride + m % len].0),
        forall|m: int| 0 <= m < n ==> finite(#[trigger] w[slot(co, k, m)].0),
    ensures
        !is_nan(dot(inp, a, stride, len, w, k, bias, co, n).0),
        n <= j ==> same(dot(inp, a, stride, len, w, k, bias, co, n).0, bias.0),
        n > j ==> same(
            dot(inp, a, stride, len, w, k, bias, co, n).0,
            sum(
                bias.0,
                product(inp[a + j / len * stride + j % len].0, w[slot(co, k, j)].0),
            ),
        ),
    decreases n,
{
    if n > 0 {
        lemma_dot_impulse(inp, a, stride, len, w, k, bias, co, n - 1, j);
        let m = n - 1;
        let s = dot(inp, a, stride, len, w, k, bias, co, m).0;
        let (x, y) = (inp[a + m / len * stride + m % len].0, w[slot(co, k, m)].0);
        assert(finite(w[slot(co, k, m)].0));
        if m == j {
            assert(finite(s)) by {
                if s != bias.0 {
                    assert(is_zero(s));
                }
            }
            lemma_finite_sum(s, x, y);
            lemma_same_sum(s, bias.0, product(x, y));
        } else {
            assert(is_zero(x));
            lemma_zero_times(x, y);
            lemma_add_zero(s, product(x, y));
            if m > j {
                let t = sum(
                    bias.0,
                    product(inp[a + j / len * stride + j % len].0, w[slot(co, k, j)].0),
                );
                assert(same(s, t));
            }
        }
    }
}

/// A tap of a conv: where its input lies, and its number among the inputs.
proof fn lemma_tap(y: int, x: int, n: int, stride: int, cin: int, ky: int, kx: int, ci: int)
    requires
        1 <= cin,
        0 <= ky < 3,
        0 <= kx < 3,
        0 <= ci < cin,
    ensures
        ({
            let m = (3 * ky + kx) * cin + ci;
            let len = 3 * cin;
            &&& 0 <= m < 9 * cin
            &&& (y * stride * (n + 2) + x * stride) * cin + m / len * ((n + 2) * cin) + m % len
                == at(y * stride + ky, x * stride + kx, ci, n + 2, cin)
        }),
{
    let m = (3 * ky + kx) * cin + ci;
    let (len, r) = (3 * cin, kx * cin + ci);
    assert(m == ky * len + r && 0 <= r < len && 0 <= m < 9 * cin) by (nonlinear_arith)
        requires
            m == (3 * ky + kx) * cin + ci,
            len == 3 * cin,
            r == kx * cin + ci,
            0 <= ky < 3,
            0 <= kx < 3,
            0 <= ci < cin,
    ;
    lemma_fundamental_div_mod_converse(m, len, ky, r);
    let (u, v, w) = (y * stride, x * stride, n + 2);
    assert((u * w + v) * cin + ky * (w * cin) + (kx * cin + ci) == ((u + ky) * w + (v + kx)) * cin
        + ci) by (nonlinear_arith);
}

proof fn lemma_tap_of(m: int, cin: int) -> (t: (int, int, int))
    requires
        1 <= cin,
        0 <= m < 9 * cin,
    ensures
        0 <= t.0 < 3,
        0 <= t.1 < 3,
        0 <= t.2 < cin,
        m == (3 * t.0 + t.1) * cin + t.2,
{
    let (q, ci) = (m / cin, m % cin);
    vstd::arithmetic::div_mod::lemma_fundamental_div_mod(m, cin);
    assert(0 <= q < 9 && q * cin == cin * q) by (nonlinear_arith)
        requires
            m == cin * q + ci,
            0 <= ci < cin,
            0 <= m < 9 * cin,
    ;
    (q / 3, q % 3, ci)
}

/// A 3x3 conv of an image that is zero around a pixel but for one channel of one of its nine
/// taps: the bias, and that input times the tap's weight, rectified. Row `ky`, column `kx` and
/// channel `ci` of the taps have number (3 `ky` + `kx`) `cin` + `ci` among a channel's weights.
pub proof fn lemma_conv_impulse(
    m: Weights<Single>,
    li: int,
    inp: Seq<Single>,
    n: int,
    stride: int,
    y: int,
    x: int,
    co: int,
    ky: int,
    kx: int,
    ci: int,
)
    requires
        li != 4,
        li != 11,
        1 <= m.cin(li),
        0 <= ky < 3,
        0 <= kx < 3,
        0 <= ci < m.cin(li),
        finite(m.bias(li, co).0),
        forall|i: int|
            0 <= i < 9 * m.cin(li) ==> finite(#[trigger] m.weights(li)[slot(co, 9 * m.cin(li), i)].0),
        finite(inp[at(y * stride + ky, x * stride + kx, ci, n + 2, m.cin(li))].0),
        forall|i: int, j: int, c: int|
            0 <= i < 3 && 0 <= j < 3 && 0 <= c < m.cin(li) && !(i == ky && j == kx && c == ci)
                ==> is_zero(
                #[trigger] inp[at(y * stride + i, x * stride + j, c, n + 2, m.cin(li))].0,
            ),
    ensures
        ({
            let v = inp[at(y * stride + ky, x * stride + kx, ci, n + 2, m.cin(li))].0;
            let w = m.weights(li)[slot(co, 9 * m.cin(li), (3 * ky + kx) * m.cin(li) + ci)].0;
            let s = sum(m.bias(li, co).0, product(v, w));
            let r = m.conv_value(li, inp, n, stride, y, x, co).0;
            &&& above(s, 0) ==> r == s
            &&& !above(s, 0) ==> is_zero(r)
        }),
{
    let cin = m.cin(li);
    let (k, len) = (9 * cin, 3 * cin);
    let a = (y * stride * (n + 2) + x * stride) * cin;
    let t = (3 * ky + kx) * cin + ci;
    lemma_tap(y, x, n, stride, cin, ky, kx, ci);
    assert forall|i: int| 0 <= i < k && i != t implies is_zero(
        #[trigger] inp[a + i / len * ((n + 2) * cin) + i % len].0,
    ) by {
        let (p, q, c) = lemma_tap_of(i, cin);
        lemma_tap(y, x, n, stride, cin, p, q, c);
        assert(is_zero(inp[at(y * stride + p, x * stride + q, c, n + 2, cin)].0));
    }
    let bias = m.bias(li, co);
    lemma_dot_impulse(inp, a, (n + 2) * cin, len, m.weights(li), k, bias, co, k, t);
    lemma_rectified(dot(inp, a, (n + 2) * cin, len, m.weights(li), k, bias, co, k));
}

/// A fully connected layer of a row that is zero but for one input: the bias, and that input
/// times its weight.
pub proof fn lemma_fc_impulse(
    m: Weights<Single>,
    li: int,
    inp: Seq<Single>,
    n: int,
    i: int,
    co: int,
    e: int,
)
    requires
        0 <= i < n,
        0 <= co < m.cout(li),
        0 <= e < k_of(m.width, li),
        finite(m.bias(li, co).0),
        forall|j: int|
            0 <= j < k_of(m.width, li) ==> finite(
                #[trigger] m.weights(li)[slot(co, k_of(m.width, li), j)].0,
            ),
        finite(inp[i * k_of(m.width, li) + e].0),
        forall|j: int|
            0 <= j < k_of(m.width, li) && j != e ==> is_zero(
                #[trigger] inp[i * k_of(m.width, li) + j].0,
            ),
    ensures
        same(
            m.fc_map(li, inp, n)[i * m.cout(li) + co].0,
            sum(
                m.bias(li, co).0,
                product(
                    inp[i * k_of(m.width, li) + e].0,
                    m.weights(li)[slot(co, k_of(m.width, li), e)].0,
                ),
            ),
        ),
{
    let (k, c) = (k_of(m.width, li), m.cout(li));
    let a = i * k;
    assert forall|j: int| 0 <= j < k implies #[trigger] inp[a + j / k * 0 + j % k] == inp[a + j]
        by {
        lemma_fundamental_div_mod_converse(j, k, 0, j);
    }
    assert forall|j: int| 0 <= j < k && j != e implies is_zero(
        #[trigger] inp[a + j / k * 0 + j % k].0,
    ) by {
        assert(is_zero(inp[i * k + j].0));
    }
    assert(inp[a + e / k * 0 + e % k] == inp[a + e]);
    lemma_dot_impulse(inp, a, 0, k, m.weights(li), k, m.bias(li, co), co, k, e);
    let j = i * c + co;
    lemma_fundamental_div_mod_converse(j, c, i, co);
    assert(0 <= j < n * c) by (nonlinear_arith)
        requires
            j == i * c + co,
            0 <= i < n,
            0 <= co < c,
    ;
}

/// Similarity is the same both ways.
pub proof fn lemma_inner_commutes(x: Seq<Single>, y: Seq<Single>, n: int)
    ensures
        inner(x, y, n) == inner(y, x, n),
    decreases n,
{
    if n > 0 {
        lemma_inner_commutes(x, y, n - 1);
        lemma_commute(x[n - 1].0, y[n - 1].0);
    }
}

proof fn lemma_pixels_impulse(inp: Seq<Single>, n: int, c: int, k: int, q: int, p: int)
    requires
        1 <= n,
        0 <= p,
        finite(inp[at(p / n + 1, p % n + 1, k, n + 2, c)].0),
        forall|i: int|
            0 <= i < q && i != p ==> is_zero(
                #[trigger] inp[at(i / n + 1, i % n + 1, k, n + 2, c)].0,
            ),
    ensures
        q <= p ==> is_zero(pixel_sum(inp, n, c, k, q).0),
        q > p ==> same(
            pixel_sum(inp, n, c, k, q).0,
            inp[at(p / n + 1, p % n + 1, k, n + 2, c)].0,
        ),
        !is_nan(pixel_sum(inp, n, c, k, q).0),
    decreases q,
{
    if q > 0 {
        lemma_pixels_impulse(inp, n, c, k, q - 1, p);
        let s = pixel_sum(inp, n, c, k, q - 1).0;
        let v = inp[at((q - 1) / n + 1, (q - 1) % n + 1, k, n + 2, c)].0;
        if q - 1 == p {
            lemma_add_zero(v, s);
            lemma_commute(s, v);
        } else {
            assert(is_zero(v));
            lemma_add_zero(s, v);
        }
    }
}

/// The mean of a map that is zero but for one pixel, wherever it is, is that pixel divided by
/// the number of pixels.
pub proof fn lemma_mean_impulse(inp: Seq<Single>, n: int, c: int, k: int, y: int, x: int)
    requires
        1 <= n,
        n * n <= usize::MAX,
        0 <= k < c,
        0 <= y < n,
        0 <= x < n,
        finite(inp[at(y + 1, x + 1, k, n + 2, c)].0),
        forall|i: int, j: int|
            0 <= i < n && 0 <= j < n && !(i == y && j == x) ==> is_zero(
                #[trigger] inp[at(i + 1, j + 1, k, n + 2, c)].0,
            ),
    ensures
        ({
            let v = inp[at(y + 1, x + 1, k, n + 2, c)].0;
            let r = mean_map(inp, n, c, c)[k].0;
            !is_zero(v) ==> r == quotient(v, whole(n * n))
        }),
{
    let p = y * n + x;
    lemma_fundamental_div_mod_converse(p, n, y, x);
    assert(0 <= p < n * n) by (nonlinear_arith)
        requires
            p == y * n + x,
            0 <= y < n,
            0 <= x < n,
    ;
    assert forall|i: int| 0 <= i < n * n && i != p implies is_zero(
        #[trigger] inp[at(i / n + 1, i % n + 1, k, n + 2, c)].0,
    ) by {
        vstd::arithmetic::div_mod::lemma_fundamental_div_mod(i, n);
        let (u, v) = (i / n, i % n);
        assert(0 <= u < n && u * n + v == i) by (nonlinear_arith)
            requires
                i == n * u + v,
                0 <= v < n,
                0 <= i < n * n,
        ;
        assert(is_zero(inp[at(u + 1, v + 1, k, n + 2, c)].0));
    }
    lemma_pixels_impulse(inp, n, c, k, n * n, p);
    assert((n * n) as usize == n * n);
}

/// The inner product of vectors of which one is zero but for one entry: that product.
pub proof fn lemma_inner_impulse(x: Seq<Single>, y: Seq<Single>, n: int, j: int)
    requires
        0 <= j,
        finite(x[j].0),
        forall|i: int| 0 <= i < n ==> finite(#[trigger] y[i].0),
        forall|i: int| 0 <= i < n && i != j ==> is_zero(#[trigger] x[i].0),
    ensures
        n <= j ==> is_zero(inner(x, y, n).0),
        n > j ==> same(inner(x, y, n).0, product(x[j].0, y[j].0)),
        !is_nan(inner(x, y, n).0),
    decreases n,
{
    if n > 0 {
        lemma_inner_impulse(x, y, n - 1, j);
        let s = inner(x, y, n - 1).0;
        let (a, b) = (x[n - 1].0, y[n - 1].0);
        assert(finite(b));
        if n - 1 == j {
            lemma_finite_product(a, b);
            lemma_add_zero(product(a, b), s);
            lemma_commute(s, product(a, b));
        } else {
            assert(is_zero(a));
            lemma_zero_times(a, b);
            lemma_add_zero(s, product(a, b));
        }
    }
}

proof fn lemma_finite_product(x: u32, w: u32)
    requires
        finite(x),
        finite(w),
    ensures
        !is_nan(product(x, w)),
{
    vstd::arithmetic::power2::lemma_pow2_pos(149);
    lemma_magnitude_nonnegative(x);
    lemma_magnitude_nonnegative(w);
    let (m, n) = (magnitude(unsigned(x)), magnitude(unsigned(w)));
    assert(0 <= m * n) by (nonlinear_arith)
        requires
            0 <= m,
            0 <= n,
    ;
    lemma_nearest_range(m * n, one());
}

/// Normalizing divides all of a vector by one number: by the root of its inner product with
/// itself, or by the tiny length if that is larger.
pub proof fn lemma_one_divisor(v: Seq<Single>) -> (d: u32)
    ensures
        unit_map(v).len() == v.len(),
        forall|i: int| 0 <= i < v.len() ==> (#[trigger] unit_map(v)[i]).0 == quotient(v[i].0, d),
        !above(0x2B8C_BCCC, d),
        d == 0x2B8C_BCCC || d == root_of(inner(v, v, v.len() as int).0),
        above(root_of(inner(v, v, v.len() as int).0), 0x2B8C_BCCC) ==> d == root_of(
            inner(v, v, v.len() as int).0,
        ),
{
    larger(root_of(inner(v, v, v.len() as int).0), 0x2B8C_BCCC)
}

/// A similarity is the inner product of two embeddings, each of them a row of the last layer of
/// its own tower, normalized, and nothing else.
pub proof fn lemma_cosine_of_embeddings(
    m: Weights<Single>,
    prompts: Seq<Single>,
    cands: Seq<Single>,
    i: int,
    j: int,
)
    ensures
        m.cosine(prompts, cands, i, j) == inner(
            m.prompt_embedding(prompts, i),
            m.cand_embedding(cands, j),
            m.dim,
        ),
        m.cosine(prompts, cands, i, j) == inner(
            m.cand_embedding(cands, j),
            m.prompt_embedding(prompts, i),
            m.dim,
        ),
{
    lemma_inner_commutes(m.prompt_embedding(prompts, i), m.cand_embedding(cands, j), m.dim);
}

} // verus!
