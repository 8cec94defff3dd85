//! The twelve layers, and where their weights and biases are kept.
//!
//! Weights are packed for the kernel as `[cout / 16][k][16]`: sixteen output channels side by
//! side, their inputs in the order in which the kernel meets them.

use vstd::prelude::*;

verus! {

/// The fully connected layer of the prompt tower, over 2w channels of 4x4 maps.
pub const P_FC: usize = 4;

/// The fully connected layer of the candidate tower.
pub const C_FC: usize = 11;

/// Number of layers.
pub const LAYERS: usize = 12;

/// Input channels of layer `li`.
pub open spec fn cin_of(w: int, li: int) -> int {
    if li == 0 || li == 5 {
        1
    } else if li == 1 || li == 2 || li == 6 || li == 7 {
        w
    } else if li == 3 || li == 8 || li == 9 {
        2 * w
    } else if li == 4 {
        32 * w
    } else {
        4 * w
    }
}

/// Output channels of layer `li`.
pub open spec fn cout_of(w: int, dim: int, li: int) -> int {
    if li == 4 || li == 11 {
        dim
    } else if li == 0 || li == 1 || li == 5 || li == 6 {
        w
    } else if li == 9 || li == 10 {
        4 * w
    } else {
        2 * w
    }
}

/// Inputs per output channel of layer `li`: nine taps of a conv, or all inputs of an fc.
pub open spec fn k_of(w: int, li: int) -> int {
    if li == 4 || li == 11 {
        cin_of(w, li)
    } else {
        9 * cin_of(w, li)
    }
}

/// Weights of layer `li`.
pub open spec fn weights_of(w: int, dim: int, li: int) -> int {
    cout_of(w, dim, li) * k_of(w, li)
}

/// Where the weights of layer `li` start: behind the weights and biases of those before it.
pub open spec fn offset_of(w: int, dim: int, li: int) -> int
    decreases li,
{
    if li <= 0 {
        0
    } else {
        offset_of(w, dim, li - 1) + weights_of(w, dim, li - 1) + cout_of(w, dim, li - 1)
    }
}

/// The width and the dimension are multiples of 16, in range.
pub open spec fn sized(w: int, dim: int) -> bool {
    &&& 0 < w <= 64
    &&& w % 16 == 0
    &&& 0 < dim <= 512
    &&& dim % 16 == 0
}

/// Layer sizes, bounded.
pub proof fn lemma_layer(w: int, dim: int, li: int)
    requires
        sized(w, dim),
        0 <= li < 12,
    ensures
        1 <= cin_of(w, li) <= 2048,
        li == 4 ==> cin_of(w, li) % 16 == 0,
        1 <= k_of(w, li) <= 2304,
        16 <= cout_of(w, dim, li) <= 512,
        cout_of(w, dim, li) % 16 == 0,
        0 < weights_of(w, dim, li) <= 1179648,
{
    let (c, k) = (cout_of(w, dim, li), k_of(w, li));
    assert(0 < c * k && c * k <= 1179648) by (nonlinear_arith)
        requires
            1 <= k <= 2304,
            1 <= c <= 512,
    ;
}

/// Layers lie one behind the other.
pub proof fn lemma_offsets(w: int, dim: int, a: int, b: int)
    requires
        sized(w, dim),
        0 <= a <= b <= 12,
    ensures
        0 <= offset_of(w, dim, a) <= 1180160 * a,
        a < b ==> offset_of(w, dim, a) + weights_of(w, dim, a) + cout_of(w, dim, a) <= offset_of(
            w,
            dim,
            b,
        ),
    decreases a + b,
{
    if a > 0 {
        lemma_offsets(w, dim, a - 1, a);
        lemma_layer(w, dim, a - 1);
        lemma_offsets(w, dim, a - 1, a - 1);
    }
    if a + 1 < b {
        lemma_offsets(w, dim, a, b - 1);
        lemma_layer(w, dim, b - 1);
    }
}

/// Where the kernel wants input `e` of an output channel: convs go from (channel, ky, kx) to
/// (ky, kx, channel), the prompt fc from (channel, y, x) to (y, x, channel).
pub open spec fn place(li: int, cin: int, e: int) -> int {
    if li == 4 {
        (e % 16) * (cin / 16) + e / 16
    } else if li == 11 {
        e
    } else {
        (e % 9) * cin + e / 9
    }
}

/// The input that `place` puts at `x`.
pub open spec fn input_at(li: int, cin: int, x: int) -> int {
    if li == 4 {
        (x % (cin / 16)) * 16 + x / (cin / 16)
    } else if li == 11 {
        x
    } else {
        (x % cin) * 9 + x / cin
    }
}

/// Transposing an a-by-b grid and back.
proof fn lemma_transpose(e: int, a: int, b: int)
    requires
        0 < a,
        0 < b,
        0 <= e < a * b,
    ensures
        0 <= (e % a) * b + e / a < a * b,
        (((e % a) * b + e / a) % b) * a + ((e % a) * b + e / a) / b == e,
{
    let (q, r) = (e / a, e % a);
    vstd::arithmetic::div_mod::lemma_fundamental_div_mod(e, a);
    assert(0 <= q < b) by (nonlinear_arith)
        requires
            e == a * q + r,
            0 <= r < a,
            0 <= e < a * b,
    ;
    let x = r * b + q;
    assert(0 <= x < a * b) by (nonlinear_arith)
        requires
            x == r * b + q,
            0 <= q < b,
            0 <= r < a,
    ;
    vstd::arithmetic::div_mod::lemma_fundamental_div_mod_converse(x, b, r, q);
    assert(q * a + r == e) by (nonlinear_arith)
        requires
            e == a * q + r,
    ;
}

/// `place` is a permutation of a channel's inputs, and `input_at` its inverse.
pub proof fn lemma_place(w: int, li: int, e: int)
    requires
        0 < w <= 64,
        w % 16 == 0,
        0 <= li < 12,
        0 <= e < k_of(w, li),
    ensures
        0 <= place(li, cin_of(w, li), e) < k_of(w, li),
        input_at(li, cin_of(w, li), place(li, cin_of(w, li), e)) == e,
        0 <= input_at(li, cin_of(w, li), e) < k_of(w, li),
        place(li, cin_of(w, li), input_at(li, cin_of(w, li), e)) == e,
{
    let cin = cin_of(w, li);
    if li == 4 {
        assert(k_of(w, li) == 16 * (cin / 16));
        lemma_transpose(e, 16, cin / 16);
        lemma_transpose(e, cin / 16, 16);
    } else if li != 11 {
        lemma_transpose(e, 9, cin);
        lemma_transpose(e, cin, 9);
    }
}

/// Where, among a layer's weights, place `x` of output channel `co` is kept.
pub open spec fn slot(co: int, k: int, x: int) -> int {
    ((co / 16) * k + x) * 16 + co % 16
}

/// The output channel of the weight kept at `j`.
pub open spec fn channel_at(j: int, k: int) -> int {
    (j / 16 / k) * 16 + j % 16
}

/// Its place among the channel's inputs.
pub open spec fn place_at(j: int, k: int) -> int {
    j / 16 % k
}

/// `slot` gives every weight of a layer its own cell.
pub proof fn lemma_slot(co: int, cout: int, k: int, x: int)
    requires
        0 < k,
        0 <= co < cout,
        cout % 16 == 0,
        0 <= x < k,
    ensures
        0 <= slot(co, k, x) < cout * k,
        channel_at(slot(co, k, x), k) == co,
        place_at(slot(co, k, x), k) == x,
{
    let (q, r) = (co / 16, co % 16);
    let y = q * k + x;
    let j = y * 16 + r;
    assert(j / 16 == y && j % 16 == r);
    vstd::arithmetic::div_mod::lemma_fundamental_div_mod_converse(y, k, q, x);
    assert(0 <= j < cout * k) by (nonlinear_arith)
        requires
            j == (q * k + x) * 16 + r,
            0 <= r < 16,
            0 <= x < k,
            0 <= q,
            (q + 1) * 16 <= cout,
    ;
}

/// Every cell of a layer holds a weight.
pub proof fn lemma_cell(j: int, cout: int, k: int)
    requires
        0 < k,
        0 < cout,
        cout % 16 == 0,
        0 <= j < cout * k,
    ensures
        0 <= channel_at(j, k) < cout,
        0 <= place_at(j, k) < k,
        slot(channel_at(j, k), k, place_at(j, k)) == j,
{
    let y = j / 16;
    let (q, x, r) = (y / k, y % k, j % 16);
    vstd::arithmetic::div_mod::lemma_fundamental_div_mod(y, k);
    let n = cout / 16;
    assert(0 <= q < n) by (nonlinear_arith)
        requires
            y == k * q + x,
            0 <= x < k,
            y * 16 <= j < n * 16 * k,
            0 <= y,
    ;
    let co = q * 16 + r;
    assert(co / 16 == q && co % 16 == r);
    assert(q * k + x == y) by (nonlinear_arith)
        requires
            y == k * q + x,
    ;
}

} // verus!
