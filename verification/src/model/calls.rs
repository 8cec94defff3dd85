//! What one call loads or computes.

use super::codes::{code, low_bit, Codes};
use super::file::{
    bias_cell, dim_in, header_ok, layer_end, layer_start, le16_at, le32_at, valid, width_in,
};
use super::laws::{
    is_layer_block, joined, lemma_code_read_back, lemma_conv_weight_cell, lemma_dot_same, lemma_in_row,
    lemma_layers_read_back,
};
use super::layout::{cin_of, cout_of, k_of, lemma_layer, offset_of, sized, slot, weights_of};
use super::maps::{
    at, inner, lemma_at, mean_map, pad_map, pool_map, pool_packed, row, stacked, unit_map, Weights,
};
use super::net::{maxpool, mean_pool, normalize, Ixs, Scratch};
use super::steps::{
    lemma_conv_impulse, lemma_fc_impulse, lemma_mean_impulse, lemma_one_divisor, lemma_pooled, same,
};
use super::{Model, ModelError};
use crate::ieee::product::{multiple, widened};
use crate::ieee::root::root_of;
use crate::ieee::single::{above, is_zero, product, quotient, sum, whole};
use crate::ieee::{finite, is_nan};
use crate::kernel::Kernel;
use crate::scalar::{Scalar, Single};
use vstd::arithmetic::power2::pow2;
use vstd::prelude::*;

verus! {

/// The twelve layers: the prompt tower has four convs and a fully connected layer, the
/// candidate tower six and one. Channels are multiples of the width, up to the dimension.
pub proof fn lemma_layer_sizes(w: int, dim: int)
    ensures
        cin_of(w, 0) == 1 && cout_of(w, dim, 0) == w,
        cin_of(w, 1) == w && cout_of(w, dim, 1) == w,
        cin_of(w, 2) == w && cout_of(w, dim, 2) == 2 * w,
        cin_of(w, 3) == 2 * w && cout_of(w, dim, 3) == 2 * w,
        cin_of(w, 4) == 32 * w && cout_of(w, dim, 4) == dim,
        cin_of(w, 5) == 1 && cout_of(w, dim, 5) == w,
        cin_of(w, 6) == w && cout_of(w, dim, 6) == w,
        cin_of(w, 7) == w && cout_of(w, dim, 7) == 2 * w,
        cin_of(w, 8) == 2 * w && cout_of(w, dim, 8) == 2 * w,
        cin_of(w, 9) == 2 * w && cout_of(w, dim, 9) == 4 * w,
        cin_of(w, 10) == 4 * w && cout_of(w, dim, 10) == 4 * w,
        cin_of(w, 11) == 4 * w && cout_of(w, dim, 11) == dim,
        forall|li: int|
            0 <= li < 12 ==> #[trigger] k_of(w, li) == cin_of(w, li) * if li == 4 || li == 11 {
                1int
            } else {
                9
            },
{
}

/// What is loaded starts with `CCM1`, the width, the kind of weights and the dimension. Both
/// sizes are multiples of 16, and the rest is twelve layers, one behind the other, that end
/// where the file ends.
pub proof fn lemma_loaded(bytes: &[u8], m: Model<u32>) -> (blocks: Seq<Seq<u8>>)
    requires
        call_ensures(Model::<u32>::load, (bytes,), Ok::<Model<u32>, ModelError>(m)),
    ensures
        bytes@.len() >= 8,
        bytes@[0] == 0x43 && bytes@[1] == 0x43 && bytes@[2] == 0x4D && bytes@[3] == 0x31,
        bytes@[5] <= 2,
        m.width == bytes@[4],
        m.dim == bytes@[6] + 256 * bytes@[7],
        0 < m.width <= 64 && m.width as int % 16 == 0,
        0 < m.dim <= 512 && m.dim as int % 16 == 0,
        blocks.len() == 12,
        forall|li: int| 0 <= li < 12 ==> is_layer_block(bytes@.take(8), #[trigger] blocks[li], li),
        bytes@ == bytes@.take(8) + joined(blocks, 0),
{
    let b = bytes@;
    let blocks = Seq::new(
        12,
        |li: int| b.subrange(layer_start(b, li).unwrap(), layer_start(b, li + 1).unwrap()),
    );
    lemma_all_starts(b, 12);
    assert forall|li: int| 0 <= li < 12 implies is_layer_block(b.take(8), #[trigger] blocks[li], li)
        by {
        lemma_a_layer(b, li);
    }
    lemma_rejoined(b, blocks, 0);
    assert(b =~= b.take(8) + b.skip(8));
    blocks
}

proof fn lemma_a_layer(b: Seq<u8>, li: int)
    requires
        header_ok(b),
        0 <= li < 12,
        layer_start(b, li + 1) is Some,
    ensures
        is_layer_block(
            b.take(8),
            b.subrange(layer_start(b, li).unwrap(), layer_start(b, li + 1).unwrap()),
            li,
        ),
{
    lemma_start_below(b, li + 1);
    lemma_start_below(b, li);
    let (s, e) = (layer_start(b, li).unwrap(), layer_start(b, li + 1).unwrap());
    assert(layer_start(b, li + 1) == layer_end(b, li, s));
    lemma_layer(b[4] as int, dim_in(b), li);
    let (head, block) = (b.take(8), b.subrange(s, e));
    assert(head[4] == b[4] && head[5] == b[5] && head[6] == b[6] && head[7] == b[7]);
    assert(le16_at(head, 6) == le16_at(b, 6));
    if b[5] == 2 {
        assert(block[0] == b[s]);
    }
}

proof fn lemma_start_below(b: Seq<u8>, li: int)
    requires
        header_ok(b),
        0 <= li <= 12,
        layer_start(b, li) is Some,
    ensures
        8 <= layer_start(b, li).unwrap() <= b.len(),
        li > 0 ==> layer_start(b, li - 1) is Some && layer_start(b, li - 1).unwrap()
            <= layer_start(b, li).unwrap(),
        li > 0 && b[5] == 2 ==> layer_start(b, li - 1).unwrap() < layer_start(b, li).unwrap(),
    decreases li,
{
    if li > 0 {
        lemma_start_below(b, li - 1);
        lemma_layer(width_in(b), dim_in(b), li - 1);
        let s = layer_start(b, li - 1).unwrap();
        let n = weights_of(width_in(b), dim_in(b), li - 1);
        assert(n * b[s] >= 0) by (nonlinear_arith)
            requires
                n >= 0,
                b[s] >= 0,
        ;
    }
}

proof fn lemma_all_starts(b: Seq<u8>, n: int)
    requires
        header_ok(b),
        0 <= n <= 12,
        layer_start(b, n) is Some,
    ensures
        forall|li: int| 0 <= li <= n ==> #[trigger] layer_start(b, li) is Some,
    decreases n,
{
    if n > 0 {
        lemma_start_below(b, n);
        lemma_all_starts(b, n - 1);
    }
}

proof fn lemma_rejoined(b: Seq<u8>, blocks: Seq<Seq<u8>>, li: int)
    requires
        valid(b),
        0 <= li <= 12,
        blocks.len() == 12,
        forall|l: int|
            0 <= l < 12 ==> #[trigger] blocks[l] == b.subrange(
                layer_start(b, l).unwrap(),
                layer_start(b, l + 1).unwrap(),
            ),
    ensures
        joined(blocks, li) == b.skip(layer_start(b, li).unwrap()),
    decreases 12 - li,
{
    lemma_all_starts(b, 12);
    lemma_start_below(b, li);
    if li < 12 {
        lemma_start_below(b, li + 1);
        lemma_rejoined(b, blocks, li + 1);
        let (s, e) = (layer_start(b, li).unwrap(), layer_start(b, li + 1).unwrap());
        assert(blocks[li] == b.subrange(s, e));
        assert(b.subrange(s, e) + b.skip(e) =~= b.skip(s));
    } else {
        assert(b.skip(b.len() as int) =~= Seq::<u8>::empty());
    }
}

/// A header and twelve layers, one behind the other, are loaded. The bias of a channel is where
/// the layer keeps it, and so is a conv's weight, by its output channel, tap and input channel.
pub proof fn lemma_load_call(
    bytes: &[u8],
    r: Result<Model<u32>, ModelError>,
    head: Seq<u8>,
    blocks: Seq<Seq<u8>>,
    li: int,
    co: int,
    ci: int,
    ky: int,
    kx: int,
)
    requires
        call_ensures(Model::<u32>::load, (bytes,), r),
        head.len() == 8,
        head[0] == 0x43 && head[1] == 0x43 && head[2] == 0x4D && head[3] == 0x31,
        head[5] <= 2,
        0 < head[4] <= 64 && head[4] as int % 16 == 0,
        0 < head[6] + 256 * head[7] <= 512 && (head[6] + 256 * head[7]) % 16 == 0,
        blocks.len() == 12,
        forall|l: int| 0 <= l < 12 ==> is_layer_block(head, #[trigger] blocks[l], l),
        bytes@ == head + joined(blocks, 0),
        0 <= li < 12,
        li != 4 && li != 11,
        0 <= co < cout_of(head[4] as int, head[6] + 256 * head[7], li),
        0 <= ci < cin_of(head[4] as int, li),
        0 <= ky < 3,
        0 <= kx < 3,
    ensures
        r matches Ok(m) && ({
            let (w, dim, t) = (head[4] as int, head[6] + 256 * head[7], blocks[li]);
            let (c, n) = (cout_of(w, dim, li), cin_of(w, li));
            let at = offset_of(w, dim, li);
            let weight = m.buf@[at + ((co / 16) * (9 * n) + (3 * ky + kx) * n + ci) * 16 + co % 16];
            let bias = m.buf@[at + weights_of(w, dim, li) + co];
            let i = co * (9 * n) + (9 * ci + 3 * ky + kx);
            &&& head[5] == 0 ==> bias == le32_at(t, 4 * co) && weight == le32_at(t, 4 * c + 4 * i)
            &&& head[5] == 1 ==> bias == le32_at(t, 4 * co) && weight == widened(
                le16_at(t, 4 * c + 2 * i),
            )
            &&& head[5] == 2 ==> bias == le32_at(t, 1 + 4 * c + 4 * co) && weight == multiple(
                code(t.skip(1 + 8 * c), t[0] as int, i),
                le32_at(t, 1 + 4 * co),
            )
        }),
{
    let b = bytes@;
    let e = 9 * ci + 3 * ky + kx;
    assert(header_ok(head));
    let (w, dim) = (head[4] as int, head[6] + 256 * head[7]);
    assert(k_of(w, li) == 9 * cin_of(w, li));
    lemma_layers_read_back(head, blocks, li, co, e);
    assert(b[4] == head[4] && b[6] == head[6] && b[7] == head[7]);
    assert(header_ok(b));
    let m = r.unwrap();
    lemma_conv_weight_cell(b, m.buf@, li, co, ci, ky, kx);
    assert(bias_cell(b, m.buf@, li, co) == super::file::bias_in(b, li, co));
}

/// A fully connected layer over one row is the row of it over many.
proof fn lemma_fc_alone<T: Scalar>(
    m: Weights<T>,
    li: int,
    f: spec_fn(int) -> Seq<T>,
    count: int,
    i: int,
)
    requires
        sized(m.width, m.dim),
        li == 4 || li == 11,
        0 <= i < count,
        f(i).len() == k_of(m.width, li),
    ensures
        row(m.fc_map(li, stacked(f, count, k_of(m.width, li)), count), i, m.dim) == m.fc_map(
            li,
            f(i),
            1,
        ),
{
    let (k, c) = (k_of(m.width, li), m.dim);
    let (x, y) = (stacked(f, count, k), f(i));
    let (p, q) = (m.fc_map(li, x, count), m.fc_map(li, y, 1));
    lemma_layer(m.width, m.dim, li);
    assert forall|t: int| 0 <= t < k implies x[i * k + t] == #[trigger] y[0 + t] by {
        lemma_in_row(i, t, k, count);
    }
    assert forall|t: int| 0 <= t < c implies row(p, i, c)[t] == #[trigger] q[t] by {
        lemma_in_row(i, t, c, count);
        lemma_in_row(0, t, c, 1);
        assert(0 * k == 0);
        lemma_dot_same(x, i * k, y, 0, m.weights(li), k, m.bias(li, t), t, k);
    }
    lemma_in_row(i, c - 1, c, count);
    assert(row(p, i, c) =~= q);
}

/// A map of `n` by `n` pixels with a blank border, from its pixels.
pub open spec fn is_padded<T: Scalar>(map: Seq<T>, crop: Seq<T>, n: int) -> bool {
    &&& map.len() == (n + 2) * (n + 2)
    &&& forall|y: int, x: int|
        0 <= y < n && 0 <= x < n ==> map[(y + 1) * (n + 2) + (x + 1)] == #[trigger] crop[y * n + x]
    &&& forall|y: int, x: int|
        0 <= y < n + 2 && 0 <= x < n + 2 && (y == 0 || x == 0 || y == n + 1 || x == n + 1)
            ==> #[trigger] map[y * (n + 2) + x] == T::zero_spec()
}

proof fn lemma_padded<T: Scalar>(map: Seq<T>, crop: Seq<T>, n: int)
    requires
        0 < n,
        is_padded(map, crop, n),
    ensures
        map == pad_map(crop, n),
{
    let c = n + 2;
    assert forall|i: int| 0 <= i < c * c implies map[i] == #[trigger] pad_map(crop, n)[i] by {
        let (y, x) = (i / c, i % c);
        vstd::arithmetic::div_mod::lemma_fundamental_div_mod(i, c);
        assert(0 <= y < c) by (nonlinear_arith)
            requires
                i == c * y + x,
                0 <= x < c,
                0 <= i < c * c,
                0 < c,
        ;
        assert(y * c == c * y) by (nonlinear_arith);
        if y == 0 || x == 0 || y == n + 1 || x == n + 1 {
            assert(map[y * (n + 2) + x] == T::zero_spec());
        } else {
            let (v, u) = (y - 1, x - 1);
            assert(map[(v + 1) * (n + 2) + (u + 1)] == crop[v * n + u]);
        }
    }
    assert(map =~= pad_map(crop, n));
}

/// The prompt tower, call by call: two convs on 16x16 pixels, a pool, two convs on 8x8 pixels,
/// a pool to 4x4 pixels without a border. Buffers are as long as what they get.
pub proof fn lemma_prompt_tower<T: Kernel>(
    m: Model<T>,
    crop: Seq<T>,
    ix: [&mut Ixs; 4],
    ins: [&[T]; 6],
    a: &mut [T],
    b: &mut [T],
    c: &mut [T],
    d: &mut [T],
    e: &mut [T],
    f: &mut [T],
)
    requires
        m.wf(),
        is_padded(ins[0]@, crop, 16),
        call_ensures(Model::<T>::conv, (&m, 0usize, ins[0], 16usize, 1usize, a, ix[0]), ()),
        old(a)@.len() == 18 * 18 * m.width,
        ins[1]@ == final(a)@,
        call_ensures(Model::<T>::conv, (&m, 1usize, ins[1], 16usize, 1usize, b, ix[1]), ()),
        old(b)@.len() == 18 * 18 * m.width,
        ins[2]@ == final(b)@,
        call_ensures(maxpool::<T>, (ins[2], 16usize, m.width, c, true), ()),
        old(c)@.len() == 10 * 10 * m.width,
        ins[3]@ == final(c)@,
        call_ensures(Model::<T>::conv, (&m, 2usize, ins[3], 8usize, 1usize, d, ix[2]), ()),
        old(d)@.len() == 10 * 10 * (2 * m.width),
        ins[4]@ == final(d)@,
        call_ensures(Model::<T>::conv, (&m, 3usize, ins[4], 8usize, 1usize, e, ix[3]), ()),
        old(e)@.len() == 10 * 10 * (2 * m.width),
        ins[5]@ == final(e)@,
        call_ensures(maxpool::<T>, (ins[5], 8usize, (2 * m.width) as usize, f, false), ()),
        old(f)@.len() == 4 * 4 * (2 * m.width),
    ensures
        final(f)@ == m@.prompt_features(crop),
{
    let w = m.width as int;
    lemma_padded(ins[0]@, crop, 16);
    assert(m@.cout(0) == w && m@.cout(1) == w && m@.cout(2) == 2 * w && m@.cout(3) == 2 * w);
    let n0 = Seq::<T>::empty();
    assert(old(a)@.skip(18 * 18 * w) =~= n0);
    assert(final(a)@ =~= m@.conv_map(0, ins[0]@, 16, 1));
    assert(old(b)@.skip(18 * 18 * w) =~= n0);
    assert(final(b)@ =~= m@.conv_map(1, ins[1]@, 16, 1));
    assert(old(c)@.skip(10 * 10 * w) =~= n0);
    assert(final(c)@ =~= pool_map(ins[2]@, 16, w));
    assert(old(d)@.skip(10 * 10 * (2 * w)) =~= n0);
    assert(final(d)@ =~= m@.conv_map(2, ins[3]@, 8, 1));
    assert(old(e)@.skip(10 * 10 * (2 * w)) =~= n0);
    assert(final(e)@ =~= m@.conv_map(3, ins[4]@, 8, 1));
    assert(old(f)@.skip(4 * 4 * (2 * w)) =~= n0);
    assert(final(f)@ =~= pool_packed(ins[5]@, 8, 2 * w));
}

/// The candidate tower, call by call: two convs on 40x40 pixels, the first to every other
/// pixel, a pool, two convs on 10x10 pixels, a pool, two convs on 5x5 pixels, and the mean of
/// the pixels. Buffers are as long as what they get.
pub proof fn lemma_cand_tower<T: Kernel>(
    m: Model<T>,
    crop: Seq<T>,
    ix: [&mut Ixs; 6],
    ins: [&[T]; 9],
    a: &mut [T],
    b: &mut [T],
    c: &mut [T],
    d: &mut [T],
    e: &mut [T],
    f: &mut [T],
    g: &mut [T],
    h: &mut [T],
    k: &mut [T],
)
    requires
        m.wf(),
        is_padded(ins[0]@, crop, 40),
        call_ensures(Model::<T>::conv, (&m, 5usize, ins[0], 40usize, 2usize, a, ix[0]), ()),
        old(a)@.len() == 22 * 22 * m.width,
        ins[1]@ == final(a)@,
        call_ensures(Model::<T>::conv, (&m, 6usize, ins[1], 20usize, 1usize, b, ix[1]), ()),
        old(b)@.len() == 22 * 22 * m.width,
        ins[2]@ == final(b)@,
        call_ensures(maxpool::<T>, (ins[2], 20usize, m.width, c, true), ()),
        old(c)@.len() == 12 * 12 * m.width,
        ins[3]@ == final(c)@,
        call_ensures(Model::<T>::conv, (&m, 7usize, ins[3], 10usize, 1usize, d, ix[2]), ()),
        old(d)@.len() == 12 * 12 * (2 * m.width),
        ins[4]@ == final(d)@,
        call_ensures(Model::<T>::conv, (&m, 8usize, ins[4], 10usize, 1usize, e, ix[3]), ()),
        old(e)@.len() == 12 * 12 * (2 * m.width),
        ins[5]@ == final(e)@,
        call_ensures(maxpool::<T>, (ins[5], 10usize, (2 * m.width) as usize, f, true), ()),
        old(f)@.len() == 7 * 7 * (2 * m.width),
        ins[6]@ == final(f)@,
        call_ensures(Model::<T>::conv, (&m, 9usize, ins[6], 5usize, 1usize, g, ix[4]), ()),
        old(g)@.len() == 7 * 7 * (4 * m.width),
        ins[7]@ == final(g)@,
        call_ensures(Model::<T>::conv, (&m, 10usize, ins[7], 5usize, 1usize, h, ix[5]), ()),
        old(h)@.len() == 7 * 7 * (4 * m.width),
        ins[8]@ == final(h)@,
        call_ensures(mean_pool::<T>, (ins[8], 5usize, (4 * m.width) as usize, k), ()),
        old(k)@.len() == 4 * m.width,
    ensures
        final(k)@ == m@.cand_features(crop),
{
    let w = m.width as int;
    lemma_padded(ins[0]@, crop, 40);
    assert(m@.cout(5) == w && m@.cout(6) == w && m@.cout(7) == 2 * w && m@.cout(8) == 2 * w);
    assert(m@.cout(9) == 4 * w && m@.cout(10) == 4 * w);
    let n0 = Seq::<T>::empty();
    assert(old(a)@.skip(22 * 22 * w) =~= n0);
    assert(final(a)@ =~= m@.conv_map(5, ins[0]@, 40, 2));
    assert(old(b)@.skip(22 * 22 * w) =~= n0);
    assert(final(b)@ =~= m@.conv_map(6, ins[1]@, 20, 1));
    assert(old(c)@.skip(12 * 12 * w) =~= n0);
    assert(final(c)@ =~= pool_map(ins[2]@, 20, w));
    assert(old(d)@.skip(12 * 12 * (2 * w)) =~= n0);
    assert(final(d)@ =~= m@.conv_map(7, ins[3]@, 10, 1));
    assert(old(e)@.skip(12 * 12 * (2 * w)) =~= n0);
    assert(final(e)@ =~= m@.conv_map(8, ins[4]@, 10, 1));
    assert(old(f)@.skip(7 * 7 * (2 * w)) =~= n0);
    assert(final(f)@ =~= pool_map(ins[5]@, 10, 2 * w));
    assert(old(g)@.skip(7 * 7 * (4 * w)) =~= n0);
    assert(final(g)@ =~= m@.conv_map(9, ins[6]@, 5, 1));
    assert(old(h)@.skip(7 * 7 * (4 * w)) =~= n0);
    assert(final(h)@ =~= m@.conv_map(10, ins[7]@, 5, 1));
    assert(final(k)@ == mean_map(ins[8]@, 5, 4 * w, 4 * w));
}

/// A similarity is the inner product of two embeddings: each is what its tower gives for the
/// crop, through the tower's fully connected layer, normalized.
pub proof fn lemma_similarity_call<T: Kernel>(
    m: Model<T>,
    prompts: &[T],
    cands: &[T],
    s: &mut Scratch<T>,
    r: [[T; 6]; 4],
    i: int,
    j: int,
    p: &[T],
    q: &[T],
    u: &mut [T],
    v: &mut [T],
    x: &mut [T],
    y: &mut [T],
    ix: &mut Ixs,
    iy: &mut Ixs,
)
    requires
        m.wf(),
        call_ensures(Model::<T>::similarity, (&m, prompts, cands, s), r),
        0 <= i < 4,
        0 <= j < 6,
        p@ == m@.prompt_features(prompts@.subrange(256 * i, 256 * i + 256)),
        q@ == m@.cand_features(cands@.subrange(1600 * j, 1600 * j + 1600)),
        call_ensures(Model::<T>::fc, (&m, 4usize, p, 1usize, u, ix), ()),
        call_ensures(Model::<T>::fc, (&m, 11usize, q, 1usize, v, iy), ()),
        old(u)@.len() == m.dim,
        old(v)@.len() == m.dim,
        old(x)@ == final(u)@,
        old(y)@ == final(v)@,
        call_ensures(normalize::<T>, (x,), ()),
        call_ensures(normalize::<T>, (y,), ()),
    ensures
        final(x)@.len() == m.dim,
        final(y)@.len() == m.dim,
        r[i][j] == inner(final(x)@, final(y)@, m.dim as int),
{
    let (w, dim) = (m.width as int, m.dim as int);
    let f = |k: int| m@.prompt_features(row(prompts@, k, 256));
    let g = |k: int| m@.cand_features(row(cands@, k, 1600));
    assert(256 * i == i * 256 && 256 * i + 256 == (i + 1) * 256);
    assert(1600 * j == j * 1600 && 1600 * j + 1600 == (j + 1) * 1600);
    assert(f(i) == p@);
    assert(g(j) == q@);
    assert(4 * 4 * (2 * w) == 32 * w) by (nonlinear_arith);
    lemma_fc_alone(m@, 4, f, 4, i);
    lemma_fc_alone(m@, 11, g, 6, j);
    let n0 = Seq::<T>::empty();
    assert(1 * m@.cout(4) == dim && 1 * m@.cout(11) == dim);
    assert(old(u)@.skip(dim) =~= n0);
    assert(final(u)@ =~= m@.fc_map(4, p@, 1));
    assert(old(v)@.skip(dim) =~= n0);
    assert(final(v)@ =~= m@.fc_map(11, q@, 1));
    assert(final(x)@ == m@.prompt_embedding(prompts@, i));
    assert(final(y)@ == m@.cand_embedding(cands@, j));
    assert(final(x)@.len() == unit_map(old(x)@).len());
}

/// A conv of a map that has one input in the window of a pixel: the pixel is the bias and the
/// input times the weight of that tap and channel, and zero where that is not positive. The
/// border stays blank.
pub proof fn lemma_conv_call(
    m: Model<Single>,
    li: usize,
    inp: &[Single],
    n: usize,
    stride: usize,
    out: &mut [Single],
    ix: &mut Ixs,
    y: int,
    x: int,
    co: int,
    ky: int,
    kx: int,
    ci: int,
)
    requires
        m.wf(),
        call_ensures(Model::<Single>::conv, (&m, li, inp, n, stride, out, ix), ()),
        li < 12,
        li != 4,
        li != 11,
        1 <= stride,
        old(out)@.len() >= (n / stride + 2) * (n / stride + 2) * m@.cout(li as int),
        0 <= y < n / stride,
        0 <= x < n / stride,
        0 <= co < m@.cout(li as int),
        0 <= ky < 3,
        0 <= kx < 3,
        0 <= ci < m@.cin(li as int),
        finite(m@.bias(li as int, co).0),
        forall|i: int|
            0 <= i < 9 * m@.cin(li as int) ==> finite(
                #[trigger] m@.weights(li as int)[slot(co, 9 * m@.cin(li as int), i)].0,
            ),
        finite(inp@[at(y * stride + ky, x * stride + kx, ci, n + 2, m@.cin(li as int))].0),
        forall|i: int, j: int, c: int|
            0 <= i < 3 && 0 <= j < 3 && 0 <= c < m@.cin(li as int) && !(i == ky && j == kx && c
                == ci) ==> is_zero(
                #[trigger] inp@[at(y * stride + i, x * stride + j, c, n + 2, m@.cin(
                    li as int,
                ))].0,
            ),
    ensures
        ({
            let (c, cols) = (m@.cin(li as int), n as int / stride as int + 2);
            let v = inp@[at(y * stride + ky, x * stride + kx, ci, n + 2, c)].0;
            let w = m@.weights(li as int)[slot(co, 9 * c, (3 * ky + kx) * c + ci)].0;
            let s = sum(m@.bias(li as int, co).0, product(v, w));
            let r = final(out)@[at(y + 1, x + 1, co, cols, m@.cout(li as int))].0;
            &&& above(s, 0) ==> r == s
            &&& !above(s, 0) ==> is_zero(r)
            &&& final(out)@[at(0, x + 1, co, cols, m@.cout(li as int))].0 == 0
            &&& final(out)@[at(y + 1, 0, co, cols, m@.cout(li as int))].0 == 0
            &&& final(out)@[at(cols - 1, x + 1, co, cols, m@.cout(li as int))].0 == 0
            &&& final(out)@[at(y + 1, cols - 1, co, cols, m@.cout(li as int))].0 == 0
        }),
{
    let (l, k) = (li as int, n as int / stride as int);
    let (cols, c) = (k + 2, m@.cout(l));
    lemma_layer(m.width as int, m.dim as int, l);
    lemma_conv_impulse(m@, l, inp@, n as int, stride as int, y, x, co, ky, kx, ci);
    let all = m@.conv_map(l, inp@, n as int, stride as int);
    lemma_at(y + 1, x + 1, co, cols, cols, c);
    lemma_at(0, x + 1, co, cols, cols, c);
    lemma_at(y + 1, 0, co, cols, cols, c);
    lemma_at(cols - 1, x + 1, co, cols, cols, c);
    lemma_at(y + 1, cols - 1, co, cols, cols, c);
    assert(all.len() == cols * cols * c);
}

/// A fully connected layer of a row with one input: the bias and the input times its weight.
pub proof fn lemma_fc_call(
    m: Model<Single>,
    li: usize,
    inp: &[Single],
    n: usize,
    out: &mut [Single],
    ix: &mut Ixs,
    i: int,
    co: int,
    e: int,
)
    requires
        m.wf(),
        call_ensures(Model::<Single>::fc, (&m, li, inp, n, out, ix), ()),
        li < 12,
        0 <= i < n,
        0 <= co < m@.cout(li as int),
        0 <= e < k_of(m.width as int, li as int),
        finite(m@.bias(li as int, co).0),
        forall|j: int|
            0 <= j < k_of(m.width as int, li as int) ==> finite(
                #[trigger] m@.weights(li as int)[slot(co, k_of(m.width as int, li as int), j)].0,
            ),
        finite(inp@[i * k_of(m.width as int, li as int) + e].0),
        forall|j: int|
            0 <= j < k_of(m.width as int, li as int) && j != e ==> is_zero(
                #[trigger] inp@[i * k_of(m.width as int, li as int) + j].0,
            ),
    ensures
        same(
            final(out)@[i * m@.cout(li as int) + co].0,
            sum(
                m@.bias(li as int, co).0,
                product(
                    inp@[i * k_of(m.width as int, li as int) + e].0,
                    m@.weights(li as int)[slot(co, k_of(m.width as int, li as int), e)].0,
                ),
            ),
        ),
{
    let l = li as int;
    lemma_layer(m.width as int, m.dim as int, l);
    lemma_fc_impulse(m@, l, inp@, n as int, i, co, e);
    lemma_in_row(i, co, m@.cout(l), n as int);
}

/// A pooled pixel is one of the four under it, and none of them is above it. A border, where
/// there is one, is blank.
pub proof fn lemma_maxpool_call(
    inp: &[Single],
    n: usize,
    c: usize,
    out: &mut [Single],
    padded: bool,
    y: int,
    x: int,
    k: int,
    dy: int,
    dx: int,
)
    requires
        1 <= c,
        call_ensures(maxpool::<Single>, (inp, n, c, out, padded), ()),
        0 <= y < n as int / 2,
        0 <= x < n as int / 2,
        0 <= k < c,
        0 <= dy <= 1,
        0 <= dx <= 1,
        forall|i: int, j: int|
            0 <= i <= 1 && 0 <= j <= 1 ==> !is_nan(
                #[trigger] inp@[at(2 * y + 1 + i, 2 * x + 1 + j, k, n + 2, c as int)].0,
            ),
    ensures
        ({
            let m = n as int / 2;
            let r = if padded {
                final(out)@[at(y + 1, x + 1, k, m + 2, c as int)]
            } else {
                final(out)@[at(y, x, k, m, c as int)]
            };
            &&& padded ==> {
                &&& final(out)@[at(0, x + 1, k, m + 2, c as int)].0 == 0
                &&& final(out)@[at(y + 1, 0, k, m + 2, c as int)].0 == 0
                &&& final(out)@[at(m + 1, x + 1, k, m + 2, c as int)].0 == 0
                &&& final(out)@[at(y + 1, m + 1, k, m + 2, c as int)].0 == 0
            }
            &&& !above(inp@[at(2 * y + 1 + dy, 2 * x + 1 + dx, k, n + 2, c as int)].0, r.0)
            &&& exists|i: int, j: int|
                0 <= i <= 1 && 0 <= j <= 1 && r == #[trigger] inp@[at(
                    2 * y + 1 + i,
                    2 * x + 1 + j,
                    k,
                    n + 2,
                    c as int,
                )]
        }),
{
    let m = n as int / 2;
    lemma_pooled(inp@, n as int, c as int, y, x, k, dy, dx);
    let all = pool_map(inp@, n as int, c as int);
    lemma_at(y, x, k, m, m, c as int);
    lemma_at(y + 1, x + 1, k, m + 2, m + 2, c as int);
    lemma_at(0, x + 1, k, m + 2, m + 2, c as int);
    lemma_at(y + 1, 0, k, m + 2, m + 2, c as int);
    lemma_at(m + 1, x + 1, k, m + 2, m + 2, c as int);
    lemma_at(y + 1, m + 1, k, m + 2, m + 2, c as int);
    assert(all.len() == (m + 2) * (m + 2) * c);
}

/// Normalizing divides every number of a vector by the same one: the root of the vector's inner
/// product with itself, or a tiny number where that is larger.
pub proof fn lemma_normalize_call(v: &mut [Single]) -> (d: u32)
    requires
        call_ensures(normalize::<Single>, (v,), ()),
    ensures
        final(v)@.len() == old(v)@.len(),
        forall|i: int|
            0 <= i < old(v)@.len() ==> (#[trigger] final(v)@[i]).0 == quotient(old(v)@[i].0, d),
        !above(0x2B8C_BCCC, d),
        ({
            let root = root_of(inner(old(v)@, old(v)@, old(v)@.len() as int).0);
            &&& d == root || d == 0x2B8C_BCCC
            &&& above(root, 0x2B8C_BCCC) ==> d == root
        }),
{
    lemma_one_divisor(old(v)@)
}

/// The mean of a channel that has one pixel is that pixel, divided by the number of pixels.
pub proof fn lemma_mean_pool_call(
    inp: &[Single],
    n: usize,
    c: usize,
    out: &mut [Single],
    k: int,
    y: int,
    x: int,
)
    requires
        1 <= n,
        n * n <= usize::MAX,
        call_ensures(mean_pool::<Single>, (inp, n, c, out), ()),
        old(out)@.len() == c,
        0 <= k < c,
        0 <= y < n,
        0 <= x < n,
        finite(inp@[at(y + 1, x + 1, k, n + 2, c as int)].0),
        forall|i: int, j: int|
            0 <= i < n && 0 <= j < n && !(i == y && j == x) ==> is_zero(
                #[trigger] inp@[at(i + 1, j + 1, k, n + 2, c as int)].0,
            ),
    ensures
        ({
            let v = inp@[at(y + 1, x + 1, k, n + 2, c as int)].0;
            !is_zero(v) ==> final(out)@[k].0 == quotient(v, whole(n * n))
        }),
{
    lemma_mean_impulse(inp@, n as int, c as int, k, y, x);
}

/// A code of `bits` bits, low ones first, is a number from its own range.
pub proof fn lemma_code_call(c: &mut Codes, bits: u32, q: i32, v: int, i: int)
    requires
        old(c).wf(),
        call_ensures(Codes::next, (c, bits), q),
        2 <= bits <= 8,
        old(c).used@ == i * bits,
        -pow2((bits - 1) as nat) <= v < pow2((bits - 1) as nat),
        forall|t: int|
            0 <= t < bits ==> #[trigger] low_bit(old(c).raw@, i * bits + t) == (v / pow2(
                t as nat,
            ) as int) % 2,
    ensures
        q == v,
        final(c).used@ == old(c).used@ + bits,
{
    lemma_code_read_back(old(c).raw@, bits as int, i, v);
}

} // verus!
