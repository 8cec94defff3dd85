//! What holds of model files and of the network as a whole.

use super::codes::{code, low_bit, low_bits};
use super::file::{
    bias_cell, bias_in, cell, channels, dim_in, header_ok, layer_end, layer_start, le16_at,
    le32_at, scale_bytes, unpacked, valid, weight_at, weight_bytes, weight_count, weight_in,
    width_in,
};
use super::layout::{
    cin_of, cout_of, k_of, lemma_layer, lemma_place, lemma_slot, offset_of, sized, slot,
    weights_of,
};
use super::maps::{row, stacked, Weights};
use crate::ieee::product::{multiple, widened};
use crate::kernel::dot;
use crate::scalar::Scalar;
use vstd::arithmetic::power2::{lemma_pow2_unfold, pow2};
use vstd::prelude::*;

verus! {

proof fn lemma_start_in_prefix(p: Seq<u8>, q: Seq<u8>, li: int)
    requires
        header_ok(p),
        p.is_prefix_of(q),
        0 <= li <= 12,
    ensures
        layer_start(p, li) matches Some(s) ==> 8 <= s <= p.len() && layer_start(q, li) == Some(s),
    decreases li,
{
    assert forall|i: int| 0 <= i < p.len() implies p[i] == q[i] by {
        assert(q.subrange(0, p.len() as int)[i] == q[i]);
    }
    if li > 0 {
        lemma_start_in_prefix(p, q, li - 1);
        if let Some(s) = layer_start(p, li - 1) {
            lemma_layer(width_in(p), dim_in(p), li - 1);
            if layer_end(p, li - 1, s) is Some {
                let n = weight_count(p, li - 1);
                assert(weight_bytes(p, li - 1, s) >= 0) by {
                    assert(n * p[s] >= 0) by (nonlinear_arith)
                        requires
                            n >= 0,
                            p[s] >= 0,
                    ;
                }
            }
        }
    }
}

/// A model file has one length: nothing can be cut off its end, and nothing appended.
pub proof fn lemma_one_length(p: Seq<u8>, q: Seq<u8>)
    requires
        valid(p),
        valid(q),
        p.is_prefix_of(q),
    ensures
        p == q,
{
    lemma_start_in_prefix(p, q, 12);
    assert(q.subrange(0, p.len() as int) =~= q);
}

/// The layer that index `g` of the weight buffer falls into.
proof fn lemma_layer_of(w: int, dim: int, g: int, n: int) -> (li: int)
    requires
        super::layout::sized(w, dim),
        0 <= n <= 12,
        0 <= g < offset_of(w, dim, n),
    ensures
        0 <= li < n,
        offset_of(w, dim, li) <= g < offset_of(w, dim, li) + weights_of(w, dim, li) + cout_of(
            w,
            dim,
            li,
        ),
    decreases n,
{
    if g < offset_of(w, dim, n - 1) {
        lemma_layer_of(w, dim, g, n - 1)
    } else {
        n - 1
    }
}

/// A file determines its weight buffer: every entry is one weight or one bias of the file.
pub proof fn lemma_one_buffer(b: Seq<u8>, p: Seq<u32>, q: Seq<u32>)
    requires
        header_ok(b),
        unpacked(b, p, 12),
        unpacked(b, q, 12),
    ensures
        p == q,
{
    let (w, dim) = (width_in(b), dim_in(b));
    assert forall|g: int| 0 <= g < p.len() implies p[g] == q[g] by {
        let li = lemma_layer_of(w, dim, g, 12);
        let j = g - offset_of(w, dim, li);
        if j < weight_count(b, li) {
            assert(cell(b, p, li, j) == cell(b, q, li, j));
        } else {
            let co = j - weight_count(b, li);
            assert(co < channels(b, li));
            assert(bias_cell(b, p, li, co) == bias_cell(b, q, li, co));
        }
    }
    assert(p =~= q);
}

/// A sum of products depends on the inputs that it takes, not on where they are.
pub proof fn lemma_dot_same<T: Scalar>(
    x: Seq<T>,
    a: int,
    y: Seq<T>,
    b: int,
    w: Seq<T>,
    k: int,
    bias: T,
    co: int,
    n: int,
)
    requires
        0 <= n <= k,
        forall|i: int| 0 <= i < k ==> x[a + i] == #[trigger] y[b + i],
    ensures
        dot(x, a, 0, k, w, k, bias, co, n) == dot(y, b, 0, k, w, k, bias, co, n),
    decreases n,
{
    if n > 0 {
        lemma_dot_same(x, a, y, b, w, k, bias, co, n - 1);
        vstd::arithmetic::div_mod::lemma_fundamental_div_mod_converse(n - 1, k, 0, n - 1);
        assert(0 * 0 == 0int);
        assert(x[a + (n - 1)] == y[b + (n - 1)]);
    }
}

/// Row `i` of a fully connected layer over stacked features is made of feature `i` alone.
proof fn lemma_fc_row<T: Scalar>(
    m: Weights<T>,
    li: int,
    f: spec_fn(int) -> Seq<T>,
    g: spec_fn(int) -> Seq<T>,
    count: int,
    i: int,
    j: int,
)
    requires
        sized(m.width, m.dim),
        li == 4 || li == 11,
        0 <= i < count,
        0 <= j < count,
        f(i) == g(j),
    ensures
        ({
            let k = k_of(m.width, li);
            row(m.fc_map(li, stacked(f, count, k), count), i, m.dim) == row(
                m.fc_map(li, stacked(g, count, k), count),
                j,
                m.dim,
            )
        }),
{
    let (k, c) = (k_of(m.width, li), m.dim);
    let (x, y) = (stacked(f, count, k), stacked(g, count, k));
    let (p, q) = (m.fc_map(li, x, count), m.fc_map(li, y, count));
    lemma_layer(m.width, m.dim, li);
    assert forall|t: int| 0 <= t < k implies x[i * k + t] == #[trigger] y[j * k + t] by {
        lemma_in_row(i, t, k, count);
        lemma_in_row(j, t, k, count);
    }
    assert forall|t: int| 0 <= t < c implies row(p, i, c)[t] == #[trigger] row(q, j, c)[t] by {
        lemma_in_row(i, t, c, count);
        lemma_in_row(j, t, c, count);
        lemma_dot_same(x, i * k, y, j * k, m.weights(li), k, m.bias(li, t), t, k);
    }
    lemma_in_row(i, c - 1, c, count);
    lemma_in_row(j, c - 1, c, count);
    assert((i + 1) * c == i * c + c && (j + 1) * c == j * c + c) by (nonlinear_arith);
    assert(row(p, i, c) =~= row(q, j, c));
}

/// Entry `t` of row `i`.
pub proof fn lemma_in_row(i: int, t: int, n: int, count: int)
    requires
        0 <= i < count,
        0 <= t < n,
    ensures
        0 <= i * n,
        i * n + t < count * n,
        i * n + n <= count * n,
        (i * n + t) / n == i,
        (i * n + t) % n == t,
        (i + 1) * n == i * n + n,
{
    assert(0 <= i * n && i * n + n <= count * n && (i + 1) * n == i * n + n) by (nonlinear_arith)
        requires
            0 <= i,
            i + 1 <= count,
            0 < n,
    ;
    vstd::arithmetic::div_mod::lemma_fundamental_div_mod_converse(i * n + t, n, i, t);
}

/// A similarity depends on its own prompt crop and its own candidate crop alone: not on the
/// others, nor on where the two stand among them.
pub proof fn lemma_cosine_local<T: Scalar>(
    m: Weights<T>,
    prompts: Seq<T>,
    cands: Seq<T>,
    i: int,
    j: int,
    prompts2: Seq<T>,
    cands2: Seq<T>,
    i2: int,
    j2: int,
)
    requires
        sized(m.width, m.dim),
        0 <= i < 4,
        0 <= i2 < 4,
        0 <= j < 6,
        0 <= j2 < 6,
        row(prompts, i, 256) == row(prompts2, i2, 256),
        row(cands, j, 1600) == row(cands2, j2, 1600),
    ensures
        m.cosine(prompts, cands, i, j) == m.cosine(prompts2, cands2, i2, j2),
{
    lemma_fc_row(
        m,
        4,
        |k: int| m.prompt_features(row(prompts, k, 256)),
        |k: int| m.prompt_features(row(prompts2, k, 256)),
        4,
        i,
        i2,
    );
    lemma_fc_row(
        m,
        11,
        |k: int| m.cand_features(row(cands, k, 1600)),
        |k: int| m.cand_features(row(cands2, k, 1600)),
        6,
        j,
        j2,
    );
}

/// Reordering the prompt crops reorders the rows of the similarity matrix, and reordering the
/// candidate crops its columns.
pub proof fn lemma_crops_permute<T: Scalar>(
    m: Weights<T>,
    prompts: Seq<T>,
    cands: Seq<T>,
    prompts2: Seq<T>,
    cands2: Seq<T>,
    s: spec_fn(int) -> int,
    t: spec_fn(int) -> int,
)
    requires
        sized(m.width, m.dim),
        forall|i: int|
            0 <= i < 4 ==> 0 <= #[trigger] s(i) < 4 && row(prompts2, i, 256) == row(
                prompts,
                s(i),
                256,
            ),
        forall|j: int|
            0 <= j < 6 ==> 0 <= #[trigger] t(j) < 6 && row(cands2, j, 1600) == row(
                cands,
                t(j),
                1600,
            ),
    ensures
        forall|i: int, j: int|
            0 <= i < 4 && 0 <= j < 6 ==> #[trigger] m.cosine(prompts2, cands2, i, j) == m.cosine(
                prompts,
                cands,
                s(i),
                t(j),
            ),
{
    assert forall|i: int, j: int| 0 <= i < 4 && 0 <= j < 6 implies #[trigger] m.cosine(
        prompts2,
        cands2,
        i,
        j,
    ) == m.cosine(prompts, cands, s(i), t(j)) by {
        assert(0 <= s(i) < 4 && 0 <= t(j) < 6);
        lemma_cosine_local(m, prompts2, cands2, i, j, prompts, cands, s(i), t(j));
    }
}

/// Codes read back as they were written: `n` bits in two's complement, lowest first, code after
/// code.
pub proof fn lemma_code_read_back(s: Seq<u8>, n: int, i: int, v: int)
    requires
        1 <= n,
        -pow2((n - 1) as nat) <= v < pow2((n - 1) as nat),
        forall|t: int|
            0 <= t < n ==> #[trigger] low_bit(s, i * n + t) == (v / pow2(t as nat) as int) % 2,
    ensures
        code(s, n, i) == v,
{
    lemma_low_bits_of(s, i * n, v, n);
    lemma_pow2_unfold(n as nat);
    let p = pow2(n as nat) as int;
    if v < 0 {
        vstd::arithmetic::div_mod::lemma_fundamental_div_mod_converse(v, p, -1, v + p);
    } else {
        vstd::arithmetic::div_mod::lemma_small_mod(v as nat, p as nat);
    }
}

proof fn lemma_low_bits_of(s: Seq<u8>, at: int, v: int, n: int)
    requires
        0 <= n,
        forall|t: int|
            0 <= t < n ==> #[trigger] low_bit(s, at + t) == (v / pow2(t as nat) as int) % 2,
    ensures
        low_bits(s, at, n) == v % pow2(n as nat) as int,
    decreases n,
{
    vstd::arithmetic::power2::lemma2_to64();
    if n > 0 {
        lemma_low_bits_of(s, at, v, n - 1);
        assert(low_bit(s, at + (n - 1)) == (v / pow2((n - 1) as nat) as int) % 2);
        let p = pow2((n - 1) as nat) as int;
        vstd::arithmetic::power2::lemma_pow2_pos((n - 1) as nat);
        lemma_pow2_unfold(n as nat);
        vstd::arithmetic::div_mod::lemma_fundamental_div_mod(v, p);
        vstd::arithmetic::div_mod::lemma_fundamental_div_mod(v / p, 2);
        let (q, b, r) = (v / p / 2, v / p % 2, v % p);
        assert(v == (2 * p) * q + (b * p + r)) by (nonlinear_arith)
            requires
                v == p * (v / p) + r,
                v / p == 2 * q + b,
        ;
        assert(0 <= b * p + r < 2 * p) by (nonlinear_arith)
            requires
                0 <= b <= 1,
                0 <= r < p,
        ;
        assert(v == q * (2 * p) + (b * p + r)) by (nonlinear_arith)
            requires
                v == (2 * p) * q + (b * p + r),
        ;
        vstd::arithmetic::div_mod::lemma_fundamental_div_mod_converse(v, 2 * p, q, b * p + r);
    } else {
        assert(v % 1 == 0);
    }
}

/// Blocks of bytes, one behind the other, from `li` on.
pub open spec fn joined(blocks: Seq<Seq<u8>>, li: int) -> Seq<u8>
    decreases blocks.len() - li,
{
    if li >= blocks.len() {
        Seq::empty()
    } else {
        blocks[li] + joined(blocks, li + 1)
    }
}

/// Bytes before block `li`.
pub open spec fn bytes_before(blocks: Seq<Seq<u8>>, li: int) -> int
    decreases li,
{
    if li <= 0 {
        0
    } else {
        bytes_before(blocks, li - 1) + blocks[li - 1].len()
    }
}

/// A block of bytes holds layer `li` of a file with the given header: biases of four bytes, and
/// weights of four or two bytes, or of as many bits as its first byte says, 2 to 8, after a scale
/// of four bytes for each channel.
pub open spec fn is_layer_block(head: Seq<u8>, block: Seq<u8>, li: int) -> bool {
    let c = cout_of(head[4] as int, le16_at(head, 6) as int, li);
    let n = c * k_of(head[4] as int, li);
    if head[5] == 0 {
        block.len() == 4 * c + 4 * n
    } else if head[5] == 1 {
        block.len() == 4 * c + 2 * n
    } else {
        &&& block.len() >= 1
        &&& 2 <= block[0] <= 8
        &&& block.len() == 1 + 8 * c + (n * block[0] + 7) / 8
    }
}

proof fn lemma_block_place(a: Seq<u8>, blocks: Seq<Seq<u8>>, from: int, li: int)
    requires
        0 <= from <= li <= blocks.len(),
    ensures
        ({
            let at = a.len() + bytes_before(blocks, li) - bytes_before(blocks, from);
            let all = a + joined(blocks, from);
            &&& a.len() <= at <= all.len()
            &&& all.skip(at) == joined(blocks, li)
        }),
    decreases li,
{
    let all = a + joined(blocks, from);
    if li == from {
        assert(all.skip(a.len() as int) =~= joined(blocks, from));
    } else {
        lemma_block_place(a, blocks, from, li - 1);
        let at = a.len() + bytes_before(blocks, li - 1) - bytes_before(blocks, from);
        let n = blocks[li - 1].len() as int;
        assert(all.skip(at).len() == n + joined(blocks, li).len());
        assert(all.skip(at + n) =~= all.skip(at).skip(n));
        assert((blocks[li - 1] + joined(blocks, li)).skip(n) =~= joined(blocks, li));
    }
}

/// A file of a header and twelve blocks, each a layer, is a model file: every layer starts where
/// the one before ends, and its biases and weights are those of its own block. A bit count and
/// scales, where there are any, are its own, too.
pub proof fn lemma_layers_read_back(head: Seq<u8>, blocks: Seq<Seq<u8>>, li: int, co: int, e: int)
    requires
        header_ok(head),
        head.len() == 8,
        blocks.len() == 12,
        forall|l: int| 0 <= l < 12 ==> is_layer_block(head, #[trigger] blocks[l], l),
        0 <= li < 12,
        0 <= co < cout_of(head[4] as int, le16_at(head, 6) as int, li),
        0 <= e < k_of(head[4] as int, li),
    ensures
        ({
            let b = head + joined(blocks, 0);
            let (c, k) = (
                cout_of(head[4] as int, le16_at(head, 6) as int, li),
                k_of(head[4] as int, li),
            );
            let t = blocks[li];
            &&& valid(b)
            &&& head[5] == 0 ==> bias_in(b, li, co) == le32_at(t, 4 * co)
            &&& head[5] == 0 ==> weight_in(b, li, co, e) == le32_at(t, 4 * c + 4 * (co * k + e))
            &&& head[5] == 1 ==> bias_in(b, li, co) == le32_at(t, 4 * co)
            &&& head[5] == 1 ==> weight_in(b, li, co, e) == widened(
                le16_at(t, 4 * c + 2 * (co * k + e)),
            )
            &&& head[5] == 2 ==> bias_in(b, li, co) == le32_at(t, 1 + 4 * c + 4 * co)
            &&& head[5] == 2 ==> weight_in(b, li, co, e) == multiple(
                code(t.skip(1 + 8 * c), t[0] as int, co * k + e),
                le32_at(t, 1 + 4 * co),
            )
        }),
{
    let b = head + joined(blocks, 0);
    assert(b[4] == head[4] && b[5] == head[5] && b[6] == head[6] && b[7] == head[7]);
    assert(b[0] == head[0] && b[1] == head[1] && b[2] == head[2] && b[3] == head[3]);
    lemma_starts(head, blocks, li);
    lemma_starts(head, blocks, 12);
    lemma_block_place(head, blocks, 0, li);
    lemma_block_place(head, blocks, 0, 12);
    let start = 8 + bytes_before(blocks, li);
    let t = blocks[li];
    assert(joined(blocks, 12) =~= Seq::<u8>::empty());
    assert(b.len() == 8 + bytes_before(blocks, 12));
    let z = b.skip(start);
    assert(z == t + joined(blocks, li + 1));
    assert forall|i: int| 0 <= i < t.len() implies #[trigger] t[i] == b[start + i] by {
        assert(z[i] == t[i]);
    }
    let (w, d) = (head[4] as int, le16_at(head, 6) as int);
    let (c, k) = (cout_of(w, d, li), k_of(w, li));
    lemma_layer(w, d, li);
    let (i, n) = (co * k + e, c * k);
    assert(0 <= i < n) by (nonlinear_arith)
        requires
            i == co * k + e,
            n == c * k,
            0 <= co < c,
            0 <= e < k,
    ;
    let from = start + scale_bytes(b, li) + 4 * channels(b, li);
    let size = weight_bytes(b, li, start);
    let raw = b.subrange(from, from + size);
    assert(start + t.len() <= b.len());
    if head[5] == 2 {
        assert(t[0] == b[start + 0]);
        assert(raw =~= t.skip(1 + 8 * c));
        assert(t[1 + 4 * co] == b[start + (1 + 4 * co)] && t[1 + 4 * co + 1] == b[start + (1 + 4 * co
            + 1)] && t[1 + 4 * co + 2] == b[start + (1 + 4 * co + 2)] && t[1 + 4 * co + 3]
            == b[start + (1 + 4 * co + 3)]);
        let x = 1 + 4 * c + 4 * co;
        assert(t[x] == b[start + x] && t[x + 1] == b[start + (x + 1)] && t[x + 2] == b[start + (x
            + 2)] && t[x + 3] == b[start + (x + 3)]);
    } else {
        assert(raw =~= t.skip(4 * c));
        let x = 4 * co;
        assert(t[x] == b[start + x] && t[x + 1] == b[start + (x + 1)] && t[x + 2] == b[start + (x
            + 2)] && t[x + 3] == b[start + (x + 3)]);
    }
}

proof fn lemma_starts(head: Seq<u8>, blocks: Seq<Seq<u8>>, li: int)
    requires
        header_ok(head),
        head.len() == 8,
        blocks.len() == 12,
        forall|l: int| 0 <= l < 12 ==> is_layer_block(head, #[trigger] blocks[l], l),
        0 <= li <= 12,
    ensures
        layer_start(head + joined(blocks, 0), li) == Some(8 + bytes_before(blocks, li)),
    decreases li,
{
    let b = head + joined(blocks, 0);
    if li > 0 {
        lemma_starts(head, blocks, li - 1);
        lemma_block_place(head, blocks, 0, li - 1);
        lemma_block_place(head, blocks, 0, li);
        let l = li - 1;
        let start = 8 + bytes_before(blocks, l);
        assert(b[4] == head[4] && b[5] == head[5] && b[6] == head[6] && b[7] == head[7]);
        assert(is_layer_block(head, blocks[l], l));
        let z = b.skip(start);
        assert(z == blocks[l] + joined(blocks, li));
        if head[5] == 2 {
            assert(z[0] == blocks[l][0]);
            assert(b[start] == z[0]);
        }
        lemma_layer(head[4] as int, le16_at(head, 6) as int, l);
    }
}

/// Where a file's weights go: a conv's weight for input channel `ci` and tap (`ky`, `kx`) comes
/// at place (`ky`, `kx`, `ci`) of its output channel, whose places are 16 apart, with those of
/// the 15 channels that share its block between them.
pub proof fn lemma_conv_weight_cell(
    b: Seq<u8>,
    buf: Seq<u32>,
    li: int,
    co: int,
    ci: int,
    ky: int,
    kx: int,
)
    requires
        header_ok(b),
        unpacked(b, buf, 12),
        0 <= li < 12,
        li != 4,
        li != 11,
        0 <= co < cout_of(width_in(b), dim_in(b), li),
        0 <= ci < cin_of(width_in(b), li),
        0 <= ky < 3,
        0 <= kx < 3,
    ensures
        ({
            let cin = cin_of(width_in(b), li);
            let x = (3 * ky + kx) * cin + ci;
            buf[offset_of(width_in(b), dim_in(b), li) + ((co / 16) * (9 * cin) + x) * 16 + co % 16]
                == weight_in(b, li, co, 9 * ci + 3 * ky + kx)
        }),
{
    let (w, d) = (width_in(b), dim_in(b));
    let cin = cin_of(w, li);
    let (e, x) = (9 * ci + 3 * ky + kx, (3 * ky + kx) * cin + ci);
    let t = 3 * ky + kx;
    assert(e % 9 == t && e / 9 == ci);
    lemma_layer(w, d, li);
    lemma_place(w, li, e);
    lemma_slot(co, cout_of(w, d, li), 9 * cin, x);
    let j = slot(co, 9 * cin, x);
    assert(cell(b, buf, li, j) == weight_at(b, li, j));
}

/// Where they go in the prompt tower's last layer: channel after channel of 4x4 maps in the
/// file, pixel after pixel here. The candidate tower's last layer keeps its order.
pub proof fn lemma_fc_weight_cell(b: Seq<u8>, buf: Seq<u32>, co: int, c: int, p: int, e: int)
    requires
        header_ok(b),
        unpacked(b, buf, 12),
        0 <= co < dim_in(b),
        0 <= c < 2 * width_in(b),
        0 <= p < 16,
        0 <= e < 4 * width_in(b),
    ensures
        ({
            let (w, d) = (width_in(b), dim_in(b));
            let x = p * (2 * w) + c;
            &&& buf[offset_of(w, d, 4) + ((co / 16) * (32 * w) + x) * 16 + co % 16] == weight_in(
                b,
                4,
                co,
                16 * c + p,
            )
            &&& buf[offset_of(w, d, 11) + ((co / 16) * (4 * w) + e) * 16 + co % 16] == weight_in(
                b,
                11,
                co,
                e,
            )
        }),
{
    let (w, d) = (width_in(b), dim_in(b));
    lemma_layer(w, d, 4);
    lemma_layer(w, d, 11);
    let i = 16 * c + p;
    assert(i % 16 == p && i / 16 == c);
    assert((32 * w) / 16 == 2 * w);
    lemma_place(w, 4, i);
    lemma_slot(co, d, 32 * w, p * (2 * w) + c);
    let j = slot(co, 32 * w, p * (2 * w) + c);
    assert(cell(b, buf, 4, j) == weight_at(b, 4, j));
    lemma_place(w, 11, e);
    lemma_slot(co, d, 4 * w, e);
    let j = slot(co, 4 * w, e);
    assert(cell(b, buf, 11, j) == weight_at(b, 11, j));
}

} // verus!
