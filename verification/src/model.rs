//! The two-tower matcher on HWC activations, and its .ccm weight file.
//!
//! ```text
//! prompt 16x16 -> conv w, conv w, pool, conv 2w, conv 2w, pool, flatten, fc dim -> L2 norm
//! cand   40x40 -> conv w /2, conv w, pool, conv 2w, conv 2w, pool, conv 4w, conv 4w, mean, fc dim -> L2 norm
//! ```
//!
//! Every conv is 3x3 + folded BatchNorm + ReLU. Weights are dequantized once at load time;
//! they are single-precision numbers throughout.

pub mod calls;
pub mod codes;
pub mod laws;
pub mod layout;
pub mod maps;
pub mod net;
pub mod steps;

pub mod file;

use crate::ieee::product::{f16_to_f32, multiply};
use codes::Codes;
use file::{
    bias_cell, bias_in, cell, channels, dim_in, dtype_in, header_ok, layer_end, layer_start,
    le32_at, scale_bytes, unpacked, valid, weight_at, weight_bytes, weight_count, weight_in,
    width_in,
};
use layout::{
    channel_at, cin_of, cout_of, input_at, k_of, lemma_cell, lemma_layer, lemma_offsets,
    lemma_place, lemma_slot, offset_of, place, place_at, sized, slot, weights_of, C_FC, LAYERS,
    P_FC,
};
use maps::Weights;
use vstd::prelude::*;

verus! {

/// The weight file is malformed or describes an unsupported shape.
#[derive(Clone, Copy, Debug, PartialEq, Eq, Structural)]
pub struct ModelError;

/// One layer.
#[derive(Clone, Copy)]
pub struct Layer {
    pub cin: usize,
    pub cout: usize,
    /// Inputs per output channel: 9*cin for a conv, fan_in for an fc.
    pub k: usize,
    /// Offsets of the packed weights and of the bias in `Model::buf`.
    pub w: usize,
    pub b: usize,
}

impl Layer {
    /// Layer `li` of a network.
    pub open spec fn is(self, w: int, dim: int, li: int) -> bool {
        &&& self.cin == cin_of(w, li)
        &&& self.cout == cout_of(w, dim, li)
        &&& self.k == k_of(w, li)
        &&& self.w == offset_of(w, dim, li)
        &&& self.b == self.w + weights_of(w, dim, li)
    }
}

/// A loaded model. A file gives single-precision bit patterns; the network computes with
/// numbers.
pub struct Model<T> {
    pub width: usize,
    pub dim: usize,
    pub layers: [Layer; 12],
    pub buf: Vec<T>,
}

impl<T> View for Model<T> {
    type V = Weights<T>;

    open spec fn view(&self) -> Weights<T> {
        Weights { width: self.width as int, dim: self.dim as int, buf: self.buf@ }
    }
}

impl<T> Model<T> {
    /// The layers are those of the width and the dimension, and the buffer has room for them.
    pub open spec fn wf(self) -> bool {
        &&& sized(self.width as int, self.dim as int)
        &&& forall|li: int|
            0 <= li < 12 ==> (#[trigger] self.layers[li]).is(
                self.width as int,
                self.dim as int,
                li,
            )
        &&& self.buf@.len() == offset_of(self.width as int, self.dim as int, 12)
    }
}

/// A byte string, read front to back.
pub struct Reader<'a> {
    pub b: &'a [u8],
    pub i: usize,
}

impl<'a> Reader<'a> {
    /// The next `n` bytes.
    pub fn take(&mut self, n: usize) -> (r: Result<&'a [u8], ModelError>)
        requires
            old(self).i <= old(self).b@.len(),
        ensures
            final(self).b@ == old(self).b@,
            old(self).i + n <= old(self).b@.len() ==> {
                &&& r matches Ok(s)
                &&& s@ == old(self).b@.subrange(old(self).i as int, old(self).i + n)
                &&& final(self).i == old(self).i + n
            },
            old(self).i + n > old(self).b@.len() ==> {
                &&& r == Err::<&'a [u8], ModelError>(ModelError)
                &&& final(self).i == old(self).i
            },
    {
        if n > self.b.len() - self.i {
            return Err(ModelError);
        }
        let b: &'a [u8] = self.b;
        let s: &'a [u8] = &b[self.i..self.i + n];
        self.i = self.i + n;
        Ok(s)
    }
}

/// The little-endian 32-bit number at `i`.
fn le32(s: &[u8], i: usize) -> (r: u32)
    requires
        i + 4 <= s@.len(),
    ensures
        r == le32_at(s@, i as int),
{
    s[i] as u32 + 256 * (s[i + 1] as u32) + 65536 * (s[i + 2] as u32) + 16777216 * (s[i
        + 3] as u32)
}

/// The shapes of the layers, and the size of their buffer.
fn plan(w: usize, dim: usize) -> (r: ([Layer; 12], usize))
    requires
        sized(w as int, dim as int),
    ensures
        forall|li: int| 0 <= li < 12 ==> (#[trigger] r.0[li]).is(w as int, dim as int, li),
        r.1 == offset_of(w as int, dim as int, 12),
{
    let none = Layer { cin: 0, cout: 0, k: 0, w: 0, b: 0 };
    let mut layers: [Layer; 12] = [none; 12];
    let cins: [usize; 12] = [
        1,
        w,
        w,
        2 * w,
        32 * w,
        1,
        w,
        w,
        2 * w,
        2 * w,
        4 * w,
        4 * w,
    ];
    let couts: [usize; 12] = [
        w,
        w,
        2 * w,
        2 * w,
        dim,
        w,
        w,
        2 * w,
        2 * w,
        4 * w,
        4 * w,
        dim,
    ];
    let mut total: usize = 0;
    let mut li: usize = 0;
    while li < LAYERS
        invariant
            li <= LAYERS,
            sized(w as int, dim as int),
            forall|i: int| 0 <= i < 12 ==> #[trigger] cins[i] == cin_of(w as int, i),
            forall|i: int| 0 <= i < 12 ==> #[trigger] couts[i] == cout_of(w as int, dim as int, i),
            forall|i: int| 0 <= i < li ==> (#[trigger] layers[i]).is(w as int, dim as int, i),
            total == offset_of(w as int, dim as int, li as int),
        decreases LAYERS - li,
    {
        proof {
            lemma_layer(w as int, dim as int, li as int);
            lemma_offsets(w as int, dim as int, li as int, 12);
        }
        let (cin, cout): (usize, usize) = (cins[li], couts[li]);
        let k: usize = if li == P_FC || li == C_FC {
            cin
        } else {
            9 * cin
        };
        let n: usize = cout * k;
        layers[li] = Layer { cin, cout, k, w: total, b: total + n };
        total = total + n + cout;
        li += 1;
    }
    (layers, total)
}

/// The weight of input `e` of channel `co` is kept at `j`.
pub open spec fn is_cell_of(l: Layer, li: int, j: int, co: int, e: int) -> bool {
    channel_at(j, l.k as int) == co && input_at(li, l.cin as int, place_at(j, l.k as int)) == e
}

/// Cell `j` belongs to a channel before `co`, or to it and to an input before `e`.
pub open spec fn is_before(l: Layer, li: int, j: int, co: int, e: int) -> bool {
    let c = channel_at(j, l.k as int);
    c < co || c == co && input_at(li, l.cin as int, place_at(j, l.k as int)) < e
}

/// Where the weight of input `e` of channel `co` is kept: only there, and not for any other.
proof fn lemma_only_cell(w: int, dim: int, l: Layer, li: int, co: int, e: int)
    requires
        sized(w, dim),
        0 <= li < 12,
        l.is(w, dim, li),
        0 <= co < l.cout,
        0 <= e < l.k,
    ensures
        ({
            let at = slot(co, l.k as int, place(li, l.cin as int, e));
            &&& 0 <= at < weights_of(w, dim, li)
            &&& is_cell_of(l, li, at, co, e)
            &&& forall|j: int|
                0 <= j < weights_of(w, dim, li) && #[trigger] is_cell_of(l, li, j, co, e) ==> j
                    == at
        }),
{
    let (k, cin) = (l.k as int, l.cin as int);
    lemma_layer(w, dim, li);
    lemma_place(w, li, e);
    lemma_slot(co, l.cout as int, k, place(li, cin, e));
    assert forall|j: int|
        0 <= j < weights_of(w, dim, li) && #[trigger] is_cell_of(l, li, j, co, e) implies j == slot(
        co,
        k,
        place(li, cin, e),
    ) by {
        lemma_cell(j, l.cout as int, k);
        lemma_place(w, li, place_at(j, k));
    }
}

/// Everything read of a layer, before it is put in place.
struct Block<'a> {
    dtype: u8,
    bits: u32,
    /// One scale per output channel, where weights are codes.
    scales: &'a [u8],
    raw: &'a [u8],
}

impl<'a> Block<'a> {
    /// The block is layer `li` of the file `b`.
    spec fn is(self, b: Seq<u8>, li: int) -> bool {
        let start = layer_start(b, li).unwrap();
        let from = start + scale_bytes(b, li) + 4 * channels(b, li);
        &&& self.dtype == dtype_in(b)
        &&& self.raw@ == b.subrange(from, from + weight_bytes(b, li, start))
        &&& self.dtype == 2 ==> {
            &&& self.bits == b[start]
            &&& 2 <= self.bits <= 8
            &&& self.scales@ == b.subrange(start + 1, start + 1 + 4 * channels(b, li))
        }
    }

    /// The next weight: input `e` of channel `co`.
    fn weight(
        &self,
        codes: &mut Codes<'a>,
        co: usize,
        e: usize,
        l: &Layer,
        Ghost(b): Ghost<Seq<u8>>,
        Ghost(li): Ghost<int>,
    ) -> (v: u32)
        requires
            header_ok(b),
            0 <= li < 12,
            layer_start(b, li) matches Some(start) && start >= 0 && layer_end(b, li, start) is Some,
            l.is(width_in(b), dim_in(b), li),
            self.is(b, li),
            co < l.cout,
            e < l.k,
            old(codes).wf(),
            old(codes).raw@ == self.raw@,
            self.dtype == 2 ==> old(codes).used@ == (co * l.k + e) * self.bits,
        ensures
            v == weight_in(b, li, co as int, e as int),
            final(codes).wf(),
            final(codes).raw@ == self.raw@,
            self.dtype == 2 ==> final(codes).used@ == (co * l.k + e + 1) * self.bits,
    {
        let ghost n = weight_count(b, li);
        proof {
            lemma_layer(width_in(b), dim_in(b), li);
            assert(co * l.k + e < n && co * l.k < n) by (nonlinear_arith)
                requires
                    co < l.cout,
                    e < l.k,
                    n == l.cout * l.k,
            ;
        }
        let i: usize = co * l.k + e;
        if self.dtype == 0 {
            le32(self.raw, 4 * i)
        } else if self.dtype == 1 {
            let h: u16 = self.raw[2 * i] as u16 + 256 * (self.raw[2 * i + 1] as u16);
            f16_to_f32(h)
        } else {
            proof {
                let m = self.bits as int;
                assert(i * m + m <= n * m && (i + 1) * m == i * m + m) by (nonlinear_arith)
                    requires
                        i < n,
                        m >= 0,
                ;
                assert(8 * self.raw@.len() >= n * m);
            }
            let q: i32 = codes.next(self.bits);
            multiply(q, le32(self.scales, 4 * co))
        }
    }
}

/// Puts the weights of layer `li` in place.
fn place_weights(
    blk: &Block,
    l: &Layer,
    li: usize,
    buf: &mut Vec<u32>,
    Ghost(b): Ghost<Seq<u8>>,
)
    requires
        header_ok(b),
        li < 12,
        layer_start(b, li as int) matches Some(start) && start >= 0 && layer_end(
            b,
            li as int,
            start,
        ) is Some,
        l.is(width_in(b), dim_in(b), li as int),
        blk.is(b, li as int),
        old(buf)@.len() == offset_of(width_in(b), dim_in(b), 12),
    ensures
        final(buf)@.len() == old(buf)@.len(),
        forall|j: int|
            0 <= j < weight_count(b, li as int) ==> #[trigger] cell(b, final(buf)@, li as int, j)
                == weight_at(b, li as int, j),
        forall|i: int|
            0 <= i < old(buf)@.len() && !(l.w <= i < l.b) ==> #[trigger] final(buf)@[i] == old(
                buf,
            )@[i],
{
    let ghost (w, dim, gi) = (width_in(b), dim_in(b), li as int);
    let ghost n = weight_count(b, gi);
    proof {
        lemma_layer(w, dim, gi);
        lemma_offsets(w, dim, gi, 12);
    }
    let mut codes = Codes::new(blk.raw);
    let mut co: usize = 0;
    while co < l.cout
        invariant
            header_ok(b),
            li < 12,
            gi == li,
            w == width_in(b),
            dim == dim_in(b),
            n == weights_of(w, dim, gi),
            layer_start(b, gi) matches Some(start) && start >= 0 && layer_end(b, gi, start) is Some,
            l.is(w, dim, gi),
            blk.is(b, gi),
            co <= l.cout,
            1 <= l.k <= 2304,
            1 <= l.cin <= 2048,
            l.cout <= 512,
            l.b <= buf@.len(),
            buf@.len() == old(buf)@.len(),
            codes.wf(),
            codes.raw@ == blk.raw@,
            blk.dtype == 2 ==> codes.used@ == (co * l.k) * blk.bits,
            forall|j: int|
                0 <= j < n && is_before(*l, gi, j, co as int, 0) ==> #[trigger] cell(b, buf@, gi, j)
                    == weight_at(b, gi, j),
            forall|i: int|
                0 <= i < old(buf)@.len() && !(l.w <= i < l.b) ==> #[trigger] buf@[i] == old(
                    buf,
                )@[i],
        decreases l.cout - co,
    {
        let mut e: usize = 0;
        while e < l.k
            invariant
                header_ok(b),
                li < 12,
                gi == li,
                w == width_in(b),
                dim == dim_in(b),
                n == weights_of(w, dim, gi),
                layer_start(b, gi) matches Some(start) && start >= 0 && layer_end(
                    b,
                    gi,
                    start,
                ) is Some,
                l.is(w, dim, gi),
                blk.is(b, gi),
                co < l.cout,
                e <= l.k,
                1 <= l.k <= 2304,
                1 <= l.cin <= 2048,
                l.cout <= 512,
                l.b <= buf@.len(),
                buf@.len() == old(buf)@.len(),
                codes.wf(),
                codes.raw@ == blk.raw@,
                blk.dtype == 2 ==> codes.used@ == (co * l.k + e) * blk.bits,
                forall|j: int|
                    0 <= j < n && is_before(*l, gi, j, co as int, e as int) ==> #[trigger] cell(
                        b,
                        buf@,
                        gi,
                        j,
                    ) == weight_at(b, gi, j),
                forall|i: int|
                    0 <= i < old(buf)@.len() && !(l.w <= i < l.b) ==> #[trigger] buf@[i] == old(
                        buf,
                    )@[i],
            decreases l.k - e,
        {
            let v: u32 = blk.weight(&mut codes, co, e, l, Ghost(b), Ghost(gi));
            let ghost before = buf@;
            proof {
                lemma_layer(w, dim, gi);
                lemma_only_cell(w, dim, *l, gi, co as int, e as int);
                lemma_place(w, gi, e as int);
                assert(0 <= (co as int / 16) * l.k + 2304 <= 100000) by (nonlinear_arith)
                    requires
                        co <= 512,
                        0 <= l.k <= 2304,
                ;
                assert((e as int % 16) * (l.cin as int / 16) <= 2048 && (e as int % 9) * l.cin
                    <= 18432 && (e as int % 16) * (l.cin as int / 16) >= 0 && (e as int % 9)
                    * l.cin >= 0) by (nonlinear_arith)
                    requires
                        0 <= l.cin <= 2048,
                ;
            }
            let x: usize = if li == P_FC {
                (e % 16) * (l.cin / 16) + e / 16
            } else if li == C_FC {
                e
            } else {
                (e % 9) * l.cin + e / 9
            };
            let at: usize = ((co / 16) * l.k + x) * 16 + co % 16;
            assert(at == slot(co as int, l.k as int, place(gi, l.cin as int, e as int)));
            buf.set(l.w + at, v);
            proof {
                assert forall|j: int|
                    0 <= j < n && is_before(*l, gi, j, co as int, e + 1) implies #[trigger] cell(
                    b,
                    buf@,
                    gi,
                    j,
                ) == weight_at(b, gi, j) by {
                    if j == at {
                        assert(is_cell_of(*l, gi, j, co as int, e as int));
                    } else {
                        assert(!is_cell_of(*l, gi, j, co as int, e as int));
                        assert(cell(b, before, gi, j) == weight_at(b, gi, j));
                    }
                }
            }
            e += 1;
        }
        proof {
            assert((co + 1) * l.k == co * l.k + l.k) by (nonlinear_arith);
            assert forall|j: int|
                0 <= j < n && is_before(*l, gi, j, co + 1, 0) implies #[trigger] cell(
                b,
                buf@,
                gi,
                j,
            ) == weight_at(b, gi, j) by {
                lemma_layer(w, dim, gi);
                lemma_cell(j, l.cout as int, l.k as int);
                lemma_place(w, gi, place_at(j, l.k as int));
                assert(is_before(*l, gi, j, co as int, l.k as int));
            }
        }
        co += 1;
    }
    proof {
        assert forall|j: int| 0 <= j < n implies #[trigger] cell(b, buf@, gi, j) == weight_at(
            b,
            gi,
            j,
        ) by {
            lemma_cell(j, l.cout as int, l.k as int);
            lemma_place(w, gi, place_at(j, l.k as int));
            assert(is_before(*l, gi, j, l.cout as int, 0));
        }
    }
}

/// Reads the biases of a layer into place.
fn place_biases(raw: &[u8], l: &Layer, buf: &mut Vec<u32>)
    requires
        raw@.len() == 4 * l.cout,
        l.cout <= 512,
        l.b <= 0x1000_0000,
        l.b + l.cout <= old(buf)@.len(),
    ensures
        final(buf)@.len() == old(buf)@.len(),
        forall|i: int|
            0 <= i < old(buf)@.len() ==> #[trigger] final(buf)@[i] == if l.b <= i < l.b + l.cout {
                le32_at(raw@, 4 * (i - l.b))
            } else {
                old(buf)@[i]
            },
{
    let mut co: usize = 0;
    while co < l.cout
        invariant
            co <= l.cout <= 512,
            raw@.len() == 4 * l.cout,
            l.b <= 0x1000_0000,
            l.b + l.cout <= buf@.len(),
            buf@.len() == old(buf)@.len(),
            forall|i: int|
                0 <= i < old(buf)@.len() ==> #[trigger] buf@[i] == if l.b <= i < l.b + co {
                    le32_at(raw@, 4 * (i - l.b))
                } else {
                    old(buf)@[i]
                },
        decreases l.cout - co,
    {
        let v: u32 = le32(raw, 4 * co);
        buf.set(l.b + co, v);
        co += 1;
    }
}

/// Reads one layer into place.
fn load_layer(
    rd: &mut Reader,
    dtype: u8,
    l: &Layer,
    li: usize,
    buf: &mut Vec<u32>,
) -> (r: Result<(), ModelError>)
    requires
        header_ok(old(rd).b@),
        dtype == dtype_in(old(rd).b@),
        li < 12,
        layer_start(old(rd).b@, li as int) == Some(old(rd).i as int),
        old(rd).i <= old(rd).b@.len(),
        l.is(width_in(old(rd).b@), dim_in(old(rd).b@), li as int),
        unpacked(old(rd).b@, old(buf)@, li as int),
    ensures
        final(rd).b@ == old(rd).b@,
        match layer_start(old(rd).b@, li + 1) {
            None => r == Err::<(), ModelError>(ModelError),
            Some(end) => {
                &&& r == Ok::<(), ModelError>(())
                &&& final(rd).i == end
                &&& end <= old(rd).b@.len()
                &&& unpacked(old(rd).b@, final(buf)@, li + 1)
            },
        },
{
    let ghost (b, start, gi) = (rd.b@, rd.i as int, li as int);
    let ghost (w, dim) = (width_in(b), dim_in(b));
    proof {
        lemma_layer(w, dim, gi);
        lemma_offsets(w, dim, gi, 12);
    }
    let n: usize = l.cout * l.k;
    let mut bits: usize = 0;
    let mut scales: &[u8] = rd.b;
    if dtype == 2 {
        let head: &[u8] = match rd.take(1) {
            Ok(s) => s,
            Err(e) => {
                return Err(e);
            },
        };
        bits = head[0] as usize;
        if !(2 <= bits && bits <= 8) {
            return Err(ModelError);
        }
        scales = match rd.take(4 * l.cout) {
            Ok(s) => s,
            Err(e) => {
                assert(weight_bytes(b, gi, start) >= 0) by (nonlinear_arith)
                    requires
                        weight_bytes(b, gi, start) == (n * bits + 7) / 8,
                        n >= 0,
                        bits >= 0,
                ;
                return Err(e);
            },
        };
    }
    assert(0 <= n * bits <= 8 * n) by (nonlinear_arith)
        requires
            0 <= bits <= 8,
            0 <= n,
    ;
    let biases: &[u8] = match rd.take(4 * l.cout) {
        Ok(s) => s,
        Err(e) => {
            return Err(e);
        },
    };
    let len: usize = if dtype == 0 {
        4 * n
    } else if dtype == 1 {
        2 * n
    } else {
        (n * bits + 7) / 8
    };
    assert(len == weight_bytes(b, gi, start));
    let raw: &[u8] = match rd.take(len) {
        Ok(s) => s,
        Err(e) => {
            return Err(e);
        },
    };
    let ghost old_buf = buf@;
    place_biases(biases, l, buf);
    let ghost mid = buf@;
    let blk = Block { dtype, bits: bits as u32, scales, raw };
    place_weights(&blk, l, li, buf, Ghost(b));
    proof {
        assert forall|i: int, j: int|
            0 <= i < gi + 1 && 0 <= j < weight_count(b, i) implies #[trigger] cell(b, buf@, i, j)
            == weight_at(b, i, j) by {
            if i < gi {
                lemma_offsets(w, dim, i, gi);
                lemma_layer(w, dim, i);
                lemma_offsets(w, dim, i, 12);
                assert(cell(b, old_buf, i, j) == weight_at(b, i, j));
            }
        }
        assert forall|i: int, co: int|
            0 <= i < gi + 1 && 0 <= co < channels(b, i) implies #[trigger] bias_cell(b, buf@, i, co)
            == bias_in(b, i, co) by {
            lemma_layer(w, dim, i);
            lemma_offsets(w, dim, i, 12);
            if i < gi {
                lemma_offsets(w, dim, i, gi);
                assert(bias_cell(b, old_buf, i, co) == bias_in(b, i, co));
            } else {
                let at = l.b + co;
                assert(mid[at] == le32_at(biases@, 4 * co));
                assert(buf@[at] == mid[at]);
            }
        }
    }
    Ok(())
}

/// A file that lacks a layer is no model.
proof fn lemma_start_none(b: Seq<u8>, n: int, m: int)
    requires
        n <= m,
        layer_start(b, n) is None,
    ensures
        layer_start(b, m) is None,
    decreases m - n,
{
    if n < m {
        lemma_start_none(b, n, m - 1);
    }
}

impl Model<u32> {
    /// Parses a .ccm file.
    pub fn load(bytes: &[u8]) -> (r: Result<Model<u32>, ModelError>)
        ensures
            match r {
                Ok(m) => {
                    &&& valid(bytes@)
                    &&& m.wf()
                    &&& m.width == width_in(bytes@)
                    &&& m.dim == dim_in(bytes@)
                    &&& unpacked(bytes@, m.buf@, 12)
                },
                Err(_) => !valid(bytes@),
            },
    {
        if bytes.len() < 8 {
            return Err(ModelError);
        }
        let (width, dtype): (usize, u8) = (bytes[4] as usize, bytes[5]);
        let dim: usize = bytes[6] as usize + 256 * (bytes[7] as usize);
        if bytes[0] != 0x43 || bytes[1] != 0x43 || bytes[2] != 0x4D || bytes[3] != 0x31 || dtype > 2
            || width == 0 || width % 16 != 0 || width > 64 || dim == 0 || dim % 16 != 0 || dim
            > 512 {
            return Err(ModelError);
        }
        let (layers, total): ([Layer; 12], usize) = plan(width, dim);
        let mut buf: Vec<u32> = vec![0; total];
        let mut rd = Reader { b: bytes, i: 8 };
        let mut li: usize = 0;
        while li < LAYERS
            invariant
                li <= LAYERS,
                header_ok(bytes@),
                rd.b@ == bytes@,
                dtype == dtype_in(bytes@),
                layer_start(bytes@, li as int) == Some(rd.i as int),
                rd.i <= bytes@.len(),
                forall|i: int|
                    0 <= i < 12 ==> (#[trigger] layers[i]).is(width_in(bytes@), dim_in(bytes@), i),
                unpacked(bytes@, buf@, li as int),
            decreases LAYERS - li,
        {
            match load_layer(&mut rd, dtype, &layers[li], li, &mut buf) {
                Ok(()) => {},
                Err(e) => {
                    proof {
                        lemma_start_none(bytes@, li + 1, 12);
                    }
                    return Err(e);
                },
            }
            li += 1;
        }
        if rd.i != bytes.len() {
            return Err(ModelError);
        }
        Ok(Model { width, dim, layers, buf })
    }
}

} // verus!
