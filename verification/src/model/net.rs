//! The forward pass.

use super::layout::{k_of, lemma_layer, lemma_offsets, C_FC, P_FC};
use super::maps::{
    at, inner, lemma_at, lemma_coordinates, mean_map, on_border, pad_map, pixel_sum, pool_map,
    pool_packed, pool_value, row, stacked, unit_map,
};
use super::{Layer, Model};
use crate::kernel::{apart, lemma_applied, lemma_applied_length, lies_at, run, Gemm, Kernel};
use crate::scalar::Scalar;
use vstd::prelude::*;

verus! {

/// Most output pixels of any conv: the 20x20 map after the stride-2 conv.
pub const MAX_PIXELS: usize = 400;

/// The zero-padded 40x40 candidate input.
pub const PAD_IN: usize = 1764;

/// Per-pixel input / output offsets handed to the kernel.
pub struct Ixs {
    pub a: Vec<usize>,
    pub o: Vec<usize>,
}

impl Ixs {
    /// There is room for every conv.
    pub open spec fn wf(self) -> bool {
        self.a@.len() == MAX_PIXELS && self.o@.len() == MAX_PIXELS
    }
}

/// Zeroes `n` numbers.
fn fill_zero<T: Scalar>(buf: &mut [T], from: usize, n: usize)
    requires
        from + n <= old(buf)@.len(),
    ensures
        final(buf)@.len() == old(buf)@.len(),
        forall|i: int|
            0 <= i < old(buf)@.len() ==> #[trigger] final(buf)@[i] == if from <= i < from + n {
                T::zero_spec()
            } else {
                old(buf)@[i]
            },
{
    let len: usize = buf.len();
    let mut i: usize = 0;
    while i < n
        invariant
            i <= n,
            len == buf@.len(),
            from + n <= len,
            buf@.len() == old(buf)@.len(),
            forall|j: int|
                0 <= j < len ==> #[trigger] buf@[j] == if from <= j < from + i {
                    T::zero_spec()
                } else {
                    old(buf)@[j]
                },
        decreases n - i,
    {
        buf[from + i] = T::zero();
        i += 1;
    }
}

/// Entry `i` of a padded m x m map of `c` channels is on the border.
pub open spec fn blank_at(i: int, m: int, c: int) -> bool {
    on_border(i / c / (m + 2), i / c % (m + 2), m)
}

/// A map of `side` x `side` pixels that is there has no more pixels or rows than numbers.
proof fn lemma_cells(side: int, c: int, len: int)
    requires
        0 <= side,
        1 <= c,
        side * side * c <= len,
    ensures
        0 <= side * side <= len,
        side <= side * side,
        side * c <= len,
        0 <= side * c,
{
    let s = side * side;
    assert(side <= s) by (nonlinear_arith)
        requires
            0 <= side,
            s == side * side,
    ;
    assert(s <= s * c && side * c <= s * c && 0 <= side * c) by (nonlinear_arith)
        requires
            0 <= side <= s,
            1 <= c,
    ;
}

/// Zeroes the border of a padded m x m map.
fn zero_border<T: Scalar>(buf: &mut [T], m: usize, c: usize)
    requires
        1 <= c,
        (m + 2) * (m + 2) * c <= old(buf)@.len(),
    ensures
        final(buf)@.len() == old(buf)@.len(),
        forall|i: int|
            0 <= i < old(buf)@.len() ==> #[trigger] final(buf)@[i] == if i < (m + 2) * (m + 2) * c
                && blank_at(i, m as int, c as int) {
                T::zero_spec()
            } else {
                old(buf)@[i]
            },
{
    let len: usize = buf.len();
    proof {
        lemma_cells(m + 2, c as int, len as int);
    }
    let cells: usize = (m + 2) * (m + 2);
    let mut p: usize = 0;
    while p < cells
        invariant
            p <= cells,
            cells == (m + 2) * (m + 2),
            m + 2 <= cells,
            1 <= c,
            cells * c <= len,
            len == buf@.len(),
            buf@.len() == old(buf)@.len(),
            forall|i: int|
                0 <= i < old(buf)@.len() ==> #[trigger] buf@[i] == if i < p * c && blank_at(
                    i,
                    m as int,
                    c as int,
                ) {
                    T::zero_spec()
                } else {
                    old(buf)@[i]
                },
        decreases cells - p,
    {
        let (y, x): (usize, usize) = (p / (m + 2), p % (m + 2));
        proof {
            lemma_rows(p as int, cells as int, c as int);
            assert forall|i: int| p * c <= i < p * c + c implies #[trigger] blank_at(
                i,
                m as int,
                c as int,
            ) == on_border(y as int, x as int, m as int) by {
                vstd::arithmetic::div_mod::lemma_fundamental_div_mod_converse(
                    i,
                    c as int,
                    p as int,
                    i - p * c,
                );
            }
        }
        if y == 0 || x == 0 || y == m + 1 || x == m + 1 {
            fill_zero(buf, p * c, c);
        }
        p += 1;
    }
}

/// Copies a crop of n x n pixels into a padded map.
fn pad_crop<T: Scalar>(crop: &[T], n: usize, out: &mut [T])
    requires
        n <= 40,
        crop@.len() >= n * n,
        (n + 2) * (n + 2) <= old(out)@.len(),
    ensures
        final(out)@.len() == old(out)@.len(),
        final(out)@ == pad_map(crop@, n as int) + old(out)@.skip((n + 2) * (n + 2)),
{
    assert((n + 2) * (n + 2) <= 42 * 42 && n * n <= 1600) by (nonlinear_arith)
        requires
            0 <= n <= 40,
    ;
    let cells: usize = (n + 2) * (n + 2);
    let mut i: usize = 0;
    while i < cells
        invariant
            i <= cells,
            cells == (n + 2) * (n + 2),
            cells <= 1764,
            n <= 40,
            n * n <= crop@.len(),
            cells <= out@.len(),
            out@.len() == old(out)@.len(),
            forall|j: int|
                0 <= j < out@.len() ==> #[trigger] out@[j] == if j < i {
                    pad_map(crop@, n as int)[j]
                } else {
                    old(out)@[j]
                },
        decreases cells - i,
    {
        let (y, x): (usize, usize) = (i / (n + 2), i % (n + 2));
        proof {
            assert(cells * 1 == cells);
            assert(i as int / 1 == i);
            lemma_coordinates(i as int, n + 2, n + 2, 1);
            assert(i as int / 1 / (n + 2) == y);
        }
        let v: T = if y == 0 || x == 0 || y == n + 1 || x == n + 1 {
            T::zero()
        } else {
            proof {
                assert((y - 1) * n + x - 1 < n * n && 0 <= (y - 1) * n && (y - 1) * n <= 1600)
                    by (nonlinear_arith)
                    requires
                        1 <= y <= n,
                        1 <= x <= n,
                        n <= 40,
                ;
            }
            crop[(y - 1) * n + x - 1]
        };
        out[i] = v;
        i += 1;
    }
    assert(out@ =~= pad_map(crop@, n as int) + old(out)@.skip(cells as int));
}

/// The inner pixel `q` of a padded m x m map.
pub open spec fn inner_cell(q: int, m: int) -> int {
    (q / m + 1) * (m + 2) + q % m + 1
}

/// Inner pixels follow one another.
proof fn lemma_inner_cells(p: int, q: int, m: int)
    requires
        1 <= m,
        0 <= p < q,
    ensures
        inner_cell(p, m) + 1 <= inner_cell(q, m),
{
    let (a, b) = (p / m, q / m);
    vstd::arithmetic::div_mod::lemma_fundamental_div_mod(p, m);
    vstd::arithmetic::div_mod::lemma_fundamental_div_mod(q, m);
    vstd::arithmetic::div_mod::lemma_div_is_ordered(p, q, m);
    if a < b {
        assert((a + 1) * (m + 2) + m + 2 <= (b + 1) * (m + 2)) by (nonlinear_arith)
            requires
                a + 1 <= b,
                m >= 1,
        ;
    }
}

/// Pixel `q` of an m x m map.
proof fn lemma_pixel(q: int, m: int)
    requires
        1 <= m,
        0 <= q < m * m,
    ensures
        0 <= q / m < m,
        0 <= q % m < m,
        q == (q / m) * m + q % m,
{
    vstd::arithmetic::div_mod::lemma_fundamental_div_mod(q, m);
    let (a, b) = (q / m, q % m);
    assert(0 <= a < m && a * m + b == q) by (nonlinear_arith)
        requires
            q == m * a + b,
            0 <= b < m,
            0 <= q < m * m,
    ;
}

/// A map with a pixel is not empty.
proof fn lemma_side(q: int, m: int)
    requires
        0 <= m,
        0 <= q < m * m,
    ensures
        1 <= m,
{
    if m == 0 {
        assert(0 * 0 == 0);
    }
}

/// The input of a conv pixel lies in the padded input map.
proof fn lemma_conv_reach(y: int, x: int, m: int, n: int, stride: int, cin: int)
    requires
        1 <= stride,
        m * stride <= n,
        0 <= y < m,
        0 <= x < m,
        1 <= cin,
    ensures
        0 <= (y * stride * (n + 2) + x * stride) * cin,
        (y * stride * (n + 2) + x * stride) * cin + (2 * ((n + 2) * cin) + 3 * cin) <= (n + 2) * (n
            + 2) * cin,
        0 <= y * stride <= n,
        0 <= x * stride <= n,
        0 <= y * stride * (n + 2),
        y * stride * (n + 2) + x * stride <= (n + 2) * (n + 2),
        (n + 2) * (n + 2) <= (n + 2) * (n + 2) * cin,
{
    let (u, v) = (y * stride, x * stride);
    assert(0 <= u <= n - 1 && 0 <= v <= n - 1) by (nonlinear_arith)
        requires
            u == y * stride,
            v == x * stride,
            m * stride <= n,
            0 <= y <= m - 1,
            0 <= x <= m - 1,
            1 <= stride,
    ;
    let a = u * (n + 2) + v;
    assert(0 <= a && a + 2 * (n + 2) + 3 <= (n + 2) * (n + 2) && 0 <= u * (n + 2))
        by (nonlinear_arith)
        requires
            a == u * (n + 2) + v,
            0 <= u <= n - 1,
            0 <= v <= n - 1,
    ;
    assert(0 <= a * cin && a * cin + (2 * ((n + 2) * cin) + 3 * cin) <= (n + 2) * (n + 2) * cin
        && (n + 2) * (n + 2) <= (n + 2) * (n + 2) * cin) by (nonlinear_arith)
        requires
            0 <= a,
            0 <= (n + 2) * (n + 2),
            a + 2 * (n + 2) + 3 <= (n + 2) * (n + 2),
            1 <= cin,
    ;
}

impl<T: Kernel> Model<T> {
    /// Fills in the offsets of a conv.
    fn conv_offsets(&self, li: usize, n: usize, stride: usize, m: usize, ix: &mut Ixs)
        requires
            self.wf(),
            li < 12,
            m <= 20,
            1 <= stride,
            m * stride <= n,
            (n + 2) * (n + 2) * self@.cin(li as int) <= usize::MAX,
            old(ix).wf(),
        ensures
            final(ix).wf(),
            forall|q: int|
                0 <= q < m * m ==> #[trigger] final(ix).a@[q] == ((q / m as int) * stride * (n + 2)
                    + q % m as int * stride) * self@.cin(li as int),
            forall|q: int|
                0 <= q < m * m ==> #[trigger] final(ix).o@[q] == inner_cell(q, m as int)
                    * self@.cout(li as int),
    {
        proof {
            lemma_layer(self.width as int, self.dim as int, li as int);
            assert(m * m <= 400) by (nonlinear_arith)
                requires
                    0 <= m <= 20,
            ;
            lemma_cells(n + 2, self@.cin(li as int), usize::MAX as int);
        }
        let l: Layer = self.layers[li];
        assert(l.is(self.width as int, self.dim as int, li as int));
        let pixels: usize = m * m;
        let mut q: usize = 0;
        while q < pixels
            invariant
                q <= pixels,
                pixels == m * m,
                pixels <= 400,
                m <= 20,
                1 <= stride,
                m * stride <= n,
                n + 2 <= usize::MAX,
                (n + 2) * (n + 2) * l.cin <= usize::MAX,
                l.cin == self@.cin(li as int),
                l.cout == self@.cout(li as int),
                1 <= l.cin <= 2048,
                1 <= l.cout <= 512,
                ix.wf(),
                forall|p: int|
                    0 <= p < q ==> #[trigger] ix.a@[p] == ((p / m as int) * stride * (n + 2) + p
                        % m as int * stride) * l.cin,
                forall|p: int|
                    0 <= p < q ==> #[trigger] ix.o@[p] == inner_cell(p, m as int) * l.cout,
            decreases pixels - q,
        {
            proof {
                lemma_side(q as int, m as int);
                lemma_pixel(q as int, m as int);
            }
            let (y, x): (usize, usize) = (q / m, q % m);
            proof {
                lemma_conv_reach(
                    y as int,
                    x as int,
                    m as int,
                    n as int,
                    stride as int,
                    l.cin as int,
                );
                assert((y + 1) * (m + 2) <= 20 * 22) by (nonlinear_arith)
                    requires
                        0 <= y <= 19,
                        1 <= m <= 20,
                ;
                let c = inner_cell(q as int, m as int);
                assert(0 <= c * l.cout <= 461 * 512) by (nonlinear_arith)
                    requires
                        0 <= c <= 461,
                        1 <= l.cout <= 512,
                ;
            }
            let a: usize = (y * stride * (n + 2) + x * stride) * l.cin;
            let o: usize = ((y + 1) * (m + 2) + x + 1) * l.cout;
            ix.a.set(q, a);
            ix.o.set(q, o);
            q += 1;
        }
    }

    /// 3x3 conv + ReLU on a zero-padded (n+2)^2 x cin map -> zero-padded (n/stride+2)^2 x cout.
    pub fn conv(
        &self,
        li: usize,
        inp: &[T],
        n: usize,
        stride: usize,
        out: &mut [T],
        ix: &mut Ixs,
    )
        requires
            self.wf(),
            li < 12,
            li != P_FC,
            li != C_FC,
            1 <= stride,
            n / stride <= 20,
            inp@.len() >= (n + 2) * (n + 2) * self@.cin(li as int),
            old(out)@.len() >= (n / stride + 2) * (n / stride + 2) * self@.cout(li as int),
            old(ix).wf(),
        ensures
            final(ix).wf(),
            final(out)@.len() == old(out)@.len(),
            final(out)@ == self@.conv_map(li as int, inp@, n as int, stride as int) + old(
                out,
            )@.skip((n / stride + 2) * (n / stride + 2) * self@.cout(li as int)),
    {
        let ghost gi = li as int;
        let ghost (cin, c) = (self@.cin(gi), self@.cout(gi));
        let m: usize = n / stride;
        proof {
            lemma_layer(self.width as int, self.dim as int, gi);
            lemma_offsets(self.width as int, self.dim as int, gi, 12);
            vstd::arithmetic::div_mod::lemma_fundamental_div_mod(n as int, stride as int);
            assert(m * stride <= n) by (nonlinear_arith)
                requires
                    n == stride * m + n % stride,
                    0 <= n % stride,
            ;
            assert(m * m <= 400) by (nonlinear_arith)
                requires
                    0 <= m <= 20,
            ;
            lemma_cells(n + 2, cin, inp.len() as int);
        }
        let l: Layer = self.layers[li];
        assert(l.is(self.width as int, self.dim as int, gi));
        let ghost total = (m + 2) * (m + 2) * c;
        zero_border(out, m, l.cout);
        let ghost mid = out@;
        self.conv_offsets(li, n, stride, m, ix);
        let q: usize = m * m;
        let a: &[usize] = &ix.a.as_slice()[0..q];
        let o: &[usize] = &ix.o.as_slice()[0..q];
        let w: &[T] = &self.buf.as_slice()[l.w..l.b];
        let b: &[T] = &self.buf.as_slice()[l.b..l.b + l.cout];
        let g = Gemm {
            inp,
            a,
            o,
            rows: 3,
            stride: (n + 2) * l.cin,
            len: 3 * l.cin,
            w,
            b,
            cout: l.cout,
            relu: true,
        };
        proof {
            assert(g.w@ =~= self@.weights(gi));
            assert(g.k() == 9 * cin);
            assert forall|p: int| 0 <= p < g.a@.len() implies #[trigger] g.a@[p] + g.span()
                <= g.inp@.len() && g.o@[p] + g.cout <= mid.len() by {
                assert(g.a@[p] == ix.a@[p] && g.o@[p] == ix.o@[p]);
                lemma_side(p, m as int);
                lemma_pixel(p, m as int);
                lemma_conv_reach(
                    p / m as int,
                    p % m as int,
                    m as int,
                    n as int,
                    stride as int,
                    cin,
                );
                lemma_at(p / m as int + 1, p % m as int + 1, 0, m + 2, m + 2, c);
            }
            assert(g.fits(mid.len() as int));
            lemma_conv_apart(g, m as int, c);
        }
        run(&g, out);
        proof {
            let want = self@.conv_map(gi, inp@, n as int, stride as int) + old(out)@.skip(total);
            assert(total <= mid.len());
            assert forall|i: int| 0 <= i < mid.len() implies out@[i] == want[i] by {
                lemma_applied(g, mid, i);
                lemma_conv_entry(g, m as int, c, i);
                if i < total && !blank_at(i, m as int, c) {
                    let (y, x, k) = (i / c / (m + 2), i / c % (m + 2), i % c);
                    let p = (y - 1) * m + x - 1;
                    assert(lies_at(g, p, k, i));
                    assert(g.a@[p] == ix.a@[p]);
                    assert(g.b@[k] == self@.bias(gi, k));
                }
            }
            lemma_applied_length(g, mid);
            assert(out@ =~= want);
        }
    }
}

/// The outputs of a conv do not overlap.
proof fn lemma_conv_apart<T: Scalar>(g: Gemm<T>, m: int, c: int)
    requires
        0 <= m,
        1 <= c,
        g.cout == c,
        g.a@.len() == m * m,
        g.o@.len() == m * m,
        forall|q: int| 0 <= q < m * m ==> #[trigger] g.o@[q] == inner_cell(q, m) * c,
    ensures
        apart(g),
{
    assert forall|p: int, q: int| 0 <= p < q < g.a@.len() implies #[trigger] g.o@[p] + g.cout
        <= #[trigger] g.o@[q] || g.o@[q] + g.cout <= g.o@[p] by {
        lemma_side(p, m);
        lemma_inner_cells(p, q, m);
        let (u, v) = (inner_cell(p, m), inner_cell(q, m));
        assert(u * c + c <= v * c) by (nonlinear_arith)
            requires
                u + 1 <= v,
                1 <= c,
        ;
    }
}

/// Which entries of the output map a conv writes: all but the border.
proof fn lemma_conv_entry<T: Scalar>(g: Gemm<T>, m: int, c: int, i: int)
    requires
        0 <= m,
        1 <= c,
        0 <= i,
        g.cout == c,
        g.a@.len() == m * m,
        g.o@.len() == m * m,
        forall|q: int| 0 <= q < m * m ==> #[trigger] g.o@[q] == inner_cell(q, m) * c,
    ensures
        i < (m + 2) * (m + 2) * c && !blank_at(i, m, c) ==> {
            let (y, x) = (i / c / (m + 2), i / c % (m + 2));
            let p = (y - 1) * m + x - 1;
            &&& lies_at(g, p, i % c, i)
            &&& p / m == y - 1
            &&& p % m == x - 1
            &&& 0 <= p < m * m
            &&& 0 <= i % c < c
        },
        i >= (m + 2) * (m + 2) * c || blank_at(i, m, c) ==> forall|p: int, co: int|
            !#[trigger] lies_at(g, p, co, i),
{
    let total = (m + 2) * (m + 2) * c;
    if i < total && !blank_at(i, m, c) {
        lemma_coordinates(i, m + 2, m + 2, c);
        let (y, x) = (i / c / (m + 2), i / c % (m + 2));
        let p = (y - 1) * m + x - 1;
        assert(0 <= p < m * m) by (nonlinear_arith)
            requires
                p == (y - 1) * m + x - 1,
                1 <= y <= m,
                1 <= x <= m,
        ;
        vstd::arithmetic::div_mod::lemma_fundamental_div_mod_converse(p, m, y - 1, x - 1);
        assert(g.o@[p] == inner_cell(p, m) * c);
    } else {
        assert forall|p: int, co: int| !#[trigger] lies_at(g, p, co, i) by {
            if lies_at(g, p, co, i) {
                lemma_side(p, m);
                lemma_pixel(p, m);
                lemma_at(p / m + 1, p % m + 1, co, m + 2, m + 2, c);
                assert(g.o@[p] == inner_cell(p, m) * c);
                assert(i == at(p / m + 1, p % m + 1, co, m + 2, c));
            }
        }
    }
}

/// Rows of `k` numbers, one behind the other.
proof fn lemma_rows(i: int, n: int, k: int)
    requires
        0 <= i < n,
        0 <= k,
    ensures
        0 <= i * k,
        i * k + k <= n * k,
        (i + 1) * k == i * k + k,
{
    assert(0 <= i * k && i * k + k <= n * k && (i + 1) * k == i * k + k) by (nonlinear_arith)
        requires
            0 <= i < n,
            0 <= k,
    ;
}

impl<T: Kernel> Model<T> {
    /// Fully connected layer over `n` rows of `inp`.
    pub fn fc(&self, li: usize, inp: &[T], n: usize, out: &mut [T], ix: &mut Ixs)
        requires
            self.wf(),
            li < 12,
            n <= MAX_PIXELS,
            inp@.len() >= n * k_of(self.width as int, li as int),
            old(out)@.len() >= n * self@.cout(li as int),
            old(ix).wf(),
        ensures
            final(ix).wf(),
            final(out)@ == self@.fc_map(li as int, inp@, n as int) + old(out)@.skip(
                n * self@.cout(li as int),
            ),
    {
        let ghost gi = li as int;
        let ghost (k, c) = (k_of(self.width as int, gi), self@.cout(gi));
        proof {
            lemma_layer(self.width as int, self.dim as int, gi);
            lemma_offsets(self.width as int, self.dim as int, gi, 12);
        }
        let l: Layer = self.layers[li];
        assert(l.is(self.width as int, self.dim as int, gi));
        let mut i: usize = 0;
        while i < n
            invariant
                i <= n <= MAX_PIXELS,
                l.k == k,
                l.cout == c,
                1 <= k <= 2304,
                1 <= c <= 512,
                ix.wf(),
                forall|p: int| 0 <= p < i ==> #[trigger] ix.a@[p] == p * k,
                forall|p: int| 0 <= p < i ==> #[trigger] ix.o@[p] == p * c,
            decreases n - i,
        {
            proof {
                assert(i * k <= 400 * 2304 && i * c <= 400 * 512 && 0 <= i * k && 0 <= i * c)
                    by (nonlinear_arith)
                    requires
                        0 <= i <= 400,
                        1 <= k <= 2304,
                        1 <= c <= 512,
                ;
            }
            ix.a.set(i, i * l.k);
            ix.o.set(i, i * l.cout);
            i += 1;
        }
        let ghost before = out@;
        let a: &[usize] = &ix.a.as_slice()[0..n];
        let o: &[usize] = &ix.o.as_slice()[0..n];
        let w: &[T] = &self.buf.as_slice()[l.w..l.b];
        let b: &[T] = &self.buf.as_slice()[l.b..l.b + l.cout];
        let g = Gemm {
            inp,
            a,
            o,
            rows: 1,
            stride: 0,
            len: l.k,
            w,
            b,
            cout: l.cout,
            relu: false,
        };
        proof {
            assert(g.w@ =~= self@.weights(gi));
            assert(g.k() == k);
            assert(g.span() == k) by {
                assert((1 - 1) * 0 == 0);
            }
            assert forall|p: int| 0 <= p < g.a@.len() implies #[trigger] g.a@[p] + g.span()
                <= g.inp@.len() && g.o@[p] + g.cout <= before.len() by {
                assert(g.a@[p] == ix.a@[p] && g.o@[p] == ix.o@[p]);
                lemma_rows(p, n as int, k);
                lemma_rows(p, n as int, c);
            }
            assert forall|p: int, q: int| 0 <= p < q < g.a@.len() implies #[trigger] g.o@[p]
                + g.cout <= #[trigger] g.o@[q] || g.o@[q] + g.cout <= g.o@[p] by {
                assert(g.o@[p] == ix.o@[p] && g.o@[q] == ix.o@[q]);
                assert(p * c + c <= q * c) by (nonlinear_arith)
                    requires
                        p + 1 <= q,
                        0 <= c,
                ;
            }
        }
        run(&g, out);
        proof {
            lemma_applied_length(g, before);
            let rows = self@.fc_map(gi, inp@, n as int);
            let want = rows + before.skip(n * c);
            assert(n * c >= 0) by (nonlinear_arith)
                requires
                    0 <= n,
                    0 <= c,
            ;
            assert forall|j: int| 0 <= j < before.len() implies out@[j] == want[j] by {
                lemma_applied(g, before, j);
                if j < n * c {
                    let (p, co) = (j / c, j % c);
                    vstd::arithmetic::div_mod::lemma_fundamental_div_mod(j, c);
                    assert(0 <= p < n && p * c + co == j) by (nonlinear_arith)
                        requires
                            j == c * p + co,
                            0 <= co < c,
                            0 <= j < n * c,
                    ;
                    assert(g.o@[p] == ix.o@[p] && g.a@[p] == ix.a@[p]);
                    assert(lies_at(g, p, co, j));
                    assert(g.b@[co] == self@.bias(gi, co));
                } else {
                    assert forall|p: int, co: int| !#[trigger] lies_at(g, p, co, j) by {
                        if lies_at(g, p, co, j) {
                            assert(g.o@[p] == ix.o@[p]);
                            lemma_rows(p, n as int, c);
                        }
                    }
                }
            }
            assert(out@ =~= want);
        }
    }
}

/// The numbers of a pixel of a map lie in it.
proof fn lemma_cell_fits(y: int, x: int, side: int, c: int, len: int)
    requires
        0 <= y < side,
        0 <= x < side,
        1 <= c,
        side * side * c <= len,
    ensures
        0 <= y * side,
        y * side + x < side * side,
        0 <= (y * side + x) * c,
        (y * side + x) * c + c <= len,
        side * side <= len,
{
    let (p, s) = (y * side + x, side * side);
    assert(0 <= y * side && p + 1 <= s) by (nonlinear_arith)
        requires
            p == y * side + x,
            s == side * side,
            0 <= y < side,
            0 <= x < side,
    ;
    assert(0 <= p * c && p * c + c <= s * c && s <= s * c) by (nonlinear_arith)
        requires
            0 <= p,
            p + 1 <= s,
            1 <= c,
    ;
}

/// The largest of the four pixels under (`x`, `y`), channel `k`, of a padded map.
fn pool_four<T: Scalar>(inp: &[T], n: usize, c: usize, y: usize, x: usize, k: usize) -> (r: T)
    requires
        y < n / 2,
        x < n / 2,
        k < c,
        inp@.len() >= (n + 2) * (n + 2) * c,
    ensures
        r == pool_value(inp@, n as int, c as int, y as int, x as int, k as int),
{
    proof {
        lemma_at(2 * y + 1, 2 * x + 1, k as int, n + 2, n + 2, c as int);
        lemma_at(2 * y + 1, 2 * x + 2, k as int, n + 2, n + 2, c as int);
        lemma_at(2 * y + 2, 2 * x + 1, k as int, n + 2, n + 2, c as int);
        lemma_at(2 * y + 2, 2 * x + 2, k as int, n + 2, n + 2, c as int);
        let len = inp.len() as int;
        lemma_cells(n + 2, c as int, len);
        lemma_cell_fits(2 * y + 1, 2 * x + 1, n + 2, c as int, len);
        lemma_cell_fits(2 * y + 1, 2 * x + 2, n + 2, c as int, len);
        lemma_cell_fits(2 * y + 2, 2 * x + 1, n + 2, c as int, len);
        lemma_cell_fits(2 * y + 2, 2 * x + 2, n + 2, c as int, len);
    }
    let a: T = inp[((2 * y + 1) * (n + 2) + 2 * x + 1) * c + k];
    let b: T = inp[((2 * y + 1) * (n + 2) + 2 * x + 2) * c + k];
    let d: T = inp[((2 * y + 2) * (n + 2) + 2 * x + 1) * c + k];
    let e: T = inp[((2 * y + 2) * (n + 2) + 2 * x + 2) * c + k];
    a.larger(b).larger(d.larger(e))
}

/// 2x2 max pool of a padded n x n x c map into an m x m map, zero-padded or packed.
pub fn maxpool<T: Scalar>(inp: &[T], n: usize, c: usize, out: &mut [T], padded: bool)
    requires
        1 <= c,
        inp@.len() >= (n + 2) * (n + 2) * c,
        old(out)@.len() >= if padded {
            (n / 2 + 2) * (n / 2 + 2) * c
        } else {
            (n / 2) * (n / 2) * c
        },
    ensures
        final(out)@.len() == old(out)@.len(),
        padded ==> final(out)@ == pool_map(inp@, n as int, c as int) + old(out)@.skip(
            (n / 2 + 2) * (n / 2 + 2) * c,
        ),
        !padded ==> final(out)@ == pool_packed(inp@, n as int, c as int) + old(out)@.skip(
            (n / 2) * (n / 2) * c,
        ),
{
    let len: usize = out.len();
    let m: usize = n / 2;
    let side: usize = if padded {
        m + 2
    } else {
        m
    };
    let ghost want: Seq<T> = if padded {
        pool_map(inp@, n as int, c as int)
    } else {
        pool_packed(inp@, n as int, c as int)
    };
    proof {
        lemma_cells(side as int, c as int, len as int);
        assert(0 <= side * side * c) by (nonlinear_arith)
            requires
                0 <= side * side,
                1 <= c,
        ;
    }
    let cells: usize = side * side;
    let mut p: usize = 0;
    while p < cells
        invariant
            p <= cells,
            m == n / 2,
            side == if padded {
                m + 2
            } else {
                m as int
            },
            cells == side * side,
            1 <= c,
            inp@.len() >= (n + 2) * (n + 2) * c,
            cells * c <= len,
            len == out@.len(),
            out@.len() == old(out)@.len(),
            want.len() == cells * c,
            want == if padded {
                pool_map(inp@, n as int, c as int)
            } else {
                pool_packed(inp@, n as int, c as int)
            },
            forall|i: int|
                0 <= i < out@.len() ==> #[trigger] out@[i] == if i < p * c {
                    want[i]
                } else {
                    old(out)@[i]
                },
        decreases cells - p,
    {
        proof {
            lemma_side(p as int, side as int);
            lemma_pixel(p as int, side as int);
        }
        let (y, x): (usize, usize) = (p / side, p % side);
        proof {
            lemma_rows(p as int, cells as int, c as int);
        }
        let mut k: usize = 0;
        while k < c
            invariant
                k <= c,
                p < cells,
                m == n / 2,
                side == if padded {
                    m + 2
                } else {
                    m as int
                },
                y == p / side,
                x == p % side,
                y < side,
                x < side,
                1 <= c,
                0 <= p * c,
                p * c + c <= cells * c,
                inp@.len() >= (n + 2) * (n + 2) * c,
                cells * c <= len,
                len == out@.len(),
                out@.len() == old(out)@.len(),
                want.len() == cells * c,
                want == if padded {
                    pool_map(inp@, n as int, c as int)
                } else {
                    pool_packed(inp@, n as int, c as int)
                },
                forall|i: int|
                    0 <= i < out@.len() ==> #[trigger] out@[i] == if i < p * c + k {
                        want[i]
                    } else {
                        old(out)@[i]
                    },
            decreases c - k,
        {
            let v: T = if padded && (y == 0 || x == 0 || y == m + 1 || x == m + 1) {
                T::zero()
            } else if padded {
                pool_four(inp, n, c, y - 1, x - 1, k)
            } else {
                pool_four(inp, n, c, y, x, k)
            };
            proof {
                vstd::arithmetic::div_mod::lemma_fundamental_div_mod_converse(
                    p * c + k,
                    c as int,
                    p as int,
                    k as int,
                );
                assert(v == want[p * c + k]);
            }
            out[p * c + k] = v;
            k += 1;
        }
        p += 1;
    }
    assert(out@ =~= want + old(out)@.skip(cells * c));
}

/// Global average pool of a padded n x n x c map. Outputs past the channels are averages of
/// nothing.
pub fn mean_pool<T: Scalar>(inp: &[T], n: usize, c: usize, out: &mut [T])
    requires
        1 <= c,
        inp@.len() >= (n + 2) * (n + 2) * c,
    ensures
        final(out)@ == mean_map(inp@, n as int, c as int, old(out)@.len() as int),
{
    let (len, size): (usize, usize) = (out.len(), inp.len());
    proof {
        lemma_cells(n + 2, c as int, size as int);
        assert(n * n <= (n + 2) * (n + 2)) by (nonlinear_arith);
    }
    fill_zero(out, 0, len);
    let used: usize = if len < c {
        len
    } else {
        c
    };
    let pixels: usize = n * n;
    let mut q: usize = 0;
    while q < pixels
        invariant
            q <= pixels,
            pixels == n * n,
            1 <= c,
            used == if len < c {
                len
            } else {
                c
            },
            size == inp@.len(),
            size >= (n + 2) * (n + 2) * c,
            out@.len() == len,
            forall|k: int|
                0 <= k < len ==> #[trigger] out@[k] == if k < c {
                    pixel_sum(inp@, n as int, c as int, k, q as int)
                } else {
                    T::zero_spec()
                },
        decreases pixels - q,
    {
        proof {
            lemma_side(q as int, n as int);
            lemma_pixel(q as int, n as int);
        }
        let (y, x): (usize, usize) = (q / n, q % n);
        proof {
            lemma_cells(n + 2, c as int, size as int);
            lemma_cell_fits(y + 1, x + 1, n + 2, c as int, size as int);
        }
        let from: usize = ((y + 1) * (n + 2) + x + 1) * c;
        let mut k: usize = 0;
        while k < used
            invariant
                k <= used,
                q < pixels,
                pixels == n * n,
                y == q / n,
                x == q % n,
                y < n,
                x < n,
                1 <= c,
                used <= c,
                used <= len,
                size == inp@.len(),
                from == ((y + 1) * (n + 2) + x + 1) * c,
                from + c <= size,
                out@.len() == len,
                forall|j: int|
                    0 <= j < len ==> #[trigger] out@[j] == if j < c {
                        pixel_sum(
                            inp@,
                            n as int,
                            c as int,
                            j,
                            if j < k {
                                q + 1
                            } else {
                                q as int
                            },
                        )
                    } else {
                        T::zero_spec()
                    },
            decreases used - k,
        {
            let v: T = out[k].plus(inp[from + k]);
            out[k] = v;
            k += 1;
        }
        q += 1;
    }
    let d: T = T::count(n * n);
    let ghost sums = out@;
    let mut k: usize = 0;
    while k < len
        invariant
            k <= len,
            out@.len() == len,
            sums.len() == len,
            forall|j: int|
                0 <= j < len ==> #[trigger] out@[j] == if j < k {
                    sums[j].over_spec(d)
                } else {
                    sums[j]
                },
        decreases len - k,
    {
        let v: T = out[k].over(d);
        out[k] = v;
        k += 1;
    }
    assert(out@ =~= mean_map(inp@, n as int, c as int, len as int));
}

/// The sum of products of two vectors.
fn inner_product<T: Scalar>(x: &[T], y: &[T]) -> (r: T)
    requires
        x@.len() == y@.len(),
    ensures
        r == inner(x@, y@, x@.len() as int),
{
    let n: usize = x.len();
    let mut s: T = T::nothing();
    let mut i: usize = 0;
    while i < n
        invariant
            i <= n,
            n == x@.len(),
            n == y@.len(),
            s == inner(x@, y@, i as int),
        decreases n - i,
    {
        s = s.plus(x[i].times(y[i]));
        i += 1;
    }
    s
}

/// x / max(||x||, tiny).
pub fn normalize<T: Scalar>(v: &mut [T])
    ensures
        final(v)@ == unit_map(old(v)@),
{
    let norm: T = inner_product(v, v).root().larger(T::tiny());
    let n: usize = v.len();
    let mut i: usize = 0;
    while i < n
        invariant
            i <= n,
            n == v@.len(),
            v@.len() == old(v)@.len(),
            forall|j: int|
                0 <= j < n ==> #[trigger] v@[j] == if j < i {
                    old(v)@[j].over_spec(norm)
                } else {
                    old(v)@[j]
                },
        decreases n - i,
    {
        let x: T = v[i].over(norm);
        v[i] = x;
        i += 1;
    }
    assert(v@ =~= unit_map(old(v)@));
}

/// Activation buffers for one forward pass.
pub struct Scratch<T> {
    pub pad: Vec<T>,
    pub a: Vec<T>,
    pub b: Vec<T>,
    pub feat_p: Vec<T>,
    pub feat_c: Vec<T>,
    pub emb_p: Vec<T>,
    pub emb_c: Vec<T>,
    pub ix: Ixs,
}

impl<T: Scalar> Scratch<T> {
    /// The buffers fit a network of the given width and dimension.
    pub open spec fn wf(self, width: int, dim: int) -> bool {
        &&& self.pad@.len() == PAD_IN
        &&& self.a@.len() == 484 * width
        &&& self.b@.len() == 484 * width
        &&& self.feat_p@.len() == 4 * (32 * width)
        &&& self.feat_c@.len() == 6 * (4 * width)
        &&& self.emb_p@.len() == 4 * dim
        &&& self.emb_c@.len() == 6 * dim
        &&& self.ix.wf()
    }

    /// Buffers for a model. 22x22 pixels of `width` channels is the largest map.
    pub fn new<U>(m: &Model<U>) -> (s: Scratch<T>)
        requires
            m.wf(),
        ensures
            s.wf(m.width as int, m.dim as int),
    {
        Scratch {
            pad: zeroed(PAD_IN),
            a: zeroed(484 * m.width),
            b: zeroed(484 * m.width),
            feat_p: zeroed(4 * (32 * m.width)),
            feat_c: zeroed(6 * (4 * m.width)),
            emb_p: zeroed(4 * m.dim),
            emb_c: zeroed(6 * m.dim),
            ix: Ixs { a: vec![0; MAX_PIXELS], o: vec![0; MAX_PIXELS] },
        }
    }
}

/// `n` zeros.
pub fn zeroed<T: Scalar>(n: usize) -> (v: Vec<T>)
    ensures
        v@.len() == n,
        forall|i: int| 0 <= i < n ==> #[trigger] v@[i] == T::zero_spec(),
{
    let mut v: Vec<T> = Vec::with_capacity(n);
    let mut i: usize = 0;
    while i < n
        invariant
            i <= n,
            v@.len() == i,
            forall|j: int| 0 <= j < i ==> #[trigger] v@[j] == T::zero_spec(),
        decreases n - i,
    {
        v.push(T::zero());
        i += 1;
    }
    v
}

impl<T: Kernel> Model<T> {
    /// The prompt tower up to its fully connected layer.
    fn prompt_tower(
        &self,
        crop: &[T],
        pad: &mut Vec<T>,
        a: &mut Vec<T>,
        b: &mut Vec<T>,
        ix: &mut Ixs,
        out: &mut [T],
    )
        requires
            self.wf(),
            crop@.len() == 256,
            old(pad)@.len() == PAD_IN,
            old(a)@.len() == 484 * self.width,
            old(b)@.len() == 484 * self.width,
            old(ix).wf(),
            old(out)@.len() == 32 * self.width,
        ensures
            final(pad)@.len() == PAD_IN,
            final(a)@.len() == 484 * self.width,
            final(b)@.len() == 484 * self.width,
            final(ix).wf(),
            final(out)@.len() == old(out)@.len(),
            final(out)@ == self@.prompt_features(crop@),
    {
        let w: usize = self.width;
        assert((16 + 2) * (16 + 2) == 324 && 16 * 16 == 256) by (nonlinear_arith);
        pad_crop(crop, 16, pad.as_mut_slice());
        let m: &[T] = &pad.as_slice()[0..324];
        assert(m@ =~= pad_map(crop@, 16));
        assert((16usize / 1usize + 2) * (16usize / 1usize + 2) * w == 324 * w)
            by (nonlinear_arith);
        self.conv(0, m, 16, 1, a.as_mut_slice(), ix);
        let ghost m0 = self@.conv_map(0, pad_map(crop@, 16), 16, 1);
        let m: &[T] = &a.as_slice()[0..324 * w];
        assert(m@ =~= m0);
        assert((16usize / 1usize + 2) * (16usize / 1usize + 2) * w == 324 * w)
            by (nonlinear_arith);
        self.conv(1, m, 16, 1, b.as_mut_slice(), ix);
        let ghost m1 = self@.conv_map(1, m0, 16, 1);
        let m: &[T] = &b.as_slice()[0..324 * w];
        assert(m@ =~= m1);
        assert((16usize / 2 + 2) * (16usize / 2 + 2) * w == 100 * w) by (nonlinear_arith);
        maxpool(m, 16, w, a.as_mut_slice(), true);
        let ghost m2 = pool_map(m1, 16, w as int);
        let m: &[T] = &a.as_slice()[0..100 * w];
        assert(m@ =~= m2);
        assert((8usize / 1usize + 2) * (8usize / 1usize + 2) * (2 * w) == 200 * w)
            by (nonlinear_arith);
        self.conv(2, m, 8, 1, b.as_mut_slice(), ix);
        let ghost m3 = self@.conv_map(2, m2, 8, 1);
        let m: &[T] = &b.as_slice()[0..100 * (2 * w)];
        assert(m@ =~= m3);
        assert((8usize / 1usize + 2) * (8usize / 1usize + 2) * (2 * w) == 200 * w)
            by (nonlinear_arith);
        self.conv(3, m, 8, 1, a.as_mut_slice(), ix);
        let ghost m4 = self@.conv_map(3, m3, 8, 1);
        let m: &[T] = &a.as_slice()[0..100 * (2 * w)];
        assert(m@ =~= m4);
        assert((8usize / 2) * (8usize / 2) * (2 * w) == 32 * w) by (nonlinear_arith);
        maxpool(m, 8, 2 * w, out, false);
        assert(out@ =~= pool_packed(m4, 8, 2 * w));
    }

    /// The candidate tower up to its fully connected layer.
    fn cand_tower(
        &self,
        crop: &[T],
        pad: &mut Vec<T>,
        a: &mut Vec<T>,
        b: &mut Vec<T>,
        ix: &mut Ixs,
        out: &mut [T],
    )
        requires
            self.wf(),
            crop@.len() == 1600,
            old(pad)@.len() == PAD_IN,
            old(a)@.len() == 484 * self.width,
            old(b)@.len() == 484 * self.width,
            old(ix).wf(),
            old(out)@.len() == 4 * self.width,
        ensures
            final(pad)@.len() == PAD_IN,
            final(a)@.len() == 484 * self.width,
            final(b)@.len() == 484 * self.width,
            final(ix).wf(),
            final(out)@.len() == old(out)@.len(),
            final(out)@ == self@.cand_features(crop@),
    {
        let w: usize = self.width;
        assert((40 + 2) * (40 + 2) == 1764 && 40 * 40 == 1600) by (nonlinear_arith);
        pad_crop(crop, 40, pad.as_mut_slice());
        let m: &[T] = &pad.as_slice()[0..1764];
        assert(m@ =~= pad_map(crop@, 40));
        assert((40usize / 2usize + 2) * (40usize / 2usize + 2) * w == 484 * w)
            by (nonlinear_arith);
        self.conv(5, m, 40, 2, a.as_mut_slice(), ix);
        let ghost m0 = self@.conv_map(5, pad_map(crop@, 40), 40, 2);
        let m: &[T] = &a.as_slice()[0..484 * w];
        assert(m@ =~= m0);
        assert((20usize / 1usize + 2) * (20usize / 1usize + 2) * w == 484 * w)
            by (nonlinear_arith);
        self.conv(6, m, 20, 1, b.as_mut_slice(), ix);
        let ghost m1 = self@.conv_map(6, m0, 20, 1);
        let m: &[T] = &b.as_slice()[0..484 * w];
        assert(m@ =~= m1);
        assert((20usize / 2 + 2) * (20usize / 2 + 2) * w == 144 * w) by (nonlinear_arith);
        maxpool(m, 20, w, a.as_mut_slice(), true);
        let ghost m2 = pool_map(m1, 20, w as int);
        let m: &[T] = &a.as_slice()[0..144 * w];
        assert(m@ =~= m2);
        assert((10usize / 1usize + 2) * (10usize / 1usize + 2) * (2 * w) == 288 * w)
            by (nonlinear_arith);
        self.conv(7, m, 10, 1, b.as_mut_slice(), ix);
        let ghost m3 = self@.conv_map(7, m2, 10, 1);
        let m: &[T] = &b.as_slice()[0..144 * (2 * w)];
        assert(m@ =~= m3);
        assert((10usize / 1usize + 2) * (10usize / 1usize + 2) * (2 * w) == 288 * w)
            by (nonlinear_arith);
        self.conv(8, m, 10, 1, a.as_mut_slice(), ix);
        let ghost m4 = self@.conv_map(8, m3, 10, 1);
        let m: &[T] = &a.as_slice()[0..144 * (2 * w)];
        assert(m@ =~= m4);
        assert((10usize / 2 + 2) * (10usize / 2 + 2) * (2 * w) == 98 * w) by (nonlinear_arith);
        maxpool(m, 10, 2 * w, b.as_mut_slice(), true);
        let ghost m5 = pool_map(m4, 10, 2 * w);
        let m: &[T] = &b.as_slice()[0..49 * (2 * w)];
        assert(m@ =~= m5);
        assert((5usize / 1usize + 2) * (5usize / 1usize + 2) * (4 * w) == 196 * w)
            by (nonlinear_arith);
        self.conv(9, m, 5, 1, a.as_mut_slice(), ix);
        let ghost m6 = self@.conv_map(9, m5, 5, 1);
        let m: &[T] = &a.as_slice()[0..49 * (4 * w)];
        assert(m@ =~= m6);
        assert((5usize / 1usize + 2) * (5usize / 1usize + 2) * (4 * w) == 196 * w)
            by (nonlinear_arith);
        self.conv(10, m, 5, 1, b.as_mut_slice(), ix);
        let ghost m7 = self@.conv_map(10, m6, 5, 1);
        let m: &[T] = &b.as_slice()[0..49 * (4 * w)];
        assert(m@ =~= m7);
        mean_pool(m, 5, 4 * w, out);
    }
}

/// Normalizes `n` rows of `dim`.
fn normalize_rows<T: Scalar>(v: &mut [T], n: usize, dim: usize)
    requires
        n <= 6,
        1 <= dim <= 512,
        old(v)@.len() == n * dim,
    ensures
        final(v)@.len() == old(v)@.len(),
        forall|i: int|
            0 <= i < n ==> row(final(v)@, i, dim as int) == unit_map(
                #[trigger] row(old(v)@, i, dim as int),
            ),
{
    let mut i: usize = 0;
    while i < n
        invariant
            i <= n <= 6,
            1 <= dim <= 512,
            v@.len() == n * dim,
            v@.len() == old(v)@.len(),
            forall|j: int|
                0 <= j < n ==> row(v@, j, dim as int) == if j < i {
                    unit_map(#[trigger] row(old(v)@, j, dim as int))
                } else {
                    row(old(v)@, j, dim as int)
                },
        decreases n - i,
    {
        proof {
            lemma_rows(i as int, n as int, dim as int);
            assert(i * dim <= 6 * 512) by (nonlinear_arith)
                requires
                    0 <= i <= 6,
                    1 <= dim <= 512,
            ;
        }
        let ghost before = v@;
        let ghost from = i * dim;
        let (head, rest) = v.split_at_mut(i * dim);
        let (mine, tail) = rest.split_at_mut(dim);
        assert(mine@ =~= row(before, i as int, dim as int));
        normalize(mine);
        proof {
            assert forall|j: int| 0 <= j < n implies row(v@, j, dim as int) == if j < i + 1 {
                unit_map(#[trigger] row(old(v)@, j, dim as int))
            } else {
                row(old(v)@, j, dim as int)
            } by {
                lemma_rows(j, n as int, dim as int);
                if j == i {
                    assert(row(v@, j, dim as int) =~= unit_map(row(before, j, dim as int)));
                } else {
                    assert(j * dim + dim <= from || from + dim <= j * dim) by (nonlinear_arith)
                        requires
                            from == i * dim,
                            j != i,
                            1 <= dim,
                    ;
                    assert(row(v@, j, dim as int) =~= row(before, j, dim as int));
                }
            }
        }
        i += 1;
    }
}

/// One more vector on a stack.
proof fn lemma_stacked<T>(
    before: Seq<T>,
    after: Seq<T>,
    f: spec_fn(int) -> Seq<T>,
    k: int,
    n: int,
)
    requires
        0 <= k,
        0 < n,
        f(k).len() == n,
        0 <= k * n,
        k * n + n <= before.len(),
        (k + 1) * n == k * n + n,
        after == before.subrange(0, k * n) + (f(k) + before.subrange(
            k * n,
            before.len() as int,
        ).subrange(n, before.len() - k * n)),
        forall|i: int| 0 <= i < k * n ==> #[trigger] before[i] == f(i / n)[i % n],
    ensures
        after.len() == before.len(),
        forall|i: int| 0 <= i < (k + 1) * n ==> #[trigger] after[i] == f(i / n)[i % n],
{
    assert forall|i: int| 0 <= i < (k + 1) * n implies #[trigger] after[i] == f(i / n)[i % n] by {
        if i < k * n {
            assert(after[i] == before[i]);
        } else {
            vstd::arithmetic::div_mod::lemma_fundamental_div_mod_converse(i, n, k, i - k * n);
            assert(after[i] == f(k)[i - k * n]);
        }
    }
}

impl<T: Kernel> Model<T> {
    /// The embeddings of the prompts, before they are normalized.
    fn embed_prompts(&self, prompts: &[T], s: &mut Scratch<T>)
        requires
            self.wf(),
            prompts@.len() >= 4 * 256,
            old(s).wf(self.width as int, self.dim as int),
        ensures
            final(s).wf(self.width as int, self.dim as int),
            final(s).emb_p@ == self@.fc_map(
                4,
                stacked(
                    |k: int| self@.prompt_features(row(prompts@, k, 256)),
                    4,
                    32 * self@.width,
                ),
                4,
            ),
    {
        let n: usize = 32 * self.width;
        let ghost f = |k: int| self@.prompt_features(row(prompts@, k, 256));
        let mut k: usize = 0;
        while k < 4
            invariant
                k <= 4,
                self.wf(),
                n == 32 * self.width,
                16 <= self.width <= 64,
                prompts@.len() >= 4 * 256,
                s.wf(self.width as int, self.dim as int),
                f == (|k: int| self@.prompt_features(row(prompts@, k, 256))),
                forall|i: int|
                    0 <= i < k * n ==> #[trigger] s.feat_p@[i] == f(i / n as int)[i % n as int],
            decreases 4 - k,
        {
            proof {
                lemma_rows(k as int, 4, n as int);
                assert(k * n <= 4 * 2048) by (nonlinear_arith)
                    requires
                        0 <= k <= 4,
                        0 <= n <= 2048,
                ;
            }
            let crop: &[T] = &prompts[k * 256..(k + 1) * 256];
            assert(crop@ == row(prompts@, k as int, 256));
            let ghost before = s.feat_p@;
            let (head, rest) = s.feat_p.as_mut_slice().split_at_mut(k * n);
            let (mine, tail) = rest.split_at_mut(n);
            self.prompt_tower(crop, &mut s.pad, &mut s.a, &mut s.b, &mut s.ix, mine);
            proof {
                lemma_stacked(before, s.feat_p@, f, k as int, n as int);
            }
            k += 1;
        }
        proof {
            assert(s.feat_p@ =~= stacked(f, 4, n as int));
        }
        self.fc(P_FC, s.feat_p.as_slice(), 4, s.emb_p.as_mut_slice(), &mut s.ix);
    }

    /// The embeddings of the candidates, before they are normalized.
    fn embed_cands(&self, cands: &[T], s: &mut Scratch<T>)
        requires
            self.wf(),
            cands@.len() >= 6 * 1600,
            old(s).wf(self.width as int, self.dim as int),
        ensures
            final(s).wf(self.width as int, self.dim as int),
            final(s).emb_p@ == old(s).emb_p@,
            final(s).emb_c@ == self@.fc_map(
                11,
                stacked(|k: int| self@.cand_features(row(cands@, k, 1600)), 6, 4 * self@.width),
                6,
            ),
    {
        let n: usize = 4 * self.width;
        let ghost f = |k: int| self@.cand_features(row(cands@, k, 1600));
        let mut k: usize = 0;
        while k < 6
            invariant
                k <= 6,
                self.wf(),
                n == 4 * self.width,
                16 <= self.width <= 64,
                cands@.len() >= 6 * 1600,
                s.wf(self.width as int, self.dim as int),
                s.emb_p@ == old(s).emb_p@,
                f == (|k: int| self@.cand_features(row(cands@, k, 1600))),
                forall|i: int|
                    0 <= i < k * n ==> #[trigger] s.feat_c@[i] == f(i / n as int)[i % n as int],
            decreases 6 - k,
        {
            proof {
                lemma_rows(k as int, 6, n as int);
                assert(k * n <= 6 * 2048) by (nonlinear_arith)
                    requires
                        0 <= k <= 6,
                        0 <= n <= 2048,
                ;
            }
            let crop: &[T] = &cands[k * 1600..(k + 1) * 1600];
            assert(crop@ == row(cands@, k as int, 1600));
            let ghost before = s.feat_c@;
            let (head, rest) = s.feat_c.as_mut_slice().split_at_mut(k * n);
            let (mine, tail) = rest.split_at_mut(n);
            self.cand_tower(crop, &mut s.pad, &mut s.a, &mut s.b, &mut s.ix, mine);
            proof {
                lemma_stacked(before, s.feat_c@, f, k as int, n as int);
            }
            k += 1;
        }
        proof {
            assert(s.feat_c@ =~= stacked(f, 6, n as int));
        }
        self.fc(C_FC, s.feat_c.as_slice(), 6, s.emb_c.as_mut_slice(), &mut s.ix);
    }

    /// (4, 16x16) prompt crops and (6, 40x40) candidate crops -> (4, 6) cosine similarity.
    pub fn similarity(&self, prompts: &[T], cands: &[T], s: &mut Scratch<T>) -> (r: [[T; 6]; 4])
        requires
            self.wf(),
            prompts@.len() >= 4 * 256,
            cands@.len() >= 6 * 1600,
            old(s).wf(self.width as int, self.dim as int),
        ensures
            final(s).wf(self.width as int, self.dim as int),
            forall|i: int, j: int|
                0 <= i < 4 && 0 <= j < 6 ==> #[trigger] r[i][j] == self@.cosine(
                    prompts@,
                    cands@,
                    i,
                    j,
                ),
    {
        let dim: usize = self.dim;
        self.embed_prompts(prompts, s);
        self.embed_cands(cands, s);
        normalize_rows(s.emb_p.as_mut_slice(), 4, dim);
        normalize_rows(s.emb_c.as_mut_slice(), 6, dim);
        let z: T = T::zero();
        let mut sim: [[T; 6]; 4] = [[z; 6]; 4];
        let mut i: usize = 0;
        while i < 4
            invariant
                i <= 4,
                dim == self.dim,
                1 <= dim <= 512,
                s.wf(self.width as int, self.dim as int),
                forall|k: int|
                    0 <= k < 4 ==> #[trigger] row(s.emb_p@, k, dim as int)
                        == self@.prompt_embedding(prompts@, k),
                forall|k: int|
                    0 <= k < 6 ==> #[trigger] row(s.emb_c@, k, dim as int) == self@.cand_embedding(
                        cands@,
                        k,
                    ),
                forall|k: int, j: int|
                    0 <= k < i && 0 <= j < 6 ==> #[trigger] sim[k][j] == self@.cosine(
                        prompts@,
                        cands@,
                        k,
                        j,
                    ),
            decreases 4 - i,
        {
            let mut j: usize = 0;
            while j < 6
                invariant
                    i < 4,
                    j <= 6,
                    dim == self.dim,
                    1 <= dim <= 512,
                    s.wf(self.width as int, self.dim as int),
                    forall|k: int|
                        0 <= k < 4 ==> #[trigger] row(s.emb_p@, k, dim as int)
                            == self@.prompt_embedding(prompts@, k),
                    forall|k: int|
                        0 <= k < 6 ==> #[trigger] row(s.emb_c@, k, dim as int)
                            == self@.cand_embedding(cands@, k),
                    forall|k: int, l: int|
                        0 <= k < 4 && 0 <= l < 6 && (k < i || k == i && l < j) ==> #[trigger] sim[k][l]
                            == self@.cosine(prompts@, cands@, k, l),
                decreases 6 - j,
            {
                proof {
                    lemma_rows(i as int, 4, dim as int);
                    lemma_rows(j as int, 6, dim as int);
                    assert((i + 1) * dim <= 2048 && (j + 1) * dim <= 3072) by (nonlinear_arith)
                        requires
                            0 <= i < 4,
                            0 <= j < 6,
                            1 <= dim <= 512,
                    ;
                    assert(row(s.emb_p@, i as int, dim as int) == self@.prompt_embedding(
                        prompts@,
                        i as int,
                    ));
                    assert(row(s.emb_c@, j as int, dim as int) == self@.cand_embedding(
                        cands@,
                        j as int,
                    ));
                }
                let p: &[T] = &s.emb_p.as_slice()[i * dim..(i + 1) * dim];
                let c: &[T] = &s.emb_c.as_slice()[j * dim..(j + 1) * dim];
                let v: T = inner_product(p, c);
                sim[i][j] = v;
                j += 1;
            }
            i += 1;
        }
        sim
    }
}

} // verus!
