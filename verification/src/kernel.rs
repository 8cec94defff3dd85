//! The one compute kernel behind every conv and FC layer:
//!
//! ```text
//! out[o[p] + co] = act(b[co] + sum_{r<rows} sum_{j<len} inp[a[p] + r*stride + j] * w[co/16][r*len + j][co%16])
//! ```
//!
//! A 3x3 conv over zero-padded HWC activations is 3 rows of 3*cin contiguous
//! samples per output pixel; an FC layer is 1 row of fan_in. Output channels are
//! processed 16 at a time.

use crate::model::layout::slot;
use crate::scalar::{Scalar, Single};
use vstd::prelude::*;

verus! {

/// One layer's work.
pub struct Gemm<'a, T> {
    pub inp: &'a [T],
    /// Per output pixel: offset of its first input row, and of its output channels.
    pub a: &'a [usize],
    pub o: &'a [usize],
    pub rows: usize,
    pub stride: usize,
    pub len: usize,
    /// Weights packed as [cout/16][rows*len][16].
    pub w: &'a [T],
    pub b: &'a [T],
    pub cout: usize,
    pub relu: bool,
}

/// `bias` and the first `n` products of inputs and weights of channel `co`, summed in order.
/// The inputs are rows of `len` samples, `stride` apart, from `a` on; there are `k` in all.
pub open spec fn dot<T: Scalar>(
    inp: Seq<T>,
    a: int,
    stride: int,
    len: int,
    w: Seq<T>,
    k: int,
    bias: T,
    co: int,
    n: int,
) -> T
    decreases n,
{
    if n <= 0 {
        bias
    } else {
        dot(inp, a, stride, len, w, k, bias, co, n - 1).madd_spec(
            inp[a + (n - 1) / len * stride + (n - 1) % len],
            w[slot(co, k, n - 1)],
        )
    }
}

/// The activation: nothing below zero, or nothing at all.
pub open spec fn act<T: Scalar>(relu: bool, s: T) -> T {
    if relu {
        s.larger_spec(T::zero_spec())
    } else {
        s
    }
}

impl<'a, T: Scalar> Gemm<'a, T> {
    /// Inputs per output.
    pub open spec fn k(self) -> int {
        self.rows * self.len
    }

    /// Samples from the first input of a pixel to the last.
    pub open spec fn span(self) -> int {
        (self.rows - 1) * self.stride + self.len
    }

    /// Everything that the kernel touches is there, for an output of `n` numbers.
    pub open spec fn fits(self, n: int) -> bool {
        &&& self.cout % 16 == 0
        &&& self.rows > 0
        &&& self.len > 0
        &&& self.a@.len() == self.o@.len()
        &&& self.w@.len() >= self.cout * self.k()
        &&& self.b@.len() >= self.cout
        &&& forall|p: int|
            0 <= p < self.a@.len() ==> #[trigger] self.a@[p] + self.span() <= self.inp@.len()
                && self.o@[p] + self.cout <= n
    }

    /// Input `j` of pixel `p`.
    pub open spec fn input(self, p: int, j: int) -> T {
        self.inp@[self.a@[p] + j / self.len as int * self.stride + j % self.len as int]
    }

    /// The weight of input `j` of channel `co`.
    pub open spec fn weight(self, co: int, j: int) -> T {
        self.w@[slot(co, self.k(), j)]
    }

    /// The bias and the first `n` products of channel `co` of pixel `p`, summed in order.
    pub open spec fn partial(self, p: int, co: int, n: int) -> T {
        dot(
            self.inp@,
            self.a@[p] as int,
            self.stride as int,
            self.len as int,
            self.w@,
            self.k(),
            self.b@[co],
            co,
            n,
        )
    }

    /// Channel `co` of pixel `p`.
    pub open spec fn value(self, p: int, co: int) -> T {
        act(self.relu, self.partial(p, co, self.k()))
    }

    /// `out` with 16 channels, from `16 * cb` on, of pixel `p` written.
    pub open spec fn with_pixel(self, out: Seq<T>, cb: int, p: int) -> Seq<T> {
        let at = self.o@[p] + 16 * cb;
        Seq::new(
            out.len(),
            |i: int|
                if at <= i < at + 16 {
                    self.value(p, 16 * cb + i - at)
                } else {
                    out[i]
                },
        )
    }

    /// `out` after 16 channels of the first `n` pixels.
    pub open spec fn with_pixels(self, out: Seq<T>, cb: int, n: int) -> Seq<T>
        decreases n,
    {
        if n <= 0 {
            out
        } else {
            self.with_pixel(self.with_pixels(out, cb, n - 1), cb, n - 1)
        }
    }

    /// `out` after the first `n` groups of 16 channels of all pixels.
    pub open spec fn with_groups(self, out: Seq<T>, n: int) -> Seq<T>
        decreases n,
    {
        if n <= 0 {
            out
        } else {
            self.with_pixels(self.with_groups(out, n - 1), n - 1, self.a@.len() as int)
        }
    }

    /// `out` after all channels of all pixels.
    pub open spec fn applied(self, out: Seq<T>) -> Seq<T> {
        self.with_groups(out, self.cout as int / 16)
    }
}

/// What a row of a pixel can be indexed by.
proof fn lemma_row<T: Scalar>(g: Gemm<T>, p: int, r: int, j: int)
    requires
        0 <= p < g.a@.len(),
        0 <= r < g.rows,
        0 <= j < g.len,
        g.a@[p] + g.span() <= g.inp@.len(),
    ensures
        0 <= g.a@[p] + r * g.stride + j < g.inp@.len(),
        r * g.stride <= g.span(),
        g.input(p, r * g.len + j) == g.inp@[g.a@[p] + r * g.stride + j],
        0 <= r * g.len + j < g.k(),
{
    assert(0 <= r * g.stride <= (g.rows - 1) * g.stride) by (nonlinear_arith)
        requires
            0 <= r <= g.rows - 1,
            0 <= g.stride,
    ;
    assert(0 <= r * g.len + j < g.rows * g.len) by (nonlinear_arith)
        requires
            0 <= r <= g.rows - 1,
            0 <= j < g.len,
    ;
    vstd::arithmetic::div_mod::lemma_fundamental_div_mod_converse(
        r * g.len + j,
        g.len as int,
        r,
        j,
    );
}

/// Where the 16 weights of a group start for input `j`.
proof fn lemma_group<T: Scalar>(g: Gemm<T>, cb: int, j: int, n: int)
    requires
        g.fits(n),
        0 <= cb < g.cout as int / 16,
        0 <= j < g.k(),
    ensures
        0 <= (cb * g.k() + j) * 16,
        (cb * g.k() + j) * 16 + 16 <= g.w@.len(),
        0 <= cb * g.k() <= g.w@.len(),
        forall|c: int|
            0 <= c < 16 ==> #[trigger] g.weight(16 * cb + c, j) == g.w@[(cb * g.k() + j) * 16 + c],
{
    let k = g.k();
    assert(0 <= cb * k && (cb * k + j) * 16 + 16 <= g.cout * k && cb * k <= g.cout * k)
        by (nonlinear_arith)
        requires
            0 <= cb,
            16 * (cb + 1) <= g.cout,
            0 <= j < k,
    ;
    assert forall|c: int| 0 <= c < 16 implies #[trigger] g.weight(16 * cb + c, j) == g.w@[(cb * k
        + j) * 16 + c] by {
        assert((16 * cb + c) / 16 == cb && (16 * cb + c) % 16 == c);
    }
}

/// Adds one input to 16 sums.
fn accumulate<T: Scalar>(acc: &mut [T; 16], x: T, w: &[T], at: usize)
    requires
        at + 16 <= w@.len(),
    ensures
        forall|c: int|
            0 <= c < 16 ==> #[trigger] final(acc)[c] == old(acc)[c].madd_spec(x, w@[at + c]),
{
    let n: usize = w.len();
    let mut c: usize = 0;
    while c < 16
        invariant
            c <= 16,
            at + 16 <= n,
            n == w@.len(),
            forall|i: int|
                0 <= i < 16 ==> #[trigger] acc[i] == if i < c {
                    old(acc)[i].madd_spec(x, w@[at + i])
                } else {
                    old(acc)[i]
                },
        decreases 16 - c,
    {
        acc[c] = acc[c].madd(x, w[at + c]);
        c += 1;
    }
}

/// Sums 16 channels of one pixel.
fn sums<T: Scalar>(g: &Gemm<T>, p: usize, cb: usize, Ghost(n): Ghost<int>) -> (acc: [T; 16])
    requires
        g.fits(n),
        p < g.a@.len(),
        cb < g.cout / 16,
    ensures
        forall|c: int|
            0 <= c < 16 ==> #[trigger] acc[c] == g.partial(p as int, 16 * cb + c, g.k()),
{
    let b0: T = g.b[16 * cb];
    let mut acc: [T; 16] = [b0; 16];
    let mut c: usize = 1;
    while c < 16
        invariant
            c <= 16,
            g.fits(n),
            cb < g.cout / 16,
            forall|i: int| 0 <= i < c ==> #[trigger] acc[i] == g.b@[16 * cb + i],
        decreases 16 - c,
    {
        acc[c] = g.b[16 * cb + c];
        c += 1;
    }
    assert(g.a@[p as int] + g.span() <= g.inp@.len());
    let k: usize = size(g, Ghost(n));
    let mut r: usize = 0;
    while r < g.rows
        invariant
            r <= g.rows,
            g.fits(n),
            p < g.a@.len(),
            cb < g.cout / 16,
            k == g.k(),
            g.a@[p as int] + g.span() <= g.inp@.len(),
            forall|i: int|
                0 <= i < 16 ==> #[trigger] acc[i] == g.partial(
                    p as int,
                    16 * cb + i,
                    r * g.len,
                ),
        decreases g.rows - r,
    {
        let mut j: usize = 0;
        while j < g.len
            invariant
                j <= g.len,
                r < g.rows,
                g.fits(n),
                p < g.a@.len(),
                cb < g.cout / 16,
                k == g.k(),
                g.a@[p as int] + g.span() <= g.inp@.len(),
                forall|i: int|
                    0 <= i < 16 ==> #[trigger] acc[i] == g.partial(
                        p as int,
                        16 * cb + i,
                        r * g.len + j,
                    ),
            decreases g.len - j,
        {
            let ghost t = r * g.len + j;
            proof {
                assert(g.inp@.len() == g.inp.len() && g.w@.len() == g.w.len());
                lemma_row(*g, p as int, r as int, j as int);
                lemma_group(*g, cb as int, t, n);
            }
            let x: T = g.inp[g.a[p] + r * g.stride + j];
            let ghost before = acc;
            accumulate(&mut acc, x, g.w, (cb * k + r * g.len + j) * 16);
            proof {
                assert forall|i: int| 0 <= i < 16 implies #[trigger] acc[i] == g.partial(
                    p as int,
                    16 * cb + i,
                    t + 1,
                ) by {
                    assert(before[i] == g.partial(p as int, 16 * cb + i, t));
                    assert(g.weight(16 * cb + i, t) == g.w@[(cb * k + t) * 16 + i]);
                }
            }
            j += 1;
        }
        assert((r + 1) * g.len == r * g.len + g.len) by (nonlinear_arith);
        r += 1;
    }
    acc
}

/// Inputs per output.
fn size<T: Scalar>(g: &Gemm<T>, Ghost(n): Ghost<int>) -> (k: usize)
    requires
        g.fits(n),
        g.cout > 0,
    ensures
        k == g.k(),
{
    assert(g.w@.len() == g.w.len());
    assert(g.rows * g.len <= g.cout * g.k()) by (nonlinear_arith)
        requires
            g.k() == g.rows * g.len,
            g.cout >= 1,
            g.k() >= 0,
    ;
    g.rows * g.len
}

/// Writes 16 channels of one pixel.
fn store<T: Scalar>(
    g: &Gemm<T>,
    p: usize,
    cb: usize,
    acc: &[T; 16],
    out: &mut [T],
)
    requires
        g.fits(old(out)@.len() as int),
        p < g.a@.len(),
        cb < g.cout / 16,
        forall|c: int|
            0 <= c < 16 ==> #[trigger] acc[c] == g.partial(p as int, 16 * cb + c, g.k()),
    ensures
        final(out)@ == g.with_pixel(old(out)@, cb as int, p as int),
{
    assert(g.a@[p as int] + g.span() <= g.inp@.len());
    let n: usize = out.len();
    let at: usize = g.o[p] + 16 * cb;
    let mut c: usize = 0;
    while c < 16
        invariant
            c <= 16,
            n == out@.len(),
            out@.len() == old(out)@.len(),
            at + 16 <= n,
            forall|i: int|
                0 <= i < 16 ==> #[trigger] acc[i] == g.partial(p as int, 16 * cb + i, g.k()),
            forall|i: int|
                0 <= i < n ==> #[trigger] out@[i] == if at <= i < at + c {
                    g.value(p as int, 16 * cb + i - at)
                } else {
                    old(out)@[i]
                },
        decreases 16 - c,
    {
        let s: T = acc[c];
        let v: T = if g.relu {
            s.larger(T::zero())
        } else {
            s
        };
        assert(v == g.value(p as int, 16 * cb + c));
        out[at + c] = v;
        c += 1;
    }
    assert(out@ =~= g.with_pixel(old(out)@, cb as int, p as int));
}

proof fn lemma_lengths<T: Scalar>(g: Gemm<T>, out: Seq<T>, cb: int, n: int)
    ensures
        g.with_pixels(out, cb, n).len() == out.len(),
    decreases n,
{
    if n > 0 {
        lemma_lengths(g, out, cb, n - 1);
    }
}

/// A kernel keeps the length of the output.
pub proof fn lemma_applied_length<T: Scalar>(g: Gemm<T>, out: Seq<T>)
    ensures
        g.applied(out).len() == out.len(),
{
    lemma_groups_length(g, out, g.cout as int / 16);
}

proof fn lemma_groups_length<T: Scalar>(g: Gemm<T>, out: Seq<T>, n: int)
    ensures
        g.with_groups(out, n).len() == out.len(),
    decreases n,
{
    if n > 0 {
        lemma_groups_length(g, out, n - 1);
        lemma_lengths(g, g.with_groups(out, n - 1), n - 1, g.a@.len() as int);
    }
}

/// The portable kernel.
pub fn generic<T: Scalar>(g: &Gemm<T>, out: &mut [T])
    requires
        g.fits(old(out)@.len() as int),
    ensures
        final(out)@ == g.applied(old(out)@),
{
    let n: usize = g.a.len();
    let groups: usize = g.cout / 16;
    let mut cb: usize = 0;
    while cb < groups
        invariant
            cb <= groups,
            groups == g.cout / 16,
            n == g.a@.len(),
            g.fits(out@.len() as int),
            out@ == g.with_groups(old(out)@, cb as int),
        decreases groups - cb,
    {
        let ghost start = out@;
        let mut p: usize = 0;
        while p < n
            invariant
                p <= n,
                cb < groups,
                groups == g.cout / 16,
                n == g.a@.len(),
                g.fits(out@.len() as int),
                out@ == g.with_pixels(start, cb as int, p as int),
            decreases n - p,
        {
            let acc: [T; 16] = sums(g, p, cb, Ghost(out@.len() as int));
            store(g, p, cb, &acc, out);
            proof {
                lemma_lengths(*g, start, cb as int, p + 1);
            }
            p += 1;
        }
        cb += 1;
    }
}

/// A number type with a kernel of its own choosing.
pub trait Kernel: Scalar {
    /// Applies one layer's work to `out`.
    fn run(g: &Gemm<Self>, out: &mut [Self])
        requires
            g.fits(old(out)@.len() as int),
        ensures
            final(out)@ == g.applied(old(out)@),
    ;
}

impl Kernel for Single {
    fn run(g: &Gemm<Single>, out: &mut [Single]) {
        generic(g, out)
    }
}

/// Applies one layer's work to `out`.
pub fn run<T: Kernel>(g: &Gemm<T>, out: &mut [T])
    requires
        g.fits(old(out)@.len() as int),
    ensures
        final(out)@ == g.applied(old(out)@),
{
    if g.a.len() == 0 {
        proof {
            lemma_no_pixels(*g, out@, g.cout as int / 16);
        }
        return;
    }
    T::run(g, out)
}

proof fn lemma_no_pixels<T: Scalar>(g: Gemm<T>, out: Seq<T>, n: int)
    requires
        g.a@.len() == 0,
    ensures
        g.with_groups(out, n) == out,
    decreases n,
{
    if n > 0 {
        lemma_no_pixels(g, out, n - 1);
    }
}

/// No two pixels share an output.
pub open spec fn apart<T: Scalar>(g: Gemm<T>) -> bool {
    forall|p: int, q: int|
        0 <= p < q < g.a@.len() ==> #[trigger] g.o@[p] + g.cout <= #[trigger] g.o@[q] || g.o@[q]
            + g.cout <= g.o@[p]
}

/// Channel `co` of pixel `p` lies at `i`.
pub open spec fn lies_at<T: Scalar>(g: Gemm<T>, p: int, co: int, i: int) -> bool {
    &&& 0 <= p < g.a@.len()
    &&& 0 <= co < g.cout
    &&& i == g.o@[p] + co
}

proof fn lemma_pixels<T: Scalar>(g: Gemm<T>, out: Seq<T>, cb: int, n: int, i: int)
    requires
        apart(g),
        g.fits(out.len() as int),
        0 <= cb < g.cout as int / 16,
        0 <= n <= g.a@.len(),
        0 <= i < out.len(),
    ensures
        g.with_pixels(out, cb, n).len() == out.len(),
        forall|p: int, co: int| #[trigger]
            lies_at(g, p, co, i) && p < n && 16 * cb <= co < 16 * cb + 16 ==> g.with_pixels(
                out,
                cb,
                n,
            )[i] == g.value(p, co),
        (forall|p: int, co: int| #[trigger]
            lies_at(g, p, co, i) ==> !(p < n && 16 * cb <= co < 16 * cb + 16)) ==> g.with_pixels(
            out,
            cb,
            n,
        )[i] == out[i],
    decreases n,
{
    if n > 0 {
        lemma_pixels(g, out, cb, n - 1, i);
        let (prev, next, q) = (g.with_pixels(out, cb, n - 1), g.with_pixels(out, cb, n), n - 1);
        let at = g.o@[q] + 16 * cb;
        let here = at <= i < at + 16;
        if here {
            assert(lies_at(g, q, i - g.o@[q], i));
        }
        assert(g.a@[q] + g.span() <= g.inp@.len());
        assert forall|p: int, co: int| #[trigger]
            lies_at(g, p, co, i) && p < n && 16 * cb <= co < 16 * cb + 16 implies next[i] == g.value(
            p,
            co,
        ) by {
            if p < q {
                assert(g.o@[p] + g.cout <= g.o@[q] || g.o@[q] + g.cout <= g.o@[p]);
            }
        }
    }
}

proof fn lemma_groups<T: Scalar>(g: Gemm<T>, out: Seq<T>, n: int, i: int)
    requires
        apart(g),
        g.fits(out.len() as int),
        0 <= n <= g.cout as int / 16,
        0 <= i < out.len(),
    ensures
        g.with_groups(out, n).len() == out.len(),
        forall|p: int, co: int| #[trigger]
            lies_at(g, p, co, i) && co < 16 * n ==> g.with_groups(out, n)[i] == g.value(p, co),
        (forall|p: int, co: int| #[trigger] lies_at(g, p, co, i) ==> !(co < 16 * n))
            ==> g.with_groups(out, n)[i] == out[i],
    decreases n,
{
    if n > 0 {
        lemma_groups(g, out, n - 1, i);
        let prev = g.with_groups(out, n - 1);
        lemma_pixels(g, prev, n - 1, g.a@.len() as int, i);
        assert forall|p: int, co: int| #[trigger]
            lies_at(g, p, co, i) && co < 16 * n implies g.with_groups(out, n)[i] == g.value(
            p,
            co,
        ) by {
            if co < 16 * (n - 1) {
                // No other pixel's group lies here.
                assert forall|p2: int, co2: int| #[trigger]
                    lies_at(g, p2, co2, i) implies !(p2 < g.a@.len() && 16 * (n - 1) <= co2 < 16 * (
                n - 1) + 16) by {
                    if p2 < p {
                        assert(g.o@[p2] + g.cout <= g.o@[p] || g.o@[p] + g.cout <= g.o@[p2]);
                    } else if p < p2 {
                        assert(g.o@[p] + g.cout <= g.o@[p2] || g.o@[p2] + g.cout <= g.o@[p]);
                    }
                }
            }
        }
    }
}

/// When no two pixels share an output, every channel of every pixel is where it belongs, and
/// everything else is as it was.
pub proof fn lemma_applied<T: Scalar>(g: Gemm<T>, out: Seq<T>, i: int)
    requires
        apart(g),
        g.fits(out.len() as int),
        0 <= i < out.len(),
    ensures
        g.applied(out).len() == out.len(),
        forall|p: int, co: int| #[trigger]
            lies_at(g, p, co, i) ==> g.applied(out)[i] == g.value(p, co),
        (forall|p: int, co: int| !#[trigger] lies_at(g, p, co, i)) ==> g.applied(out)[i] == out[i],
{
    lemma_groups(g, out, g.cout as int / 16, i);
}

impl<'a, T: Scalar> Gemm<'a, T> {
    /// Checks that everything the kernel touches is there, for an output of `n` numbers.
    pub fn check(&self, n: usize) -> (r: bool)
        ensures
            r == self.fits(n as int),
    {
        if self.cout % 16 != 0 || self.rows == 0 || self.len == 0 || self.a.len() != self.o.len() {
            return false;
        }
        let w_len: usize = self.w.len();
        let in_len: usize = self.inp.len();
        let k: usize = match self.rows.checked_mul(self.len) {
            Some(k) => k,
            None => {
                // Only a layer without outputs can have that many inputs.
                proof {
                    let (c, k) = (self.cout as int, self.k());
                    if c > 0 {
                        assert(c * k >= k) by (nonlinear_arith)
                            requires
                                c >= 1,
                                k >= 0,
                        ;
                    }
                }
                if self.cout > 0 {
                    return false;
                }
                0
            },
        };
        let need: usize = match self.cout.checked_mul(k) {
            Some(m) => m,
            None => {
                return false;
            },
        };
        proof {
            if self.cout == 0 {
                let k = self.k();
                assert(0 * k == 0) by (nonlinear_arith);
            }
        }
        if w_len < need || self.b.len() < self.cout {
            return false;
        }
        let steps: Option<usize> = (self.rows - 1).checked_mul(self.stride);
        let pixels: usize = self.a.len();
        let mut p: usize = 0;
        while p < pixels
            invariant
                p <= pixels,
                pixels == self.a@.len(),
                pixels == self.o@.len(),
                self.rows > 0,
                in_len == self.inp@.len(),
                steps == if (self.rows - 1) * self.stride <= usize::MAX {
                    Some(((self.rows - 1) * self.stride) as usize)
                } else {
                    None
                },
                forall|q: int|
                    0 <= q < p ==> #[trigger] self.a@[q] + self.span() <= self.inp@.len()
                        && self.o@[q] + self.cout <= n,
            decreases pixels - p,
        {
            assert(self.span() == (self.rows - 1) * self.stride + self.len);
            let reach: Option<usize> = match steps {
                Some(s) => match s.checked_add(self.len) {
                    Some(span) => self.a[p].checked_add(span),
                    None => None,
                },
                None => None,
            };
            let end: Option<usize> = self.o[p].checked_add(self.cout);
            let inside: bool = match reach {
                Some(x) => x <= in_len,
                None => false,
            };
            let outside: bool = match end {
                Some(x) => x > n,
                None => true,
            };
            assert(inside == (self.a@[p as int] + self.span() <= self.inp@.len()));
            assert(outside == !(self.o@[p as int] + self.cout <= n));
            if !inside || outside {
                return false;
            }
            p += 1;
        }
        true
    }
}

/// The kernels there are.
#[derive(Clone, Copy, Debug, PartialEq, Eq, Structural)]
pub enum Isa {
    Unknown,
    Generic,
    Avx2,
    Neon,
}

/// What a processor says of itself. Leaf and register names are those of CPUID and XGETBV;
/// all are zero where there is no CPUID.
#[derive(Clone, Copy)]
pub struct Cpu {
    pub aarch64: bool,
    /// CPUID leaf 0, EAX: the last leaf.
    pub max_leaf: u32,
    /// CPUID leaf 1, ECX.
    pub leaf1_ecx: u32,
    /// CPUID leaf 7, EBX; zero when there is no leaf 7.
    pub leaf7_ebx: u32,
    /// XCR0; zero when OSXSAVE is not set.
    pub xcr0: u64,
}

/// Bit `i` of a register.
pub open spec fn flag(x: u32, i: int) -> bool {
    (x as int / vstd::arithmetic::power2::pow2(i as nat) as int) % 2 == 1
}

impl Cpu {
    /// AVX2 and FMA are there, and the OS saves XMM and YMM state.
    pub open spec fn has_avx2_fma(self) -> bool {
        &&& flag(self.leaf1_ecx, 12)
        &&& flag(self.leaf1_ecx, 27)
        &&& flag(self.leaf1_ecx, 28)
        &&& self.xcr0 / 2 % 4 == 3
        &&& self.max_leaf >= 7
        &&& flag(self.leaf7_ebx, 5)
    }

    /// The kernel for this processor.
    pub open spec fn best(self) -> Isa {
        if self.aarch64 {
            Isa::Neon
        } else if self.has_avx2_fma() {
            Isa::Avx2
        } else {
            Isa::Generic
        }
    }
}

/// The OS lets XGETBV be used.
pub fn has_osxsave(leaf1_ecx: u32) -> (r: bool)
    ensures
        r == flag(leaf1_ecx, 27),
{
    proof {
        vstd::arithmetic::power2::lemma2_to64();
        assert((leaf1_ecx >> 27 & 1) == (leaf1_ecx / 0x800_0000) % 2) by (bit_vector);
    }
    leaf1_ecx >> 27 & 1 == 1
}

/// AVX2 + FMA available.
pub fn avx2_fma(cpu: &Cpu) -> (r: bool)
    ensures
        r == cpu.has_avx2_fma(),
{
    let (ecx, ebx, xcr0): (u32, u32, u64) = (cpu.leaf1_ecx, cpu.leaf7_ebx, cpu.xcr0);
    proof {
        vstd::arithmetic::power2::lemma2_to64();
        assert((ecx >> 12 & 1) == (ecx / 0x1000) % 2 && (ecx >> 28 & 1) == (ecx / 0x1000_0000) % 2)
            by (bit_vector);
        assert((ebx >> 5 & 1) == (ebx / 32) % 2) by (bit_vector);
        assert((xcr0 & 6 == 6) == (xcr0 / 2 % 4 == 3)) by (bit_vector);
    }
    let fma: bool = ecx >> 12 & 1 == 1;
    let avx: bool = ecx >> 28 & 1 == 1;
    fma && has_osxsave(ecx) && avx && xcr0 & 6 == 6 && cpu.max_leaf >= 7 && ebx >> 5 & 1 == 1
}

/// The kernel in use: the one that was settled on, or else the best one.
pub open spec fn in_use(settled: Isa, cpu: Cpu) -> Isa {
    if settled == Isa::Unknown {
        cpu.best()
    } else {
        settled
    }
}

/// The kernel in use.
pub fn isa(settled: Isa, cpu: &Cpu) -> (r: Isa)
    ensures
        r == in_use(settled, *cpu),
        r != Isa::Unknown,
{
    match settled {
        Isa::Unknown => {
            if cpu.aarch64 {
                Isa::Neon
            } else if avx2_fma(cpu) {
                Isa::Avx2
            } else {
                Isa::Generic
            }
        },
        v => v,
    }
}

/// Name of a kernel.
pub open spec fn name_of(i: Isa) -> Seq<char> {
    match i {
        Isa::Avx2 => "avx2"@,
        Isa::Neon => "neon"@,
        _ => "generic"@,
    }
}

/// Name of the kernel in use: "avx2", "neon" or "generic".
pub fn isa_name(settled: Isa, cpu: &Cpu) -> (r: &'static str)
    ensures
        r@ == name_of(in_use(settled, *cpu)),
{
    match isa(settled, cpu) {
        Isa::Avx2 => "avx2",
        Isa::Neon => "neon",
        _ => "generic",
    }
}

/// AVX2 + FMA available (and not overridden by `force_generic`).
pub fn has_avx2(settled: Isa, cpu: &Cpu) -> (r: bool)
    ensures
        r == (in_use(settled, *cpu) == Isa::Avx2),
{
    match isa(settled, cpu) {
        Isa::Avx2 => true,
        _ => false,
    }
}

/// Use the portable kernel from now on (for testing and benchmarking).
pub fn force_generic(settled: &mut Isa)
    ensures
        *final(settled) == Isa::Generic,
{
    *settled = Isa::Generic;
}

/// Once settled, the kernel stays the same: asking again changes nothing, and a forced
/// portable kernel is in use on every processor.
pub proof fn lemma_settled(settled: Isa, cpu: Cpu, other: Cpu)
    ensures
        in_use(in_use(settled, cpu), other) == in_use(settled, cpu),
        in_use(Isa::Generic, cpu) == Isa::Generic,
{
}

/// Which kernel is used on a processor: the portable one where it was settled on, else NEON on
/// AArch64, and AVX2 exactly if FMA, OSXSAVE and AVX are set in leaf 1, AVX2 is set in leaf 7,
/// which there has to be, and XMM and YMM state is enabled. Setting any further bit of those
/// registers makes no difference.
pub proof fn lemma_kernel_choice(settled: Isa, cpu: Cpu, r: Isa)
    requires
        call_ensures(isa, (settled, &cpu), r),
    ensures
        settled != Isa::Unknown ==> r == settled,
        settled == Isa::Unknown && cpu.aarch64 ==> r == Isa::Neon,
        settled == Isa::Unknown && !cpu.aarch64 ==> r == if {
            &&& cpu.leaf1_ecx / 0x1000 % 2 == 1
            &&& cpu.leaf1_ecx / 0x800_0000 % 2 == 1
            &&& cpu.leaf1_ecx / 0x1000_0000 % 2 == 1
            &&& cpu.xcr0 / 2 % 2 == 1
            &&& cpu.xcr0 / 4 % 2 == 1
            &&& cpu.max_leaf >= 7
            &&& cpu.leaf7_ebx / 32 % 2 == 1
        } {
            Isa::Avx2
        } else {
            Isa::Generic
        },
{
    vstd::arithmetic::power2::lemma2_to64();
    vstd::arithmetic::power2::lemma2_to64_rest();
}

/// Only AVX2 kernels are called so, and every kernel has its own name.
pub proof fn lemma_kernel_name(settled: Isa, cpu: Cpu, r: Isa, name: &str, avx2: bool)
    requires
        call_ensures(isa, (settled, &cpu), r),
        call_ensures(isa_name, (settled, &cpu), name),
        call_ensures(has_avx2, (settled, &cpu), avx2),
    ensures
        r == Isa::Avx2 ==> name@ == "avx2"@ && avx2,
        r == Isa::Neon ==> name@ == "neon"@ && !avx2,
        r == Isa::Generic ==> name@ == "generic"@ && !avx2,
        r != Isa::Unknown,
{
}

/// From the call that forces the portable kernel on, it is the one in use.
pub proof fn lemma_forced_generic(settled: &mut Isa, cpu: Cpu, r: Isa)
    requires
        call_ensures(force_generic, (settled,), ()),
        call_ensures(isa, (*final(settled), &cpu), r),
    ensures
        r == Isa::Generic,
{
}

/// What is checked before a kernel is used: channels come in sixteens, there is an input, every
/// pixel has a place, and inputs, weights, biases and outputs are all inside their buffers.
pub proof fn lemma_check_call<T: Scalar>(g: Gemm<T>, n: usize, r: bool)
    requires
        call_ensures(Gemm::<T>::check, (&g, n), r),
    ensures
        r <==> {
            &&& g.cout as int % 16 == 0
            &&& g.rows > 0 && g.len > 0
            &&& g.a@.len() == g.o@.len()
            &&& g.w@.len() >= g.cout * (g.rows * g.len)
            &&& g.b@.len() >= g.cout
            &&& forall|p: int|
                0 <= p < g.a@.len() ==> #[trigger] g.a@[p] + (g.rows - 1) * g.stride + g.len
                    <= g.inp@.len() && g.o@[p] + g.cout <= n
        },
{
    assert forall|p: int| 0 <= p < g.a@.len() implies #[trigger] g.a@[p] + g.span() == g.a@[p] + (
    g.rows - 1) * g.stride + g.len by {}
}

/// The portable kernel and the one in use write the same.
pub proof fn lemma_kernels_agree<T: Kernel>(g: Gemm<T>, out: &mut [T], portable: &mut [T])
    requires
        old(out)@ == old(portable)@,
        call_ensures(run::<T>, (&g, out), ()),
        call_ensures(generic::<T>, (&g, portable), ()),
    ensures
        final(out)@ == final(portable)@,
{
}

} // verus!
