//! Feature maps: what every step of the network makes of its input.
//!
//! A map of n x n pixels and c channels is a sequence of (y, x, channel). A padded one has a
//! border of one blank pixel all around.

use super::layout::{cin_of, cout_of, k_of, offset_of, weights_of};
use crate::kernel::{act, dot};
use crate::scalar::Scalar;
use vstd::prelude::*;

verus! {

/// Where channel `k` of pixel (`x`, `y`) lies.
pub open spec fn at(y: int, x: int, k: int, cols: int, c: int) -> int {
    (y * cols + x) * c + k
}

/// Coordinates to index and back.
pub proof fn lemma_at(y: int, x: int, k: int, rows: int, cols: int, c: int)
    requires
        0 <= y < rows,
        0 <= x < cols,
        0 <= k < c,
    ensures
        0 <= at(y, x, k, cols, c) < rows * cols * c,
        at(y, x, k, cols, c) + c - k <= rows * cols * c,
        at(y, x, k, cols, c) / c == y * cols + x,
        at(y, x, k, cols, c) % c == k,
        at(y, x, k, cols, c) / c / cols == y,
        at(y, x, k, cols, c) / c % cols == x,
{
    let p = y * cols + x;
    assert(0 <= p && p + 1 <= rows * cols) by (nonlinear_arith)
        requires
            p == y * cols + x,
            0 <= y < rows,
            0 <= x < cols,
    ;
    let s = rows * cols;
    assert(0 <= p * c + k && p * c + c <= s * c) by (nonlinear_arith)
        requires
            0 <= p,
            p + 1 <= s,
            0 <= k < c,
    ;
    vstd::arithmetic::div_mod::lemma_fundamental_div_mod_converse(p * c + k, c, p, k);
    vstd::arithmetic::div_mod::lemma_fundamental_div_mod_converse(p, cols, y, x);
}

/// Index to coordinates and back.
pub proof fn lemma_coordinates(i: int, rows: int, cols: int, c: int)
    requires
        0 < rows,
        0 < cols,
        0 < c,
        0 <= i < rows * cols * c,
    ensures
        0 <= i / c / cols < rows,
        0 <= i / c % cols < cols,
        0 <= i % c < c,
        at(i / c / cols, i / c % cols, i % c, cols, c) == i,
{
    let (p, k) = (i / c, i % c);
    vstd::arithmetic::div_mod::lemma_fundamental_div_mod(i, c);
    let s = rows * cols;
    assert(0 <= p < s && p * c + k == i) by (nonlinear_arith)
        requires
            i == c * p + k,
            0 <= k < c,
            0 <= i < s * c,
    ;
    let (y, x) = (p / cols, p % cols);
    vstd::arithmetic::div_mod::lemma_fundamental_div_mod(p, cols);
    assert(0 <= y < rows && y * cols + x == p) by (nonlinear_arith)
        requires
            p == cols * y + x,
            0 <= x < cols,
            0 <= p < rows * cols,
    ;
}

/// A pixel of the border of a padded map.
pub open spec fn on_border(y: int, x: int, n: int) -> bool {
    y == 0 || x == 0 || y == n + 1 || x == n + 1
}

/// The weights and biases of a network.
pub ghost struct Weights<T> {
    pub width: int,
    pub dim: int,
    pub buf: Seq<T>,
}

impl<T: Scalar> Weights<T> {
    /// The packed weights of layer `li`.
    pub open spec fn weights(self, li: int) -> Seq<T> {
        let from = offset_of(self.width, self.dim, li);
        self.buf.subrange(from, from + weights_of(self.width, self.dim, li))
    }

    /// Bias `co` of layer `li`.
    pub open spec fn bias(self, li: int, co: int) -> T {
        self.buf[offset_of(self.width, self.dim, li) + weights_of(self.width, self.dim, li) + co]
    }

    /// Input channels of layer `li`.
    pub open spec fn cin(self, li: int) -> int {
        cin_of(self.width, li)
    }

    /// Output channels of layer `li`.
    pub open spec fn cout(self, li: int) -> int {
        cout_of(self.width, self.dim, li)
    }

    /// Channel `co` of output pixel (`x`, `y`) of a 3x3 conv over a padded n x n map.
    pub open spec fn conv_value(
        self,
        li: int,
        inp: Seq<T>,
        n: int,
        stride: int,
        y: int,
        x: int,
        co: int,
    ) -> T {
        let cin = self.cin(li);
        act(
            true,
            dot(
                inp,
                (y * stride * (n + 2) + x * stride) * cin,
                (n + 2) * cin,
                3 * cin,
                self.weights(li),
                k_of(self.width, li),
                self.bias(li, co),
                co,
                k_of(self.width, li),
            ),
        )
    }

    /// A 3x3 conv + ReLU on a padded n x n map, as a padded map.
    pub open spec fn conv_map(self, li: int, inp: Seq<T>, n: int, stride: int) -> Seq<T> {
        let (m, c) = (n / stride, self.cout(li));
        Seq::new(
            ((m + 2) * (m + 2) * c) as nat,
            |i: int|
                {
                    let (y, x) = (i / c / (m + 2), i / c % (m + 2));
                    if on_border(y, x, m) {
                        T::zero_spec()
                    } else {
                        self.conv_value(li, inp, n, stride, y - 1, x - 1, i % c)
                    }
                },
        )
    }

    /// A fully connected layer over `n` rows.
    pub open spec fn fc_map(self, li: int, inp: Seq<T>, n: int) -> Seq<T> {
        let (k, c) = (k_of(self.width, li), self.cout(li));
        Seq::new(
            (n * c) as nat,
            |i: int|
                dot(
                    inp,
                    (i / c) * k,
                    0,
                    k,
                    self.weights(li),
                    k,
                    self.bias(li, i % c),
                    i % c,
                    k,
                ),
        )
    }
}

/// A crop of n x n pixels with a blank border.
pub open spec fn pad_map<T: Scalar>(crop: Seq<T>, n: int) -> Seq<T> {
    Seq::new(
        ((n + 2) * (n + 2)) as nat,
        |i: int|
            {
                let (y, x) = (i / (n + 2), i % (n + 2));
                if on_border(y, x, n) {
                    T::zero_spec()
                } else {
                    crop[(y - 1) * n + x - 1]
                }
            },
    )
}

/// The largest of the four pixels under (`x`, `y`), channel `k`, of a padded n x n map.
pub open spec fn pool_value<T: Scalar>(inp: Seq<T>, n: int, c: int, y: int, x: int, k: int) -> T {
    let a = inp[at(2 * y + 1, 2 * x + 1, k, n + 2, c)];
    let b = inp[at(2 * y + 1, 2 * x + 2, k, n + 2, c)];
    let d = inp[at(2 * y + 2, 2 * x + 1, k, n + 2, c)];
    let e = inp[at(2 * y + 2, 2 * x + 2, k, n + 2, c)];
    a.larger_spec(b).larger_spec(d.larger_spec(e))
}

/// 2x2 max pool of a padded n x n map, as a padded map.
pub open spec fn pool_map<T: Scalar>(inp: Seq<T>, n: int, c: int) -> Seq<T> {
    let m = n / 2;
    Seq::new(
        ((m + 2) * (m + 2) * c) as nat,
        |i: int|
            {
                let (y, x) = (i / c / (m + 2), i / c % (m + 2));
                if on_border(y, x, m) {
                    T::zero_spec()
                } else {
                    pool_value(inp, n, c, y - 1, x - 1, i % c)
                }
            },
    )
}

/// 2x2 max pool of a padded n x n map, without a border.
pub open spec fn pool_packed<T: Scalar>(inp: Seq<T>, n: int, c: int) -> Seq<T> {
    let m = n / 2;
    Seq::new(
        (m * m * c) as nat,
        |i: int| pool_value(inp, n, c, i / c / m, i / c % m, i % c),
    )
}

/// The sum of channel `k` over the first `q` pixels of a padded n x n map.
pub open spec fn pixel_sum<T: Scalar>(inp: Seq<T>, n: int, c: int, k: int, q: int) -> T
    decreases q,
{
    if q <= 0 {
        T::zero_spec()
    } else {
        pixel_sum(inp, n, c, k, q - 1).plus_spec(
            inp[at((q - 1) / n + 1, (q - 1) % n + 1, k, n + 2, c)],
        )
    }
}

/// Global average pool of a padded n x n map of `c` channels, as `len` numbers.
pub open spec fn mean_map<T: Scalar>(inp: Seq<T>, n: int, c: int, len: int) -> Seq<T> {
    Seq::new(
        len as nat,
        |k: int|
            (if k < c {
                pixel_sum(inp, n, c, k, n * n)
            } else {
                T::zero_spec()
            }).over_spec(T::count_spec((n * n) as usize)),
    )
}

/// The sum of the first `n` products of two vectors.
pub open spec fn inner<T: Scalar>(x: Seq<T>, y: Seq<T>, n: int) -> T
    decreases n,
{
    if n <= 0 {
        T::nothing_spec()
    } else {
        inner(x, y, n - 1).plus_spec(x[n - 1].times_spec(y[n - 1]))
    }
}

/// A vector divided by its length, or by a tiny length if it has none.
pub open spec fn unit_map<T: Scalar>(v: Seq<T>) -> Seq<T> {
    let norm = inner(v, v, v.len() as int).root_spec().larger_spec(T::tiny_spec());
    Seq::new(v.len(), |i: int| v[i].over_spec(norm))
}

/// Row `i` of a matrix with rows of `n`.
pub open spec fn row<T>(v: Seq<T>, i: int, n: int) -> Seq<T> {
    v.subrange(i * n, (i + 1) * n)
}

/// Equal-length vectors, one behind the other.
pub open spec fn stacked<T>(f: spec_fn(int) -> Seq<T>, count: int, n: int) -> Seq<T> {
    Seq::new((count * n) as nat, |i: int| f(i / n)[i % n])
}

impl<T: Scalar> Weights<T> {
    /// The prompt tower up to its fully connected layer.
    pub open spec fn prompt_features(self, crop: Seq<T>) -> Seq<T> {
        let w = self.width;
        let m = self.conv_map(0, pad_map(crop, 16), 16, 1);
        let m = self.conv_map(1, m, 16, 1);
        let m = pool_map(m, 16, w);
        let m = self.conv_map(2, m, 8, 1);
        let m = self.conv_map(3, m, 8, 1);
        pool_packed(m, 8, 2 * w)
    }

    /// The candidate tower up to its fully connected layer.
    pub open spec fn cand_features(self, crop: Seq<T>) -> Seq<T> {
        let w = self.width;
        let m = self.conv_map(5, pad_map(crop, 40), 40, 2);
        let m = self.conv_map(6, m, 20, 1);
        let m = pool_map(m, 20, w);
        let m = self.conv_map(7, m, 10, 1);
        let m = self.conv_map(8, m, 10, 1);
        let m = pool_map(m, 10, 2 * w);
        let m = self.conv_map(9, m, 5, 1);
        let m = self.conv_map(10, m, 5, 1);
        mean_map(m, 5, 4 * w, 4 * w)
    }

    /// The embedding of prompt `i`, of unit length.
    pub open spec fn prompt_embedding(self, prompts: Seq<T>, i: int) -> Seq<T> {
        let feat = stacked(|k: int| self.prompt_features(row(prompts, k, 256)), 4, 32 * self.width);
        unit_map(row(self.fc_map(4, feat, 4), i, self.dim))
    }

    /// The embedding of candidate `j`, of unit length.
    pub open spec fn cand_embedding(self, cands: Seq<T>, j: int) -> Seq<T> {
        let feat = stacked(|k: int| self.cand_features(row(cands, k, 1600)), 6, 4 * self.width);
        unit_map(row(self.fc_map(11, feat, 6), j, self.dim))
    }

    /// Cosine similarity of prompt `i` and candidate `j`.
    pub open spec fn cosine(self, prompts: Seq<T>, cands: Seq<T>, i: int, j: int) -> T {
        inner(self.prompt_embedding(prompts, i), self.cand_embedding(cands, j), self.dim)
    }
}

} // verus!
