//! Writing blocks, and reading back what was written.

use super::bits::{bit_at, bits_at, entropy_bytes, extended, lemma_bits_prefix, read_symbol};
use super::block::{ac_from, block_at, zigzag, Block};
use super::huffman::{prefix, Table};
use super::idct::{in_block, sample};
use super::laws::{lemma_unstuffed_at, stuffed};
use super::image::{after_segment, after_segments};
use super::marker::{be16_at, header_from, is_marker, lemma_marker_skip, marker_from};
use super::frame::{lemma_up_wf, lemma_zigzag_permutation, Header, ORDER};
use super::scan::{
    at_start, lemma_entry_tables, lemma_grid, lemma_mcu_counts, lemma_select, listed, paint,
    scan_header, select, with_scan, Progress, Scan,
};
use super::{Error, SCRATCH};
use crate::arith::{wrap16, wrap32};
use vstd::arithmetic::power2::{
    lemma2_to64, lemma_pow2_unfold, pow2,
};
use vstd::prelude::*;

verus! {

/// `s` holds the bits `b` from bit `k` on.
#[verifier::opaque]
pub open spec fn holds_bits(s: Seq<u8>, k: int, b: Seq<bool>) -> bool {
    forall|i: int| 0 <= i < b.len() ==> bit_at(s, k + i) == if #[trigger] b[i] {
        1int
    } else {
        0
    }
}

/// One part behind the other.
proof fn lemma_holds_parts(s: Seq<u8>, k: int, a: Seq<bool>, b: Seq<bool>)
    requires
        holds_bits(s, k, a + b),
    ensures
        holds_bits(s, k, a),
        holds_bits(s, k + a.len(), b),
{
    reveal(holds_bits);
    assert forall|i: int| 0 <= i < a.len() implies bit_at(s, k + i) == if #[trigger] a[i] {
        1int
    } else {
        0
    } by {
        assert((a + b)[i] == a[i]);
    }
    assert forall|i: int| 0 <= i < b.len() implies bit_at(s, k + a.len() + i)
        == if #[trigger] b[i] {
        1int
    } else {
        0
    } by {
        assert((a + b)[a.len() + i] == b[i]);
        assert(k + (a.len() + i) == k + a.len() + i);
    }
}

/// A number of `n` bits, first bit first.
pub open spec fn number_bits(v: int, n: int) -> Seq<bool>
    decreases n,
{
    if n <= 0 {
        Seq::empty()
    } else {
        number_bits(v / 2, n - 1).push(v % 2 == 1)
    }
}

/// Numbers read back as they were written.
pub proof fn lemma_number_read_back(s: Seq<u8>, k: int, v: int, n: int)
    requires
        0 <= n,
        0 <= v < pow2(n as nat),
        holds_bits(s, k, number_bits(v, n)),
    ensures
        number_bits(v, n).len() == n,
        bits_at(s, k, n) == v,
    decreases n,
{
    reveal(holds_bits);
    lemma2_to64();
    if n > 0 {
        lemma_pow2_unfold(n as nat);
        let (a, b) = (number_bits(v / 2, n - 1), seq![v % 2 == 1]);
        assert(number_bits(v, n) =~= a + b);
        lemma_holds_parts(s, k, a, b);
        lemma_number_read_back(s, k, v / 2, n - 1);
        assert(b[0] == (v % 2 == 1));
    }
}

/// A bit of a byte that is being filled up; ones follow the last bit.
pub open spec fn fill_bit(b: Seq<bool>, i: int) -> int {
    if i >= b.len() || b[i] {
        1
    } else {
        0
    }
}

/// Bits in bytes, first bit first, filled up with ones.
pub open spec fn packed(b: Seq<bool>) -> Seq<u8> {
    Seq::new(
        ((b.len() + 7) / 8) as nat,
        |k: int|
            (128 * fill_bit(b, 8 * k) + 64 * fill_bit(b, 8 * k + 1) + 32 * fill_bit(b, 8 * k + 2)
                + 16 * fill_bit(b, 8 * k + 3) + 8 * fill_bit(b, 8 * k + 4) + 4 * fill_bit(
                b,
                8 * k + 5,
            ) + 2 * fill_bit(b, 8 * k + 6) + fill_bit(b, 8 * k + 7)) as u8,
    )
}

/// Bits read back as they were packed.
pub proof fn lemma_packed(b: Seq<bool>)
    ensures
        holds_bits(packed(b), 0, b),
{
    reveal(holds_bits);
    let s = packed(b);
    lemma2_to64();
    assert forall|i: int| 0 <= i < b.len() implies bit_at(s, 0 + i) == if #[trigger] b[i] {
        1int
    } else {
        0
    } by {
        let (k, r) = (i / 8, i % 8);
        assert(0 <= k < s.len());
        assert(i == 8 * k + r);
        let (x0, x1, x2, x3, x4, x5, x6, x7) = (
            fill_bit(b, 8 * k),
            fill_bit(b, 8 * k + 1),
            fill_bit(b, 8 * k + 2),
            fill_bit(b, 8 * k + 3),
            fill_bit(b, 8 * k + 4),
            fill_bit(b, 8 * k + 5),
            fill_bit(b, 8 * k + 6),
            fill_bit(b, 8 * k + 7),
        );
        let v = s[k] as int;
        assert(v == 128 * x0 + 64 * x1 + 32 * x2 + 16 * x3 + 8 * x4 + 4 * x5 + 2 * x6 + x7);
        assert(v / 128 % 2 == x0 && v / 64 % 2 == x1 && v / 32 % 2 == x2 && v / 16 % 2 == x3);
        assert(v / 8 % 2 == x4 && v / 4 % 2 == x5 && v / 2 % 2 == x6 && v % 2 == x7);
        assert(v / 1 == v);
    }
}

/// What is packed, stuffed and followed by a marker, or by nothing, is read as it was.
pub proof fn lemma_segment_holds(data: Seq<u8>, pos: int, b: Seq<bool>, t: Seq<u8>)
    requires
        0 <= pos <= data.len(),
        data.skip(pos) == stuffed(packed(b)) + t,
        t.len() == 0 || is_marker(t, 0),
    ensures
        holds_bits(entropy_bytes(data, pos), 0, b),
{
    lemma_unstuffed_at(data, pos, packed(b), t);
    lemma_packed(b);
}

/// The length of code `i` of a Huffman code, from length `l` on: there are `counts[l - 1]` codes
/// of length `l`.
pub open spec fn code_length(counts: Seq<u8>, i: int, l: int) -> int
    decreases 17 - l,
{
    if l > 16 {
        17
    } else if i < counts[l - 1] {
        l
    } else {
        code_length(counts, i - counts[l - 1], l + 1)
    }
}

/// Code `i` of a Huffman code: each is one more than the one before, with a zero behind it for
/// each bit that it is longer. The first is zero.
pub open spec fn code_number(counts: Seq<u8>, i: int) -> int
    decreases i,
{
    if i <= 0 {
        0
    } else {
        (code_number(counts, i - 1) + 1) * pow2(
            (code_length(counts, i, 1) - code_length(counts, i - 1, 1)) as nat,
        ) as int
    }
}

proof fn lemma_code_length(t: Table, i: int, l: int)
    requires
        t.sized(),
        1 <= l <= 17,
        t.first_index(l) <= i < t.vals.len(),
    ensures
        ({
            let m = code_length(t.counts, i - t.first_index(l), l);
            &&& l <= m <= 16
            &&& t.first_index(m) <= i < t.first_index(m + 1)
            &&& forall|k: int| l <= k < m && i - t.first_index(l) == 0 ==> #[trigger] t.count(k) == 0
        }),
    decreases 17 - l,
{
    if l <= 16 && i - t.first_index(l) >= t.counts[l - 1] {
        assert(t.first_index(l + 1) == t.first_index(l) + t.counts[l - 1]);
        lemma_code_length(t, i, l + 1);
    }
}

/// Between two lengths with codes, codes only grow by zeros behind them.
proof fn lemma_no_codes_between(t: Table, l: int, m: int)
    requires
        t.counts.len() == 16,
        1 <= l < m <= 16,
        forall|k: int| l < k < m ==> #[trigger] t.count(k) == 0,
    ensures
        t.first_code(m) == t.end_code(l) * pow2((m - l) as nat),
        t.first_index(m) == t.first_index(l) + t.count(l),
    decreases m - l,
{
    lemma2_to64();
    if l + 1 < m {
        lemma_no_codes_between(t, l, m - 1);
        assert(t.count(m - 1) == 0);
        lemma_pow2_unfold((m - l) as nat);
        let (a, p, q) = (
            t.end_code(l),
            pow2((m - 1 - l) as nat) as int,
            pow2((m - l) as nat) as int,
        );
        assert(2 * (a * p) == a * q) by (nonlinear_arith)
            requires
                q == 2 * p,
        ;
        assert(t.first_code(m) == 2 * t.end_code(m - 1));
    } else {
        let (a, q) = (t.end_code(l), pow2((m - l) as nat) as int);
        assert(a * q == 2 * a) by (nonlinear_arith)
            requires
                q == 2,
        ;
        assert(t.first_code(m) == 2 * t.end_code(l));
        assert(t.first_index(m) == t.first_index(m - 1) + t.count(m - 1));
    }
}

/// Code `i` is a code of the table, and stands for symbol `i`.
pub proof fn lemma_code_stands_for(t: Table, i: int)
    requires
        t.sized(),
        0 <= i < t.vals.len(),
    ensures
        ({
            let (l, c) = (code_length(t.counts, i, 1), code_number(t.counts, i));
            &&& 1 <= l <= 16
            &&& t.is_code(l, c)
            &&& t.first_index(l) + c - t.first_code(l) == i
            &&& t.symbol_of(l, c) == t.vals[i]
        }),
    decreases i,
{
    lemma_code_length(t, i, 1);
    let l = code_length(t.counts, i, 1);
    assert(t.first_index(l + 1) == t.first_index(l) + t.count(l));
    if i > 0 {
        lemma_code_stands_for(t, i - 1);
        lemma_code_length(t, i - 1, 1);
        let m = code_length(t.counts, i - 1, 1);
        if m < l {
            // The code before is the last of its length.
            assert(t.first_index(m + 1) == t.first_index(m) + t.count(m));
            t.lemma_index_monotone(m + 1, l);
            assert(t.first_index(m + 1) == i);
            assert forall|k: int| m < k < l implies #[trigger] t.count(k) == 0 by {
                t.lemma_index_monotone(m + 1, k);
                t.lemma_index_monotone(k + 1, l);
                assert(t.first_index(k + 1) == t.first_index(k) + t.count(k));
            }
            lemma_no_codes_between(t, m, l);
            assert(code_number(t.counts, i - 1) + 1 == t.end_code(m));
        } else {
            if l < m {
                t.lemma_index_monotone(l + 1, m);
            }
            lemma2_to64();
            let c = code_number(t.counts, i - 1) + 1;
            assert(c * pow2(0) == c);
            assert(code_number(t.counts, i) == c);
        }
    } else {
        t.lemma_index_monotone(l, l);
        lemma_first_code_zero(t, l);
    }
}

proof fn lemma_first_code_zero(t: Table, l: int)
    requires
        t.sized(),
        1 <= l <= 16,
        t.first_index(l) == 0,
    ensures
        t.first_code(l) == 0,
    decreases l,
{
    if l > 1 {
        t.lemma_index_monotone(l - 1, l);
        assert(t.first_index(l) == t.first_index(l - 1) + t.count(l - 1));
        lemma_first_code_zero(t, l - 1);
    }
}

/// A symbol's code.
pub open spec fn symbol_bits(t: Table, v: u8) -> Seq<bool> {
    let i = t.vals.index_of(v);
    number_bits(code_number(t.counts, i), code_length(t.counts, i, 1))
}

/// Symbols read back as they were written.
pub proof fn lemma_symbol_read_back(t: Table, s: Seq<u8>, k: int, v: u8)
    requires
        t.sized(),
        t.valid(),
        t.vals.contains(v),
        holds_bits(s, k, symbol_bits(t, v)),
    ensures
        read_symbol(t, s, k) == Some((v, k + symbol_bits(t, v).len())),
{
    let i = t.vals.index_of(v);
    lemma_code_stands_for(t, i);
    let (l, c) = (code_length(t.counts, i, 1), code_number(t.counts, i));
    assert(t.end_code(l) < pow2(l as nat));
    lemma_first_code_nonnegative(t, l);
    lemma_number_read_back(s, k, c, l);
    lemma_bits_prefix(s, k, l);
    let w = bits_at(s, k, 16);
    assert(prefix(w, l) == c);
    t.lemma_prefix_free(w, l);
}

proof fn lemma_first_code_nonnegative(t: Table, l: int)
    ensures
        0 <= t.first_code(l),
    decreases l,
{
    if l > 1 {
        lemma_first_code_nonnegative(t, l - 1);
    }
}

/// How many bits the magnitude of a number has.
pub open spec fn bit_size(v: int) -> int
    decreases (if v < 0 {
            -v
        } else {
            v
        }),
{
    if v == 0 {
        0
    } else if v < 0 {
        1 + bit_size((-v) / 2)
    } else {
        1 + bit_size(v / 2)
    }
}

proof fn lemma_bit_size(v: int)
    ensures
        0 <= bit_size(v),
        v == 0 <==> bit_size(v) == 0,
        -pow2(bit_size(v) as nat) < v < pow2(bit_size(v) as nat),
        v > 0 ==> v >= pow2((bit_size(v) - 1) as nat),
        v < 0 ==> -v >= pow2((bit_size(v) - 1) as nat),
    decreases (if v < 0 {
            -v
        } else {
            v
        }),
{
    lemma2_to64();
    if v != 0 {
        let h = if v < 0 {
            (-v) / 2
        } else {
            v / 2
        };
        lemma_bit_size(h);
        let n = bit_size(v);
        lemma_pow2_unfold(n as nat);
        if h > 0 {
            lemma_pow2_unfold((n - 1) as nat);
        }
    }
}

/// A number in as many bits as its magnitude has: a negative one is written one less than
/// itself, without its sign.
pub open spec fn amplitude_bits(v: int) -> Seq<bool> {
    let n = bit_size(v);
    number_bits(
        if v < 0 {
            v - 1 + pow2(n as nat)
        } else {
            v
        },
        n,
    )
}

/// Amplitudes read back as they were written.
pub proof fn lemma_amplitude_read_back(s: Seq<u8>, k: int, v: int)
    requires
        holds_bits(s, k, amplitude_bits(v)),
    ensures
        amplitude_bits(v).len() == bit_size(v),
        extended(bits_at(s, k, bit_size(v)), bit_size(v)) == v,
{
    let n = bit_size(v);
    lemma_bit_size(v);
    lemma2_to64();
    if v != 0 {
        lemma_pow2_unfold(n as nat);
    }
    lemma_number_read_back(
        s,
        k,
        if v < 0 {
            v - 1 + pow2(n as nat)
        } else {
            v
        },
        n,
    );
}

/// The cell after (`r`, `c`) on the way through a block along its diagonals, up and down in
/// turns.
pub open spec fn next_cell(r: int, c: int) -> (int, int) {
    if (r + c) % 2 == 0 {
        // Up to the right, or along the edge.
        if c == 7 {
            (r + 1, c)
        } else if r == 0 {
            (r, c + 1)
        } else {
            (r - 1, c + 1)
        }
    } else {
        // Down to the left.
        if r == 7 {
            (r, c + 1)
        } else if c == 0 {
            (r + 1, c)
        } else {
            (r + 1, c - 1)
        }
    }
}

/// Cell `k` on the way, from the upper left corner.
pub open spec fn cell(k: int) -> (int, int)
    decreases k,
{
    if k <= 0 {
        (0, 0)
    } else {
        next_cell(cell(k - 1).0, cell(k - 1).1)
    }
}

/// Zigzag order goes through a block along its diagonals.
pub proof fn lemma_zigzag_walk(k: int)
    requires
        0 <= k < 64,
    ensures
        zigzag(k) == 8 * cell(k).0 + cell(k).1,
        0 <= cell(k).0 < 8,
        0 <= cell(k).1 < 8,
    decreases k,
{
    if k > 0 {
        lemma_zigzag_walk(k - 1);
        lemma_zigzag_step(k - 1);
    }
}

proof fn lemma_zigzag_step(k: int)
    requires
        0 <= k < 63,
    ensures
        ({
            let (r, c) = next_cell(zigzag(k) / 8, zigzag(k) % 8);
            &&& zigzag(k + 1) == 8 * r + c
            &&& 0 <= r < 8
            &&& 0 <= c < 8
        }),
{
}

/// Coefficient `k` of a block along the way.
pub open spec fn along(coef: Seq<i32>, k: int) -> int {
    coef[8 * cell(k).0 + cell(k).1] as int
}

/// The first coefficient along the way, from `k` on, that is not zero; 64 if all are.
pub open spec fn next_nonzero(coef: Seq<i32>, k: int) -> int
    decreases 64 - k,
{
    if k >= 64 {
        64
    } else if along(coef, k) != 0 {
        k
    } else {
        next_nonzero(coef, k + 1)
    }
}

proof fn lemma_next_nonzero(coef: Seq<i32>, k: int)
    requires
        0 <= k <= 64,
    ensures
        k <= next_nonzero(coef, k) <= 64,
        forall|m: int| k <= m < next_nonzero(coef, k) ==> #[trigger] along(coef, m) == 0,
        next_nonzero(coef, k) < 64 ==> along(coef, next_nonzero(coef, k)) != 0,
    decreases 64 - k,
{
    if k < 64 {
        lemma_next_nonzero(coef, k + 1);
    }
}

/// The symbols of the coefficients along the way from `k` on, and what is written behind each:
/// how many zeros come before a coefficient, and its size. Sixteen zeros have a symbol of their
/// own, and so has the end of the block, where nothing but zeros is left.
pub open spec fn run_lengths(coef: Seq<i32>, k: int) -> Seq<(u8, int)>
    decreases 64 - k,
    when 0 <= k
    via run_lengths_decreases
{
    if k >= 64 {
        Seq::empty()
    } else {
        let n = next_nonzero(coef, k);
        if n == 64 {
            seq![(0u8, 0int)]
        } else if n - k >= 16 {
            seq![(0xF0u8, 0int)] + run_lengths(coef, k + 16)
        } else {
            seq![((16 * (n - k) + bit_size(along(coef, n))) as u8, along(coef, n))]
                + run_lengths(coef, n + 1)
        }
    }
}

#[via_fn]
proof fn run_lengths_decreases(coef: Seq<i32>, k: int) {
    if k < 64 {
        lemma_next_nonzero(coef, k);
    }
}

/// Symbols, each with its amplitude behind it.
pub open spec fn pairs_bits(t: Table, l: Seq<(u8, int)>) -> Seq<bool>
    decreases l.len(),
{
    if l.len() == 0 {
        Seq::empty()
    } else {
        symbol_bits(t, l[0].0) + amplitude_bits(l[0].1) + pairs_bits(t, l.skip(1))
    }
}

/// The table has a code for every symbol.
pub open spec fn writable(t: Table, l: Seq<(u8, int)>) -> bool {
    forall|i: int| 0 <= i < l.len() ==> t.vals.contains(#[trigger] l[i].0)
}

/// What is in place before coefficient `k` along the way, and zeros behind it.
#[verifier::opaque]
pub open spec fn filled_to(c: Seq<i32>, coef: Seq<i32>, k: int) -> bool {
    &&& c.len() == 64
    &&& forall|m: int|
        0 <= m < 64 ==> #[trigger] c[zigzag(m)] == if m < k {
            coef[zigzag(m)]
        } else {
            0
        }
}

proof fn lemma_filled(c: Seq<i32>, coef: Seq<i32>, k: int)
    requires
        coef.len() == 64,
        0 <= k <= 64,
        filled_to(c, coef, k),
        forall|m: int| k <= m < 64 ==> #[trigger] along(coef, m) == 0,
    ensures
        c == coef,
{
    reveal(filled_to);
    assert forall|i: int| 0 <= i < 64 implies c[i] == coef[i] by {
        lemma_zigzag_permutation(i);
        let m = ORDER[i] as int;
        assert(c[zigzag(m)] == c[i]);
        lemma_zigzag_walk(m);
        if m >= k {
            assert(along(coef, m) == 0);
        }
    }
    assert(c =~= coef);
}

/// Zeros are in place.
proof fn lemma_filled_zeros(c: Seq<i32>, coef: Seq<i32>, k: int, n: int)
    requires
        0 <= k <= n <= 64,
        filled_to(c, coef, k),
        forall|m: int| k <= m < n ==> #[trigger] along(coef, m) == 0,
    ensures
        filled_to(c, coef, n),
{
    reveal(filled_to);
    assert forall|m: int| 0 <= m < 64 implies #[trigger] c[zigzag(m)] == if m < n {
        coef[zigzag(m)]
    } else {
        0
    } by {
        if k <= m < n {
            assert(along(coef, m) == 0);
            lemma_zigzag_walk(m);
        }
    }
}

/// One more coefficient is in place.
proof fn lemma_filled_one(c: Seq<i32>, coef: Seq<i32>, n: int)
    requires
        0 <= n < 64,
        filled_to(c, coef, n),
    ensures
        filled_to(c.update(zigzag(n), along(coef, n) as i32), coef, n + 1),
        along(coef, n) == coef[zigzag(n)],
        n > 0 ==> 1 <= zigzag(n) < 64,
{
    reveal(filled_to);
    lemma_zigzag_walk(n);
    lemma_zigzag_permutation(n);
    if n > 0 && zigzag(n) == 0 {
        assert(ORDER[0] == 0);
        assert(ORDER[zigzag(n)] == n);
    }
    let d = c.update(zigzag(n), along(coef, n) as i32);
    assert forall|m: int| 0 <= m < 64 implies #[trigger] d[zigzag(m)] == if m < n + 1 {
        coef[zigzag(m)]
    } else {
        0
    } by {
        lemma_zigzag_permutation(m);
        assert(zigzag(m) == zigzag(n) ==> m == n);
        assert(c[zigzag(m)] == if m < n {
            coef[zigzag(m)]
        } else {
            0
        });
    }
}

proof fn lemma_small_size(v: int)
    requires
        -32767 <= v <= 32767,
    ensures
        bit_size(v) <= 15,
{
    lemma_bit_size(v);
    lemma2_to64();
    if bit_size(v) > 15 {
        if bit_size(v) > 16 {
            vstd::arithmetic::power2::lemma_pow2_strictly_increases(15, (bit_size(v) - 1) as nat);
        }
    }
}

/// Coefficients read back as they were written.
#[verifier::rlimit(60)]
#[verifier::spinoff_prover]
proof fn lemma_run_lengths_read_back(
    t: Table,
    s: Seq<u8>,
    bit: int,
    k: int,
    c: Seq<i32>,
    coef: Seq<i32>,
)
    requires
        t.sized(),
        t.valid(),
        coef.len() == 64,
        1 <= k <= 64,
        forall|i: int| 1 <= i < 64 ==> -32767 <= #[trigger] coef[i] <= 32767,
        filled_to(c, coef, k),
        writable(t, run_lengths(coef, k)),
        holds_bits(s, bit, pairs_bits(t, run_lengths(coef, k))),
    ensures
        ac_from(t, s, bit, k, c) == Some(
            (bit + pairs_bits(t, run_lengths(coef, k)).len(), coef),
        ),
    decreases 64 - k,
{
    let l = run_lengths(coef, k);
    if k == 64 {
        lemma_filled(c, coef, 64);
    } else {
        lemma_next_nonzero(coef, k);
        let n = next_nonzero(coef, k);
        let (v, a) = l[0];
        let (x, y, z) = (symbol_bits(t, v), amplitude_bits(a), pairs_bits(t, l.skip(1)));
        assert(t.vals.contains(l[0].0));
        assert(x + y + z =~= x + (y + z));
        lemma_holds_parts(s, bit, x, y + z);
        lemma_symbol_read_back(t, s, bit, v);
        lemma_holds_parts(s, bit + x.len(), y, z);
        lemma_amplitude_read_back(s, bit + x.len(), a);
        lemma_bit_size(a);
        assert forall|i: int| 0 <= i < l.skip(1).len() implies t.vals.contains(
            #[trigger] l.skip(1)[i].0,
        ) by {
            assert(l.skip(1)[i] == l[i + 1]);
        }
        if n == 64 {
            assert(l.skip(1) =~= Seq::<(u8, int)>::empty());
            lemma_filled(c, coef, k);
        } else if n - k >= 16 {
            assert(l.skip(1) =~= run_lengths(coef, k + 16));
            lemma_filled_zeros(c, coef, k, k + 16);
            lemma_run_lengths_read_back(t, s, bit + x.len(), k + 16, c, coef);
        } else {
            assert(l.skip(1) =~= run_lengths(coef, n + 1));
            lemma_filled_zeros(c, coef, k, n);
            lemma_filled_one(c, coef, n);
            assert(-32767 <= coef[zigzag(n)] <= 32767);
            lemma_small_size(a);
            let d = c.update(zigzag(n), a as i32);
            lemma_run_lengths_read_back(t, s, bit + x.len() + y.len(), n + 1, d, coef);
        }
    }
}

/// The symbol and the amplitude of a block's DC coefficient: the difference to the block before.
pub open spec fn dc_pair(pred: int, coef: Seq<i32>) -> (u8, int) {
    (bit_size(coef[0] - pred) as u8, coef[0] - pred)
}

/// A block as it is written, behind a block whose DC coefficient was `pred`.
pub open spec fn block_bits(dc: Table, ac: Table, pred: int, coef: Seq<i32>) -> Seq<bool> {
    pairs_bits(dc, seq![dc_pair(pred, coef)]) + pairs_bits(ac, run_lengths(coef, 1))
}

/// A block that can be written with two tables: they have the codes that it needs, its DC
/// coefficient is a 16-bit number, and the others have at most 15 bits and a sign.
#[verifier::opaque]
pub open spec fn block_writable(dc: Table, ac: Table, pred: int, coef: Seq<i32>) -> bool {
    &&& dc.sized() && dc.valid() && dc.dc_valid()
    &&& ac.sized() && ac.valid()
    &&& coef.len() == 64
    &&& -32768 <= coef[0] <= 32767
    &&& -32768 <= pred <= 32767
    &&& -32767 <= coef[0] - pred <= 32767
    &&& forall|i: int| 1 <= i < 64 ==> -32767 <= #[trigger] coef[i] <= 32767
    &&& writable(dc, seq![dc_pair(pred, coef)])
    &&& writable(ac, run_lengths(coef, 1))
}

/// Blocks read back as they were written: any coefficients, with any two tables that can write
/// them, wherever in the data they are.
pub proof fn lemma_block_read_back(
    dc: Table,
    ac: Table,
    s: Seq<u8>,
    bit: int,
    pred: int,
    coef: Seq<i32>,
)
    requires
        block_writable(dc, ac, pred, coef),
        holds_bits(s, bit, block_bits(dc, ac, pred, coef)),
    ensures
        block_at(dc, ac, s, bit, pred) == Some(
            Block {
                end: bit + block_bits(dc, ac, pred, coef).len(),
                pred: coef[0] as int,
                coef,
            },
        ),
{
    reveal(block_writable);
    let one = seq![dc_pair(pred, coef)];
    let (a, b) = (pairs_bits(dc, one), pairs_bits(ac, run_lengths(coef, 1)));
    lemma_holds_parts(s, bit, a, b);
    let (v, d) = one[0];
    let (x, y) = (symbol_bits(dc, v), amplitude_bits(d));
    assert(one.skip(1) =~= Seq::<(u8, int)>::empty());
    assert(pairs_bits(dc, one.skip(1)) =~= Seq::<bool>::empty());
    assert(a =~= x + y);
    lemma_holds_parts(s, bit, x, y);
    assert(dc.vals.contains(one[0].0));
    lemma_symbol_read_back(dc, s, bit, v);
    lemma_amplitude_read_back(s, bit + x.len(), d);
    lemma_bit_size(d);
    lemma_small_size(d);
    let flat = Seq::new(64, |i: int| 0i32).update(0, coef[0]);
    assert(wrap32(pred + d) == coef[0]);
    assert(wrap16(coef[0] as int) == coef[0]);
    assert(filled_to(flat, coef, 1)) by {
        reveal(filled_to);
        assert forall|m: int| 0 <= m < 64 implies #[trigger] flat[zigzag(m)] == if m < 1 {
            coef[zigzag(m)]
        } else {
            0
        } by {
            lemma_zigzag_permutation(m);
            assert(ORDER[0] == 0);
        }
    }
    lemma_run_lengths_read_back(ac, s, bit + a.len(), 1, flat, coef);
}

/// The samples of the block of component `ci` at (`bx`, `by`) are those of the coefficients.
#[verifier::opaque]
pub open spec fn shows(
    canvas: Seq<Option<u8>>,
    ci: int,
    bx: int,
    by: int,
    coef: Seq<i32>,
    q: Seq<u16>,
) -> bool {
    forall|y: int, x: int|
        0 <= y < 8 && 0 <= x < 8 ==> canvas[ci * 20480 + (8 * by + y) * 256 + 8 * bx + x] == Some(
            #[trigger] sample(coef, q, y, x),
        )
}

proof fn lemma_paint_shows(
    canvas: Seq<Option<u8>>,
    ci: int,
    bx: int,
    by: int,
    coef: Seq<i32>,
    q: Seq<u16>,
)
    requires
        canvas.len() == SCRATCH,
        0 <= ci < 3,
        0 <= bx <= 31,
        0 <= by <= 9,
    ensures
        shows(paint(canvas, ci, bx, by, coef, q), ci, bx, by, coef, q),
{
    reveal(shows);
    let r = paint(canvas, ci, bx, by, coef, q);
    assert forall|y: int, x: int| 0 <= y < 8 && 0 <= x < 8 implies r[ci * 20480 + (8 * by + y) * 256
        + 8 * bx + x] == Some(#[trigger] sample(coef, q, y, x)) by {
        let i = ci * 20480 + (8 * by + y) * 256 + 8 * bx + x;
        let o = i - (ci * 20480 + by * 2048 + bx * 8);
        assert(o == y * 256 + x);
        assert(o / 256 == y && o % 256 == x);
    }
}

/// A sample of one block is in no other.
proof fn lemma_outside(kept: (int, int, int), y: int, x: int, ci: int, bx: int, by: int)
    requires
        0 <= ci < 3,
        0 <= bx <= 31,
        0 <= by <= 9,
        0 <= kept.0 < 3,
        0 <= kept.1 <= 31,
        0 <= kept.2 <= 9,
        0 <= y < 8,
        0 <= x < 8,
        (ci, bx, by) != kept,
    ensures
        !in_block(
            kept.0 * 20480 + (8 * kept.2 + y) * 256 + 8 * kept.1 + x - (ci * 20480 + by * 2048 + bx
                * 8),
        ),
{
    let (c0, x0, y0) = kept;
    let i = c0 * 20480 + (8 * y0 + y) * 256 + 8 * x0 + x;
    let o = i - (ci * 20480 + by * 2048 + bx * 8);
    if in_block(o) {
        let (u, v) = (o / 256, o % 256);
        let (a, b) = (80 * ci + 8 * by + u, 80 * c0 + 8 * y0 + y);
        assert(256 * a + (8 * bx + v) == 256 * b + (8 * x0 + x));
        assert(a == b);
        assert(bx == x0);
        assert(10 * ci + by == 10 * c0 + y0);
        assert(ci == c0);
    }
}

proof fn lemma_paint_keeps(
    canvas: Seq<Option<u8>>,
    ci: int,
    bx: int,
    by: int,
    coef: Seq<i32>,
    q: Seq<u16>,
    kept: (int, int, int),
    coef0: Seq<i32>,
    q0: Seq<u16>,
)
    requires
        canvas.len() == SCRATCH,
        0 <= ci < 3,
        0 <= bx <= 31,
        0 <= by <= 9,
        0 <= kept.0 < 3,
        0 <= kept.1 <= 31,
        0 <= kept.2 <= 9,
        (ci, bx, by) != kept,
        shows(canvas, kept.0, kept.1, kept.2, coef0, q0),
    ensures
        shows(paint(canvas, ci, bx, by, coef, q), kept.0, kept.1, kept.2, coef0, q0),
{
    reveal(shows);
    let r = paint(canvas, ci, bx, by, coef, q);
    let (c0, x0, y0) = kept;
    assert forall|y: int, x: int| 0 <= y < 8 && 0 <= x < 8 implies r[c0 * 20480 + (8 * y0 + y) * 256
        + 8 * x0 + x] == Some(#[trigger] sample(coef0, q0, y, x)) by {
        let i = c0 * 20480 + (8 * y0 + y) * 256 + 8 * x0 + x;
        let o = i - (ci * 20480 + by * 2048 + bx * 8);
        lemma_outside(kept, y, x, ci, bx, by);
        assert(!in_block(o));
        assert(0 <= i < canvas.len());
    }
}

/// The DC coefficient before block `j` of a run of blocks.
pub open spec fn dc_before(f: spec_fn(int) -> Seq<i32>, pred: int, j: int) -> int {
    if j <= 0 {
        pred
    } else {
        f(j - 1)[0] as int
    }
}

/// Blocks of one component, one behind the other.
pub open spec fn blocks_bits(
    dc: Table,
    ac: Table,
    pred: int,
    f: spec_fn(int) -> Seq<i32>,
    n: int,
) -> Seq<bool>
    decreases n,
{
    if n <= 0 {
        Seq::empty()
    } else {
        blocks_bits(dc, ac, pred, f, n - 1) + block_bits(dc, ac, dc_before(f, pred, n - 1), f(n - 1))
    }
}

/// Where block `j` of component `ci` in an MCU is.
pub open spec fn place(sc: Scan, ci: int, mx: int, my: int, j: int) -> (int, int, int) {
    (ci, mx * sc.across(ci) + j % sc.across(ci), my * sc.down(ci) + j / sc.across(ci))
}

/// Blocks of one component in an MCU read back as they were written, and no other block is
/// touched.
#[verifier::rlimit(40)]
#[verifier::spinoff_prover]
proof fn lemma_blocks_read_back(
    sc: Scan,
    data: Seq<u8>,
    p: Progress,
    ci: int,
    mx: int,
    my: int,
    f: spec_fn(int) -> Seq<i32>,
    n: int,
    kept: (int, int, int),
    coef0: Seq<i32>,
    q0: Seq<u16>,
)
    requires
        sc.wf(),
        sc.list.contains(ci),
        0 <= mx < sc.mcux(),
        0 <= my < sc.mcuy(),
        0 <= n <= sc.across(ci) * sc.down(ci),
        p.canvas.len() == SCRATCH,
        p.preds.len() == 3,
        ({
            let c = sc.header.comps[ci];
            let (dc, ac) = (sc.header.dc[c.td].unwrap(), sc.header.ac[c.ta].unwrap());
            &&& holds_bits(
                entropy_bytes(data, p.start),
                p.bit,
                blocks_bits(dc, ac, p.preds[ci], f, n),
            )
            &&& forall|j: int|
                0 <= j < n ==> block_writable(dc, ac, dc_before(f, p.preds[ci], j), #[trigger] f(j))
        }),
        0 <= kept.0 < 3,
        0 <= kept.1 <= 31,
        0 <= kept.2 <= 9,
    ensures
        ({
            let c = sc.header.comps[ci];
            let (dc, ac) = (sc.header.dc[c.td].unwrap(), sc.header.ac[c.ta].unwrap());
            &&& sc.after_blocks(data, p, ci, mx, my, n) matches Some(r)
            &&& r.start == p.start
            &&& r.bit == p.bit + blocks_bits(dc, ac, p.preds[ci], f, n).len()
            &&& r.preds == p.preds.update(ci, dc_before(f, p.preds[ci], n))
            &&& r.canvas.len() == SCRATCH
            &&& shows(p.canvas, kept.0, kept.1, kept.2, coef0, q0) && (forall|j: int|
                0 <= j < n ==> #[trigger] place(sc, ci, mx, my, j) != kept) ==> shows(
                r.canvas,
                kept.0,
                kept.1,
                kept.2,
                coef0,
                q0,
            )
            &&& forall|j: int|
                0 <= j < n && #[trigger] place(sc, ci, mx, my, j) == kept ==> shows(
                    r.canvas,
                    kept.0,
                    kept.1,
                    kept.2,
                    f(j),
                    c.q,
                )
        }),
    decreases n,
{
    let c = sc.header.comps[ci];
    let (dc, ac) = (sc.header.dc[c.td].unwrap(), sc.header.ac[c.ta].unwrap());
    lemma_listed(sc, ci);
    if n > 0 {
        let (a, b) = (
            blocks_bits(dc, ac, p.preds[ci], f, n - 1),
            block_bits(dc, ac, dc_before(f, p.preds[ci], n - 1), f(n - 1)),
        );
        let s = entropy_bytes(data, p.start);
        lemma_holds_parts(s, p.bit, a, b);
        // Either this block is the one, or what shows there has to be kept.
        lemma_blocks_read_back(sc, data, p, ci, mx, my, f, n - 1, kept, coef0, q0);
        let r1 = sc.after_blocks(data, p, ci, mx, my, n - 1).unwrap();
        lemma_block_read_back(dc, ac, s, r1.bit, dc_before(f, p.preds[ci], n - 1), f(n - 1));
        lemma_grid(sc, ci, mx, my, n - 1);
        let here = place(sc, ci, mx, my, n - 1);
        lemma_paint_shows(r1.canvas, ci, here.1, here.2, f(n - 1), c.q);
        let r = sc.after_blocks(data, p, ci, mx, my, n).unwrap();
        assert(r.preds =~= p.preds.update(ci, dc_before(f, p.preds[ci], n)));
        if here != kept {
            if shows(r1.canvas, kept.0, kept.1, kept.2, coef0, q0) {
                lemma_paint_keeps(r1.canvas, ci, here.1, here.2, f(n - 1), c.q, kept, coef0, q0);
            }
        }
        assert forall|j: int| 0 <= j < n && #[trigger] place(sc, ci, mx, my, j) == kept implies shows(
            r.canvas,
            kept.0,
            kept.1,
            kept.2,
            f(j),
            c.q,
        ) by {
            if j < n - 1 {
                lemma_places_differ(sc, ci, mx, my, j, n - 1);
                lemma_paint_keeps(r1.canvas, ci, here.1, here.2, f(n - 1), c.q, kept, f(j), c.q);
            }
        }
    } else {
        assert(p.preds.update(ci, p.preds[ci]) =~= p.preds);
    }
}

/// A scan's component has its tables.
proof fn lemma_listed(sc: Scan, ci: int)
    requires
        sc.wf(),
        sc.list.contains(ci),
    ensures
        0 <= ci < 3,
        ci < sc.header.comps.len(),
        sc.header.dc[sc.header.comps[ci].td] is Some,
        sc.header.ac[sc.header.comps[ci].ta] is Some,
        1 <= sc.across(ci) <= 2,
        1 <= sc.down(ci) <= 2,
{
    let i = choose|i: int| 0 <= i < sc.list.len() && sc.list[i] == ci;
    assert(listed(sc.header, sc.list[i]));
    assert(1 <= sc.header.comps[ci].h <= 2);
}

/// Two blocks of a component in an MCU lie apart.
proof fn lemma_places_differ(sc: Scan, ci: int, mx: int, my: int, j: int, k: int)
    requires
        1 <= sc.across(ci) <= 2,
        0 <= j < k,
    ensures
        place(sc, ci, mx, my, j) != place(sc, ci, mx, my, k),
{
    let a = sc.across(ci);
    assert(j == (j / a) * a + j % a && k == (k / a) * a + k % a) by {
        if a == 1 {
            assert(j / 1 == j && j % 1 == 0 && k / 1 == k && k % 1 == 0);
        } else {
            assert(a == 2);
        }
    }
}

/// What a scan is to hold: the header it comes under, its own header's entries, the component
/// that each names, and the coefficients of block `j` of entry `i` in MCU `m`. Its data are in
/// one segment or, with restarts, in several: the one that begins with MCU `m` starts at offset
/// `starts(m)`.
pub ghost struct Content {
    pub header: Header,
    pub entries: Seq<u8>,
    pub list: Seq<int>,
    pub blocks: spec_fn(int, int, int) -> Seq<i32>,
    pub starts: spec_fn(int) -> int,
}

impl Content {
    /// The DC table that entry `i` names: the high half of its second byte.
    pub open spec fn dc(self, i: int) -> Table {
        self.header.dc[self.entries[2 + 2 * i] as int / 16].unwrap()
    }

    /// The AC table that entry `i` names: the low half of its second byte.
    pub open spec fn ac(self, i: int) -> Table {
        self.header.ac[self.entries[2 + 2 * i] as int % 16].unwrap()
    }

    /// Blocks across of entry `i` in an MCU: its horizontal factor, or one if it is alone.
    pub open spec fn across(self, i: int) -> int {
        if self.list.len() == 1 {
            1
        } else {
            self.header.comps[self.list[i]].h
        }
    }

    /// Blocks down of entry `i` in an MCU: its vertical factor, or one if it is alone.
    pub open spec fn down(self, i: int) -> int {
        if self.list.len() == 1 {
            1
        } else {
            self.header.comps[self.list[i]].v
        }
    }

    /// Blocks of entry `i` in an MCU.
    pub open spec fn count(self, i: int) -> int {
        self.across(i) * self.down(i)
    }

    /// The MCU that the segment of MCU `m` begins with.
    pub open spec fn first(self, m: int) -> int {
        if self.header.restart > 0 {
            m - m % self.header.restart
        } else {
            0
        }
    }

    /// The DC coefficient of the last block of entry `i` before MCU `m`.
    pub open spec fn last(self, m: int, i: int) -> int {
        if m <= 0 {
            0
        } else {
            (self.blocks)(m - 1, i, self.count(i) - 1)[0] as int
        }
    }

    /// The DC coefficient that the first block of entry `i` in MCU `m` follows: none at the
    /// beginning of a segment.
    pub open spec fn pred(self, m: int, i: int) -> int {
        if m == self.first(m) {
            0
        } else {
            self.last(m, i)
        }
    }

    /// The blocks of entry `i` in MCU `m`.
    pub open spec fn unit(self, m: int, i: int) -> spec_fn(int) -> Seq<i32> {
        |j: int| (self.blocks)(m, i, j)
    }

    /// The first `n` entries of MCU `m` as they are written, each with its own tables.
    pub open spec fn mcu_bits(self, m: int, n: int) -> Seq<bool>
        decreases n,
    {
        if n <= 0 {
            Seq::empty()
        } else {
            self.mcu_bits(m, n - 1) + blocks_bits(
                self.dc(n - 1),
                self.ac(n - 1),
                self.pred(m, n - 1),
                self.unit(m, n - 1),
                self.count(n - 1),
            )
        }
    }

    /// The MCUs from `a` on, before `m`, as they are written.
    pub open spec fn bits(self, a: int, m: int) -> Seq<bool>
        decreases m - a,
    {
        if m <= a {
            Seq::empty()
        } else {
            self.bits(a, m - 1) + self.mcu_bits(m - 1, self.list.len() as int)
        }
    }

    /// The data hold the first `m` MCUs, segment by segment, with a restart marker before each
    /// segment but the first, which starts at `pos`.
    pub open spec fn held(self, data: Seq<u8>, pos: int, m: int) -> bool {
        &&& (self.starts)(0) == pos
        &&& forall|k: int|
            0 <= k < m ==> holds_bits(
                entropy_bytes(data, (self.starts)(self.first(k))),
                0,
                #[trigger] self.bits(self.first(k), k + 1),
            )
        &&& forall|k: int|
            0 < k < m && k == self.first(k) ==> {
                &&& #[trigger] marker_from(data, (self.starts)(self.first(k - 1))) matches Some(
                    (code, end),
                )
                &&& 0xD0 <= code <= 0xD7
                &&& end == (self.starts)(k)
            }
    }

    /// The first `m` MCUs can be written.
    pub open spec fn writable(self, m: int) -> bool {
        forall|k: int, i: int, j: int|
            0 <= k < m && 0 <= i < self.list.len() && 0 <= j < self.count(i) ==> block_writable(
                self.dc(i),
                self.ac(i),
                dc_before(self.unit(k, i), self.pred(k, i), j),
                #[trigger] (self.blocks)(k, i, j),
            )
    }

    /// The scan that is to be read: its header is accepted, and no two of its entries have the
    /// same id.
    pub open spec fn scanned(self, sc: Scan) -> bool {
        let n = self.list.len() as int;
        &&& self.header.wf()
        &&& self.header.comps.len() > 0
        &&& 1 <= n <= self.header.comps.len()
        &&& select(self.header, self.entries, n) == Some((sc.header, sc.list))
        &&& self.list == sc.list
        &&& forall|i: int, j: int|
            0 <= i < j < n ==> #[trigger] self.entries[1 + 2 * i] != #[trigger] self.entries[1 + 2
                * j]
    }
}

/// A scan's entries as its own header has them.
proof fn lemma_scanned(t: Content, sc: Scan)
    requires
        t.scanned(sc),
    ensures
        sc.wf(),
        sc.header.restart == t.header.restart,
        0 <= t.header.restart,
        forall|i: int|
            0 <= i < t.list.len() ==> {
                let c = sc.header.comps[#[trigger] t.list[i]];
                &&& 0 <= t.list[i] < 3
                &&& sc.header.dc[c.td] == Some(t.dc(i))
                &&& sc.header.ac[c.ta] == Some(t.ac(i))
                &&& sc.across(t.list[i]) == t.across(i)
                &&& sc.down(t.list[i]) == t.down(i)
                &&& 1 <= t.across(i) <= 2
                &&& 1 <= t.down(i) <= 2
                &&& 1 <= t.count(i)
            },
        forall|i: int, j: int|
            0 <= i < j < t.list.len() ==> #[trigger] t.list[i] != #[trigger] t.list[j],
{
    let n = t.list.len() as int;
    lemma_select(t.header, t.entries, n);
    assert forall|i: int| 0 <= i < n implies {
        let c = sc.header.comps[#[trigger] t.list[i]];
        &&& 0 <= t.list[i] < 3
        &&& sc.header.dc[c.td] == Some(t.dc(i))
        &&& sc.header.ac[c.ta] == Some(t.ac(i))
        &&& sc.across(t.list[i]) == t.across(i)
        &&& sc.down(t.list[i]) == t.down(i)
        &&& 1 <= t.across(i) <= 2
        &&& 1 <= t.down(i) <= 2
        &&& 1 <= t.count(i)
    } by {
        lemma_entry_tables(t.header, t.entries, n, i);
        assert(sc.list[i] == t.list[i]);
        lemma_listed(sc, t.list[i]);
        assert(sc.header.comps[t.list[i]].h == t.header.comps[t.list[i]].h);
        let (a, d) = (t.across(i), t.down(i));
        assert(1 <= a * d) by (nonlinear_arith)
            requires
                1 <= a,
                1 <= d,
        ;
    }
    assert forall|i: int, j: int| 0 <= i < j < n implies #[trigger] t.list[i] != #[trigger] t.list[j] by {
        lemma_entry_tables(t.header, t.entries, n, i);
        lemma_entry_tables(t.header, t.entries, n, j);
        assert(t.entries[1 + 2 * i] != t.entries[1 + 2 * j]);
    }
}

/// The entries of an MCU read back as they were written, each with its own tables.
#[verifier::rlimit(40)]
#[verifier::spinoff_prover]
proof fn lemma_mcu_read_back(
    t: Content,
    sc: Scan,
    data: Seq<u8>,
    p: Progress,
    m: int,
    mx: int,
    my: int,
    n: int,
    kept: (int, int, int),
    coef0: Seq<i32>,
    q0: Seq<u16>,
)
    requires
        t.scanned(sc),
        0 <= m,
        0 <= mx < sc.mcux(),
        0 <= my < sc.mcuy(),
        0 <= n <= t.list.len(),
        t.writable(m + 1),
        p.canvas.len() == SCRATCH,
        p.preds.len() == 3,
        forall|i: int| 0 <= i < t.list.len() ==> p.preds[#[trigger] t.list[i]] == t.pred(m, i),
        holds_bits(entropy_bytes(data, p.start), p.bit, t.mcu_bits(m, n)),
        0 <= kept.0 < 3,
        0 <= kept.1 <= 31,
        0 <= kept.2 <= 9,
    ensures
        ({
            &&& sc.after_components(data, p, mx, my, n) matches Some(r)
            &&& r.start == p.start
            &&& r.bit == p.bit + t.mcu_bits(m, n).len()
            &&& r.preds.len() == 3
            &&& r.canvas.len() == SCRATCH
            &&& forall|i: int|
                0 <= i < t.list.len() ==> r.preds[#[trigger] t.list[i]] == if i < n {
                    t.last(m + 1, i)
                } else {
                    t.pred(m, i)
                }
            &&& shows(p.canvas, kept.0, kept.1, kept.2, coef0, q0) && (forall|i: int, j: int|
                0 <= i < n && 0 <= j < t.count(i) ==> #[trigger] place(sc, t.list[i], mx, my, j)
                    != kept) ==> shows(r.canvas, kept.0, kept.1, kept.2, coef0, q0)
            &&& forall|i: int, j: int|
                0 <= i < n && 0 <= j < t.count(i) && #[trigger] place(sc, t.list[i], mx, my, j)
                    == kept ==> shows(
                    r.canvas,
                    kept.0,
                    kept.1,
                    kept.2,
                    (t.blocks)(m, i, j),
                    sc.header.comps[t.list[i]].q,
                )
        }),
    decreases n,
{
    lemma_scanned(t, sc);
    if n > 0 {
        let e = n - 1;
        let ci = t.list[e];
        assert(sc.list[e] == ci);
        let f = t.unit(m, e);
        let (a, b) = (
            t.mcu_bits(m, e),
            blocks_bits(t.dc(e), t.ac(e), t.pred(m, e), f, t.count(e)),
        );
        lemma_holds_parts(entropy_bytes(data, p.start), p.bit, a, b);
        lemma_mcu_read_back(t, sc, data, p, m, mx, my, e, kept, coef0, q0);
        let r1 = sc.after_components(data, p, mx, my, e).unwrap();
        assert(r1.preds[ci] == t.pred(m, e));
        assert forall|j: int| 0 <= j < t.count(e) implies block_writable(
            t.dc(e),
            t.ac(e),
            dc_before(f, r1.preds[ci], j),
            #[trigger] f(j),
        ) by {
            assert(f(j) == (t.blocks)(m, e, j));
        }
        lemma_blocks_read_back(sc, data, r1, ci, mx, my, f, t.count(e), kept, coef0, q0);
        let r = sc.after_components(data, p, mx, my, n).unwrap();
        assert(dc_before(f, r1.preds[ci], t.count(e)) == t.last(m + 1, e));
        assert forall|i: int| 0 <= i < t.list.len() implies r.preds[#[trigger] t.list[i]] == if i < n {
            t.last(m + 1, i)
        } else {
            t.pred(m, i)
        } by {
            if i < e {
                assert(t.list[i] != t.list[e]);
            } else if i > e {
                assert(t.list[e] != t.list[i]);
            }
        }
        if shows(p.canvas, kept.0, kept.1, kept.2, coef0, q0) && (forall|i: int, j: int|
            0 <= i < n && 0 <= j < t.count(i) ==> #[trigger] place(sc, t.list[i], mx, my, j)
                != kept) {
            assert forall|j: int| 0 <= j < t.count(e) implies #[trigger] place(sc, ci, mx, my, j)
                != kept by {
                assert(place(sc, t.list[e], mx, my, j) != kept);
            }
        }
        assert forall|i: int, j: int|
            0 <= i < n && 0 <= j < t.count(i) && #[trigger] place(sc, t.list[i], mx, my, j)
                == kept implies shows(
            r.canvas,
            kept.0,
            kept.1,
            kept.2,
            (t.blocks)(m, i, j),
            sc.header.comps[t.list[i]].q,
        ) by {
            if i < e {
                assert(t.list[i] != t.list[e]);
                lemma_blocks_read_back(
                    sc,
                    data,
                    r1,
                    ci,
                    mx,
                    my,
                    f,
                    t.count(e),
                    kept,
                    (t.blocks)(m, i, j),
                    sc.header.comps[t.list[i]].q,
                );
            } else {
                assert(place(sc, ci, mx, my, j) == kept);
                assert(f(j) == (t.blocks)(m, e, j));
            }
        }
    }
}

/// Blocks of different MCUs lie apart.
proof fn lemma_mcus_apart(sc: Scan, ci: int, k: int, l: int, i: int, j: int)
    requires
        1 <= sc.across(ci) <= 2,
        1 <= sc.down(ci) <= 2,
        1 <= sc.mcux(),
        0 <= k,
        0 <= l,
        k != l,
        0 <= i < sc.across(ci) * sc.down(ci),
        0 <= j < sc.across(ci) * sc.down(ci),
    ensures
        place(sc, ci, k % sc.mcux(), k / sc.mcux(), i) != place(
            sc,
            ci,
            l % sc.mcux(),
            l / sc.mcux(),
            j,
        ),
{
    let (a, d, w) = (sc.across(ci), sc.down(ci), sc.mcux());
    vstd::arithmetic::div_mod::lemma_fundamental_div_mod(k, w);
    vstd::arithmetic::div_mod::lemma_fundamental_div_mod(l, w);
    assert(0 <= i / a < d && 0 <= i % a < a && 0 <= j / a < d && 0 <= j % a < a) by {
        if a == 1 {
            assert(a * d == d);
            assert(i / 1 == i && i % 1 == 0 && j / 1 == j && j % 1 == 0);
        } else {
            assert(a == 2);
            assert(a * d == 2 * d);
        }
    }
    let (kx, ky, lx, ly) = (k % w, k / w, l % w, l / w);
    if kx * a + i % a == lx * a + j % a && ky * d + i / a == ly * d + j / a {
        if a == 1 {
            assert(kx * a == kx && lx * a == lx);
        } else {
            assert(kx * a == 2 * kx && lx * a == 2 * lx);
        }
        if d == 1 {
            assert(ky * d == ky && ly * d == ly);
        } else {
            assert(ky * d == 2 * ky && ly * d == 2 * ly);
        }
        assert(kx == lx && ky == ly);
        assert(false);
    }
}

/// Segments begin at or before their MCUs, and go on until the next begins.
proof fn lemma_first(t: Content, m: int)
    requires
        0 <= m,
        0 <= t.header.restart,
    ensures
        0 <= t.first(m) <= m,
        t.first(0) == 0,
        t.header.restart > 0 ==> (t.first(m) == m <==> m % t.header.restart == 0),
        t.header.restart == 0 ==> t.first(m) == 0,
        m > 0 && t.first(m) != m ==> t.first(m - 1) == t.first(m),
{
    let n = t.header.restart;
    if n > 0 {
        vstd::arithmetic::div_mod::lemma_fundamental_div_mod(m, n);
        let (q, r) = (m / n, m % n);
        assert(m - r >= 0) by (nonlinear_arith)
            requires
                m == n * q + r,
                0 <= r < n,
                0 <= m,
        ;
        vstd::arithmetic::div_mod::lemma_small_mod(0, n as nat);
        if r > 0 {
            assert(m - 1 == q * n + (r - 1)) by (nonlinear_arith)
                requires
                    m == n * q + r,
            ;
            vstd::arithmetic::div_mod::lemma_fundamental_div_mod_converse(m - 1, n, q, r - 1);
        }
    }
}

/// The MCUs of a scan read back as they were written.
#[verifier::rlimit(40)]
#[verifier::spinoff_prover]
proof fn lemma_mcus_read_back(
    t: Content,
    sc: Scan,
    data: Seq<u8>,
    pos: int,
    canvas: Seq<Option<u8>>,
    m: int,
    kept: (int, int, int),
)
    requires
        t.scanned(sc),
        0 <= m <= sc.mcux() * sc.mcuy(),
        t.writable(m),
        canvas.len() == SCRATCH,
        t.held(data, pos, m),
        0 <= kept.0 < 3,
        0 <= kept.1 <= 31,
        0 <= kept.2 <= 9,
    ensures
        ({
            &&& sc.after_mcus(data, at_start(pos, canvas), m) matches Some(r)
            &&& r.start == (if m == 0 {
                pos
            } else {
                (t.starts)(t.first(m - 1))
            })
            &&& r.bit == (if m == 0 {
                0
            } else {
                t.bits(t.first(m - 1), m).len() as int
            })
            &&& r.preds.len() == 3
            &&& r.canvas.len() == SCRATCH
            &&& forall|i: int| 0 <= i < t.list.len() ==> r.preds[#[trigger] t.list[i]] == t.last(m, i)
            &&& forall|k: int, i: int, j: int|
                0 <= k < m && 0 <= i < t.list.len() && 0 <= j < t.count(i) && #[trigger] place(
                    sc,
                    t.list[i],
                    k % sc.mcux(),
                    k / sc.mcux(),
                    j,
                ) == kept ==> shows(
                    r.canvas,
                    kept.0,
                    kept.1,
                    kept.2,
                    (t.blocks)(k, i, j),
                    sc.header.comps[t.list[i]].q,
                )
        }),
    decreases m,
{
    lemma_scanned(t, sc);
    lemma_mcu_counts(sc);
    if m > 0 {
        let n = t.list.len() as int;
        let v = t.first(m - 1);
        lemma_first(t, m - 1);
        let (a, b) = (t.bits(v, m - 1), t.mcu_bits(m - 1, n));
        assert(holds_bits(entropy_bytes(data, (t.starts)(v)), 0, t.bits(v, m - 1 + 1)));
        lemma_holds_parts(entropy_bytes(data, (t.starts)(v)), 0, a, b);
        lemma_mcus_read_back(t, sc, data, pos, canvas, m - 1, kept);
        let r0 = sc.after_mcus(data, at_start(pos, canvas), m - 1).unwrap();
        if sc.header.restart > 0 && m - 1 > 0 && (m - 1) % sc.header.restart == 0 {
            assert(marker_from(data, (t.starts)(t.first(m - 1 - 1))) is Some);
        }
        let r1 = sc.before_mcu(data, r0, m - 1).unwrap();
        assert(r1.canvas == r0.canvas && r1.start == (t.starts)(v) && r1.bit == a.len());
        assert forall|i: int| 0 <= i < n implies r1.preds[#[trigger] t.list[i]] == t.pred(m - 1, i) by {}
        let (w, h) = (sc.mcux(), sc.mcuy());
        let (mx, my) = ((m - 1) % w, (m - 1) / w);
        vstd::arithmetic::div_mod::lemma_fundamental_div_mod(m - 1, w);
        assert(0 <= my < h) by (nonlinear_arith)
            requires
                m - 1 == w * my + mx,
                0 <= mx < w,
                0 <= m - 1 < w * h,
        ;
        lemma_mcu_read_back(t, sc, data, r1, m - 1, mx, my, n, kept, Seq::empty(), Seq::empty());
        let r = sc.after_mcus(data, at_start(pos, canvas), m).unwrap();
        assert forall|k: int, i: int, j: int|
            0 <= k < m && 0 <= i < n && 0 <= j < t.count(i) && #[trigger] place(
                sc,
                t.list[i],
                k % sc.mcux(),
                k / sc.mcux(),
                j,
            ) == kept implies shows(
            r.canvas,
            kept.0,
            kept.1,
            kept.2,
            (t.blocks)(k, i, j),
            sc.header.comps[t.list[i]].q,
        ) by {
            if k < m - 1 {
                let (coef, q) = ((t.blocks)(k, i, j), sc.header.comps[t.list[i]].q);
                assert forall|e: int, l: int| 0 <= e < n && 0 <= l < t.count(e) implies
                    #[trigger] place(sc, t.list[e], mx, my, l) != kept by {
                    if e == i {
                        lemma_mcus_apart(sc, t.list[i], k, m - 1, j, l);
                    } else if e < i {
                        assert(t.list[e] != t.list[i]);
                    } else {
                        assert(t.list[i] != t.list[e]);
                    }
                }
                lemma_mcu_read_back(t, sc, data, r1, m - 1, mx, my, n, kept, coef, q);
            }
        }
    }
}

/// A scan reads back as it was written. Each entry of its header names a component, and in
/// every MCU come the blocks of one entry after the other, row by row, each entry's written
/// with the two Huffman tables that its own byte names: any blocks, any tables that have codes
/// for them, and any restart interval. Then every block's samples are those of its coefficients, with the quantization
/// table of its component, and lie where the block is: MCUs follow each other along the rows.
pub proof fn lemma_scan_read_back(
    t: Content,
    g: Header,
    data: Seq<u8>,
    pos: int,
    canvas: Seq<Option<u8>>,
    m: int,
    i: int,
    j: int,
    mcux: int,
    mcuy: int,
)
    requires
        scan_header(t.header, t.entries) == Some((g, t.list)),
        t.entries[0] == t.list.len(),
        t.scanned(Scan { header: g, list: t.list }),
        canvas.len() == SCRATCH,
        t.list.len() > 1 ==> mcux == (if t.header.hmax() == 1 {
            32int
        } else {
            16
        }) && mcuy == (if t.header.vmax() == 1 {
            10int
        } else {
            5
        }),
        t.list.len() == 1 ==> mcux == (if t.header.hmax() == t.header.comps[t.list[0]].h {
            32int
        } else {
            16
        }) && mcuy == (if t.header.vmax() == t.header.comps[t.list[0]].v {
            10int
        } else {
            5
        }),
        t.writable(mcux * mcuy),
        t.held(data, pos, mcux * mcuy),
        0 <= m < mcux * mcuy,
        0 <= i < t.list.len(),
        0 <= j < t.count(i),
    ensures
        ({
            let k = t.list[i];
            let (bx, by) = (
                (m % mcux) * t.across(i) + j % t.across(i),
                (m / mcux) * t.down(i) + j / t.across(i),
            );
            &&& with_scan(t.header, canvas, t.entries, data, pos) matches Some((g2, r))
            &&& g2 == g
            &&& r.len() == SCRATCH
            &&& t.header.comps[k].id == t.entries[1 + 2 * i]
            &&& shows(
                r,
                k,
                bx,
                by,
                (t.blocks)(m, i, j),
                if t.header.comps[k].seen {
                    t.header.comps[k].q
                } else {
                    t.header.qt[t.header.comps[k].tq].unwrap()
                },
            )
        }),
{
    let sc = Scan { header: g, list: t.list };
    let n = t.list.len() as int;
    lemma_scanned(t, sc);
    lemma_select(t.header, t.entries, n);
    lemma_entry_tables(t.header, t.entries, n, i);
    lemma_mcu_counts(sc);
    assert(listed(sc.header, sc.list[0]));
    lemma_up_wf(sc.header, sc.list[0]);
    assert(g.comps[t.list[0]].h == t.header.comps[t.list[0]].h);
    assert(mcux == sc.mcux() && mcuy == sc.mcuy());
    let k = t.list[i];
    assert(sc.list[i] == k);
    vstd::arithmetic::div_mod::lemma_fundamental_div_mod(m, mcux);
    let (mx, my) = (m % mcux, m / mcux);
    assert(0 <= my < mcuy) by (nonlinear_arith)
        requires
            m == mcux * my + mx,
            0 <= mx < mcux,
            0 <= m < mcux * mcuy,
    ;
    lemma_grid(sc, k, mx, my, j);
    let kept = place(sc, k, mx, my, j);
    lemma_mcus_read_back(t, sc, data, pos, canvas, mcux * mcuy, kept);
    assert(place(sc, t.list[i], m % sc.mcux(), m / sc.mcux(), j) == kept);
}

/// A segment as it is written: its marker, its length, and what it holds.
pub open spec fn segment(code: u8, payload: Seq<u8>) -> Seq<u8> {
    let n = payload.len() + 2;
    seq![0xFFu8, code, (n / 256) as u8, (n % 256) as u8] + payload
}

/// Segments are read one after the other: the one at `pos` first, and from behind it the rest.
pub proof fn lemma_segment_step(
    h: Header,
    canvas: Seq<Option<u8>>,
    data: Seq<u8>,
    pos: int,
    code: u8,
    payload: Seq<u8>,
    rest: Seq<u8>,
)
    requires
        0 <= pos <= data.len(),
        data.skip(pos) == segment(code, payload) + rest,
        payload.len() + 2 < 65536,
        code != 0 && code != 0xFF && code != 1 && !(0xD0 <= code <= 0xD9),
    ensures
        pos + 4 + payload.len() <= data.len(),
        after_segments(h, canvas, data, pos) == match after_segment(
            h,
            canvas,
            code,
            payload,
            data,
            pos + 4 + payload.len(),
        ) {
            Err(e) => Err(e),
            Ok((g, c)) => after_segments(g, c, data, pos + 4 + payload.len()),
        },
        data.skip(pos + 4 + payload.len()) == rest,
{
    lemma_segment_bytes(data, pos, code, payload, rest);
    let n = payload.len() as int + 2;
    assert(is_marker(data, pos));
    assert(header_from(data, pos) == Some((code, pos + 2)));
    assert(be16_at(data, pos + 2) == n);
}

proof fn lemma_segment_bytes(
    data: Seq<u8>,
    pos: int,
    code: u8,
    payload: Seq<u8>,
    rest: Seq<u8>,
)
    requires
        0 <= pos <= data.len(),
        data.skip(pos) == segment(code, payload) + rest,
        payload.len() + 2 < 65536,
    ensures
        ({
            let n = payload.len() + 2;
            &&& pos + 2 + n + rest.len() == data.len()
            &&& data[pos] == 0xFF && data[pos + 1] == code
            &&& data[pos + 2] == n / 256 && data[pos + 3] == n % 256
            &&& data.subrange(pos + 4, pos + 2 + n) == payload
            &&& data.skip(pos + 2 + n) == rest
        }),
{
    let n = payload.len() as int + 2;
    let s = data.skip(pos);
    let a = segment(code, payload);
    assert(a.len() == 2 + n);
    assert(s.len() == a.len() + rest.len());
    assert(s.len() == data.len() - pos);
    assert(s[0] == a[0] && s[1] == a[1] && s[2] == a[2] && s[3] == a[3]);
    assert(s[0] == data[pos] && s[1] == data[pos + 1] && s[2] == data[pos + 2] && s[3] == data[pos
        + 3]);
    let q = pos + 2 + n;
    assert forall|i: int| 0 <= i < payload.len() implies data.subrange(pos + 4, q)[i] == payload[i] by {
        assert(s[4 + i] == a[4 + i]);
    }
    assert(data.subrange(pos + 4, q) =~= payload);
    assert forall|i: int| 0 <= i < rest.len() implies data.skip(q)[i] == rest[i] by {
        assert(s[2 + n + i] == rest[i]);
    }
    assert(data.skip(q) =~= rest);
}

/// There is no marker in stuffed bytes.
proof fn lemma_no_marker(data: Seq<u8>, i: int, s: Seq<u8>, t: Seq<u8>, p: int)
    requires
        0 <= i <= data.len(),
        data.skip(i) == stuffed(s) + t,
        i <= p < i + stuffed(s).len(),
    ensures
        !is_marker(data, p),
    decreases s.len(),
{
    let rest = data.skip(i);
    assert(rest.len() == stuffed(s).len() + t.len() && rest.len() == data.len() - i);
    if s.len() > 0 {
        if s[0] == 0xFF {
            assert(rest[0] == 0xFF && rest[1] == 0);
            assert(data[i] == rest[0] && data[i + 1] == rest[1]);
            assert(data.skip(i + 2) =~= rest.skip(2));
            assert(rest.skip(2) =~= stuffed(s.skip(1)) + t);
            if p >= i + 2 {
                lemma_no_marker(data, i + 2, s.skip(1), t, p);
            }
        } else {
            assert(data[i] == rest[0]);
            assert(data.skip(i + 1) =~= rest.skip(1));
            assert(rest.skip(1) =~= stuffed(s.skip(1)) + t);
            if p >= i + 1 {
                lemma_no_marker(data, i + 1, s.skip(1), t, p);
            }
        }
    }
}

/// A scan at the end of a file reads back as it was written: its header, its MCUs, packed and
/// stuffed, and the end marker, with whatever may come behind it. If it was the last that a
/// component was waited for, the image is complete, and shows every block of it.
pub proof fn lemma_last_scan_read_back(
    t: Content,
    g: Header,
    data: Seq<u8>,
    pos: int,
    canvas: Seq<Option<u8>>,
    m: int,
    i: int,
    j: int,
    mcux: int,
    mcuy: int,
    rest: Seq<u8>,
)
    requires
        scan_header(t.header, t.entries) == Some((g, t.list)),
        t.entries[0] == t.list.len(),
        t.entries.len() < 65000,
        t.scanned(Scan { header: g, list: t.list }),
        t.header.restart == 0,
        g.complete(),
        canvas.len() == SCRATCH,
        t.list.len() > 1 ==> mcux == (if t.header.hmax() == 1 {
            32int
        } else {
            16
        }) && mcuy == (if t.header.vmax() == 1 {
            10int
        } else {
            5
        }),
        t.list.len() == 1 ==> mcux == (if t.header.hmax() == t.header.comps[t.list[0]].h {
            32int
        } else {
            16
        }) && mcuy == (if t.header.vmax() == t.header.comps[t.list[0]].v {
            10int
        } else {
            5
        }),
        t.writable(mcux * mcuy),
        0 <= pos <= data.len(),
        (t.starts)(0) == pos + 4 + t.entries.len(),
        data.skip(pos) == segment(0xDA, t.entries) + (stuffed(packed(t.bits(0, mcux * mcuy)))
            + seq![0xFFu8, 0xD9u8] + rest),
        0 <= m < mcux * mcuy,
        0 <= i < t.list.len(),
        0 <= j < t.count(i),
    ensures
        ({
            let k = t.list[i];
            let (bx, by) = (
                (m % mcux) * t.across(i) + j % t.across(i),
                (m / mcux) * t.down(i) + j / t.across(i),
            );
            &&& after_segments(t.header, canvas, data, pos) matches Ok((h, r))
            &&& h == g
            &&& r.len() == SCRATCH
            &&& shows(
                r,
                k,
                bx,
                by,
                (t.blocks)(m, i, j),
                if t.header.comps[k].seen {
                    t.header.comps[k].q
                } else {
                    t.header.qt[t.header.comps[k].tq].unwrap()
                },
            )
        }),
{
    let q = pos + 4 + t.entries.len() as int;
    let total = mcux * mcuy;
    let b = t.bits(0, total);
    let end = seq![0xFFu8, 0xD9u8] + rest;
    let tail = stuffed(packed(b)) + seq![0xFFu8, 0xD9u8] + rest;
    assert(tail =~= stuffed(packed(b)) + end);
    lemma_segment_step(t.header, canvas, data, pos, 0xDA, t.entries, tail);
    assert(is_marker(end, 0));
    lemma_segment_holds(data, q, b, end);
    lemma_held(t, data, q, total);
    lemma_scan_read_back(t, g, data, q, canvas, m, i, j, mcux, mcuy);
    let r = with_scan(t.header, canvas, t.entries, data, q).unwrap().1;
    lemma_end_found(data, q, packed(b), rest);
    assert(after_segments(g, r, data, q) == Ok::<(Header, Seq<Option<u8>>), Error>((g, r)));
}

/// Behind stuffed bytes, the end marker is what is found.
proof fn lemma_end_found(data: Seq<u8>, q: int, s: Seq<u8>, rest: Seq<u8>)
    requires
        0 <= q <= data.len(),
        data.skip(q) == stuffed(s) + (seq![0xFFu8, 0xD9u8] + rest),
    ensures
        header_from(data, q) matches Some((code, p)) && code == 0xD9,
{
    let end = seq![0xFFu8, 0xD9u8] + rest;
    let z = q + stuffed(s).len() as int;
    assert forall|p: int| q <= p < z implies !is_marker(data, p) by {
        lemma_no_marker(data, q, s, end, p);
    }
    lemma_marker_skip(data, q, z);
    let d = data.skip(q);
    assert(d.len() == stuffed(s).len() + end.len() && d.len() == data.len() - q);
    assert(d[z - q] == end[0] && d[z - q + 1] == end[1]);
    assert(d[z - q] == data[z] && d[z - q + 1] == data[z + 1]);
    assert(is_marker(data, z));
    assert(header_from(data, z) == Some((0xD9u8, z + 2)));
}

/// What holds a scan of one segment holds its MCUs.
proof fn lemma_held(t: Content, data: Seq<u8>, q: int, total: int)
    requires
        t.header.restart == 0,
        (t.starts)(0) == q,
        holds_bits(entropy_bytes(data, q), 0, t.bits(0, total)),
    ensures
        t.held(data, q, total),
{
    let b = t.bits(0, total);
    assert forall|k: int| 0 <= k < total implies holds_bits(
        entropy_bytes(data, (t.starts)(t.first(k))),
        0,
        #[trigger] t.bits(t.first(k), k + 1),
    ) by {
        lemma_bits_grow(t, 0, k + 1, total);
        let c = b.skip(t.bits(0, k + 1).len() as int);
        assert(b =~= t.bits(0, k + 1) + c);
        lemma_holds_parts(entropy_bytes(data, q), 0, t.bits(0, k + 1), c);
    }
}

proof fn lemma_bits_grow(t: Content, a: int, k: int, m: int)
    requires
        a <= k <= m,
    ensures
        t.bits(a, k).len() <= t.bits(a, m).len(),
        t.bits(a, m).take(t.bits(a, k).len() as int) == t.bits(a, k),
    decreases m - k,
{
    let x = t.bits(a, k);
    if k < m {
        lemma_bits_grow(t, a, k, m - 1);
        let y = t.bits(a, m - 1);
        assert(t.bits(a, m).take(x.len() as int) =~= y.take(x.len() as int));
    } else {
        assert(x.take(x.len() as int) =~= x);
    }
}

} // verus!
