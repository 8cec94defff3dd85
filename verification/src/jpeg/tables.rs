//! Header segments, written and read back.

use super::frame::{
    first_fault, frame_component, good_ratio, hmax_of, huff_table, lemma_zigzag_permutation,
    quant_table, vmax_of, with_frame, with_huff, with_quant, Component, Header, ORDER,
};
use super::huffman::Table;
use super::image::after_segment;
use super::marker::be16_at;
use super::scan::{scan_header, select};
use super::writing::{cell, lemma_zigzag_walk};
use super::Error;
use vstd::arithmetic::power2::pow2;
use vstd::prelude::*;

verus! {

/// Entry `k` of a quantization table along the diagonals.
pub open spec fn entry_along(q: Seq<u16>, k: int) -> int {
    q[8 * cell(k).0 + cell(k).1] as int
}

/// A quantization table with entries of one byte, along the diagonals.
pub open spec fn narrow_entries(q: Seq<u16>) -> Seq<u8> {
    Seq::new(64, |k: int| entry_along(q, k) as u8)
}

/// A quantization table with entries of two bytes, high byte first.
pub open spec fn wide_entries(q: Seq<u16>) -> Seq<u8> {
    Seq::new(
        128,
        |k: int|
            if k % 2 == 0 {
                (entry_along(q, k / 2) / 256) as u8
            } else {
                (entry_along(q, k / 2) % 256) as u8
            },
    )
}

/// A quantization table reads back as it was written, into the slot that it names, and nothing
/// else changes: any table of 8-bit entries in a byte each, and any table in two bytes each.
/// More tables may follow.
pub proof fn lemma_quant_read_back(h: Header, t: u8, q: Seq<u16>, rest: Seq<u8>)
    requires
        t <= 3,
        q.len() == 64,
        h.qt.len() == 4,
    ensures
        (forall|i: int| 0 <= i < 64 ==> #[trigger] q[i] <= 255) ==> with_quant(
            h,
            seq![t] + narrow_entries(q) + rest,
        ) == with_quant(Header { qt: h.qt.update(t as int, Some(q)), ..h }, rest),
        with_quant(h, seq![(16 + t) as u8] + wide_entries(q) + rest) == with_quant(
            Header { qt: h.qt.update(t as int, Some(q)), ..h },
            rest,
        ),
        with_quant(h, Seq::empty()) == Some(h),
{
    if forall|i: int| 0 <= i < 64 ==> #[trigger] q[i] <= 255 {
        let s = seq![t] + narrow_entries(q) + rest;
        assert(s[0] == t);
        assert forall|i: int| 0 <= i < 64 implies quant_table(s, 0)[i] == q[i] by {
            lemma_zigzag_permutation(i);
            lemma_zigzag_walk(ORDER[i] as int);
            assert(s[1 + ORDER[i]] == narrow_entries(q)[ORDER[i] as int]);
        }
        assert(quant_table(s, 0) =~= q);
        assert(s.skip(65) =~= rest);
    }
    let s = seq![(16 + t) as u8] + wide_entries(q) + rest;
    assert(s[0] == 16 + t);
    assert forall|i: int| 0 <= i < 64 implies quant_table(s, 1)[i] == q[i] by {
        lemma_zigzag_permutation(i);
        let k = ORDER[i] as int;
        lemma_zigzag_walk(k);
        assert(s[1 + 2 * k] == wide_entries(q)[2 * k]);
        assert(s[2 + 2 * k] == wide_entries(q)[2 * k + 1]);
        assert((2 * k) / 2 == k && (2 * k + 1) / 2 == k);
        assert(be16_at(s, 1 + 2 * k) == entry_along(q, k));
    }
    assert(quant_table(s, 1) =~= q);
    assert(s.skip(129) =~= rest);
}

/// A Huffman table reads back as it was written, into the slot and the class that it names, and
/// nothing else changes: any counts and symbols that make a code, with bit counts as symbols if
/// it is for DC coefficients. More tables may follow.
pub proof fn lemma_huff_read_back(h: Header, t: u8, table: Table, rest: Seq<u8>)
    requires
        t <= 3,
        table.sized(),
        table.valid(),
    ensures
        table.dc_valid() ==> with_huff(h, seq![t] + table.counts + table.vals + rest) == with_huff(
            Header { dc: h.dc.update(t as int, Some(table)), ..h },
            rest,
        ),
        with_huff(h, seq![(16 + t) as u8] + table.counts + table.vals + rest) == with_huff(
            Header { ac: h.ac.update(t as int, Some(table)), ..h },
            rest,
        ),
        with_huff(h, Seq::empty()) == Some(h),
{
    let n = table.vals.len() as int;
    lemma_huff_bytes(t, table, rest);
    lemma_huff_bytes((16 + t) as u8, table, rest);
    if table.dc_valid() {
        let s = seq![t] + table.counts + table.vals + rest;
        assert(s[0] == t);
        assert(s.skip(17 + n) =~= rest);
    }
    let s = seq![(16 + t) as u8] + table.counts + table.vals + rest;
    assert(s[0] == 16 + t);
    assert(s.skip(17 + n) =~= rest);
}

proof fn lemma_huff_bytes(first: u8, table: Table, rest: Seq<u8>)
    requires
        table.sized(),
    ensures
        ({
            let s = seq![first] + table.counts + table.vals + rest;
            &&& s.subrange(1, 17) == table.counts
            &&& (Table { counts: s.subrange(1, 17), vals: Seq::empty() }).first_index(17)
                == table.vals.len()
            &&& huff_table(s) == table
            &&& s.len() == 17 + table.vals.len() + rest.len()
        }),
{
    let s = seq![first] + table.counts + table.vals + rest;
    assert(s.subrange(1, 17) =~= table.counts);
    lemma_same_index(Table { counts: table.counts, vals: Seq::empty() }, table, 17);
    assert(s.subrange(17, 17 + table.vals.len() as int) =~= table.vals);
}

proof fn lemma_same_index(a: Table, b: Table, l: int)
    requires
        a.counts == b.counts,
    ensures
        a.first_index(l) == b.first_index(l),
    decreases l,
{
    if l > 1 {
        lemma_same_index(a, b, l - 1);
    }
}

/// A component as it is written in a frame header.
pub open spec fn component_bytes(id: u8, h: int, v: int, tq: int) -> Seq<u8> {
    seq![id, (16 * h + v) as u8, tq as u8]
}

/// A component that no scan had yet.
pub open spec fn new_component(id: u8, h: int, v: int, tq: int) -> Component {
    Component { id, h, v, tq, td: 0, ta: 0, q: Seq::new(64, |j: int| 0u16), seen: false }
}

/// A frame of one component reads back as it was written, and nothing else changes.
pub proof fn lemma_gray_frame_read_back(h: Header, id: u8, hs: int, vs: int, tq: int, rest: Seq<u8>)
    requires
        h.comps.len() == 0,
        1 <= hs <= 2,
        1 <= vs <= 2,
        0 <= tq <= 3,
    ensures
        with_frame(
            h,
            seq![8u8, 0u8, 80u8, 0u8, 250u8, 1u8] + component_bytes(id, hs, vs, tq) + rest,
        ) == Ok::<Header, Error>(Header { comps: seq![new_component(id, hs, vs, tq)], ..h }),
{
    let s = seq![8u8, 0u8, 80u8, 0u8, 250u8, 1u8] + component_bytes(id, hs, vs, tq) + rest;
    assert(s[0] == 8 && s[1] == 0 && s[2] == 80 && s[3] == 0 && s[4] == 250 && s[5] == 1);
    assert(s[6] == id && s[7] == 16 * hs + vs && s[8] == tq);
    let c = new_component(id, hs, vs, tq);
    assert(frame_component(s, 0) == c);
    reveal_with_fuel(first_fault, 2);
    assert(first_fault(s, 1) is None);
    let g = Header { comps: Seq::new(1, |i: int| frame_component(s, i)), ..h };
    assert(g.comps =~= seq![c]);
    reveal_with_fuel(hmax_of, 2);
    reveal_with_fuel(vmax_of, 2);
    assert(g.hmax() == hs && g.vmax() == vs);
    assert(hs / hs == 1 && vs / vs == 1) by (nonlinear_arith)
        requires
            1 <= hs,
            1 <= vs,
    ;
    assert(good_ratio(g.hmax() / g.comps[0].h, g.vmax() / g.comps[0].v));
}

/// The larger of two numbers.
pub open spec fn larger_of(a: int, b: int) -> int {
    if a > b {
        a
    } else {
        b
    }
}

/// A component can be enlarged: it has the full size, half the width, or half the width and
/// half the height.
pub open spec fn enlargeable(h: int, v: int, hmax: int, vmax: int) -> bool {
    h == hmax && v == vmax || 2 * h == hmax && v == vmax || 2 * h == hmax && 2 * v == vmax
}

/// A frame of three components reads back as it was written, if each of them can be enlarged
/// to the largest, and is refused if not. Nothing else changes.
pub proof fn lemma_color_frame_read_back(
    h: Header,
    a: (u8, int, int, int),
    b: (u8, int, int, int),
    c: (u8, int, int, int),
    rest: Seq<u8>,
)
    requires
        h.comps.len() == 0,
        1 <= a.1 <= 2 && 1 <= a.2 <= 2 && 0 <= a.3 <= 3,
        1 <= b.1 <= 2 && 1 <= b.2 <= 2 && 0 <= b.3 <= 3,
        1 <= c.1 <= 2 && 1 <= c.2 <= 2 && 0 <= c.3 <= 3,
    ensures
        ({
            let hmax = larger_of(a.1, larger_of(b.1, c.1));
            let vmax = larger_of(a.2, larger_of(b.2, c.2));
            with_frame(
                h,
                seq![8u8, 0u8, 80u8, 0u8, 250u8, 3u8] + component_bytes(a.0, a.1, a.2, a.3)
                    + component_bytes(b.0, b.1, b.2, b.3) + component_bytes(c.0, c.1, c.2, c.3)
                    + rest,
            ) == if enlargeable(a.1, a.2, hmax, vmax) && enlargeable(b.1, b.2, hmax, vmax)
                && enlargeable(c.1, c.2, hmax, vmax) {
                Ok::<Header, Error>(
                    Header {
                        comps: seq![
                            new_component(a.0, a.1, a.2, a.3),
                            new_component(b.0, b.1, b.2, b.3),
                            new_component(c.0, c.1, c.2, c.3),
                        ],
                        ..h
                    },
                )
            } else {
                Err(Error::Unsupported)
            }
        }),
{
    let s = seq![8u8, 0u8, 80u8, 0u8, 250u8, 3u8] + component_bytes(a.0, a.1, a.2, a.3)
        + component_bytes(b.0, b.1, b.2, b.3) + component_bytes(c.0, c.1, c.2, c.3) + rest;
    assert(s[0] == 8 && s[1] == 0 && s[2] == 80 && s[3] == 0 && s[4] == 250 && s[5] == 3);
    assert(s[6] == a.0 && s[7] == 16 * a.1 + a.2 && s[8] == a.3);
    assert(s[9] == b.0 && s[10] == 16 * b.1 + b.2 && s[11] == b.3);
    assert(s[12] == c.0 && s[13] == 16 * c.1 + c.2 && s[14] == c.3);
    let want = seq![
        new_component(a.0, a.1, a.2, a.3),
        new_component(b.0, b.1, b.2, b.3),
        new_component(c.0, c.1, c.2, c.3),
    ];
    assert(frame_component(s, 0) == want[0]);
    assert(frame_component(s, 1) == want[1]);
    assert(frame_component(s, 2) == want[2]);
    reveal_with_fuel(first_fault, 4);
    assert(first_fault(s, 3) is None);
    let g = Header { comps: Seq::new(3, |i: int| frame_component(s, i)), ..h };
    assert(g.comps =~= want);
    reveal_with_fuel(hmax_of, 4);
    reveal_with_fuel(vmax_of, 4);
    let hmax = larger_of(a.1, larger_of(b.1, c.1));
    let vmax = larger_of(a.2, larger_of(b.2, c.2));
    assert(g.hmax() == hmax && g.vmax() == vmax);
    lemma_ratio(a.1, a.2, hmax, vmax);
    lemma_ratio(b.1, b.2, hmax, vmax);
    lemma_ratio(c.1, c.2, hmax, vmax);
    assert(good_ratio(hmax / g.comps[0].h, vmax / g.comps[0].v) == enlargeable(
        a.1,
        a.2,
        hmax,
        vmax,
    ));
    assert(good_ratio(hmax / g.comps[1].h, vmax / g.comps[1].v) == enlargeable(
        b.1,
        b.2,
        hmax,
        vmax,
    ));
    assert(good_ratio(hmax / g.comps[2].h, vmax / g.comps[2].v) == enlargeable(
        c.1,
        c.2,
        hmax,
        vmax,
    ));
}

proof fn lemma_ratio(h: int, v: int, hmax: int, vmax: int)
    requires
        1 <= h <= hmax <= 2,
        1 <= v <= vmax <= 2,
    ensures
        good_ratio(hmax / h, vmax / v) == enlargeable(h, v, hmax, vmax),
{
    assert(1int / 1 == 1 && 2int / 1 == 2 && 2int / 2 == 1);
    if h == 1 {
    } else {
        assert(h == 2 && hmax == 2);
    }
    if v == 1 {
    } else {
        assert(v == 2 && vmax == 2);
    }
}

/// An image of another size is refused for its size.
pub proof fn lemma_other_size(h: Header, s: Seq<u8>)
    requires
        h.comps.len() == 0,
        s.len() >= 6 + 3 * s[5],
        s[0] == 8,
        s[5] == 1 || s[5] == 3,
        256 * s[1] + s[2] != 80 || 256 * s[3] + s[4] != 250,
    ensures
        with_frame(h, s) == Err::<Header, Error>(Error::Size),
{
}

/// A restart interval reads back as it was written, and nothing else changes.
pub proof fn lemma_restart_read_back(
    h: Header,
    canvas: Seq<Option<u8>>,
    n: int,
    data: Seq<u8>,
    pos: int,
)
    requires
        0 <= n < 65536,
    ensures
        after_segment(h, canvas, 0xDD, seq![(n / 256) as u8, (n % 256) as u8], data, pos) == Ok::<
            (Header, Seq<Option<u8>>),
            Error,
        >((Header { restart: n, ..h }, canvas)),
{
}

/// The share of all 16-bit windows, of 65536, that start with a code of at most `l` bits.
pub open spec fn windows_taken(counts: Seq<u8>, l: int) -> int
    decreases l,
{
    if l <= 0 {
        0
    } else {
        windows_taken(counts, l - 1) + counts[l - 1] * pow2((16 - l) as nat)
    }
}

proof fn lemma_windows(t: Table, l: int)
    requires
        t.counts.len() == 16,
        1 <= l <= 16,
    ensures
        windows_taken(t.counts, l) == t.end_code(l) * pow2((16 - l) as nat),
        0 <= windows_taken(t.counts, l),
    decreases l,
{
    let p = pow2((16 - l) as nat) as int;
    vstd::arithmetic::power2::lemma_pow2_pos((16 - l) as nat);
    if l > 1 {
        lemma_windows(t, l - 1);
        let q = pow2((16 - l + 1) as nat) as int;
        vstd::arithmetic::power2::lemma_pow2_unfold((16 - l + 1) as nat);
        let (e, c) = (t.end_code(l - 1), t.count(l));
        assert(e * q + c * p == (2 * e + c) * p) by (nonlinear_arith)
            requires
                q == 2 * p,
        ;
    } else {
        assert(windows_taken(t.counts, 0) == 0);
        assert(t.first_code(1) == 0);
    }
    let c = t.counts[l - 1] as int;
    assert(0 <= c * p) by (nonlinear_arith)
        requires
            0 <= c,
            0 <= p,
    ;
}

proof fn lemma_windows_grow(counts: Seq<u8>, l: int, m: int)
    requires
        0 <= l <= m <= 16,
        counts.len() == 16,
    ensures
        windows_taken(counts, l) <= windows_taken(counts, m),
    decreases m - l,
{
    if l < m {
        lemma_windows_grow(counts, l, m - 1);
        vstd::arithmetic::power2::lemma_pow2_pos((16 - m) as nat);
        let (c, p) = (counts[m - 1] as int, pow2((16 - m) as nat) as int);
        assert(0 <= c * p) by (nonlinear_arith)
            requires
                0 <= c,
                0 <= p,
        ;
    }
}

/// Counts make a code exactly if it leaves some window over.
pub proof fn lemma_code_fits(t: Table)
    requires
        t.counts.len() == 16,
    ensures
        t.valid() <==> windows_taken(t.counts, 16) < 65536,
{
    vstd::arithmetic::power2::lemma2_to64();
    if t.valid() {
        lemma_windows(t, 16);
        assert(t.end_code(16) < pow2(16));
        let (e, p) = (t.end_code(16), pow2(0) as int);
        assert(e * p == e) by (nonlinear_arith)
            requires
                p == 1,
        ;
    } else {
        let l = choose|l: int| 1 <= l <= 16 && !(#[trigger] t.end_code(l) < pow2(l as nat));
        lemma_windows(t, l);
        lemma_windows_grow(t.counts, l, 16);
        vstd::arithmetic::power2::lemma_pow2_adds(l as nat, (16 - l) as nat);
        let (e, p, q) = (t.end_code(l), pow2((16 - l) as nat) as int, pow2(l as nat) as int);
        vstd::arithmetic::power2::lemma_pow2_pos((16 - l) as nat);
        assert(e * p >= q * p) by (nonlinear_arith)
            requires
                e >= q,
                p > 0,
        ;
    }
}

/// A Huffman table is refused only for what it is: a class other than DC and AC, a slot past
/// the fourth, counts that make no code, or a DC symbol of more than 15 bits.
pub proof fn lemma_huff_accepted(h: Header, first: u8, table: Table)
    requires
        table.sized(),
    ensures
        with_huff(h, seq![first] + table.counts + table.vals) is Some <==> {
            &&& first as int / 16 <= 1
            &&& first as int % 16 <= 3
            &&& windows_taken(table.counts, 16) < 65536
            &&& first as int / 16 == 0 ==> forall|i: int|
                0 <= i < table.vals.len() ==> #[trigger] table.vals[i] <= 15
        },
{
    let none = Seq::<u8>::empty();
    let s = seq![first] + table.counts + table.vals;
    assert(s =~= s + none);
    lemma_huff_bytes(first, table, none);
    lemma_code_fits(table);
    assert(s[0] == first);
    let n = table.vals.len() as int;
    assert(s.skip(17 + n) =~= none);
    assert(huff_table(s) == table);
    reveal_with_fuel(with_huff, 2);
}

/// A quantization table is refused only for what it is: entries other than of one or two
/// bytes, a slot past the fourth, or missing entries.
pub proof fn lemma_quant_accepted(h: Header, first: u8, entries: Seq<u8>)
    requires
        entries.len() == if first < 16 {
            64int
        } else {
            128
        },
    ensures
        with_quant(h, seq![first] + entries) is Some <==> first < 32 && first as int % 16 <= 3,
        forall|n: int|
            0 <= n < entries.len() ==> with_quant(
                h,
                #[trigger] (seq![first] + entries.take(n)),
            ) is None,
{
    let s = seq![first] + entries;
    assert(s[0] == first);
    assert(s.skip(1 + entries.len() as int) =~= Seq::<u8>::empty());
    reveal_with_fuel(with_quant, 2);
    assert forall|n: int| 0 <= n < entries.len() implies with_quant(
        h,
        #[trigger] (seq![first] + entries.take(n)),
    ) is None by {
        assert((seq![first] + entries.take(n))[0] == first);
    }
}

/// What is refused in a frame header, and as what: a second frame, too few bytes, no
/// components; samples of other than 8 bits, and counts other than one and three.
pub proof fn lemma_frame_refused(h: Header, s: Seq<u8>)
    ensures
        h.comps.len() != 0 || s.len() < 6 ==> with_frame(h, s) == Err::<Header, Error>(
            Error::Format,
        ),
        h.comps.len() == 0 && s.len() >= 6 && s[0] != 8 ==> with_frame(h, s) == Err::<
            Header,
            Error,
        >(Error::Unsupported),
        h.comps.len() == 0 && s.len() >= 6 && s[0] == 8 && (s[5] == 0 || s.len() < 6 + 3 * s[5])
            ==> with_frame(h, s) == Err::<Header, Error>(Error::Format),
        h.comps.len() == 0 && s.len() >= 6 && s[0] == 8 && s.len() >= 6 + 3 * s[5] && s[5] != 0
            && s[5] != 1 && s[5] != 3 ==> with_frame(h, s) == Err::<Header, Error>(
            Error::Unsupported,
        ),
{
}

/// A component of a frame is refused for a factor of zero, for a quantization table past the
/// fourth, and as not supported for factors above two.
pub proof fn lemma_component_refused(h: Header, id: u8, hs: int, vs: int, tq: int, rest: Seq<u8>)
    requires
        h.comps.len() == 0,
        0 <= hs <= 15,
        0 <= vs <= 15,
        0 <= tq <= 255,
    ensures
        ({
            let s = seq![8u8, 0u8, 80u8, 0u8, 250u8, 1u8] + component_bytes(id, hs, vs, tq) + rest;
            &&& hs == 0 || vs == 0 || tq > 3 ==> with_frame(h, s) == Err::<Header, Error>(
                Error::Format,
            )
            &&& hs > 0 && vs > 0 && tq <= 3 && (hs > 2 || vs > 2) ==> with_frame(h, s) == Err::<
                Header,
                Error,
            >(Error::Unsupported)
        }),
{
    let s = seq![8u8, 0u8, 80u8, 0u8, 250u8, 1u8] + component_bytes(id, hs, vs, tq) + rest;
    assert(s[0] == 8 && s[1] == 0 && s[2] == 80 && s[3] == 0 && s[4] == 250 && s[5] == 1);
    assert(s[6] == id && s[7] == 16 * hs + vs && s[8] == tq);
    assert(s[7] as int / 16 == hs && s[7] as int % 16 == vs);
    reveal_with_fuel(first_fault, 2);
}

/// A scan header says how many entries it has, at least one and at most one for each component
/// of the frame, and holds them and three bytes more. Nothing else is asked of it but that its
/// entries are accepted.
pub proof fn lemma_scan_header_accepted(h: Header, s: Seq<u8>)
    ensures
        s.len() >= 1 && 1 <= s[0] <= h.comps.len() && s.len() >= 4 + 2 * s[0] ==> scan_header(h, s)
            == select(h, s, s[0] as int),
        !(s.len() >= 1 && 1 <= s[0] <= h.comps.len() && s.len() >= 4 + 2 * s[0]) ==> scan_header(
            h,
            s,
        ) is None,
{
}

} // verus!
