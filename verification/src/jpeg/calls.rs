//! What one call reads, decodes or computes.

use super::bits::Bits;
use super::block::{block, has_ac};
use super::color::{lemma_luma_weights, lemma_ycc_by_way_of_rgb, luma, pixel};
use super::decoder::Decoder;
use super::huffman::{Huff, Table};
use super::idct::{
    descale, idct, idct_1d, idct_flat, lemma_descaled_nearest, lemma_idct8_flat,
    lemma_idct8_linear, lemma_range_limited, lemma_sample_flat, range_limit,
};
use super::laws::{ends_image, lemma_end_marker_optional};
use super::marker::{be16, lemma_marker_from, next_marker};
use super::tables::{
    component_bytes, lemma_code_fits, lemma_component_refused, lemma_frame_refused,
    lemma_gray_frame_read_back, lemma_huff_accepted, lemma_huff_read_back, lemma_other_size,
    lemma_quant_accepted, lemma_quant_read_back, narrow_entries, new_component, wide_entries,
    windows_taken,
};
use super::writing::{
    amplitude_bits, bit_size, block_bits, block_writable, holds_bits, lemma_amplitude_read_back,
    lemma_block_read_back, lemma_number_read_back, lemma_symbol_read_back, number_bits,
    symbol_bits,
};
use super::{decode, Error};
use vstd::arithmetic::power2::pow2;
use vstd::prelude::*;

verus! {

/// Two bytes are a number, the high one first. Where there are not two, there is none.
pub proof fn lemma_be16_call(d: &[u8], i: usize, r: Result<usize, Error>)
    requires
        call_ensures(be16, (d, i), r),
    ensures
        i + 2 <= d@.len() ==> r == Ok::<usize, Error>((256 * d@[i as int] + d@[i + 1]) as usize),
        i + 2 > d@.len() ==> r == Err::<usize, Error>(Error::Format),
{
}

/// The next marker is the first byte of 0xFF with neither 0 nor another 0xFF behind it. Only
/// where there is none, none is found.
pub proof fn lemma_next_marker_call(d: &[u8], i: usize, r: Result<(u8, usize), Error>, p: int)
    requires
        call_ensures(next_marker, (d, i), r),
        i <= p,
        p + 1 < d@.len(),
        d@[p] == 0xFF && d@[p + 1] != 0 && d@[p + 1] != 0xFF,
    ensures
        r matches Ok((code, end)) && i + 2 <= end <= p + 2 && d@[end - 2] == 0xFF && d@[end - 1]
            == code && code != 0 && code != 0xFF,
{
    lemma_marker_from(d@, i as int);
    assert(super::marker::is_marker(d@, p));
}

/// Where no marker is found, there is none.
pub proof fn lemma_no_marker_call(d: &[u8], i: usize, e: Error, p: int)
    requires
        call_ensures(next_marker, (d, i), Err::<(u8, usize), Error>(e)),
        i <= p,
        p + 1 < d@.len(),
    ensures
        e == Error::Format,
        d@[p] != 0xFF || d@[p + 1] == 0 || d@[p + 1] == 0xFF,
{
    lemma_marker_from(d@, i as int);
    assert(!super::marker::is_marker(d@, p));
}

/// Scaling down by a power of two rounds to the nearest integer, and up in the middle.
pub proof fn lemma_descale_call(x: i64, n: u32, r: i64)
    requires
        1 <= n <= 63,
        call_ensures(descale, (x, n), r),
    ensures
        ({
            let p = pow2(n as nat) as int;
            -p <= 2 * (x - p * r) < p
        }),
{
    lemma_descaled_nearest(x as int, n as int);
}

/// A sample is 128 more than its value, limited to what a byte holds.
pub proof fn lemma_range_limit_call(x: i64, r: u8)
    requires
        -512 <= x < 512,
        call_ensures(range_limit, (x,), r),
    ensures
        r == if x < -128 {
            0
        } else if x > 127 {
            255
        } else {
            x + 128
        },
{
    lemma_range_limited(x as int, 0);
}

/// The transform of a sum is the sum of the transforms, and that of a constant is constant.
pub proof fn lemma_idct_1d_call(
    x: [i64; 8],
    y: [i64; 8],
    z: [i64; 8],
    fx: [i64; 8],
    fy: [i64; 8],
    fz: [i64; 8],
    k: int,
)
    requires
        call_ensures(idct_1d, (x,), fx),
        call_ensures(idct_1d, (y,), fy),
        call_ensures(idct_1d, (z,), fz),
        forall|n: int| 0 <= n < 8 ==> #[trigger] z[n] == x[n] + y[n],
        0 <= k < 8,
    ensures
        fz[k] == fx[k] + fy[k],
        (forall|n: int| 1 <= n < 8 ==> #[trigger] x[n] == 0) ==> fx[k] == 8192 * x[0],
{
    let (a, b, c) = (
        super::idct::ints(x@),
        super::idct::ints(y@),
        super::idct::ints(z@),
    );
    assert forall|n: int| 0 <= n < 8 implies #[trigger] c[n] == 1 * a[n] + 1 * b[n] by {
        assert(z[n] == x[n] + y[n]);
    }
    lemma_idct8_linear(a, b, c, 1, 1, k);
    if forall|n: int| 1 <= n < 8 ==> #[trigger] x[n] == 0 {
        assert forall|n: int| 1 <= n < 8 implies #[trigger] a[n] == 0 by {
            assert(x[n] == 0);
        }
        lemma_idct8_flat(a, k);
    }
}

/// A block without AC coefficients is flat: every sample is 128 and an eighth of the DC
/// coefficient, rounded to the nearest and limited to what a byte holds. It makes no
/// difference whether it goes the short way.
pub proof fn lemma_flat_block_call(
    coef: [i32; 64],
    q: [u16; 64],
    out: &mut [u8],
    short: &mut [u8],
    stride: usize,
    r: int,
    c: int,
)
    requires
        8 <= stride,
        !has_ac(coef@),
        call_ensures(idct, (&coef, &q, out, stride), ()),
        call_ensures(idct_flat, (&coef, &q, short, stride), ()),
        0 <= r < 8,
        0 <= c < 8,
        -4096 <= coef[0] * q[0] < 4090,
    ensures
        ({
            let v = final(out)@[r * stride + c];
            let dc = coef[0] * q[0];
            &&& final(short)@[r * stride + c] == v
            &&& dc < -1028 ==> v == 0
            &&& dc >= 1020 ==> v == 255
            &&& -1028 <= dc < 1020 ==> -4 <= dc - 8 * (v - 128) < 4
        }),
{
    let dc = coef[0] * q[0];
    lemma_sample_flat(coef@, q@, r, c);
    let w = super::idct::descaled(4 * dc, 5);
    vstd::arithmetic::power2::lemma2_to64();
    lemma_descaled_nearest(4 * dc, 5);
    lemma_range_limited(w, 0);
    assert(super::idct::sample(coef@, q@, r, c) == final(out)@[r * stride + c]);
    assert(super::idct::sample(coef@, q@, r, c) == final(short)@[r * stride + c]);
}

/// Gray is 0.299 of red, 0.587 of green and 0.114 of blue, up to rounding.
pub proof fn lemma_luma_call(r: i32, g: i32, b: i32, l: u8)
    requires
        0 <= r <= 255,
        0 <= g <= 255,
        0 <= b <= 255,
        call_ensures(luma, (r, g, b), l),
    ensures
        -502 <= 1000 * l - (299 * r + 587 * g + 114 * b) <= 502,
{
    lemma_luma_weights(r as int, g as int, b as int);
}

/// A pixel that is not RGB is brought to RGB first, each color limited to what a byte holds.
pub proof fn lemma_pixel_call(c0: u8, c1: u8, c2: u8, rgb: u8, ycc: u8) -> (t: (int, int, int))
    requires
        call_ensures(pixel, (true, c0, c1, c2), rgb),
        call_ensures(pixel, (false, c0, c1, c2), ycc),
    ensures
        -502 <= 1000 * rgb - (299 * c0 + 587 * c1 + 114 * c2) <= 502,
        -50200 <= 100000 * (t.0 - c0) - 140200 * (c2 - 128) <= 50200,
        -50200 <= 100000 * (t.1 - c0) + 34414 * (c1 - 128) + 71414 * (c2 - 128) <= 50200,
        -50200 <= 100000 * (t.2 - c0) - 177200 * (c1 - 128) <= 50200,
        ({
            let (r, g, b) = (limited(t.0), limited(t.1), limited(t.2));
            -502 <= 1000 * ycc - (299 * r + 587 * g + 114 * b) <= 502
        }),
{
    lemma_luma_weights(c0 as int, c1 as int, c2 as int);
    let t = lemma_ycc_by_way_of_rgb(c0 as int, c1 as int, c2 as int);
    lemma_luma_weights(limited(t.0), limited(t.1), limited(t.2));
    t
}

/// A value limited to what a byte holds.
pub open spec fn limited(v: int) -> int {
    if v < 0 {
        0
    } else if v > 255 {
        255
    } else {
        v
    }
}

/// A quantization segment with one table, of one-byte or of two-byte entries in zigzag order,
/// sets that table and leaves everything else.
pub proof fn lemma_dqt_call(d: &mut Decoder, s: &[u8], r: Result<(), Error>, t: u8, q: Seq<u16>)
    requires
        old(d).wf(),
        call_ensures(Decoder::dqt, (d, s), r),
        t <= 3,
        q.len() == 64,
        s@ == seq![t] + narrow_entries(q) && (forall|i: int| 0 <= i < 64 ==> #[trigger] q[i] <= 255)
            || s@ == seq![(16 + t) as u8] + wide_entries(q),
    ensures
        r is Ok,
        final(d).wf(),
        final(d)@.qt[t as int] == Some(q),
        forall|k: int| 0 <= k < 4 && k != t ==> #[trigger] final(d)@.qt[k] == old(d)@.qt[k],
        final(d)@.dc == old(d)@.dc && final(d)@.ac == old(d)@.ac,
        final(d)@.comps == old(d)@.comps && final(d)@.restart == old(d)@.restart,
{
    let none = Seq::<u8>::empty();
    let h = old(d)@;
    assert(s@ =~= s@ + none);
    lemma_quant_read_back(h, t, q, none);
    let g = super::frame::Header { qt: h.qt.update(t as int, Some(q)), ..h };
    assert(super::frame::with_quant(g, none) == Some(g));
}

/// A quantization segment of one table is refused for its table number or its kind of entries,
/// or if entries are missing, and for nothing else.
pub proof fn lemma_dqt_refused(d: &mut Decoder, s: &[u8], r: Result<(), Error>, entries: Seq<u8>)
    requires
        old(d).wf(),
        call_ensures(Decoder::dqt, (d, s), r),
        s@.len() > 0,
        entries.len() == if s@[0] < 16 {
            64int
        } else {
            128
        },
    ensures
        s@ == seq![s@[0]] + entries ==> (r is Ok <==> s@[0] < 32 && s@[0] as int % 16 <= 3),
        s@.len() < 1 + entries.len() && s@.skip(1) == entries.take(s@.len() - 1) ==> r is Err,
        r is Err ==> r == Err::<(), Error>(Error::Format),
{
    lemma_quant_accepted(old(d)@, s@[0], entries);
    if s@.len() < 1 + entries.len() && s@.skip(1) == entries.take(s@.len() - 1) {
        let n = s@.len() - 1;
        assert(s@ =~= seq![s@[0]] + entries.take(n));
    }
}

/// A Huffman segment with one table sets that table and leaves everything else.
pub proof fn lemma_dht_call(d: &mut Decoder, s: &[u8], r: Result<(), Error>, t: u8, table: Table)
    requires
        old(d).wf(),
        call_ensures(Decoder::dht, (d, s), r),
        t <= 3,
        table.sized(),
        windows_taken(table.counts, 16) < 65536,
        s@ == seq![t] + table.counts + table.vals && (forall|i: int|
            0 <= i < table.vals.len() ==> #[trigger] table.vals[i] <= 15) || s@ == seq![
            (16 + t) as u8,
        ] + table.counts + table.vals,
    ensures
        r is Ok,
        final(d).wf(),
        s@[0] == t ==> final(d)@.dc == old(d)@.dc.update(t as int, Some(table)) && final(d)@.ac
            == old(d)@.ac,
        s@[0] != t ==> final(d)@.ac == old(d)@.ac.update(t as int, Some(table)) && final(d)@.dc
            == old(d)@.dc,
        final(d)@.qt == old(d)@.qt,
        final(d)@.comps == old(d)@.comps && final(d)@.restart == old(d)@.restart,
{
    let none = Seq::<u8>::empty();
    let h = old(d)@;
    assert(s@ =~= s@ + none);
    lemma_code_fits(table);
    lemma_huff_read_back(h, t, table, none);
    let g = super::frame::Header { dc: h.dc.update(t as int, Some(table)), ..h };
    assert(super::frame::with_huff(g, none) == Some(g));
    let k = super::frame::Header { ac: h.ac.update(t as int, Some(table)), ..h };
    assert(super::frame::with_huff(k, none) == Some(k));
    if s@[0] == t {
        assert(s@ == seq![t] + table.counts + table.vals) by {
            if s@ == seq![(16 + t) as u8] + table.counts + table.vals {
                assert(s@[0] == (16 + t) as u8);
            }
        }
        assert(forall|i: int| 0 <= i < table.vals.len() ==> #[trigger] table.vals[i] <= 15) by {
            if !(forall|i: int| 0 <= i < table.vals.len() ==> #[trigger] table.vals[i] <= 15) {
                assert(s@[0] == (16 + t) as u8);
            }
        }
    } else {
        assert((seq![t] + table.counts + table.vals)[0] == t);
    }
}

/// A Huffman segment of one table is refused for what the table is, and for nothing else.
pub proof fn lemma_dht_refused(d: &mut Decoder, s: &[u8], r: Result<(), Error>, table: Table)
    requires
        old(d).wf(),
        call_ensures(Decoder::dht, (d, s), r),
        table.sized(),
        s@.len() > 0,
        s@ == seq![s@[0]] + table.counts + table.vals,
    ensures
        r is Ok <==> {
            &&& s@[0] as int / 16 <= 1
            &&& s@[0] as int % 16 <= 3
            &&& windows_taken(table.counts, 16) < 65536
            &&& s@[0] as int / 16 == 0 ==> forall|i: int|
                0 <= i < table.vals.len() ==> #[trigger] table.vals[i] <= 15
        },
        r is Err ==> r == Err::<(), Error>(Error::Format),
{
    lemma_huff_accepted(old(d)@, s@[0], table);
}

/// A frame of one component is taken as it is written, and leaves the tables.
pub proof fn lemma_sof_call(
    d: &mut Decoder,
    s: &[u8],
    r: Result<(), Error>,
    id: u8,
    hs: int,
    vs: int,
    tq: int,
    rest: Seq<u8>,
)
    requires
        old(d).wf(),
        call_ensures(Decoder::sof, (d, s), r),
        old(d)@.comps.len() == 0,
        0 <= hs <= 15,
        0 <= vs <= 15,
        0 <= tq <= 255,
        s@ == seq![8u8, 0u8, 80u8, 0u8, 250u8, 1u8] + component_bytes(id, hs, vs, tq) + rest,
    ensures
        r is Ok <==> 1 <= hs <= 2 && 1 <= vs <= 2 && tq <= 3,
        r is Ok ==> final(d).wf() && final(d)@ == (super::frame::Header {
            comps: seq![new_component(id, hs, vs, tq)],
            ..old(d)@
        }),
        r is Err ==> r == Err::<(), Error>(
            if hs == 0 || vs == 0 || tq > 3 {
                Error::Format
            } else {
                Error::Unsupported
            },
        ),
{
    lemma_component_refused(old(d)@, id, hs, vs, tq, rest);
    if 1 <= hs <= 2 && 1 <= vs <= 2 && tq <= 3 {
        lemma_gray_frame_read_back(old(d)@, id, hs, vs, tq, rest);
    }
}

/// What is refused in a frame, and as what.
pub proof fn lemma_sof_refused(d: &mut Decoder, s: &[u8], r: Result<(), Error>)
    requires
        old(d).wf(),
        call_ensures(Decoder::sof, (d, s), r),
    ensures
        ({
            let fresh = old(d)@.comps.len() == 0 && s@.len() >= 6;
            &&& !fresh ==> r == Err::<(), Error>(Error::Format)
            &&& fresh && s@[0] != 8 ==> r == Err::<(), Error>(Error::Unsupported)
            &&& fresh && s@[0] == 8 && (s@[5] == 0 || s@.len() < 6 + 3 * s@[5]) ==> r == Err::<
                (),
                Error,
            >(Error::Format)
            &&& fresh && s@[0] == 8 && s@.len() >= 6 + 3 * s@[5] && s@[5] != 0 && s@[5] != 1
                && s@[5] != 3 ==> r == Err::<(), Error>(Error::Unsupported)
            &&& fresh && s@[0] == 8 && s@.len() >= 6 + 3 * s@[5] && (s@[5] == 1 || s@[5] == 3) && (256
                * s@[1] + s@[2] != 80 || 256 * s@[3] + s@[4] != 250) ==> r == Err::<(), Error>(
                Error::Size,
            )
        }),
{
    let h = old(d)@;
    lemma_frame_refused(h, s@);
    if h.comps.len() == 0 && s@.len() >= 6 && s@[0] == 8 && s@.len() >= 6 + 3 * s@[5] && (s@[5] == 1
        || s@[5] == 3) && (256 * s@[1] + s@[2] != 80 || 256 * s@[3] + s@[4] != 250) {
        lemma_other_size(h, s@);
    }
}

/// A Huffman table is built exactly if its counts leave some window over, and for DC no symbol
/// is above 15.
pub proof fn lemma_build_call(
    h: &mut Huff,
    bits: &[u8],
    vals: &[u8],
    dc: bool,
    r: Result<(), Error>,
)
    requires
        (Table { counts: bits@, vals: vals@ }).sized(),
        call_ensures(Huff::build, (h, bits, vals, dc), r),
    ensures
        r is Ok <==> windows_taken(bits@, 16) < 65536 && (dc ==> forall|i: int|
            0 <= i < vals@.len() ==> #[trigger] vals@[i] <= 15),
        r is Ok ==> final(h).wf() && final(h).defined() == Some(
            Table { counts: bits@, vals: vals@ },
        ),
{
    lemma_code_fits(Table { counts: bits@, vals: vals@ });
}

/// Where a stream holds the bits of a number, they are what is taken, and as many bits are
/// used up.
pub proof fn lemma_take_call(b: &mut Bits, k: u32, v: i32, n: int)
    requires
        old(b).wf(),
        call_ensures(Bits::take, (b, k), v),
        1 <= k <= 16,
        0 <= n < pow2(k as nat),
        holds_bits(old(b).stream(), old(b).used@, number_bits(n, k as int)),
    ensures
        v == n,
        final(b).used@ == old(b).used@ + k,
        final(b).stream() == old(b).stream(),
{
    lemma_number_read_back(old(b).stream(), old(b).used@, n, k as int);
}

/// Where a stream holds the code of a symbol, that is the symbol that is read.
pub proof fn lemma_symbol_call(b: &mut Bits, h: Huff, r: Result<u8, Error>, v: u8)
    requires
        old(b).wf(),
        call_ensures(Bits::symbol, (b, &h), r),
        h.table@.sized(),
        h.table@.valid(),
        h.table@.vals.contains(v),
        holds_bits(old(b).stream(), old(b).used@, symbol_bits(h.table@, v)),
    ensures
        r == Ok::<u8, Error>(v),
        final(b).used@ == old(b).used@ + symbol_bits(h.table@, v).len(),
        final(b).stream() == old(b).stream(),
{
    lemma_symbol_read_back(h.table@, old(b).stream(), old(b).used@, v);
}

/// Where a stream holds the bits of an amplitude, that is the amplitude that is read.
pub proof fn lemma_extend_call(b: &mut Bits, s: u8, r: i32, v: int)
    requires
        old(b).wf(),
        call_ensures(Bits::extend, (b, s), r),
        s == bit_size(v),
        holds_bits(old(b).stream(), old(b).used@, amplitude_bits(v)),
    ensures
        r == v,
        final(b).used@ == old(b).used@ + s,
        final(b).stream() == old(b).stream(),
{
    lemma_amplitude_read_back(old(b).stream(), old(b).used@, v);
}

/// Where a stream holds the bits of a block, that is the block that is read, and its DC
/// coefficient predicts the next one.
pub proof fn lemma_block_call(
    b: &mut Bits,
    dc: Huff,
    ac: Huff,
    pred: &mut i32,
    out: &mut [i32; 64],
    r: Result<bool, Error>,
    coef: Seq<i32>,
)
    requires
        old(b).wf(),
        call_ensures(block, (b, &dc, &ac, pred, out), r),
        block_writable(dc.table@, ac.table@, *old(pred) as int, coef),
        holds_bits(
            old(b).stream(),
            old(b).used@,
            block_bits(dc.table@, ac.table@, *old(pred) as int, coef),
        ),
    ensures
        r == Ok::<bool, Error>(has_ac(coef)),
        final(out)@ == coef,
        *final(pred) == coef[0],
        final(b).used@ == old(b).used@ + block_bits(
            dc.table@,
            ac.table@,
            *old(pred) as int,
            coef,
        ).len(),
{
    lemma_block_read_back(
        dc.table@,
        ac.table@,
        old(b).stream(),
        old(b).used@,
        *old(pred) as int,
        coef,
    );
}

/// Decoding twice gives the same, whatever was in the buffers; a file that is refused leaves
/// the image alone, and so is what is behind it.
pub proof fn lemma_decode_calls(
    data: &[u8],
    scratch: &mut [u8],
    gray: &mut [u8],
    r: Result<(), Error>,
    scratch2: &mut [u8],
    gray2: &mut [u8],
    r2: Result<(), Error>,
    i: int,
)
    requires
        call_ensures(decode, (data, scratch, gray), r),
        call_ensures(decode, (data, scratch2, gray2), r2),
        old(gray)@.len() >= 20000,
        old(gray2)@.len() >= 20000,
    ensures
        r == r2,
        r is Ok && 0 <= i < 20000 ==> final(gray)@[i] == final(gray2)@[i],
        r is Ok && 20000 <= i < old(gray)@.len() ==> final(gray)@[i] == old(gray)@[i],
        r is Err ==> final(gray)@ == old(gray)@,
        final(gray)@.len() == old(gray)@.len(),
{
}

/// The end marker makes no difference, nor does what is behind it.
pub proof fn lemma_decode_without_end(
    data: &[u8],
    longer: &[u8],
    scratch: &mut [u8],
    gray: &mut [u8],
    r: Result<(), Error>,
    scratch2: &mut [u8],
    gray2: &mut [u8],
    r2: Result<(), Error>,
    t: Seq<u8>,
    i: int,
)
    requires
        call_ensures(decode, (data, scratch, gray), r),
        call_ensures(decode, (longer, scratch2, gray2), r2),
        r is Ok,
        ends_image(t),
        longer@ == data@ + t,
        0 <= i < 20000,
    ensures
        r2 is Ok,
        final(gray2)@[i] == final(gray)@[i],
{
    lemma_end_marker_optional(data@, t);
}

} // verus!
