//! Which files are refused, and what segments say of an image.

use super::bits::{bits_at, extended, lemma_bits_prefix, read_symbol, Bits};
use super::block::{ac_from, block_at, lemma_zigzag_range, zigzag};
use super::color::{convert, pixel, Rows};
use super::frame::{
    hmax_of, lemma_max_factors, vmax_of, with_frame, with_huff, with_quant, Component, Header,
};
use super::huffman::{Huff, Table};
use super::image::{after_segment, after_segments, ADOBE, JFIF};
use super::marker::{header_from, is_marker, lemma_marker_from, marker_from};
use super::scan::{with_scan, Progress, Scan};
use super::{decode, Error};
use crate::arith::{wrap16, wrap32};
use vstd::prelude::*;

verus! {

/// A file starts with 0xFF and 0xD8, and two bytes more; else it is refused as broken.
pub proof fn lemma_start_marker(
    data: &[u8],
    scratch: &mut [u8],
    gray: &mut [u8],
    r: Result<(), Error>,
)
    requires
        call_ensures(decode, (data, scratch, gray), r),
        data@.len() < 4 || data@[0] != 0xFF || data@[1] != 0xD8,
    ensures
        r == Err::<(), Error>(Error::Format),
        final(gray)@ == old(gray)@,
{
}

/// At an end marker, and where no marker is left, an image is there exactly if there was a
/// frame and every component of it was in a scan.
pub proof fn lemma_image_end(h: Header, canvas: Seq<Option<u8>>, data: Seq<u8>, pos: int)
    requires
        0 <= pos,
        pos + 1 < data.len() && data[pos] == 0xFF && data[pos + 1] == 0xD9 || pos >= data.len(),
    ensures
        ({
            let r = after_segments(h, canvas, data, pos);
            let all = h.comps.len() > 0 && forall|k: int|
                0 <= k < h.comps.len() ==> (#[trigger] h.comps[k]).seen;
            &&& all ==> r == Ok::<(Header, Seq<Option<u8>>), Error>((h, canvas))
            &&& !all ==> r == Err::<(Header, Seq<Option<u8>>), Error>(Error::Format)
        }),
{
    if pos < data.len() {
        assert(is_marker(data, pos));
    }
}

/// A segment whose length is below two or leads past the end of the file is refused as broken,
/// and so is a second start marker.
pub proof fn lemma_bad_segment(h: Header, canvas: Seq<Option<u8>>, data: Seq<u8>, pos: int)
    requires
        0 <= pos,
        pos + 1 < data.len(),
        data[pos] == 0xFF,
        data[pos + 1] == 0xD8 || {
            &&& data[pos + 1] != 0 && data[pos + 1] != 0xFF && data[pos + 1] != 1
            &&& !(0xD0 <= data[pos + 1] <= 0xD9)
            &&& pos + 4 > data.len() || 256 * data[pos + 2] + data[pos + 3] < 2 || pos + 2 + 256
                * data[pos + 2] + data[pos + 3] > data.len()
        },
    ensures
        after_segments(h, canvas, data, pos) == Err::<(Header, Seq<Option<u8>>), Error>(
            Error::Format,
        ),
{
    assert(is_marker(data, pos));
}

/// What segments are for, by their codes: 0xC0 and 0xC1 are frames, 0xC4 Huffman tables, 0xDB
/// quantization tables and 0xDA scans. A segment of any other code that is not refused leaves
/// the image and its tables.
pub proof fn lemma_segment_kinds(
    h: Header,
    canvas: Seq<Option<u8>>,
    code: u8,
    seg: Seq<u8>,
    data: Seq<u8>,
    pos: int,
)
    ensures
        ({
            let r = after_segment(h, canvas, code, seg, data, pos);
            &&& code == 0xC0 || code == 0xC1 ==> match with_frame(h, seg) {
                Ok(g) => r == Ok::<(Header, Seq<Option<u8>>), Error>((g, canvas)),
                Err(e) => r == Err::<(Header, Seq<Option<u8>>), Error>(e),
            }
            &&& code == 0xC4 ==> match with_huff(h, seg) {
                Some(g) => r == Ok::<(Header, Seq<Option<u8>>), Error>((g, canvas)),
                None => r == Err::<(Header, Seq<Option<u8>>), Error>(Error::Format),
            }
            &&& code == 0xDB ==> match with_quant(h, seg) {
                Some(g) => r == Ok::<(Header, Seq<Option<u8>>), Error>((g, canvas)),
                None => r == Err::<(Header, Seq<Option<u8>>), Error>(Error::Format),
            }
            &&& code == 0xDA ==> match with_scan(h, canvas, seg, data, pos) {
                Some(g) => r == Ok::<(Header, Seq<Option<u8>>), Error>(g),
                None => r == Err::<(Header, Seq<Option<u8>>), Error>(Error::Format),
            }
            &&& code < 0xC0 || code == 0xC8 || code == 0xCC || 0xD0 <= code < 0xDA || code == 0xDC
                || code == 0xDE || code == 0xDF || 0xE0 < code < 0xEE || code >= 0xEF ==> r == Ok::<
                (Header, Seq<Option<u8>>),
                Error,
            >((h, canvas))
        }),
{
}

/// Markers that have no segment are passed over: 0x01 and the restart markers, 0xD0 to 0xD7.
/// So is anything before a marker.
pub proof fn lemma_passed_over(h: Header, canvas: Seq<Option<u8>>, data: Seq<u8>, pos: int)
    requires
        0 <= pos,
        pos + 1 < data.len(),
    ensures
        data[pos] == 0xFF && (data[pos + 1] == 1 || 0xD0 <= data[pos + 1] <= 0xD7)
            ==> after_segments(h, canvas, data, pos) == after_segments(h, canvas, data, pos + 2),
        data[pos] != 0xFF || data[pos + 1] == 0 || data[pos + 1] == 0xFF ==> after_segments(
            h,
            canvas,
            data,
            pos,
        ) == after_segments(h, canvas, data, pos + 1),
{
    if data[pos] == 0xFF && (data[pos + 1] == 1 || 0xD0 <= data[pos + 1] <= 0xD7) {
        assert(is_marker(data, pos));
        assert(header_from(data, pos) == header_from(data, pos + 1));
        assert(!is_marker(data, pos + 1));
        assert(header_from(data, pos + 1) == header_from(data, pos + 2));
    } else if data[pos] != 0xFF || data[pos + 1] == 0 || data[pos + 1] == 0xFF {
        assert(!is_marker(data, pos));
        assert(header_from(data, pos) == header_from(data, pos + 1));
    }
}

/// A JFIF segment is one of code 0xE0 that starts with `JFIF` and a zero. It says that the
/// file is JFIF, and nothing else; other segments of that code say nothing.
pub proof fn lemma_jfif_segment(
    h: Header,
    canvas: Seq<Option<u8>>,
    seg: Seq<u8>,
    data: Seq<u8>,
    pos: int,
)
    ensures
        after_segment(h, canvas, 0xE0, seg, data, pos) == Ok::<(Header, Seq<Option<u8>>), Error>(
            (
                Header {
                    jfif: h.jfif || seg.len() >= 5 && seg[0] == 0x4A && seg[1] == 0x46 && seg[2]
                        == 0x49 && seg[3] == 0x46 && seg[4] == 0,
                    ..h
                },
                canvas,
            ),
        ),
{
    if seg.len() >= 5 {
        let t = seg.subrange(0, 5);
        assert(t[0] == seg[0] && t[1] == seg[1] && t[2] == seg[2] && t[3] == seg[3] && t[4]
            == seg[4]);
        let j = JFIF@;
        assert(j[0] == 0x4A && j[1] == 0x46 && j[2] == 0x49 && j[3] == 0x46 && j[4] == 0);
        if seg[0] == 0x4A && seg[1] == 0x46 && seg[2] == 0x49 && seg[3] == 0x46 && seg[4] == 0 {
            assert(j =~= t);
        }
    }
}

/// An Adobe segment is one of code 0xEE that has twelve bytes or more and starts with `Adobe`.
/// Its twelfth byte says how colors are stored; other segments of that code say nothing.
pub proof fn lemma_adobe_segment(
    h: Header,
    canvas: Seq<Option<u8>>,
    seg: Seq<u8>,
    data: Seq<u8>,
    pos: int,
)
    ensures
        after_segment(h, canvas, 0xEE, seg, data, pos) == Ok::<(Header, Seq<Option<u8>>), Error>(
            (
                Header {
                    adobe: if seg.len() >= 12 && seg[0] == 0x41 && seg[1] == 0x64 && seg[2] == 0x6F
                        && seg[3] == 0x62 && seg[4] == 0x65 {
                        Some(seg[11])
                    } else {
                        h.adobe
                    },
                    ..h
                },
                canvas,
            ),
        ),
{
    if seg.len() >= 12 {
        let t = seg.subrange(0, 5);
        assert(t[0] == seg[0] && t[1] == seg[1] && t[2] == seg[2] && t[3] == seg[3] && t[4]
            == seg[4]);
        let j = ADOBE@;
        assert(j[0] == 0x41 && j[1] == 0x64 && j[2] == 0x6F && j[3] == 0x62 && j[4] == 0x65);
        if seg[0] == 0x41 && seg[1] == 0x64 && seg[2] == 0x6F && seg[3] == 0x62 && seg[4] == 0x65 {
            assert(j =~= t);
        }
    }
}

/// A restart segment of fewer than two bytes is refused as broken.
pub proof fn lemma_short_restart(
    h: Header,
    canvas: Seq<Option<u8>>,
    seg: Seq<u8>,
    data: Seq<u8>,
    pos: int,
)
    ensures
        after_segment(h, canvas, 0xDD, seg, data, pos) is Err <==> seg.len() < 2,
        seg.len() < 2 ==> after_segment(h, canvas, 0xDD, seg, data, pos) == Err::<
            (Header, Seq<Option<u8>>),
            Error,
        >(Error::Format),
{
}

proof fn lemma_some_larger(comps: Seq<Component>, n: int, c: Component)
    requires
        0 <= n <= comps.len(),
        c.h >= 1,
        c.v >= 1,
    ensures
        hmax_of(comps, n) > c.h ==> exists|j: int| 0 <= j < n && (#[trigger] comps[j]).h > c.h,
        vmax_of(comps, n) > c.v ==> exists|j: int| 0 <= j < n && (#[trigger] comps[j]).v > c.v,
    decreases n,
{
    if n > 0 {
        lemma_some_larger(comps, n - 1, c);
    }
}

/// A component is enlarged to twice its width exactly if another has a larger horizontal
/// factor, and to twice its height by the vertical ones. It has half as many samples in that
/// direction.
pub proof fn lemma_enlargement(h: Header, k: int)
    requires
        h.wf(),
        0 <= k < h.comps.len(),
    ensures
        ({
            let u = h.up(k);
            &&& u.h2 <==> exists|j: int|
                0 <= j < h.comps.len() && (#[trigger] h.comps[j]).h > h.comps[k].h
            &&& u.v2 <==> exists|j: int|
                0 <= j < h.comps.len() && (#[trigger] h.comps[j]).v > h.comps[k].v
            &&& u.dw == if u.h2 {
                125int
            } else {
                250
            }
            &&& u.dh == if u.v2 {
                40int
            } else {
                80
            }
        }),
{
    let n = h.comps.len() as int;
    let c = h.comps[k];
    assert(1 <= c.h <= 2 && 1 <= c.v <= 2);
    lemma_max_factors(h.comps, n);
    lemma_some_larger(h.comps, n, c);
    assert(c.h <= h.hmax() && c.v <= h.vmax());
    assert((250 * 1 + 1 - 1) / 1 == 250 && (250 * 1 + 2 - 1) / 2 == 125 && (250 * 2 + 2 - 1) / 2
        == 250);
    assert((80 * 1 + 1 - 1) / 1 == 80 && (80 * 1 + 2 - 1) / 2 == 40 && (80 * 2 + 2 - 1) / 2 == 80);
    if h.hmax() == 1 {
        assert(h.width_of(k) == 250);
    } else if c.h == 1 {
        assert(h.width_of(k) == 125);
    } else {
        assert(h.width_of(k) == 250);
    }
    if h.vmax() == 1 {
        assert(h.height_of(k) == 80);
    } else if c.v == 1 {
        assert(h.height_of(k) == 40);
    } else {
        assert(h.height_of(k) == 80);
    }
}

/// A symbol is read where the bits are one of its table's codes, and no other is: codes of one
/// length are consecutive numbers, and the symbols go by them.
pub proof fn lemma_symbol_is_a_code(b: &mut Bits, h: Huff, r: Result<u8, Error>, l: int)
    requires
        old(b).wf(),
        h.wf(),
        h.ok,
        call_ensures(Bits::symbol, (b, &h), r),
        1 <= l <= 16,
    ensures
        ({
            let (t, s, k) = (h.table@, old(b).stream(), old(b).used@);
            let (c, n) = (bits_at(s, k, l), final(b).used@ - k);
            &&& t.first_code(l) <= c < t.first_code(l) + t.counts[l - 1] ==> r == Ok::<u8, Error>(
                t.vals[t.first_index(l) + c - t.first_code(l)],
            ) && n == l
            &&& r is Ok && n == l ==> t.first_code(l) <= c < t.first_code(l) + t.counts[l - 1]
            &&& r is Ok ==> 1 <= n <= 16
            &&& r is Err ==> n == 0 && r == Err::<u8, Error>(Error::Format)
        }),
{
    let (t, s, k) = (h.table@, old(b).stream(), old(b).used@);
    let w = bits_at(s, k, 16);
    lemma_bits_prefix(s, k, l);
    lemma_bits_prefix(s, k, 16);
    t.lemma_lookup_found(w, 16);
    if t.is_code(l, bits_at(s, k, l)) {
        t.lemma_prefix_free(w, l);
    }
    if let Some((m, v)) = t.lookup(w) {
        lemma_bits_prefix(s, k, m);
    }
}

/// A DC coefficient is the one before and the difference that is read, kept in 32 bits, of
/// which the block gets the lower 16; both wrap around.
pub proof fn lemma_dc_wraps(dc: Table, ac: Table, s: Seq<u8>, bit: int, pred: int)
    requires
        block_at(dc, ac, s, bit, pred) is Some,
    ensures
        ({
            let b = block_at(dc, ac, s, bit, pred).unwrap();
            let (size, after) = read_symbol(dc, s, bit).unwrap();
            let diff = extended(bits_at(s, after, size as int), size as int);
            &&& -0x8000_0000 <= b.pred < 0x8000_0000
            &&& (b.pred - pred - diff) % 0x1_0000_0000 == 0
            &&& -0x8000 <= b.coef[0] < 0x8000
            &&& (b.coef[0] - b.pred) % 0x1_0000 == 0
        }),
{
    let (size, after) = read_symbol(dc, s, bit).unwrap();
    let next = wrap32(pred + extended(bits_at(s, after, size as int), size as int));
    let flat = Seq::new(64, |i: int| 0i32).update(0, wrap16(next) as i32);
    lemma_dc_stays(ac, s, after + size, 1, flat);
    assert(flat[0] == wrap16(next));
}

proof fn lemma_dc_stays(t: Table, s: Seq<u8>, bit: int, k: int, coef: Seq<i32>)
    requires
        1 <= k,
        coef.len() == 64,
    ensures
        ac_from(t, s, bit, k, coef) matches Some((_, c)) ==> c.len() == 64 && c[0] == coef[0],
    decreases 80 - k,
{
    if k < 64 {
        if let Some((rs, after)) = read_symbol(t, s, bit) {
            let (run, size) = (rs as int / 16, rs as int % 16);
            if size == 0 {
                if run == 15 {
                    lemma_dc_stays(t, s, after, k + 16, coef);
                }
            } else if k + run <= 63 {
                lemma_zigzag_range(k + run);
                lemma_dc_stays(
                    t,
                    s,
                    after + size,
                    k + run + 1,
                    coef.update(
                        zigzag(k + run),
                        extended(bits_at(s, after, size), size) as i32,
                    ),
                );
            }
        }
    }
}

/// What a symbol among the AC coefficients does, at index `k` of the zigzag order: without
/// bits, fifteen zeros and one more are skipped, and anything else ends the block. A
/// coefficient behind the last index is refused.
pub proof fn lemma_ac_symbol(t: Table, s: Seq<u8>, bit: int, k: int, coef: Seq<i32>)
    requires
        1 <= k < 64,
        read_symbol(t, s, bit) is Some,
    ensures
        ({
            let (rs, after) = read_symbol(t, s, bit).unwrap();
            let (run, size) = (rs as int / 16, rs as int % 16);
            let r = ac_from(t, s, bit, k, coef);
            &&& size == 0 && run < 15 ==> r == Some((after, coef))
            &&& rs == 0xF0 ==> r == ac_from(t, s, after, k + 16, coef)
            &&& size > 0 && k + run > 63 ==> r is None
        }),
{
}

/// A row is converted pixel by pixel, 250 of them.
pub proof fn lemma_convert_call(rows: Rows, rgb: bool, out: &mut [u8], x: int, l: u8)
    requires
        call_ensures(convert, (&rows, rgb, out), ()),
        0 <= x < old(out)@.len(),
        x < 512,
        call_ensures(pixel, (rgb, rows[0][x], rows[1][x], rows[2][x]), l),
    ensures
        final(out)@.len() == old(out)@.len(),
        x < 250 ==> final(out)@[x] == l,
        x >= 250 ==> final(out)@[x] == old(out)@[x],
{
}

/// Where restarts are on, the next marker after every so many units has to be a restart marker,
/// whatever its number. Reading goes on behind it, with predictors of zero; any other marker
/// is refused. In between nothing happens.
pub proof fn lemma_restart_point(sc: Scan, data: Seq<u8>, p: Progress, m: int, q: int)
    requires
        0 <= p.start <= q,
        q + 1 < data.len(),
        data[q] == 0xFF && data[q + 1] != 0 && data[q + 1] != 0xFF,
        forall|i: int|
            p.start <= i < q ==> data[i] != 0xFF || #[trigger] data[i + 1] == 0 || data[i + 1]
                == 0xFF,
        0 <= m,
    ensures
        ({
            let r = sc.before_mcu(data, p, m);
            let due = sc.header.restart > 0 && m > 0 && m % sc.header.restart == 0;
            &&& !due ==> r == Some(p)
            &&& due && !(0xD0 <= data[q + 1] <= 0xD7) ==> r is None
            &&& due && 0xD0 <= data[q + 1] <= 0xD7 ==> {
                &&& r matches Some(n)
                &&& n.start == q + 2
                &&& n.bit == 0
                &&& n.canvas == p.canvas
                &&& n.preds.len() == 3
                &&& n.preds[0] == 0 && n.preds[1] == 0 && n.preds[2] == 0
            }
        }),
{
    lemma_marker_from(data, p.start);
    assert(is_marker(data, q));
    if let Some((code, end)) = marker_from(data, p.start) {
        if end - 2 < q {
            assert(is_marker(data, end - 2));
            let i = end - 2;
            assert(data[i + 1] != 0);
        }
    }
}

} // verus!
