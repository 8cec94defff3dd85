//! From the segments of a file to its gray image.

use super::color::{
    at, color_pixel, lemma_upsampled_local, lemma_wf_fits, plane_of, rows_to_gray, upsampled, Up,
};
use super::decoder::{Comp, Decoder};
use super::frame::{
    component_fault, first_fault, frame_component, good_ratio, hmax_of, huff_table, lemma_up_wf,
    no_header, quant_table, vmax_of, with_frame, with_huff, with_quant, Header,
};
use super::huffman::Table;
use super::marker::{
    be16, be16_at, header_from, lemma_header_bounds, lemma_header_step, lemma_marker_from,
    next_marker,
};
use super::scan::{
    at_start, component_painted, holds, lemma_scan_paints, lemma_select, scan_header, tail_kept,
    with_scan, Scan,
};
use super::{Error, PLANE, PLANE_W, SCRATCH};
use crate::geometry::{H, W};
use vstd::prelude::*;

verus! {

/// The bytes "JFIF" and a zero, which start a JFIF segment.
pub const JFIF: [u8; 5] = [0x4A, 0x46, 0x49, 0x46, 0];

/// The bytes "Adobe", which start an Adobe segment.
pub const ADOBE: [u8; 5] = [0x41, 0x64, 0x6F, 0x62, 0x65];

/// Frame types other than sequential Huffman: progressive, lossless, arithmetic.
pub open spec fn is_other_frame(code: u8) -> bool {
    0xC2 <= code <= 0xCF && code != 0xC4 && code != 0xC8 && code != 0xCC
}

/// The header and the canvas after one segment; entropy-coded data, if the segment is a
/// scan header, starts at `pos`.
pub open spec fn after_segment(
    h: Header,
    canvas: Seq<Option<u8>>,
    code: u8,
    seg: Seq<u8>,
    data: Seq<u8>,
    pos: int,
) -> Result<(Header, Seq<Option<u8>>), Error> {
    if code == 0xC0 || code == 0xC1 {
        match with_frame(h, seg) {
            Ok(g) => Ok((g, canvas)),
            Err(e) => Err(e),
        }
    } else if is_other_frame(code) {
        Err(Error::Unsupported)
    } else if code == 0xC4 {
        match with_huff(h, seg) {
            Some(g) => Ok((g, canvas)),
            None => Err(Error::Format),
        }
    } else if code == 0xDB {
        match with_quant(h, seg) {
            Some(g) => Ok((g, canvas)),
            None => Err(Error::Format),
        }
    } else if code == 0xDD {
        if seg.len() < 2 {
            Err(Error::Format)
        } else {
            Ok((Header { restart: be16_at(seg, 0), ..h }, canvas))
        }
    } else if code == 0xDA {
        match with_scan(h, canvas, seg, data, pos) {
            Some(r) => Ok(r),
            None => Err(Error::Format),
        }
    } else if code == 0xE0 && JFIF@.is_prefix_of(seg) {
        Ok((Header { jfif: true, ..h }, canvas))
    } else if code == 0xEE && seg.len() >= 12 && ADOBE@.is_prefix_of(seg) {
        Ok((Header { adobe: Some(seg[11]), ..h }, canvas))
    } else {
        Ok((h, canvas))
    }
}

/// The header and the canvas after all segments from `pos` on. A missing end marker is
/// fine, as long as every component was scanned.
pub open spec fn after_segments(
    h: Header,
    canvas: Seq<Option<u8>>,
    data: Seq<u8>,
    pos: int,
) -> Result<(Header, Seq<Option<u8>>), Error>
    decreases data.len() - pos,
    when 0 <= pos
{
    let end = if h.complete() {
        Ok((h, canvas))
    } else {
        Err(Error::Format)
    };
    match header_from(data, pos) {
        None => end,
        Some((code, p)) => if code == 0xD9 {
            end
        } else if code == 0xD8 || p + 2 > data.len() || be16_at(data, p) < 2 || p + be16_at(data, p)
            > data.len() {
            Err(Error::Format)
        } else {
            proof {
                lemma_header_bounds(data, pos);
            }
            let q = p + be16_at(data, p);
            match after_segment(h, canvas, code, data.subrange(p + 2, q), data, q) {
                Err(e) => Err(e),
                Ok((g, c)) => after_segments(g, c, data, q),
            }
        },
    }
}

/// Nothing painted yet.
pub open spec fn blank() -> Seq<Option<u8>> {
    Seq::new(SCRATCH as nat, |i: int| None)
}

/// The painted samples; what was never painted reads as zero.
pub open spec fn samples(canvas: Seq<Option<u8>>) -> Seq<u8> {
    Seq::new(
        canvas.len(),
        |i: int|
            match canvas[i] {
                Some(v) => v,
                None => 0,
            },
    )
}

/// Pixel (`x`, `y`) of the image that the planes hold.
pub open spec fn pixel_at(h: Header, planes: Seq<u8>, y: int, x: int) -> u8 {
    if h.comps.len() == 1 {
        planes[y * 256 + x]
    } else {
        color_pixel(Seq::new(3, |k: int| h.up(k)), planes, h.is_rgb(), y, x) as u8
    }
}

/// The gray image of a file, row-major, or why there is none.
pub open spec fn decoded(data: Seq<u8>) -> Result<Seq<u8>, Error> {
    if data.len() < 4 || data[0] != 0xFF || data[1] != 0xD8 {
        Err(Error::Format)
    } else {
        match after_segments(no_header(), blank(), data, 2) {
            Err(e) => Err(e),
            Ok((h, canvas)) => Ok(
                Seq::new(20000, |i: int| pixel_at(h, samples(canvas), i / 250, i % 250)),
            ),
        }
    }
}

/// Every sample of every component that was in a scan is painted.
pub open spec fn scanned_painted(h: Header, canvas: Seq<Option<u8>>) -> bool {
    &&& h.wf()
    &&& canvas.len() == SCRATCH
    &&& forall|k: int|
        0 <= k < h.comps.len() && (#[trigger] h.comps[k]).seen ==> component_painted(h, canvas, k)
}

proof fn lemma_quant_keeps(h: Header, s: Seq<u8>)
    requires
        h.wf(),
    ensures
        with_quant(h, s) matches Some(g) ==> g.wf() && g.comps == h.comps,
    decreases s.len(),
{
    if s.len() > 0 {
        let (p, t) = (s[0] as int / 16, s[0] as int % 16);
        let n = if p == 0 {
            64int
        } else {
            128
        };
        if !(p > 1 || t > 3 || s.len() < 1 + n) {
            let g = Header { qt: h.qt.update(t, Some(quant_table(s, p))), ..h };
            assert(g.wf()) by {
                assert forall|k: int| 0 <= k < g.comps.len() implies {
                    let c = #[trigger] g.comps[k];
                    &&& 1 <= c.h <= 2
                    &&& 1 <= c.v <= 2
                    &&& 0 <= c.tq <= 3
                    &&& 0 <= c.td <= 3
                    &&& 0 <= c.ta <= 3
                    &&& c.q.len() == 64
                    &&& good_ratio(g.hmax() / c.h, g.vmax() / c.v)
                } by {
                    assert(h.comps[k] == g.comps[k]);
                }
            }
            lemma_quant_keeps(g, s.skip(1 + n));
        }
    }
}

proof fn lemma_huff_keeps(h: Header, s: Seq<u8>)
    requires
        h.wf(),
    ensures
        with_huff(h, s) matches Some(g) ==> g.wf() && g.comps == h.comps,
    decreases s.len(),
{
    if s.len() > 0 {
        let (class, t) = (s[0] as int / 16, s[0] as int % 16);
        let n = (Table { counts: s.subrange(1, 17), vals: Seq::empty() }).first_index(17);
        if !(class > 1 || t > 3 || s.len() < 17 || !(0 <= n <= 256) || s.len() < 17 + n) {
            let table = huff_table(s);
            lemma_huff_keeps(Header { dc: h.dc.update(t, Some(table)), ..h }, s.skip(17 + n));
            lemma_huff_keeps(Header { ac: h.ac.update(t, Some(table)), ..h }, s.skip(17 + n));
        }
    }
}

/// A frame header describes a well-formed frame that no scan has touched.
proof fn lemma_frame_fresh(h: Header, s: Seq<u8>)
    requires
        h.wf(),
    ensures
        with_frame(h, s) matches Ok(g) ==> g.wf() && forall|k: int|
            0 <= k < g.comps.len() ==> !(#[trigger] g.comps[k]).seen,
{
    if let Ok(g) = with_frame(h, s) {
        let n = s[5] as int;
        lemma_no_fault(s, n);
        assert forall|k: int| 0 <= k < g.comps.len() implies {
            let c = #[trigger] g.comps[k];
            &&& 1 <= c.h <= 2
            &&& 1 <= c.v <= 2
            &&& 0 <= c.tq <= 3
            &&& 0 <= c.td <= 3
            &&& 0 <= c.ta <= 3
            &&& c.q.len() == 64
            &&& good_ratio(g.hmax() / c.h, g.vmax() / c.v)
        } by {
            assert(component_fault(frame_component(s, k)) is None);
        }
    }
}

proof fn lemma_no_fault(s: Seq<u8>, n: int)
    requires
        first_fault(s, n) is None,
    ensures
        forall|k: int| 0 <= k < n ==> component_fault(#[trigger] frame_component(s, k)) is None,
    decreases n,
{
    if n > 0 {
        lemma_no_fault(s, n - 1);
    }
}

/// A scan paints its components and spoils none.
proof fn lemma_scan_keeps(
    h: Header,
    canvas: Seq<Option<u8>>,
    s: Seq<u8>,
    data: Seq<u8>,
    pos: int,
)
    requires
        scanned_painted(h, canvas),
    ensures
        with_scan(h, canvas, s, data, pos) matches Some((g, c)) ==> scanned_painted(g, c),
{
    if let Some((g, c)) = with_scan(h, canvas, s, data, pos) {
        let n = s[0] as int;
        lemma_select(h, s, n);
        let list = scan_header(h, s).unwrap().1;
        let sc = Scan { header: g, list };
        assert(sc.wf());
        lemma_scan_paints(sc, data, at_start(pos, canvas), list[0]);
        assert(list.contains(list[0]));
        assert forall|k: int| 0 <= k < g.comps.len() && (#[trigger] g.comps[k]).seen implies component_painted(
            g,
            c,
            k,
        ) by {
            if list.contains(k) {
                lemma_scan_paints(sc, data, at_start(pos, canvas), k);
            } else {
                assert(h.comps[k] == g.comps[k]);
                lemma_up_wf(h, k);
                lemma_up_wf(g, k);
                assert(component_painted(h, canvas, k));
                assert forall|y: int, x: int|
                    0 <= y < g.height_of(k) && 0 <= x < g.width_of(k) implies #[trigger] c[k * 20480
                    + y * 256 + x] is Some by {
                    assert(canvas[k * 20480 + y * 256 + x] is Some);
                }
            }
        }
    }
}

proof fn lemma_segment_keeps(
    h: Header,
    canvas: Seq<Option<u8>>,
    code: u8,
    seg: Seq<u8>,
    data: Seq<u8>,
    pos: int,
)
    requires
        scanned_painted(h, canvas),
    ensures
        after_segment(h, canvas, code, seg, data, pos) matches Ok((g, c)) ==> scanned_painted(g, c),
{
    if let Ok((g, c)) = after_segment(h, canvas, code, seg, data, pos) {
        lemma_frame_fresh(h, seg);
        lemma_huff_keeps(h, seg);
        lemma_quant_keeps(h, seg);
        lemma_scan_keeps(h, canvas, seg, data, pos);
        if code != 0xDA && g.comps == h.comps {
            assert forall|k: int| 0 <= k < g.comps.len() && (#[trigger] g.comps[k]).seen implies component_painted(
                g,
                c,
                k,
            ) by {
                assert(h.comps[k].seen);
                assert(component_painted(h, canvas, k));
            }
        }
    }
}

/// A file that decodes paints every sample that its image is made of.
pub proof fn lemma_segments_paint(h: Header, canvas: Seq<Option<u8>>, data: Seq<u8>, pos: int)
    requires
        0 <= pos,
        scanned_painted(h, canvas),
    ensures
        after_segments(h, canvas, data, pos) matches Ok((g, c)) ==> scanned_painted(g, c)
            && g.complete(),
    decreases data.len() - pos,
{
    lemma_header_bounds(data, pos);
    if let Some((code, p)) = header_from(data, pos) {
        if code != 0xD9 && !(code == 0xD8 || p + 2 > data.len() || be16_at(data, p) < 2 || p
            + be16_at(data, p) > data.len()) {
            let q = p + be16_at(data, p);
            let seg = data.subrange(p + 2, q);
            lemma_segment_keeps(h, canvas, code, seg, data, q);
            if let Ok((g, c)) = after_segment(h, canvas, code, seg, data, q) {
                lemma_segments_paint(g, c, data, q);
            }
        }
    }
}

/// A pixel is made of painted samples alone: it is the same whatever the planes held before.
pub proof fn lemma_pixel_painted(
    h: Header,
    canvas: Seq<Option<u8>>,
    planes: Seq<u8>,
    y: int,
    x: int,
)
    requires
        scanned_painted(h, canvas),
        h.complete(),
        holds(planes, canvas),
        0 <= y < 80,
        0 <= x < 250,
    ensures
        pixel_at(h, planes, y, x) == pixel_at(h, samples(canvas), y, x),
{
    let all = samples(canvas);
    if h.comps.len() == 1 {
        lemma_up_wf(h, 0);
        assert(h.hmax() == h.comps[0].h) by {
            reveal_with_fuel(hmax_of, 2);
        }
        assert(h.vmax() == h.comps[0].v) by {
            reveal_with_fuel(vmax_of, 2);
        }
        assert(h.comps[0].seen);
        assert(component_painted(h, canvas, 0));
        assert(canvas[0 * 20480 + y * 256 + x] is Some);
    } else {
        assert forall|k: int| 0 <= k < 3 implies upsampled(
            #[trigger] h.up(k),
            plane_of(planes, k),
            y,
            x,
        ) == upsampled(h.up(k), plane_of(all, k), y, x) by {
            lemma_up_wf(h, k);
            assert(h.comps[k].seen);
            assert(component_painted(h, canvas, k));
            let (p, q) = (plane_of(planes, k), plane_of(all, k));
            assert forall|r: int, c: int|
                0 <= r < h.up(k).dh && 0 <= c < h.up(k).dw implies #[trigger] at(p, r, c) == at(
                q,
                r,
                c,
            ) by {
                assert(canvas[k * 20480 + r * 256 + c] is Some);
            }
            lemma_upsampled_local(h.up(k), p, q, y, x);
        }
        assert(h.up(0) == h.up(0) && h.up(1) == h.up(1) && h.up(2) == h.up(2));
    }
}

impl Decoder {
    /// The planes as a gray image.
    pub fn to_gray(&self, planes: &[u8], gray: &mut [u8])
        requires
            self.wf(),
            self@.comps.len() > 0,
            planes@.len() >= SCRATCH,
            old(gray)@.len() >= W * H,
        ensures
            final(gray)@.len() == old(gray)@.len(),
            forall|i: int|
                0 <= i < old(gray)@.len() ==> #[trigger] final(gray)@[i] == if i < W * H {
                    pixel_at(self@, planes@, i / 250, i % 250)
                } else {
                    old(gray)@[i]
                },
    {
        if self.ncomp == 1 {
            let mut y: usize = 0;
            while y < H
                invariant
                    y <= H,
                    planes@.len() >= SCRATCH,
                    self@.comps.len() == 1,
                    gray@.len() == old(gray)@.len(),
                    gray@.len() >= W * H,
                    forall|i: int|
                        0 <= i < gray@.len() ==> #[trigger] gray@[i] == if i < y * W {
                            pixel_at(self@, planes@, i / 250, i % 250)
                        } else {
                            old(gray)@[i]
                        },
                decreases H - y,
            {
                let mut x: usize = 0;
                while x < W
                    invariant
                        y < H,
                        x <= W,
                        planes@.len() >= SCRATCH,
                        self@.comps.len() == 1,
                        gray@.len() == old(gray)@.len(),
                        gray@.len() >= W * H,
                        forall|i: int|
                            0 <= i < gray@.len() ==> #[trigger] gray@[i] == if i < y * W + x {
                                pixel_at(self@, planes@, i / 250, i % 250)
                            } else {
                                old(gray)@[i]
                            },
                    decreases W - x,
                {
                    let i: usize = y * W + x;
                    assert(i as int / 250 == y && i as int % 250 == x);
                    gray[i] = planes[y * PLANE_W + x];
                    x += 1;
                }
                y += 1;
            }
            return;
        }
        let rgb: bool = if self.jfif {
            false
        } else {
            match self.adobe {
                Some(t) => t == 0,
                None => self.comps[0].id == 0x52 && self.comps[1].id == 0x47 && self.comps[2].id
                    == 0x42,
            }
        };
        let up: [Up; 3] = [self.up(0), self.up(1), self.up(2)];
        proof {
            assert(self@.comps[0] == self.comps[0]@);
            assert(self@.comps[1] == self.comps[1]@);
            assert(self@.comps[2] == self.comps[2]@);
            assert(rgb == self@.is_rgb());
            assert(up@ =~= Seq::new(3, |k: int| self@.up(k)));
            lemma_up_wf(self@, 0);
            lemma_up_wf(self@, 1);
            lemma_up_wf(self@, 2);
        }
        proof {
            assert forall|k: int, y: int| 0 <= k < 3 && 0 <= y < H implies #[trigger] up[k].fits(
                PLANE as int,
                y,
            ) by {
                assert(up[k].wf());
                lemma_wf_fits(up[k], y);
            }
        }
        rows_to_gray(&up, planes, rgb, gray);
    }

    /// How component `k` reaches full resolution.
    fn up(&self, k: usize) -> (u: Up)
        requires
            self.wf(),
            k < self.ncomp,
        ensures
            u == self@.up(k as int),
            u.wf(),
    {
        proof {
            lemma_up_wf(self@, k as int);
            assert(self@.comps[k as int] == self.comps[k as int]@);
        }
        let c: &Comp = &self.comps[k];
        let dw: usize = (W * c.h + self.hmax - 1) / self.hmax;
        let dh: usize = (H * c.v + self.vmax - 1) / self.vmax;
        Up { h2: self.hmax > c.h, v2: self.vmax > c.v, dw, dh }
    }
}

/// Whether `s` starts with the five bytes `p`.
fn starts_with(s: &[u8], p: &[u8; 5]) -> (r: bool)
    ensures
        r == p@.is_prefix_of(s@),
{
    if s.len() < 5 {
        return false;
    }
    let mut i: usize = 0;
    while i < 5
        invariant
            i <= 5 <= s@.len(),
            forall|j: int| 0 <= j < i ==> s@[j] == p@[j],
        decreases 5 - i,
    {
        if s[i] != p[i] {
            assert(s@.subrange(0, 5)[i as int] != p@[i as int]);
            return false;
        }
        i += 1;
    }
    assert(p@ =~= s@.subrange(0, 5));
    true
}

impl Decoder {
    /// Takes in one segment; a scan's entropy-coded data starts at `pos`. Returns where to
    /// look for the next marker.
    fn segment(
        &mut self,
        code: u8,
        seg: &[u8],
        data: &[u8],
        pos: usize,
        planes: &mut [u8],
        Ghost(canvas): Ghost<Seq<Option<u8>>>,
    ) -> (r: Result<usize, Error>)
        requires
            old(self).wf(),
            pos <= data@.len(),
            holds(old(planes)@, canvas),
        ensures
            tail_kept(old(planes)@, final(planes)@),
            match after_segment(old(self)@, canvas, code, seg@, data@, pos as int) {
                Err(e) => r == Err::<usize, Error>(e),
                Ok((g, c)) => {
                    &&& r matches Ok(end)
                    &&& pos <= end <= data@.len()
                    &&& header_from(data@, end as int) == header_from(data@, pos as int)
                    &&& final(self).wf()
                    &&& final(self)@ == g
                    &&& holds(final(planes)@, c)
                },
            },
    {
        match code {
            0xC0 | 0xC1 => match self.sof(seg) {
                Ok(()) => Ok(pos),
                Err(e) => Err(e),
            },
            0xC2 | 0xC3 | 0xC5..=0xC7 | 0xC9..=0xCB | 0xCD..=0xCF => Err(Error::Unsupported),
            0xC4 => match self.dht(seg) {
                Ok(()) => Ok(pos),
                Err(e) => Err(e),
            },
            0xDB => match self.dqt(seg) {
                Ok(()) => Ok(pos),
                Err(e) => Err(e),
            },
            0xDD => match be16(seg, 0) {
                Ok(n) => {
                    self.restart = n;
                    assert(self@ =~~= Header { restart: n as int, ..old(self)@ });
                    proof {
                        lemma_wf_same_frame(old(self)@, self@);
                    }
                    Ok(pos)
                },
                Err(e) => Err(e),
            },
            0xDA => self.sos(seg, data, pos, planes, Ghost(canvas)),
            0xE0 => {
                if starts_with(seg, &JFIF) {
                    self.jfif = true;
                    assert(self@ =~~= Header { jfif: true, ..old(self)@ });
                    proof {
                        lemma_wf_same_frame(old(self)@, self@);
                    }
                }
                Ok(pos)
            },
            0xEE => {
                if seg.len() >= 12 && starts_with(seg, &ADOBE) {
                    self.adobe = Some(seg[11]);
                    assert(self@ =~~= Header { adobe: Some(seg@[11]), ..old(self)@ });
                    proof {
                        lemma_wf_same_frame(old(self)@, self@);
                    }
                }
                Ok(pos)
            },
            _ => Ok(pos),
        }
    }
}

/// Well-formedness rests on the frame and the tables.
proof fn lemma_wf_same_frame(h: Header, g: Header)
    requires
        h.wf(),
        g.comps == h.comps,
        g.qt == h.qt,
        g.dc == h.dc,
        g.ac == h.ac,
        0 <= g.restart < 65536,
    ensures
        g.wf(),
        g.hmax() == h.hmax(),
        g.vmax() == h.vmax(),
{
}

/// What follows a position rests on the next header marker.
proof fn lemma_same_header(
    h: Header,
    canvas: Seq<Option<u8>>,
    data: Seq<u8>,
    a: int,
    b: int,
)
    requires
        0 <= a,
        0 <= b,
        header_from(data, a) == header_from(data, b),
    ensures
        after_segments(h, canvas, data, a) == after_segments(h, canvas, data, b),
{
}

/// Reads the segments of a file from `start` on, painting the planes.
pub fn read_segments(d: &mut Decoder, data: &[u8], start: usize, planes: &mut [u8]) -> (r: Result<
    (),
    Error,
>)
    requires
        old(d).wf(),
        start <= data@.len(),
        old(planes)@.len() >= SCRATCH,
    ensures
        tail_kept(old(planes)@, final(planes)@),
        match after_segments(old(d)@, blank(), data@, start as int) {
            Err(e) => r == Err::<(), Error>(e),
            Ok((g, c)) => {
                &&& r == Ok::<(), Error>(())
                &&& final(d).wf()
                &&& final(d)@ == g
                &&& holds(final(planes)@, c)
            },
        },
{
    let ghost mut canvas = blank();
    let mut pos: usize = start;
    let n: usize = data.len();
    loop
        invariant
            n == data@.len(),
            pos <= n,
            d.wf(),
            holds(planes@, canvas),
            tail_kept(old(planes)@, planes@),
            after_segments(d@, canvas, data@, pos as int) == after_segments(
                old(d)@,
                blank(),
                data@,
                start as int,
            ),
        decreases n - pos,
    {
        proof {
            lemma_header_step(data@, pos as int);
            lemma_header_bounds(data@, pos as int);
        }
        let (code, p): (u8, usize) = match next_marker(data, pos) {
            Ok(x) => x,
            // A missing end marker after complete scans is only worth a warning.
            Err(e) => {
                return if d.complete() {
                    Ok(())
                } else {
                    Err(e)
                };
            },
        };
        proof {
            lemma_marker_from(data@, pos as int);
        }
        if code == 0xD9 {
            return if d.complete() {
                Ok(())
            } else {
                Err(Error::Format)
            };
        }
        if code == 0xD8 {
            return Err(Error::Format);
        }
        if code == 0x01 || 0xD0 <= code && code <= 0xD7 {
            proof {
                lemma_same_header(d@, canvas, data@, pos as int, p as int);
            }
            pos = p;
            continue;
        }
        let len: usize = match be16(data, p) {
            Ok(len) => len,
            Err(e) => {
                return Err(e);
            },
        };
        if len < 2 || len > n - p {
            return Err(Error::Format);
        }
        let q: usize = p + len;
        let seg: &[u8] = &data[p + 2..q];
        let ghost (h0, c0) = (d@, canvas);
        match d.segment(code, seg, data, q, planes, Ghost(canvas)) {
            Ok(end) => {
                proof {
                    let (g, c) = after_segment(h0, c0, code, seg@, data@, q as int).unwrap();
                    canvas = c;
                    lemma_same_header(g, c, data@, q as int, end as int);
                }
                pos = end;
            },
            Err(e) => {
                return Err(e);
            },
        }
    }
}

} // verus!
