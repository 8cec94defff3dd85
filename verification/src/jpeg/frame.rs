//! What the header segments define: tables, components, and how the planes become pixels.

use super::block::zigzag;
use super::color::Up;
use super::huffman::Table;
use super::marker::be16_at;
use super::Error;
use vstd::prelude::*;

verus! {

/// A color component of the frame.
#[verifier::ext_equal]
pub ghost struct Component {
    pub id: u8,
    /// Sampling factors.
    pub h: int,
    pub v: int,
    /// Quantization table, DC and AC Huffman table numbers.
    pub tq: int,
    pub td: int,
    pub ta: int,
    /// Quantization table latched at the component's first scan.
    pub q: Seq<u16>,
    /// A scan of the component was started.
    pub seen: bool,
}

/// Everything the header segments have defined so far.
#[verifier::ext_equal]
pub ghost struct Header {
    pub qt: Seq<Option<Seq<u16>>>,
    pub dc: Seq<Option<Table>>,
    pub ac: Seq<Option<Table>>,
    /// The components of the frame; none before it.
    pub comps: Seq<Component>,
    /// MCUs between restart markers, 0 for none.
    pub restart: int,
    pub jfif: bool,
    /// Color transform of an Adobe segment.
    pub adobe: Option<u8>,
}

/// Row-major index -> zigzag index.
pub const ORDER: [u8; 64] = [
    0, 1, 5, 6, 14, 15, 27, 28, 2, 4, 7, 13, 16, 26, 29, 42, 3, 8, 12, 17, 25, 30, 41, 43, 9, 11,
    18, 24, 31, 40, 44, 53, 10, 19, 23, 32, 39, 45, 52, 54, 20, 22, 33, 38, 46, 51, 55, 60, 21, 34,
    37, 47, 50, 56, 59, 61, 35, 36, 48, 49, 57, 58, 62, 63,
];

/// Zigzag order is a permutation of the block.
pub proof fn lemma_zigzag_permutation(k: int)
    requires
        0 <= k < 64,
    ensures
        0 <= zigzag(k) < 64,
        0 <= ORDER[k] < 64,
        ORDER[zigzag(k)] == k,
        zigzag(ORDER[k] as int) == k,
{
}

/// Nothing defined yet.
pub open spec fn no_header() -> Header {
    Header {
        qt: Seq::new(4, |t: int| None),
        dc: Seq::new(4, |t: int| None),
        ac: Seq::new(4, |t: int| None),
        comps: Seq::empty(),
        restart: 0,
        jfif: false,
        adobe: None,
    }
}

impl Header {
    /// Largest horizontal sampling factor.
    pub open spec fn hmax(self) -> int {
        hmax_of(self.comps, self.comps.len() as int)
    }

    /// Largest vertical sampling factor.
    pub open spec fn vmax(self) -> int {
        vmax_of(self.comps, self.comps.len() as int)
    }

    /// Samples per row of component `k`.
    pub open spec fn width_of(self, k: int) -> int {
        (250 * self.comps[k].h + self.hmax() - 1) / self.hmax()
    }

    /// Rows of component `k`.
    pub open spec fn height_of(self, k: int) -> int {
        (80 * self.comps[k].v + self.vmax() - 1) / self.vmax()
    }

    /// There is a frame, and every component of it was in a scan.
    pub open spec fn complete(self) -> bool {
        &&& self.comps.len() > 0
        &&& forall|k: int| 0 <= k < self.comps.len() ==> (#[trigger] self.comps[k]).seen
    }

    /// The frame's factors and table numbers are in range, and every component is 1x1,
    /// 2x1 or 2x2 smaller than the image.
    pub open spec fn wf(self) -> bool {
        &&& self.qt.len() == 4
        &&& forall|t: int|
            0 <= t < 4 ==> ((#[trigger] self.qt[t]) matches Some(q) ==> q.len() == 64)
        &&& self.dc.len() == 4
        &&& self.ac.len() == 4
        &&& 0 <= self.restart < 65536
        &&& self.comps.len() == 0 || self.comps.len() == 1 || self.comps.len() == 3
        &&& forall|k: int|
            0 <= k < self.comps.len() ==> {
                let c = #[trigger] self.comps[k];
                &&& 1 <= c.h <= 2
                &&& 1 <= c.v <= 2
                &&& 0 <= c.tq <= 3
                &&& 0 <= c.td <= 3
                &&& 0 <= c.ta <= 3
                &&& c.q.len() == 64
                &&& good_ratio(self.hmax() / c.h, self.vmax() / c.v)
            }
    }

    /// How component `k` reaches full resolution.
    pub open spec fn up(self, k: int) -> Up {
        Up {
            h2: self.hmax() > self.comps[k].h,
            v2: self.vmax() > self.comps[k].v,
            dw: self.width_of(k) as usize,
            dh: self.height_of(k) as usize,
        }
    }

    /// The components are red, green and blue: an Adobe segment says so, or, without one,
    /// their names do. A JFIF file is always YCbCr.
    pub open spec fn is_rgb(self) -> bool {
        if self.jfif {
            false
        } else {
            match self.adobe {
                Some(t) => t == 0,
                None => self.comps[0].id == 0x52 && self.comps[1].id == 0x47 && self.comps[2].id
                    == 0x42,
            }
        }
    }
}

/// Largest horizontal factor among the first `n` components.
pub open spec fn hmax_of(comps: Seq<Component>, n: int) -> int
    decreases n,
{
    if n <= 0 {
        1
    } else if comps[n - 1].h > hmax_of(comps, n - 1) {
        comps[n - 1].h
    } else {
        hmax_of(comps, n - 1)
    }
}

/// Largest vertical factor among the first `n` components.
pub open spec fn vmax_of(comps: Seq<Component>, n: int) -> int
    decreases n,
{
    if n <= 0 {
        1
    } else if comps[n - 1].v > vmax_of(comps, n - 1) {
        comps[n - 1].v
    } else {
        vmax_of(comps, n - 1)
    }
}

/// A component this many times narrower and lower than the largest is supported.
pub open spec fn good_ratio(h: int, v: int) -> bool {
    h == 1 && v == 1 || h == 2 && v == 1 || h == 2 && v == 2
}

/// Factors of 1 and 2 have a maximum of 1 or 2 that is among them.
pub proof fn lemma_max_factors(comps: Seq<Component>, n: int)
    requires
        0 <= n <= comps.len(),
        forall|k: int|
            0 <= k < n ==> 1 <= (#[trigger] comps[k]).h <= 2 && 1 <= comps[k].v <= 2,
    ensures
        1 <= hmax_of(comps, n) <= 2,
        1 <= vmax_of(comps, n) <= 2,
        forall|k: int|
            0 <= k < n ==> (#[trigger] comps[k]).h <= hmax_of(comps, n) && comps[k].v <= vmax_of(
                comps,
                n,
            ),
    decreases n,
{
    if n > 0 {
        lemma_max_factors(comps, n - 1);
    }
}

/// The size of a component of a frame, and that it covers the image once enlarged.
pub proof fn lemma_up_wf(h: Header, k: int)
    requires
        h.wf(),
        0 <= k < h.comps.len(),
    ensures
        h.up(k).wf(),
        1 <= h.hmax() <= 2,
        1 <= h.vmax() <= 2,
        h.comps[k].h <= h.hmax(),
        h.comps[k].v <= h.vmax(),
        h.width_of(k) == if h.hmax() > h.comps[k].h {
            125int
        } else {
            250
        },
        h.height_of(k) == if h.vmax() > h.comps[k].v {
            40int
        } else {
            80
        },
        h.up(k).dw == h.width_of(k),
        h.up(k).dh == h.height_of(k),
{
    lemma_max_factors(h.comps, h.comps.len() as int);
    let c = h.comps[k];
    let (a, b) = (h.hmax(), h.vmax());
    assert((a == 1 || a == 2) && (b == 1 || b == 2));
    assert(good_ratio(a / c.h, b / c.v));
    assert(h.width_of(k) == (250 * c.h + a - 1) / a);
    if a == 1 {
        assert(h.width_of(k) == 250);
    } else if c.h == 1 {
        assert(h.width_of(k) == 125);
    } else {
        assert(h.width_of(k) == 250);
    }
    if b == 1 {
        assert(h.height_of(k) == 80);
    } else if c.v == 1 {
        assert(h.height_of(k) == 40);
        let (ch, cv) = (c.h, c.v);
        assert(b / cv == 2) by (nonlinear_arith)
            requires
                b == 2,
                cv == 1,
        ;
        assert(a > ch) by (nonlinear_arith)
            requires
                a / ch == 2,
                1 <= a <= 2,
                1 <= ch <= 2,
        ;
    } else {
        assert(h.height_of(k) == 80);
    }
}

/// Component `i` of a frame header.
pub open spec fn frame_component(s: Seq<u8>, i: int) -> Component {
    Component {
        id: s[6 + 3 * i],
        h: s[7 + 3 * i] as int / 16,
        v: s[7 + 3 * i] as int % 16,
        tq: s[8 + 3 * i] as int,
        td: 0,
        ta: 0,
        q: Seq::new(64, |j: int| 0u16),
        seen: false,
    }
}

/// What is wrong with a component of a frame header.
pub open spec fn component_fault(c: Component) -> Option<Error> {
    if c.h == 0 || c.v == 0 || c.tq > 3 {
        Some(Error::Format)
    } else if c.h > 2 || c.v > 2 {
        Some(Error::Unsupported)
    } else {
        None
    }
}

/// The first fault among the first `n` components.
pub open spec fn first_fault(s: Seq<u8>, n: int) -> Option<Error>
    decreases n,
{
    if n <= 0 {
        None
    } else {
        match first_fault(s, n - 1) {
            Some(e) => Some(e),
            None => component_fault(frame_component(s, n - 1)),
        }
    }
}

/// A frame header segment.
pub open spec fn with_frame(h: Header, s: Seq<u8>) -> Result<Header, Error> {
    if h.comps.len() != 0 || s.len() < 6 {
        Err(Error::Format)
    } else if s[0] != 8 {
        Err(Error::Unsupported)
    } else if s.len() < 6 + 3 * s[5] || s[5] == 0 {
        Err(Error::Format)
    } else if s[5] != 1 && s[5] != 3 {
        Err(Error::Unsupported)
    } else if be16_at(s, 3) != 250 || be16_at(s, 1) != 80 {
        Err(Error::Size)
    } else {
        let n = s[5] as int;
        match first_fault(s, n) {
            Some(e) => Err(e),
            None => {
                let g = Header { comps: Seq::new(n as nat, |i: int| frame_component(s, i)), ..h };
                if forall|k: int|
                    0 <= k < n ==> good_ratio(
                        g.hmax() / (#[trigger] g.comps[k]).h,
                        g.vmax() / g.comps[k].v,
                    ) {
                    Ok(g)
                } else {
                    Err(Error::Unsupported)
                }
            },
        }
    }
}

/// The table at the start of a quantization segment, entries of `p + 1` bytes in zigzag order.
pub open spec fn quant_table(s: Seq<u8>, p: int) -> Seq<u16> {
    Seq::new(
        64,
        |i: int|
            if p == 0 {
                s[1 + ORDER[i]] as u16
            } else {
                be16_at(s, 1 + 2 * ORDER[i]) as u16
            },
    )
}

/// A quantization segment: any number of tables.
pub open spec fn with_quant(h: Header, s: Seq<u8>) -> Option<Header>
    decreases s.len(),
{
    if s.len() == 0 {
        Some(h)
    } else {
        let (p, t) = (s[0] as int / 16, s[0] as int % 16);
        let n = if p == 0 {
            64int
        } else {
            128
        };
        if p > 1 || t > 3 || s.len() < 1 + n {
            None
        } else {
            with_quant(Header { qt: h.qt.update(t, Some(quant_table(s, p))), ..h }, s.skip(1 + n))
        }
    }
}

/// The table at the start of a Huffman segment.
pub open spec fn huff_table(s: Seq<u8>) -> Table {
    let counts = s.subrange(1, 17);
    let n = (Table { counts, vals: Seq::empty() }).first_index(17);
    Table { counts, vals: s.subrange(17, 17 + n) }
}

/// A Huffman segment: any number of tables.
pub open spec fn with_huff(h: Header, s: Seq<u8>) -> Option<Header>
    decreases s.len(),
{
    if s.len() == 0 {
        Some(h)
    } else {
        let (class, t) = (s[0] as int / 16, s[0] as int % 16);
        let n = (Table { counts: s.subrange(1, 17), vals: Seq::empty() }).first_index(17);
        if class > 1 || t > 3 || s.len() < 17 || !(0 <= n <= 256) || s.len() < 17 + n {
            None
        } else {
            let table = huff_table(s);
            if !table.valid() || class == 0 && !table.dc_valid() {
                None
            } else if class == 0 {
                with_huff(Header { dc: h.dc.update(t, Some(table)), ..h }, s.skip(17 + n))
            } else {
                with_huff(Header { ac: h.ac.update(t, Some(table)), ..h }, s.skip(17 + n))
            }
        }
    }
}

} // verus!
