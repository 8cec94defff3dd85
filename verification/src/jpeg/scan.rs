//! Scans: which components they hold, and the blocks they paint onto the planes.

use super::bits::{entropy_bytes, Bits};
use super::block::{block, block_at};
use super::decoder::{Comp, Decoder};
use super::frame::{good_ratio, hmax_of, lemma_up_wf, vmax_of, Component, Header};
use super::idct::{idct, idct_flat, in_block, sample};
use super::marker::{
    header_from, lemma_header_step, lemma_marker_from, marker_from, next_marker, only_restarts,
};
use super::{Error, PLANE, PLANE_W, SCRATCH};
use crate::geometry::{H, W};
use vstd::prelude::*;

verus! {

/// The first component with the given id.
pub open spec fn find_component(comps: Seq<Component>, id: u8, from: int) -> Option<int>
    decreases comps.len() - from,
{
    if from >= comps.len() {
        None
    } else if comps[from].id == id {
        Some(from)
    } else {
        find_component(comps, id, from + 1)
    }
}

/// The header and the component list after the first `n` entries of a scan header: each
/// names a component and its Huffman tables, which have to be defined, as does the
/// component's quantization table. That is latched the first time.
pub open spec fn select(h: Header, s: Seq<u8>, n: int) -> Option<(Header, Seq<int>)>
    decreases n,
{
    if n <= 0 {
        Some((h, Seq::empty()))
    } else {
        match select(h, s, n - 1) {
            None => None,
            Some((g, list)) => match find_component(g.comps, s[2 * n - 1], 0) {
                None => None,
                Some(ci) => {
                    let c = g.comps[ci];
                    let (td, ta) = (s[2 * n] as int / 16, s[2 * n] as int % 16);
                    if td > 3 || ta > 3 || g.dc[td] is None || g.ac[ta] is None || g.qt[c.tq] is None {
                        None
                    } else {
                        let q = if c.seen {
                            c.q
                        } else {
                            g.qt[c.tq].unwrap()
                        };
                        let comp = Component { td, ta, q, seen: true, ..c };
                        Some((Header { comps: g.comps.update(ci, comp), ..g }, list.push(ci)))
                    }
                },
            },
        }
    }
}

/// A scan header segment: the header with the scan's components set up, and their list.
pub open spec fn scan_header(h: Header, s: Seq<u8>) -> Option<(Header, Seq<int>)> {
    if s.len() == 0 || h.comps.len() == 0 || s[0] == 0 || s[0] > h.comps.len() || s.len() < 4 + 2
        * s[0] {
        None
    } else {
        select(h, s, s[0] as int)
    }
}

/// A scan: the header it runs under, and the components it holds.
pub ghost struct Scan {
    pub header: Header,
    pub list: Seq<int>,
}

/// How far a scan has come: where its current entropy-coded segment starts, the bits
/// taken from it, the DC predictors, and the samples painted so far.
#[verifier::ext_equal]
pub ghost struct Progress {
    pub start: int,
    pub bit: int,
    pub preds: Seq<int>,
    pub canvas: Seq<Option<u8>>,
}

/// `canvas` with the block of component `ci` at (`bx`, `by`) painted.
pub open spec fn paint(
    canvas: Seq<Option<u8>>,
    ci: int,
    bx: int,
    by: int,
    coef: Seq<i32>,
    q: Seq<u16>,
) -> Seq<Option<u8>> {
    Seq::new(
        canvas.len(),
        |i: int|
            {
                let o = i - (ci * 20480 + by * 2048 + bx * 8);
                if in_block(o) {
                    Some(sample(coef, q, o / 256, o % 256))
                } else {
                    canvas[i]
                }
            },
    )
}

impl Scan {
    /// Blocks of component `ci` per MCU, across. A scan of one component walks its own
    /// block grid, one block per MCU.
    pub open spec fn across(self, ci: int) -> int {
        if self.list.len() == 1 {
            1
        } else {
            self.header.comps[ci].h
        }
    }

    /// Blocks of component `ci` per MCU, down.
    pub open spec fn down(self, ci: int) -> int {
        if self.list.len() == 1 {
            1
        } else {
            self.header.comps[ci].v
        }
    }

    /// MCUs per row.
    pub open spec fn mcux(self) -> int {
        if self.list.len() == 1 {
            (self.header.width_of(self.list[0]) + 7) / 8
        } else {
            (250 + 8 * self.header.hmax() - 1) / (8 * self.header.hmax())
        }
    }

    /// Rows of MCUs.
    pub open spec fn mcuy(self) -> int {
        if self.list.len() == 1 {
            (self.header.height_of(self.list[0]) + 7) / 8
        } else {
            (80 + 8 * self.header.vmax() - 1) / (8 * self.header.vmax())
        }
    }

    /// The scan after one more block.
    pub open spec fn after_block(
        self,
        data: Seq<u8>,
        p: Progress,
        ci: int,
        bx: int,
        by: int,
    ) -> Option<Progress> {
        let c = self.header.comps[ci];
        match block_at(
            self.header.dc[c.td].unwrap(),
            self.header.ac[c.ta].unwrap(),
            entropy_bytes(data, p.start),
            p.bit,
            p.preds[ci],
        ) {
            None => None,
            Some(b) => Some(
                Progress {
                    start: p.start,
                    bit: b.end,
                    preds: p.preds.update(ci, b.pred),
                    canvas: paint(p.canvas, ci, bx, by, b.coef, c.q),
                },
            ),
        }
    }

    /// The scan after the first `n` blocks of component `ci` in MCU (`mx`, `my`).
    pub open spec fn after_blocks(
        self,
        data: Seq<u8>,
        p: Progress,
        ci: int,
        mx: int,
        my: int,
        n: int,
    ) -> Option<Progress>
        decreases n,
    {
        if n <= 0 {
            Some(p)
        } else {
            match self.after_blocks(data, p, ci, mx, my, n - 1) {
                None => None,
                Some(r) => self.after_block(
                    data,
                    r,
                    ci,
                    mx * self.across(ci) + (n - 1) % self.across(ci),
                    my * self.down(ci) + (n - 1) / self.across(ci),
                ),
            }
        }
    }

    /// The scan after the first `n` components of MCU (`mx`, `my`).
    pub open spec fn after_components(
        self,
        data: Seq<u8>,
        p: Progress,
        mx: int,
        my: int,
        n: int,
    ) -> Option<Progress>
        decreases n,
    {
        if n <= 0 {
            Some(p)
        } else {
            match self.after_components(data, p, mx, my, n - 1) {
                None => None,
                Some(r) => {
                    let ci = self.list[n - 1];
                    self.after_blocks(data, r, ci, mx, my, self.across(ci) * self.down(ci))
                },
            }
        }
    }

    /// Before MCU `m`: after every `restart` MCUs comes a restart marker, where a new
    /// segment starts and the predictors are zero.
    pub open spec fn before_mcu(self, data: Seq<u8>, p: Progress, m: int) -> Option<Progress> {
        if self.header.restart > 0 && m > 0 && m % self.header.restart == 0 {
            match marker_from(data, p.start) {
                Some((code, end)) => if 0xD0 <= code <= 0xD7 {
                    Some(at_start(end, p.canvas))
                } else {
                    None
                },
                None => None,
            }
        } else {
            Some(p)
        }
    }

    /// The scan after MCU `m`.
    pub open spec fn after_mcu(self, data: Seq<u8>, p: Progress, m: int) -> Option<Progress> {
        match self.before_mcu(data, p, m) {
            None => None,
            Some(r) => self.after_components(
                data,
                r,
                m % self.mcux(),
                m / self.mcux(),
                self.list.len() as int,
            ),
        }
    }

    /// The scan after the first `m` MCUs.
    pub open spec fn after_mcus(self, data: Seq<u8>, p: Progress, m: int) -> Option<Progress>
        decreases m,
    {
        if m <= 0 {
            Some(p)
        } else {
            match self.after_mcus(data, p, m - 1) {
                None => None,
                Some(r) => self.after_mcu(data, r, m - 1),
            }
        }
    }
}

/// A scan about to read the segment at `pos`.
pub open spec fn at_start(pos: int, canvas: Seq<Option<u8>>) -> Progress {
    Progress { start: pos, bit: 0, preds: Seq::new(3, |k: int| 0), canvas }
}

/// The header and the canvas after a scan whose entropy-coded data starts at `pos`.
pub open spec fn with_scan(
    h: Header,
    canvas: Seq<Option<u8>>,
    s: Seq<u8>,
    data: Seq<u8>,
    pos: int,
) -> Option<(Header, Seq<Option<u8>>)> {
    match scan_header(h, s) {
        None => None,
        Some((header, list)) => {
            let sc = Scan { header, list };
            match sc.after_mcus(data, at_start(pos, canvas), sc.mcux() * sc.mcuy()) {
                None => None,
                Some(r) => Some((header, r.canvas)),
            }
        },
    }
}

/// Two headers describe frames of the same shape.
pub open spec fn same_frame(g: Header, h: Header) -> bool {
    &&& g.comps.len() == h.comps.len()
    &&& forall|k: int|
        0 <= k < h.comps.len() ==> {
            let (a, b) = (#[trigger] g.comps[k], h.comps[k]);
            &&& a.id == b.id
            &&& a.h == b.h
            &&& a.v == b.v
            &&& a.tq == b.tq
        }
}

proof fn lemma_same_max(a: Seq<Component>, b: Seq<Component>, n: int)
    requires
        0 <= n <= a.len() == b.len(),
        forall|k: int| 0 <= k < n ==> (#[trigger] a[k]).h == b[k].h && a[k].v == b[k].v,
    ensures
        hmax_of(a, n) == hmax_of(b, n),
        vmax_of(a, n) == vmax_of(b, n),
    decreases n,
{
    if n > 0 {
        lemma_same_max(a, b, n - 1);
    }
}

proof fn lemma_find(comps: Seq<Component>, id: u8, from: int)
    requires
        0 <= from,
    ensures
        find_component(comps, id, from) matches Some(k) ==> from <= k < comps.len(),
    decreases comps.len() - from,
{
    if from < comps.len() {
        lemma_find(comps, id, from + 1);
    }
}

impl Scan {
    /// The scan's components are components of its frame, their tables are defined, and
    /// they count as seen.
    pub open spec fn wf(self) -> bool {
        &&& self.header.wf()
        &&& 1 <= self.list.len() <= self.header.comps.len()
        &&& forall|i: int|
            0 <= i < self.list.len() ==> listed(self.header, #[trigger] self.list[i])
    }
}

/// Component `ci` can be decoded.
pub open spec fn listed(h: Header, ci: int) -> bool {
    &&& 0 <= ci < h.comps.len()
    &&& h.comps[ci].seen
    &&& h.dc[h.comps[ci].td] is Some
    &&& h.ac[h.comps[ci].ta] is Some
}

/// What a scan header selects is well formed; it keeps the frame's shape and the tables,
/// and marks just the scan's components as seen.
pub proof fn lemma_select(h: Header, s: Seq<u8>, n: int)
    requires
        h.wf(),
        0 <= n,
        h.comps.len() > 0,
    ensures
        select(h, s, n) matches Some((g, list)) ==> {
            &&& g.wf()
            &&& same_frame(g, h)
            &&& g.hmax() == h.hmax()
            &&& g.vmax() == h.vmax()
            &&& g.qt == h.qt
            &&& g.dc == h.dc
            &&& g.ac == h.ac
            &&& g.restart == h.restart
            &&& list.len() == n
            &&& forall|i: int| 0 <= i < n ==> listed(g, #[trigger] list[i])
            &&& forall|k: int|
                0 <= k < h.comps.len() && !list.contains(k) ==> #[trigger] g.comps[k] == h.comps[k]
        },
    decreases n,
{
    if n > 0 {
        lemma_select(h, s, n - 1);
        if let Some((g, list)) = select(h, s, n - 1) {
            lemma_find(g.comps, s[2 * n - 1], 0);
            if let Some((g2, list2)) = select(h, s, n) {
                let ci = find_component(g.comps, s[2 * n - 1], 0).unwrap();
                assert(list2 == list.push(ci));
                lemma_same_max(g2.comps, g.comps, g.comps.len() as int);
                assert forall|k: int| 0 <= k < h.comps.len() && !list2.contains(k) implies
                    #[trigger] g2.comps[k] == h.comps[k] by {
                    assert(list2[n - 1] == ci);
                    assert(k != ci);
                    assert(!list.contains(k)) by {
                        if list.contains(k) {
                            let j = choose|j: int| 0 <= j < list.len() && list[j] == k;
                            assert(list2[j] == k);
                        }
                    }
                    assert(g2.comps[k] == g.comps[k]);
                }
                assert forall|i: int| 0 <= i < n implies listed(g2, #[trigger] list2[i]) by {
                    if i < n - 1 {
                        assert(listed(g, list[i]));
                    }
                }
                assert forall|k: int| 0 <= k < h.comps.len() implies {
                    let (a, b) = (#[trigger] g2.comps[k], h.comps[k]);
                    &&& a.id == b.id
                    &&& a.h == b.h
                    &&& a.v == b.v
                    &&& a.tq == b.tq
                } by {
                    assert(g.comps[k].id == h.comps[k].id);
                }
                assert forall|k: int| 0 <= k < g2.comps.len() implies {
                    let c = #[trigger] g2.comps[k];
                    &&& 1 <= c.h <= 2
                    &&& 1 <= c.v <= 2
                    &&& 0 <= c.tq <= 3
                    &&& 0 <= c.td <= 3
                    &&& 0 <= c.ta <= 3
                    &&& c.q.len() == 64
                    &&& good_ratio(g2.hmax() / c.h, g2.vmax() / c.v)
                } by {
                    let b = g.comps[k];
                    assert(b.q.len() == 64);
                }
            }
        }
    }
}

/// Entry `i` of a scan header that is accepted holds for the first component that has the
/// entry's id: unless a later entry names it again, it is read with the DC table that the high
/// half of the entry's second byte names and with the AC table that the low half names,
/// whatever the other entries are. Both are defined. Its quantization table is the one it had
/// in an earlier scan, or else the one its frame header names.
pub proof fn lemma_entry_tables(h: Header, s: Seq<u8>, n: int, i: int)
    requires
        h.wf(),
        h.comps.len() > 0,
        0 <= i < n,
        select(h, s, n) is Some,
        forall|j: int| i < j < n ==> #[trigger] s[1 + 2 * j] != s[1 + 2 * i],
    ensures
        ({
            let (g, list) = select(h, s, n).unwrap();
            let k = list[i];
            &&& list.len() == n
            &&& 0 <= k < h.comps.len()
            &&& h.comps[k].id == s[1 + 2 * i]
            &&& forall|l: int| 0 <= l < k ==> (#[trigger] h.comps[l]).id != s[1 + 2 * i]
            &&& g.comps[k].td == s[2 + 2 * i] as int / 16
            &&& g.comps[k].ta == s[2 + 2 * i] as int % 16
            &&& g.dc == h.dc && g.ac == h.ac
            &&& s[2 + 2 * i] as int / 16 <= 3 && h.dc[s[2 + 2 * i] as int / 16] is Some
            &&& s[2 + 2 * i] as int % 16 <= 3 && h.ac[s[2 + 2 * i] as int % 16] is Some
            &&& g.comps[k].seen
            &&& h.comps[k].seen ==> g.comps[k].q == h.comps[k].q
            &&& !h.comps[k].seen ==> h.qt[h.comps[k].tq] == Some(g.comps[k].q)
        }),
    decreases n,
{
    lemma_select(h, s, n);
    lemma_select(h, s, n - 1);
    let (g1, list1) = select(h, s, n - 1).unwrap();
    let (g, list) = select(h, s, n).unwrap();
    let k = list[i];
    lemma_find_first(g1.comps, s[2 * n - 1], 0);
    if i == n - 1 {
        assert(s[2 * n - 1] == s[1 + 2 * i] && s[2 * n] == s[2 + 2 * i]);
        lemma_latched(h, s, n - 1, k);
        assert(g1.comps[k].id == h.comps[k].id);
        assert forall|l: int| 0 <= l < k implies (#[trigger] h.comps[l]).id != s[1 + 2 * i] by {
            assert(g1.comps[l].id == h.comps[l].id);
        }
    } else {
        lemma_entry_tables(h, s, n - 1, i);
        assert(list1[i] == k);
        let ci = list[n - 1];
        assert(s[1 + 2 * (n - 1)] != s[1 + 2 * i]);
        assert(g1.comps[ci].id == h.comps[ci].id);
        assert(ci != k);
    }
}

/// What was latched before stays, and a component that was not in a scan yet takes the table
/// that its frame header names.
proof fn lemma_latched(h: Header, s: Seq<u8>, n: int, k: int)
    requires
        h.wf(),
        h.comps.len() > 0,
        0 <= n,
        0 <= k < h.comps.len(),
        select(h, s, n) is Some,
    ensures
        ({
            let g = select(h, s, n).unwrap().0;
            &&& h.comps[k].seen ==> g.comps[k].seen && g.comps[k].q == h.comps[k].q
            &&& !h.comps[k].seen && g.comps[k].seen ==> h.qt[h.comps[k].tq] == Some(
                g.comps[k].q,
            )
            &&& g.comps[k].tq == h.comps[k].tq
        }),
    decreases n,
{
    lemma_select(h, s, n);
    if n > 0 {
        lemma_select(h, s, n - 1);
        lemma_latched(h, s, n - 1, k);
        let (g1, list1) = select(h, s, n - 1).unwrap();
        lemma_find_first(g1.comps, s[2 * n - 1], 0);
        assert(g1.comps[k].tq == h.comps[k].tq);
    }
}

/// The component that is found has the id, and none before it does.
proof fn lemma_find_first(comps: Seq<Component>, id: u8, from: int)
    requires
        0 <= from,
    ensures
        find_component(comps, id, from) matches Some(k) ==> from <= k < comps.len() && comps[k].id
            == id && forall|l: int| from <= l < k ==> (#[trigger] comps[l]).id != id,
        find_component(comps, id, from) is None ==> forall|l: int|
            from <= l < comps.len() ==> (#[trigger] comps[l]).id != id,
    decreases comps.len() - from,
{
    if from < comps.len() {
        lemma_find_first(comps, id, from + 1);
    }
}

/// A scan header is accepted exactly if every entry of it could be: some component has its id,
/// and the first one that does has a quantization table; its two Huffman tables are numbered
/// 0 to 3 and defined.
pub proof fn lemma_entries_accepted(h: Header, s: Seq<u8>, n: int)
    requires
        h.wf(),
        h.comps.len() > 0,
        0 <= n,
    ensures
        select(h, s, n) is Some <==> forall|i: int|
            0 <= i < n ==> {
                &&& #[trigger] s[2 + 2 * i] as int / 16 <= 3
                &&& s[2 + 2 * i] as int % 16 <= 3
                &&& h.dc[s[2 + 2 * i] as int / 16] is Some
                &&& h.ac[s[2 + 2 * i] as int % 16] is Some
                &&& exists|k: int|
                    0 <= k < h.comps.len() && (#[trigger] h.comps[k]).id == s[1 + 2 * i]
                        && h.qt[h.comps[k].tq] is Some && forall|l: int|
                        0 <= l < k ==> (#[trigger] h.comps[l]).id != s[1 + 2 * i]
            },
    decreases n,
{
    if n > 0 {
        lemma_entries_accepted(h, s, n - 1);
        lemma_select(h, s, n - 1);
        let i = n - 1;
        assert(s[2 * n - 1] == s[1 + 2 * i] && s[2 * n] == s[2 + 2 * i]);
        if let Some((g, list)) = select(h, s, n - 1) {
            lemma_find_first(g.comps, s[2 * n - 1], 0);
            assert forall|k: int| 0 <= k < h.comps.len() implies (#[trigger] h.comps[k]).id
                == g.comps[k].id && h.comps[k].tq == g.comps[k].tq by {
                assert(g.comps[k].id == h.comps[k].id);
            }
            if let Some(ci) = find_component(g.comps, s[2 * n - 1], 0) {
                assert(h.comps[ci].id == s[1 + 2 * i]);
            }
        }
    }
}

/// MCU and block counts stay within the planes.
pub proof fn lemma_grid(sc: Scan, ci: int, mx: int, my: int, j: int)
    requires
        sc.wf(),
        sc.list.contains(ci),
        0 <= mx < sc.mcux(),
        0 <= my < sc.mcuy(),
        0 <= j < sc.across(ci) * sc.down(ci),
    ensures
        1 <= sc.across(ci) <= 2,
        1 <= sc.down(ci) <= 2,
        0 <= ci < 3,
        0 <= mx * sc.across(ci) + j % sc.across(ci) <= 31,
        0 <= my * sc.down(ci) + j / sc.across(ci) <= 9,
{
    let i = choose|i: int| 0 <= i < sc.list.len() && sc.list[i] == ci;
    assert(listed(sc.header, sc.list[i]));
    lemma_up_wf(sc.header, ci);
    assert(listed(sc.header, sc.list[0]));
    lemma_up_wf(sc.header, sc.list[0]);
    lemma_mcu_counts(sc);
    let (a, d) = (sc.across(ci), sc.down(ci));
    if a == 1 {
        assert(j % a == 0 && j / a == j);
        assert(a * d == d);
        assert(mx * a == mx);
    } else {
        assert(a == 2);
        assert(mx * a == 2 * mx);
    }
    if d == 1 {
        assert(my * d == my);
    } else {
        assert(my * d == 2 * my);
    }
}

/// The MCU counts in numbers.
pub proof fn lemma_mcu_counts(sc: Scan)
    requires
        sc.wf(),
    ensures
        sc.list.len() == 1 ==> {
            &&& sc.mcux() == (if sc.header.hmax() > sc.header.comps[sc.list[0]].h {
                16int
            } else {
                32
            })
            &&& sc.mcuy() == (if sc.header.vmax() > sc.header.comps[sc.list[0]].v {
                5int
            } else {
                10
            })
        },
        sc.list.len() > 1 ==> {
            &&& sc.mcux() == (if sc.header.hmax() == 1 {
                32int
            } else {
                16
            })
            &&& sc.mcuy() == (if sc.header.vmax() == 1 {
                10int
            } else {
                5
            })
        },
        1 <= sc.mcux() <= 32,
        1 <= sc.mcuy() <= 10,
{
    assert(listed(sc.header, sc.list[0]));
    lemma_up_wf(sc.header, sc.list[0]);
    let (a, b) = (sc.header.hmax(), sc.header.vmax());
    if sc.list.len() > 1 {
        if a == 1 {
            assert(sc.mcux() == (250 + 8 - 1) / 8);
        } else {
            assert(a == 2);
            assert(sc.mcux() == (250 + 16 - 1) / 16);
        }
        if b == 1 {
            assert(sc.mcuy() == (80 + 8 - 1) / 8);
        } else {
            assert(b == 2);
            assert(sc.mcuy() == (80 + 16 - 1) / 16);
        }
    }
}

/// The block of component `ci` at (`bx`, `by`) is painted.
pub open spec fn block_painted(canvas: Seq<Option<u8>>, ci: int, bx: int, by: int) -> bool {
    forall|i: int|
        0 <= i < canvas.len() && in_block(i - (ci * 20480 + by * 2048 + bx * 8))
            ==> #[trigger] canvas[i] is Some
}

/// `b` is `a` with more painted.
pub open spec fn grows(a: Seq<Option<u8>>, b: Seq<Option<u8>>) -> bool {
    &&& a.len() == b.len()
    &&& forall|i: int| 0 <= i < a.len() && a[i] is Some ==> #[trigger] b[i] is Some
}

/// Block `j` of component `ci` in MCU (`mx`, `my`) is painted.
pub open spec fn unit_painted(
    sc: Scan,
    canvas: Seq<Option<u8>>,
    ci: int,
    mx: int,
    my: int,
    j: int,
) -> bool {
    block_painted(
        canvas,
        ci,
        mx * sc.across(ci) + j % sc.across(ci),
        my * sc.down(ci) + j / sc.across(ci),
    )
}

proof fn lemma_painted_stays(
    sc: Scan,
    a: Seq<Option<u8>>,
    b: Seq<Option<u8>>,
    ci: int,
    mx: int,
    my: int,
    j: int,
)
    requires
        grows(a, b),
        unit_painted(sc, a, ci, mx, my, j),
    ensures
        unit_painted(sc, b, ci, mx, my, j),
{
    let (bx, by) = (
        mx * sc.across(ci) + j % sc.across(ci),
        my * sc.down(ci) + j / sc.across(ci),
    );
    assert forall|i: int|
        0 <= i < b.len() && in_block(
            i - (ci * 20480 + by * 2048 + bx * 8),
        ) implies #[trigger] b[i] is Some by {
        assert(a[i] is Some);
    }
}

proof fn lemma_paint(
    canvas: Seq<Option<u8>>,
    ci: int,
    bx: int,
    by: int,
    coef: Seq<i32>,
    q: Seq<u16>,
)
    ensures
        grows(canvas, paint(canvas, ci, bx, by, coef, q)),
        block_painted(paint(canvas, ci, bx, by, coef, q), ci, bx, by),
{
}

proof fn lemma_blocks_painted(
    sc: Scan,
    data: Seq<u8>,
    p: Progress,
    ci: int,
    mx: int,
    my: int,
    n: int,
)
    ensures
        sc.after_blocks(data, p, ci, mx, my, n) matches Some(r) ==> {
            &&& grows(p.canvas, r.canvas)
            &&& r.start == p.start
            &&& forall|j: int|
                0 <= j < n ==> #[trigger] unit_painted(sc, r.canvas, ci, mx, my, j)
        },
    decreases n,
{
    if n > 0 {
        lemma_blocks_painted(sc, data, p, ci, mx, my, n - 1);
        if let Some(a) = sc.after_blocks(data, p, ci, mx, my, n - 1) {
            let (bx, by) = (
                mx * sc.across(ci) + (n - 1) % sc.across(ci),
                my * sc.down(ci) + (n - 1) / sc.across(ci),
            );
            if let Some(r) = sc.after_block(data, a, ci, bx, by) {
                let c = sc.header.comps[ci];
                let b = block_at(
                    sc.header.dc[c.td].unwrap(),
                    sc.header.ac[c.ta].unwrap(),
                    entropy_bytes(data, a.start),
                    a.bit,
                    a.preds[ci],
                ).unwrap();
                lemma_paint(a.canvas, ci, bx, by, b.coef, c.q);
                assert forall|j: int| 0 <= j < n implies #[trigger] unit_painted(
                    sc,
                    r.canvas,
                    ci,
                    mx,
                    my,
                    j,
                ) by {
                    if j < n - 1 {
                        lemma_painted_stays(sc, a.canvas, r.canvas, ci, mx, my, j);
                    }
                }
            }
        }
    }
}

proof fn lemma_components_painted(
    sc: Scan,
    data: Seq<u8>,
    p: Progress,
    mx: int,
    my: int,
    n: int,
)
    ensures
        sc.after_components(data, p, mx, my, n) matches Some(r) ==> {
            &&& grows(p.canvas, r.canvas)
            &&& r.start == p.start
            &&& forall|i: int, j: int|
                0 <= i < n && 0 <= j < sc.across(sc.list[i]) * sc.down(sc.list[i])
                    ==> #[trigger] unit_painted(sc, r.canvas, sc.list[i], mx, my, j)
        },
    decreases n,
{
    if n > 0 {
        lemma_components_painted(sc, data, p, mx, my, n - 1);
        if let Some(a) = sc.after_components(data, p, mx, my, n - 1) {
            let ci = sc.list[n - 1];
            lemma_blocks_painted(sc, data, a, ci, mx, my, sc.across(ci) * sc.down(ci));
            if let Some(r) = sc.after_components(data, p, mx, my, n) {
                assert forall|i: int, j: int|
                    0 <= i < n && 0 <= j < sc.across(sc.list[i]) * sc.down(
                        sc.list[i],
                    ) implies #[trigger] unit_painted(sc, r.canvas, sc.list[i], mx, my, j) by {
                    if i < n - 1 {
                        lemma_painted_stays(sc, a.canvas, r.canvas, sc.list[i], mx, my, j);
                    }
                }
            }
        }
    }
}

proof fn lemma_mcus_painted(sc: Scan, data: Seq<u8>, p: Progress, m: int)
    ensures
        sc.after_mcus(data, p, m) matches Some(r) ==> {
            &&& grows(p.canvas, r.canvas)
            &&& forall|k: int, i: int, j: int|
                0 <= k < m && 0 <= i < sc.list.len() && 0 <= j < sc.across(sc.list[i]) * sc.down(
                    sc.list[i],
                ) ==> #[trigger] mcu_block_painted(sc, r.canvas, k, i, j)
        },
    decreases m,
{
    if m > 0 {
        lemma_mcus_painted(sc, data, p, m - 1);
        if let Some(a) = sc.after_mcus(data, p, m - 1) {
            if let Some(b) = sc.before_mcu(data, a, m - 1) {
                let (mx, my) = ((m - 1) % sc.mcux(), (m - 1) / sc.mcux());
                lemma_components_painted(sc, data, b, mx, my, sc.list.len() as int);
                if let Some(r) = sc.after_mcus(data, p, m) {
                    assert forall|k: int, i: int, j: int|
                        0 <= k < m && 0 <= i < sc.list.len() && 0 <= j < sc.across(sc.list[i])
                            * sc.down(sc.list[i]) implies #[trigger] mcu_block_painted(
                        sc,
                        r.canvas,
                        k,
                        i,
                        j,
                    ) by {
                        if k < m - 1 {
                            assert(mcu_block_painted(sc, a.canvas, k, i, j));
                            lemma_painted_stays(
                                sc,
                                a.canvas,
                                r.canvas,
                                sc.list[i],
                                k % sc.mcux(),
                                k / sc.mcux(),
                                j,
                            );
                        } else {
                            assert(unit_painted(sc, r.canvas, sc.list[i], mx, my, j));
                        }
                    }
                }
            }
        }
    }
}

/// Block `j` of the scan's component `i` in MCU `k` is painted.
pub open spec fn mcu_block_painted(
    sc: Scan,
    canvas: Seq<Option<u8>>,
    k: int,
    i: int,
    j: int,
) -> bool {
    unit_painted(sc, canvas, sc.list[i], k % sc.mcux(), k / sc.mcux(), j)
}

/// Every sample of component `ci` is painted.
pub open spec fn component_painted(h: Header, canvas: Seq<Option<u8>>, ci: int) -> bool {
    forall|y: int, x: int|
        0 <= y < h.height_of(ci) && 0 <= x < h.width_of(ci) ==> #[trigger] canvas[ci * 20480 + y
            * 256 + x] is Some
}

/// The MCU of block (`bx`, `by`) of a component, and the block's place in it.
proof fn lemma_mcu_of(cx: int, cy: int, a: int, d: int, bx: int, by: int)
    requires
        1 <= a <= 2,
        1 <= d <= 2,
        0 <= bx,
        0 <= by,
        bx / a < cx,
        by / d < cy,
    ensures
        ({
            let (k, j) = ((by / d) * cx + bx / a, (by % d) * a + bx % a);
            &&& 0 <= k < cx * cy
            &&& k % cx == bx / a
            &&& k / cx == by / d
            &&& 0 <= j < a * d
            &&& j % a == bx % a
            &&& j / a == by % d
            &&& (bx / a) * a + bx % a == bx
            &&& (by / d) * d + by % d == by
        }),
{
    let (mx, my, jx, jy) = (bx / a, by / d, bx % a, by % d);
    lemma_split(bx, a);
    lemma_split(by, d);
    let (k, j) = (my * cx + mx, jy * a + jx);
    assert(0 <= j < a * d) by (nonlinear_arith)
        requires
            j == jy * a + jx,
            0 <= jx < a,
            0 <= jy < d,
    ;
    vstd::arithmetic::div_mod::lemma_fundamental_div_mod_converse(j, a, jy, jx);
    vstd::arithmetic::div_mod::lemma_fundamental_div_mod_converse(k, cx, my, mx);
    assert(0 <= k < cx * cy) by (nonlinear_arith)
        requires
            k == my * cx + mx,
            0 <= mx < cx,
            0 <= my < cy,
    ;
}

/// Where all blocks of component `ci` are painted, so is its sample (`y`, `x`).
proof fn lemma_sample_painted(
    sc: Scan,
    canvas: Seq<Option<u8>>,
    i: int,
    ci: int,
    y: int,
    x: int,
)
    requires
        sc.wf(),
        canvas.len() == SCRATCH,
        0 <= i < sc.list.len(),
        sc.list[i] == ci,
        0 <= y < sc.header.height_of(ci),
        0 <= x < sc.header.width_of(ci),
        forall|k: int, j: int|
            0 <= k < sc.mcux() * sc.mcuy() && 0 <= j < sc.across(ci) * sc.down(
                ci,
            ) ==> #[trigger] mcu_block_painted(sc, canvas, k, i, j),
    ensures
        canvas[ci * 20480 + y * 256 + x] is Some,
{
    assert(listed(sc.header, sc.list[i]));
    lemma_up_wf(sc.header, ci);
    let (a, d) = (sc.across(ci), sc.down(ci));
    let (bx, by) = (x / 8, y / 8);
    lemma_mcu_counts(sc);
    assert(1 <= a <= 2 && 1 <= d <= 2);
    lemma_split(bx, a);
    lemma_split(by, d);
    assert(bx / a < sc.mcux() && by / d < sc.mcuy());
    lemma_mcu_of(sc.mcux(), sc.mcuy(), a, d, bx, by);
    let (k, j) = ((by / d) * sc.mcux() + bx / a, (by % d) * a + bx % a);
    assert(mcu_block_painted(sc, canvas, k, i, j));
    assert(block_painted(canvas, ci, bx, by));
    let idx = ci * 20480 + y * 256 + x;
    assert(in_block(idx - (ci * 20480 + by * 2048 + bx * 8)));
}

/// A scan paints every sample of its components.
pub proof fn lemma_scan_paints(sc: Scan, data: Seq<u8>, p: Progress, ci: int)
    requires
        sc.wf(),
        sc.list.contains(ci),
        p.canvas.len() == SCRATCH,
    ensures
        sc.after_mcus(data, p, sc.mcux() * sc.mcuy()) matches Some(r) ==> grows(p.canvas, r.canvas)
            && component_painted(sc.header, r.canvas, ci),
{
    lemma_mcu_counts(sc);
    let total = sc.mcux() * sc.mcuy();
    assert(total >= 0) by (nonlinear_arith)
        requires
            total == sc.mcux() * sc.mcuy(),
            sc.mcux() >= 0,
            sc.mcuy() >= 0,
    ;
    lemma_mcus_painted(sc, data, p, total);
    if let Some(r) = sc.after_mcus(data, p, total) {
        let i = choose|i: int| 0 <= i < sc.list.len() && sc.list[i] == ci;
        assert forall|y: int, x: int|
            0 <= y < sc.header.height_of(ci) && 0 <= x < sc.header.width_of(
                ci,
            ) implies #[trigger] r.canvas[ci * 20480 + y * 256 + x] is Some by {
            lemma_sample_painted(sc, r.canvas, i, ci, y, x);
        }
    }
}

/// Splitting a block index into MCU and place within it.
proof fn lemma_split(b: int, a: int)
    requires
        1 <= a <= 2,
        0 <= b,
    ensures
        b == (b / a) * a + b % a,
        0 <= b % a < a,
        0 <= b / a,
        a == 1 ==> b / a == b,
        a == 2 ==> b / a == b / 2,
{
    if a == 1 {
        assert(b / 1 == b && b % 1 == 0);
    } else {
        assert(a == 2);
        assert((b / 2) * 2 + b % 2 == b);
    }
}

/// The planes hold what was painted.
pub open spec fn holds(planes: Seq<u8>, canvas: Seq<Option<u8>>) -> bool {
    &&& canvas.len() == SCRATCH
    &&& planes.len() >= SCRATCH
    &&& forall|i: int| 0 <= i < SCRATCH ==> (#[trigger] canvas[i] matches Some(v) ==> planes[i] == v)
}

/// Bytes past the three planes are not touched.
pub open spec fn tail_kept(before: Seq<u8>, after: Seq<u8>) -> bool {
    &&& before.len() == after.len()
    &&& forall|i: int| SCRATCH <= i < before.len() ==> #[trigger] after[i] == before[i]
}

proof fn lemma_blocks_none(
    sc: Scan,
    data: Seq<u8>,
    p: Progress,
    ci: int,
    mx: int,
    my: int,
    n: int,
    m: int,
)
    requires
        n <= m,
        sc.after_blocks(data, p, ci, mx, my, n) is None,
    ensures
        sc.after_blocks(data, p, ci, mx, my, m) is None,
    decreases m - n,
{
    if n < m {
        lemma_blocks_none(sc, data, p, ci, mx, my, n, m - 1);
    }
}

proof fn lemma_components_none(
    sc: Scan,
    data: Seq<u8>,
    p: Progress,
    mx: int,
    my: int,
    n: int,
    m: int,
)
    requires
        n <= m,
        sc.after_components(data, p, mx, my, n) is None,
    ensures
        sc.after_components(data, p, mx, my, m) is None,
    decreases m - n,
{
    if n < m {
        lemma_components_none(sc, data, p, mx, my, n, m - 1);
    }
}

proof fn lemma_mcus_none(sc: Scan, data: Seq<u8>, p: Progress, n: int, m: int)
    requires
        n <= m,
        sc.after_mcus(data, p, n) is None,
    ensures
        sc.after_mcus(data, p, m) is None,
    decreases m - n,
{
    if n < m {
        lemma_mcus_none(sc, data, p, n, m - 1);
    }
}

proof fn lemma_select_none(h: Header, s: Seq<u8>, n: int, m: int)
    requires
        n <= m,
        select(h, s, n) is None,
    ensures
        select(h, s, m) is None,
    decreases m - n,
{
    if n < m {
        lemma_select_none(h, s, n, m - 1);
    }
}

/// The predictors of the three components.
pub open spec fn preds_of(pred: [i32; 3]) -> Seq<int> {
    Seq::new(3, |k: int| pred[k] as int)
}

/// The reader and the predictors are where the scan is, and the planes hold its samples.
pub open spec fn in_step(p: Progress, bits: Bits, pred: [i32; 3], planes: Seq<u8>) -> bool {
    &&& bits.wf()
    &&& p.start == bits.start@
    &&& p.bit == bits.used@
    &&& p.preds == preds_of(pred)
    &&& holds(planes, p.canvas)
}

/// The components of a scan.
pub struct List {
    pub idx: [usize; 3],
    pub n: usize,
}

impl View for List {
    type V = Seq<int>;

    open spec fn view(&self) -> Seq<int> {
        Seq::new(self.n as nat, |i: int| self.idx[i] as int)
    }
}

impl Decoder {
    /// The first component with the given id.
    fn find(&self, id: u8) -> (r: Option<usize>)
        requires
            self.wf(),
        ensures
            match find_component(self@.comps, id, 0) {
                Some(k) => r == Some(k as usize) && k < self.ncomp,
                None => r is None,
            },
    {
        let mut k: usize = 0;
        while k < self.ncomp
            invariant
                k <= self.ncomp <= 3,
                find_component(self@.comps, id, 0) == find_component(self@.comps, id, k as int),
            decreases self.ncomp - k,
        {
            assert(self@.comps[k as int] == self.comps[k as int]@);
            if self.comps[k].id == id {
                return Some(k);
            }
            k += 1;
        }
        None
    }

    /// What a scan header sets up, entry by entry: the component that an entry names gets the
    /// Huffman tables that this entry names and no other, unless a later entry names it again.
    /// No table is changed. Its quantization table is the one that is defined now, if no scan
    /// had the component before.
    pub proof fn lemma_select_call(&mut self, s: &[u8], r: Result<List, Error>, i: int)
        requires
            old(self).wf(),
            call_ensures(Decoder::select, (self, s), r),
            r is Ok,
            0 <= i < s@[0],
            forall|j: int| i < j < s@[0] ==> #[trigger] s@[1 + 2 * j] != s@[1 + 2 * i],
        ensures
            ({
                let (h, g, k) = (old(self)@, final(self)@, r.unwrap()@[i]);
                let (td, ta) = (s@[2 + 2 * i] as int / 16, s@[2 + 2 * i] as int % 16);
                &&& r.unwrap()@.len() == s@[0]
                &&& 0 <= k < h.comps.len()
                &&& h.comps[k].id == s@[1 + 2 * i]
                &&& forall|l: int| 0 <= l < k ==> (#[trigger] h.comps[l]).id != s@[1 + 2 * i]
                &&& td <= 3 && h.dc[td] is Some && g.comps[k].td == td
                &&& ta <= 3 && h.ac[ta] is Some && g.comps[k].ta == ta
                &&& g.dc == h.dc && g.ac == h.ac && g.qt == h.qt
                &&& g.comps[k].seen
                &&& h.comps[k].seen ==> g.comps[k].q == h.comps[k].q
                &&& !h.comps[k].seen ==> h.qt[h.comps[k].tq] == Some(g.comps[k].q)
            }),
    {
        lemma_select(old(self)@, s@, s@[0] as int);
        lemma_entry_tables(old(self)@, s@, s@[0] as int, i);
    }

    /// Reads a scan header: sets up the scan's components and lists them.
    pub fn select(&mut self, s: &[u8]) -> (r: Result<List, Error>)
        requires
            old(self).wf(),
        ensures
            match scan_header(old(self)@, s@) {
                Some((h, list)) => {
                    &&& r matches Ok(l)
                    &&& l@ == list
                    &&& l.n <= 3
                    &&& final(self).wf()
                    &&& final(self)@ == h
                    &&& (Scan { header: h, list }).wf()
                },
                None => r == Err::<List, Error>(Error::Format),
            },
    {
        if s.len() == 0 {
            return Err(Error::Format);
        }
        let ns: usize = s[0] as usize;
        if self.ncomp == 0 || ns == 0 || ns > self.ncomp || s.len() < 4 + 2 * ns {
            return Err(Error::Format);
        }
        let mut list = List { idx: [0; 3], n: 0 };
        assert(list@ =~= Seq::<int>::empty());
        let mut i: usize = 0;
        while i < ns
            invariant
                i <= ns <= 3,
                ns == s@[0],
                s@.len() >= 4 + 2 * ns,
                list.n == i,
                self.wf(),
                old(self).wf(),
                ns <= old(self)@.comps.len(),
                select(old(self)@, s@, i as int) == Some((self@, list@)),
            decreases ns - i,
        {
            let ghost (g, before) = (self@, list@);
            proof {
                lemma_select(old(self)@, s@, i as int);
                lemma_select(old(self)@, s@, i + 1);
                lemma_find(self@.comps, s@[1 + 2 * i as int], 0);
                if select(old(self)@, s@, i + 1) is None {
                    lemma_select_none(old(self)@, s@, i + 1, ns as int);
                }
            }
            let ci: usize = match self.find(s[1 + 2 * i]) {
                Some(ci) => ci,
                None => {
                    return Err(Error::Format);
                },
            };
            let t: u8 = s[2 + 2 * i];
            assert(t >> 4 == t / 16 && t & 15 == t % 16) by (bit_vector);
            let mut c: Comp = self.comps[ci];
            assert(c@ == g.comps[ci as int]);
            c.td = (t >> 4) as usize;
            c.ta = (t & 15) as usize;
            if c.td > 3 || c.ta > 3 || !self.dc[c.td].ok || !self.ac[c.ta].ok || !self.qt_ok[c.tq] {
                return Err(Error::Format);
            }
            if !c.seen {
                c.q = self.qt[c.tq];
                c.seen = true;
            }
            self.comps[ci] = c;
            list.idx[i] = ci;
            list.n = i + 1;
            proof {
                let (g2, after) = select(old(self)@, s@, i + 1).unwrap();
                assert(list@ =~= after);
                assert(self@ =~~= g2);
            }
            i += 1;
        }
        proof {
            lemma_select(old(self)@, s@, ns as int);
        }
        Ok(list)
    }
}

impl Decoder {
    /// Decodes one block of component `ci` and paints it at (`bx`, `by`).
    fn paint_block(
        &self,
        bits: &mut Bits,
        ci: usize,
        bx: usize,
        by: usize,
        pred: &mut [i32; 3],
        planes: &mut [u8],
        Ghost(sc): Ghost<Scan>,
        Ghost(p): Ghost<Progress>,
    ) -> (r: Result<(), Error>)
        requires
            self.wf(),
            sc.header == self@,
            listed(self@, ci as int),
            bx <= 31,
            by <= 9,
            in_step(p, *old(bits), *old(pred), old(planes)@),
        ensures
            tail_kept(old(planes)@, final(planes)@),
            match sc.after_block(old(bits).d@, p, ci as int, bx as int, by as int) {
                None => r == Err::<(), Error>(Error::Format),
                Some(p2) => {
                    &&& r == Ok::<(), Error>(())
                    &&& in_step(p2, *final(bits), *final(pred), final(planes)@)
                    &&& final(bits).d@ == old(bits).d@
                },
            },
    {
        let c: &Comp = &self.comps[ci];
        assert(c@ == self@.comps[ci as int]);
        assert(self@.dc[c.td as int] == self.dc[c.td as int].defined());
        assert(self@.ac[c.ta as int] == self.ac[c.ta as int].defined());
        let mut coef: [i32; 64] = [0; 64];
        let mut dcp: i32 = pred[ci];
        let ghost stream = bits.stream();
        let ac: bool = match block(bits, &self.dc[c.td], &self.ac[c.ta], &mut dcp, &mut coef) {
            Ok(ac) => ac,
            Err(e) => {
                return Err(e);
            },
        };
        pred[ci] = dcp;
        let off: usize = ci * PLANE + by * 8 * PLANE_W + bx * 8;
        let ghost before = planes@;
        let (head, out) = planes.split_at_mut(off);
        if ac {
            idct(&coef, &c.q, out, PLANE_W);
        } else {
            idct_flat(&coef, &c.q, out, PLANE_W);
        }
        proof {
            let p2 = sc.after_block(old(bits).d@, p, ci as int, bx as int, by as int).unwrap();
            assert(p2.preds =~= preds_of(*pred));
            assert(off == ci * 20480 + by * 2048 + bx * 8);
            assert forall|i: int| 0 <= i < SCRATCH implies (#[trigger] p2.canvas[i] matches Some(
                v,
            ) ==> planes@[i] == v) by {
                let o = i - off;
                if o >= 0 {
                    assert(planes@[i] == if in_block(o) {
                        sample(coef@, c.q@, o / 256, o % 256)
                    } else {
                        before[i]
                    });
                } else {
                    assert(planes@[i] == before[i]);
                }
                assert(p.canvas[i] matches Some(v) ==> before[i] == v);
            }
        }
        Ok(())
    }
}

/// Drops the byte-alignment padding and steps over RSTn.
fn restart(bits: &mut Bits, pred: &mut [i32; 3]) -> (r: Result<(), Error>)
    requires
        old(bits).wf(),
    ensures
        match marker_from(old(bits).d@, old(bits).start@) {
            Some((code, end)) if 0xD0 <= code <= 0xD7 => {
                &&& r == Ok::<(), Error>(())
                &&& final(bits).wf()
                &&& final(bits).d@ == old(bits).d@
                &&& final(bits).start@ == end
                &&& old(bits).start@ <= end
                &&& only_restarts(old(bits).d@, old(bits).start@, end, true)
                &&& final(bits).used@ == 0
                &&& header_from(old(bits).d@, end) == header_from(
                    old(bits).d@,
                    old(bits).start@,
                )
                &&& preds_of(*final(pred)) == Seq::new(3, |k: int| 0int)
            },
            _ => r == Err::<(), Error>(Error::Format),
        },
{
    let (code, end): (u8, usize) = match next_marker(bits.d, bits.pos) {
        Ok(x) => x,
        Err(e) => {
            return Err(e);
        },
    };
    if !(0xD0 <= code && code <= 0xD7) {
        return Err(Error::Format);
    }
    proof {
        lemma_header_step(bits.d@, bits.start@);
        lemma_marker_from(bits.d@, bits.start@);
    }
    *bits = Bits::new(bits.d, end);
    *pred = [0; 3];
    Ok(())
}

impl Decoder {
    /// Decodes the blocks of MCU (`mx`, `my`).
    fn mcu(
        &self,
        list: &List,
        bits: &mut Bits,
        mx: usize,
        my: usize,
        pred: &mut [i32; 3],
        planes: &mut [u8],
        Ghost(sc): Ghost<Scan>,
        Ghost(p): Ghost<Progress>,
    ) -> (r: Result<(), Error>)
        requires
            self.wf(),
            sc.wf(),
            sc.header == self@,
            sc.list == list@,
            list.n <= 3,
            mx < sc.mcux(),
            my < sc.mcuy(),
            in_step(p, *old(bits), *old(pred), old(planes)@),
        ensures
            tail_kept(old(planes)@, final(planes)@),
            match sc.after_components(
                old(bits).d@,
                p,
                mx as int,
                my as int,
                sc.list.len() as int,
            ) {
                None => r == Err::<(), Error>(Error::Format),
                Some(p2) => {
                    &&& r == Ok::<(), Error>(())
                    &&& in_step(p2, *final(bits), *final(pred), final(planes)@)
                    &&& final(bits).d@ == old(bits).d@
                    &&& p2.start == p.start
                },
            },
    {
        let ghost data = bits.d@;
        let ghost (gx, gy) = (mx as int, my as int);
        let ghost mut now = p;
        proof {
            lemma_mcu_counts(sc);
        }
        let mut i: usize = 0;
        while i < list.n
            invariant
                i <= list.n <= 3,
                self.wf(),
                sc.wf(),
                sc.header == self@,
                sc.list == list@,
                mx < sc.mcux() <= 32,
                my < sc.mcuy() <= 10,
                gx == mx,
                gy == my,
                data == old(bits).d@,
                bits.d@ == data,
                tail_kept(old(planes)@, planes@),
                in_step(now, *bits, *pred, planes@),
                now.start == p.start,
                sc.after_components(data, p, gx, gy, i as int) == Some(now),
            decreases list.n - i,
        {
            let ci: usize = list.idx[i];
            let ghost gi = ci as int;
            assert(sc.list[i as int] == ci);
            assert(listed(sc.header, sc.list[i as int]));
            assert(self@.comps[gi] == self.comps[gi]@);
            let bw: usize = if list.n == 1 {
                1
            } else {
                self.comps[ci].h
            };
            let bh: usize = if list.n == 1 {
                1
            } else {
                self.comps[ci].v
            };
            assert(bw == sc.across(gi) && bh == sc.down(gi));
            let ghost first = now;
            assert(bw * bh <= 4) by (nonlinear_arith)
                requires
                    bw <= 2,
                    bh <= 2,
            ;
            let total: usize = bw * bh;
            let mut j: usize = 0;
            while j < total
                invariant
                    j <= total,
                    total == bw * bh,
                    1 <= bw <= 2,
                    1 <= bh <= 2,
                    bw == sc.across(gi),
                    bh == sc.down(gi),
                    gi == ci,
                    sc.list[i as int] == ci,
                    i < list.n <= 3,
                    self.wf(),
                    sc.wf(),
                    sc.header == self@,
                    sc.list == list@,
                    mx < sc.mcux() <= 32,
                    my < sc.mcuy() <= 10,
                    gx == mx,
                    gy == my,
                    data == old(bits).d@,
                    bits.d@ == data,
                    tail_kept(old(planes)@, planes@),
                    in_step(now, *bits, *pred, planes@),
                now.start == p.start,
                    sc.after_components(data, p, gx, gy, i as int) == Some(first),
                    sc.after_blocks(data, first, gi, gx, gy, j as int) == Some(now),
                decreases total - j,
            {
                proof {
                    assert(listed(sc.header, sc.list[i as int]));
                    assert(sc.list.contains(gi));
                    lemma_grid(sc, gi, gx, gy, j as int);
                    assert(mx * bw <= 64) by (nonlinear_arith)
                        requires
                            mx <= 32,
                            bw <= 2,
                    ;
                    assert(my * bh <= 20) by (nonlinear_arith)
                        requires
                            my <= 10,
                            bh <= 2,
                    ;
                    lemma_split(j as int, bw as int);
                }
                let bx: usize = mx * bw + j % bw;
                let by: usize = my * bh + j / bw;
                let ghost before = now;
                match self.paint_block(bits, ci, bx, by, pred, planes, Ghost(sc), Ghost(now)) {
                    Ok(()) => {},
                    Err(e) => {
                        proof {
                            assert(sc.after_blocks(data, first, gi, gx, gy, j + 1) is None);
                            lemma_blocks_none(
                                sc,
                                data,
                                first,
                                gi,
                                gx,
                                gy,
                                j + 1,
                                total as int,
                            );
                            assert(sc.after_components(data, p, gx, gy, i + 1) is None);
                            lemma_components_none(
                                sc,
                                data,
                                p,
                                gx,
                                gy,
                                i + 1,
                                sc.list.len() as int,
                            );
                        }
                        return Err(e);
                    },
                }
                proof {
                    now = sc.after_block(data, before, gi, bx as int, by as int).unwrap();
                }
                j += 1;
            }
            i += 1;
        }
        Ok(())
    }

    /// Decodes MCU `m` of a scan, with the restart marker before it. `todo` counts the MCUs
    /// down to the next restart.
    fn step(
        &self,
        list: &List,
        bits: &mut Bits,
        m: usize,
        mcux: usize,
        todo: &mut usize,
        pred: &mut [i32; 3],
        planes: &mut [u8],
        Ghost(sc): Ghost<Scan>,
        Ghost(p): Ghost<Progress>,
    ) -> (r: Result<(), Error>)
        requires
            self.wf(),
            sc.wf(),
            sc.header == self@,
            sc.list == list@,
            list.n <= 3,
            mcux == sc.mcux(),
            m < sc.mcux() * sc.mcuy(),
            counted(m as int, *old(todo) as int, self.restart as int),
            in_step(p, *old(bits), *old(pred), old(planes)@),
        ensures
            tail_kept(old(planes)@, final(planes)@),
            match sc.after_mcu(old(bits).d@, p, m as int) {
                None => r == Err::<(), Error>(Error::Format),
                Some(p2) => {
                    &&& r == Ok::<(), Error>(())
                    &&& in_step(p2, *final(bits), *final(pred), final(planes)@)
                    &&& final(bits).d@ == old(bits).d@
                    &&& header_from(old(bits).d@, p2.start) == header_from(
                        old(bits).d@,
                        p.start,
                    )
                    &&& p.start <= p2.start
                    &&& only_restarts(old(bits).d@, p.start, p2.start, self.restart > 0)
                    &&& counted(m + 1, *final(todo) as int, self.restart as int)
                },
            },
    {
        let ghost data = bits.d@;
        let ghost mut now = p;
        proof {
            lemma_mcu_counts(sc);
            lemma_counted(m as int, *todo as int, self.restart as int);
        }
        if self.restart > 0 {
            if *todo == 0 {
                match restart(bits, pred) {
                    Ok(()) => {},
                    Err(e) => {
                        assert(sc.before_mcu(data, p, m as int) is None);
                        return Err(e);
                    },
                }
                *todo = self.restart;
                proof {
                    now = sc.before_mcu(data, p, m as int).unwrap();
                }
            }
            *todo = *todo - 1;
        }
        assert(sc.before_mcu(data, p, m as int) == Some(now));
        let mx: usize = m % mcux;
        let my: usize = m / mcux;
        proof {
            vstd::arithmetic::div_mod::lemma_multiply_divide_lt(m as int, sc.mcux(), sc.mcuy());
        }
        self.mcu(list, bits, mx, my, pred, planes, Ghost(sc), Ghost(now))
    }

    /// Decodes the entropy-coded data of a scan, from `pos` on. Returns where reading
    /// stopped: no marker but those of restarts starts between `pos` and there.
    fn scan(
        &self,
        list: &List,
        data: &[u8],
        pos: usize,
        planes: &mut [u8],
        Ghost(canvas): Ghost<Seq<Option<u8>>>,
    ) -> (r: Result<usize, Error>)
        requires
            self.wf(),
            (Scan { header: self@, list: list@ }).wf(),
            list.n <= 3,
            pos <= data@.len(),
            holds(old(planes)@, canvas),
        ensures
            tail_kept(old(planes)@, final(planes)@),
            ({
                let sc = Scan { header: self@, list: list@ };
                match sc.after_mcus(
                    data@,
                    at_start(pos as int, canvas),
                    sc.mcux() * sc.mcuy(),
                ) {
                    None => r == Err::<usize, Error>(Error::Format),
                    Some(p2) => {
                        &&& r matches Ok(end)
                        &&& pos <= end <= data@.len()
                        &&& only_restarts(data@, pos as int, end as int, self.restart > 0)
                        &&& header_from(data@, end as int) == header_from(data@, pos as int)
                        &&& holds(final(planes)@, p2.canvas)
                    },
                }
            }),
    {
        let ghost sc = Scan { header: self@, list: list@ };
        let ghost p0 = at_start(pos as int, canvas);
        proof {
            lemma_mcu_counts(sc);
            assert(listed(sc.header, sc.list[0]));
            lemma_up_wf(self@, sc.list[0]);
            assert(sc.list[0] == list.idx[0]);
            assert(self@.comps[sc.list[0]] == self.comps[sc.list[0]]@);
        }
        // Non-interleaved scans walk the component's own block grid, one block per MCU.
        let (mcux, mcuy): (usize, usize) = if list.n == 1 {
            let c: &Comp = &self.comps[list.idx[0]];
            let cw: usize = (W * c.h + self.hmax - 1) / self.hmax;
            let ch: usize = (H * c.v + self.vmax - 1) / self.vmax;
            ((cw + 7) / 8, (ch + 7) / 8)
        } else {
            (
                (W + 8 * self.hmax - 1) / (8 * self.hmax),
                (H + 8 * self.vmax - 1) / (8 * self.vmax),
            )
        };
        assert(mcux == sc.mcux());
        assert(mcuy == sc.mcuy());
        let mut bits = Bits::new(data, pos);
        let mut pred: [i32; 3] = [0; 3];
        let mut todo: usize = self.restart;
        assert(mcux * mcuy <= 320) by (nonlinear_arith)
            requires
                mcux <= 32,
                mcuy <= 10,
        ;
        let total: usize = mcux * mcuy;
        let ghost mut now = p0;
        proof {
            assert(preds_of(pred) =~= p0.preds);
            reveal(counted);
        }
        let mut m: usize = 0;
        while m < total
            invariant
                m <= total,
                total == mcux * mcuy,
                mcux == sc.mcux(),
                mcuy == sc.mcuy(),
                1 <= mcux <= 32,
                self.wf(),
                sc.wf(),
                sc == (Scan { header: self@, list: list@ }),
                p0 == at_start(pos as int, canvas),
                list.n <= 3,
                bits.d@ == data@,
                tail_kept(old(planes)@, planes@),
                in_step(now, bits, pred, planes@),
                header_from(data@, now.start) == header_from(data@, pos as int),
                pos <= now.start,
                only_restarts(data@, pos as int, now.start, self.restart > 0),
                sc.after_mcus(data@, p0, m as int) == Some(now),
                counted(m as int, todo as int, self.restart as int),
            decreases total - m,
        {
            match self.step(
                list,
                &mut bits,
                m,
                mcux,
                &mut todo,
                &mut pred,
                planes,
                Ghost(sc),
                Ghost(now),
            ) {
                Ok(()) => {},
                Err(e) => {
                    proof {
                        assert(sc.after_mcus(data@, p0, m + 1) is None);
                        lemma_mcus_none(sc, data@, p0, m + 1, total as int);
                    }
                    return Err(e);
                },
            }
            proof {
                now = sc.after_mcus(data@, p0, m + 1).unwrap();
            }
            m += 1;
        }
        proof {
            lemma_marker_from(data@, bits.start@);
            lemma_marker_from(data@, bits.pos as int);
        }
        Ok(bits.pos)
    }

    /// Decodes one scan onto the planes. Returns where reading stopped: no marker but those of
    /// restarts starts between `pos` and there.
    pub fn sos(
        &mut self,
        s: &[u8],
        data: &[u8],
        pos: usize,
        planes: &mut [u8],
        Ghost(canvas): Ghost<Seq<Option<u8>>>,
    ) -> (r: Result<usize, Error>)
        requires
            old(self).wf(),
            pos <= data@.len(),
            holds(old(planes)@, canvas),
        ensures
            tail_kept(old(planes)@, final(planes)@),
            match with_scan(old(self)@, canvas, s@, data@, pos as int) {
                None => r == Err::<usize, Error>(Error::Format),
                Some((h, c)) => {
                    &&& r matches Ok(end)
                    &&& pos <= end <= data@.len()
                    &&& only_restarts(data@, pos as int, end as int, old(self).restart > 0)
                    &&& header_from(data@, end as int) == header_from(data@, pos as int)
                    &&& final(self).wf()
                    &&& final(self)@ == h
                    &&& holds(final(planes)@, c)
                },
            },
    {
        let list: List = match self.select(s) {
            Ok(list) => list,
            Err(e) => {
                return Err(e);
            },
        };
        proof {
            lemma_select(old(self)@, s@, s@[0] as int);
        }
        self.scan(&list, data, pos, planes, Ghost(canvas))
    }
}

/// `todo` MCUs are left until the next restart marker, with `m` MCUs decoded.
#[verifier::opaque]
pub open spec fn counted(m: int, todo: int, r: int) -> bool {
    r > 0 ==> {
        &&& 0 <= todo <= r
        &&& (m + todo) % r == 0
        &&& m > 0 ==> todo < r
        &&& m == 0 ==> todo == r
    }
}

/// The countdown reaches zero just before every `r`-th MCU.
proof fn lemma_counted(m: int, todo: int, r: int)
    requires
        0 <= m,
        counted(m, todo, r),
    ensures
        r > 0 ==> {
            &&& todo == 0 <==> m > 0 && m % r == 0
            &&& todo == 0 ==> counted(m + 1, r - 1, r)
            &&& todo > 0 ==> counted(m + 1, todo - 1, r)
        },
        r <= 0 ==> counted(m + 1, todo, r),
{
    reveal(counted);
    if r > 0 {
        vstd::arithmetic::div_mod::lemma_add_mod_noop(m, todo, r);
        if 0 < todo < r {
            vstd::arithmetic::div_mod::lemma_small_mod(todo as nat, r as nat);
        }
        vstd::arithmetic::div_mod::lemma_mod_add_multiples_vanish(m, r);
    }
}

} // verus!
