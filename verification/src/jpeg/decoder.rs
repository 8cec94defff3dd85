//! The header segments, read into tables and components.

use super::block::ZIGZAG;
use super::frame::{
    component_fault, first_fault, frame_component, good_ratio, hmax_of, huff_table,
    lemma_max_factors, lemma_zigzag_permutation, no_header, quant_table, vmax_of, with_frame,
    with_huff, with_quant, Component, Header, ORDER,
};
use super::huffman::{Huff, Table};
use super::marker::be16;
use super::Error;
use crate::geometry::{H, W};
use vstd::prelude::*;

verus! {

/// A color component of the frame.
#[derive(Clone, Copy)]
pub struct Comp {
    pub id: u8,
    pub h: usize,
    pub v: usize,
    pub tq: usize,
    pub td: usize,
    pub ta: usize,
    /// Quantization table latched at the component's first scan.
    pub q: [u16; 64],
    pub seen: bool,
}

impl View for Comp {
    type V = Component;

    open spec fn view(&self) -> Component {
        Component {
            id: self.id,
            h: self.h as int,
            v: self.v as int,
            tq: self.tq as int,
            td: self.td as int,
            ta: self.ta as int,
            q: self.q@,
            seen: self.seen,
        }
    }
}

/// What the header segments have defined so far.
pub struct Decoder {
    pub qt: [[u16; 64]; 4],
    pub qt_ok: [bool; 4],
    pub dc: [Huff; 4],
    pub ac: [Huff; 4],
    pub comps: [Comp; 3],
    pub ncomp: usize,
    pub hmax: usize,
    pub vmax: usize,
    pub restart: usize,
    pub jfif: bool,
    pub adobe: Option<u8>,
}

impl View for Decoder {
    type V = Header;

    open spec fn view(&self) -> Header {
        Header {
            qt: Seq::new(
                4,
                |t: int|
                    if self.qt_ok[t] {
                        Some(self.qt[t]@)
                    } else {
                        None
                    },
            ),
            dc: Seq::new(4, |t: int| self.dc[t].defined()),
            ac: Seq::new(4, |t: int| self.ac[t].defined()),
            comps: Seq::new(self.ncomp as nat, |k: int| self.comps[k]@),
            restart: self.restart as int,
            jfif: self.jfif,
            adobe: self.adobe,
        }
    }
}

impl Decoder {
    /// The header is well formed, the tables answer as their codes do, and the largest
    /// factors are up to date.
    pub open spec fn wf(self) -> bool {
        &&& self.ncomp <= 3
        &&& self@.wf()
        &&& self.hmax == self@.hmax()
        &&& self.vmax == self@.vmax()
        &&& forall|t: int| 0 <= t < 4 ==> (#[trigger] self.dc[t]).wf()
        &&& forall|t: int|
            0 <= t < 4 && (#[trigger] self.dc[t]).ok ==> self.dc[t].table@.dc_valid()
        &&& forall|t: int| 0 <= t < 4 ==> (#[trigger] self.ac[t]).wf()
    }

    /// A decoder that has seen no segment.
    pub fn new() -> (d: Decoder)
        ensures
            d.wf(),
            d@ == no_header(),
    {
        let comp0 = Comp {
            id: 0,
            h: 1,
            v: 1,
            tq: 0,
            td: 0,
            ta: 0,
            q: [0; 64],
            seen: false,
        };
        let e = Huff::empty();
        let d = Decoder {
            qt: [[0; 64]; 4],
            qt_ok: [false; 4],
            dc: [e, e, e, e],
            ac: [e, e, e, e],
            comps: [comp0; 3],
            ncomp: 0,
            hmax: 1,
            vmax: 1,
            restart: 0,
            jfif: false,
            adobe: None,
        };
        assert(d@ =~~= no_header());
        d
    }

    /// There is a frame, and every component of it was in a scan.
    pub fn complete(&self) -> (r: bool)
        requires
            self.wf(),
        ensures
            r == self@.complete(),
    {
        if self.ncomp == 0 {
            return false;
        }
        let mut k: usize = 0;
        while k < self.ncomp
            invariant
                k <= self.ncomp <= 3,
                forall|j: int| 0 <= j < k ==> (#[trigger] self@.comps[j]).seen,
            decreases self.ncomp - k,
        {
            if !self.comps[k].seen {
                assert(!self@.comps[k as int].seen);
                return false;
            }
            k += 1;
        }
        true
    }

    /// Frame header: size, components and their sampling factors.
    pub fn sof(&mut self, s: &[u8]) -> (r: Result<(), Error>)
        requires
            old(self).wf(),
        ensures
            match with_frame(old(self)@, s@) {
                Ok(h) => r == Ok::<(), Error>(()) && final(self).wf() && final(self)@ == h,
                Err(e) => r == Err::<(), Error>(e),
            },
    {
        if self.ncomp != 0 || s.len() < 6 {
            return Err(Error::Format);
        }
        if s[0] != 8 {
            return Err(Error::Unsupported);
        }
        let h: usize = match be16(s, 1) {
            Ok(v) => v,
            Err(e) => {
                return Err(e);
            },
        };
        let w: usize = match be16(s, 3) {
            Ok(v) => v,
            Err(e) => {
                return Err(e);
            },
        };
        let n: usize = s[5] as usize;
        if s.len() < 6 + 3 * n || n == 0 {
            return Err(Error::Format);
        }
        if n != 1 && n != 3 {
            return Err(Error::Unsupported);
        }
        if w != W || h != H {
            return Err(Error::Size);
        }
        let ghost g = Header { comps: Seq::new(n as nat, |i: int| frame_component(s@, i)), ..self@ };
        let mut comps: [Comp; 3] = self.comps;
        let mut hmax: usize = 1;
        let mut vmax: usize = 1;
        let mut i: usize = 0;
        while i < n
            invariant
                i <= n <= 3,
                n == s@[5],
                s@.len() >= 6 + 3 * n,
                g.comps == Seq::new(n as nat, |i: int| frame_component(s@, i)),
                first_fault(s@, i as int) is None,
                with_frame(old(self)@, s@) == match first_fault(s@, n as int) {
                    Some(e) => Err::<Header, Error>(e),
                    None => if forall|k: int|
                        0 <= k < n ==> good_ratio(
                            g.hmax() / (#[trigger] g.comps[k]).h,
                            g.vmax() / g.comps[k].v,
                        ) {
                        Ok::<Header, Error>(g)
                    } else {
                        Err::<Header, Error>(Error::Unsupported)
                    },
                },
                hmax == hmax_of(g.comps, i as int),
                vmax == vmax_of(g.comps, i as int),
                forall|k: int|
                    0 <= k < i ==> (#[trigger] comps[k])@ == g.comps[k] && component_fault(
                        g.comps[k],
                    ) is None,
            decreases n - i,
        {
            let hv: u8 = s[7 + 3 * i];
            assert(hv >> 4 == hv / 16 && hv & 15 == hv % 16) by (bit_vector);
            let c = Comp {
                id: s[6 + 3 * i],
                h: (hv >> 4) as usize,
                v: (hv & 15) as usize,
                tq: s[8 + 3 * i] as usize,
                td: 0,
                ta: 0,
                q: [0; 64],
                seen: false,
            };
            assert(c@ =~= frame_component(s@, i as int));
            if c.h == 0 || c.v == 0 || c.tq > 3 {
                proof {
                    lemma_first_fault(s@, i + 1, n as int);
                }
                return Err(Error::Format);
            }
            if c.h > 2 || c.v > 2 {
                proof {
                    lemma_first_fault(s@, i + 1, n as int);
                }
                return Err(Error::Unsupported);
            }
            assert(c@ == g.comps[i as int]);
            assert(component_fault(g.comps[i as int]) is None);
            let ghost before = comps;
            comps[i] = c;
            assert forall|k: int| 0 <= k <= i implies (#[trigger] comps[k])@ == g.comps[k]
                && component_fault(g.comps[k]) is None by {
                if k < i {
                    assert(comps[k] == before[k]);
                }
            }
            if c.h > hmax {
                hmax = c.h;
            }
            if c.v > vmax {
                vmax = c.v;
            }
            i += 1;
        }
        proof {
            assert forall|k: int| 0 <= k < n implies 1 <= (#[trigger] g.comps[k]).h <= 2 && 1
                <= g.comps[k].v <= 2 by {
                assert(comps[k]@ == g.comps[k]);
            }
            lemma_max_factors(g.comps, n as int);
        }
        let mut k: usize = 0;
        while k < n
            invariant
                k <= n <= 3,
                g.comps.len() == n,
                hmax == g.hmax(),
                vmax == g.vmax(),
                with_frame(old(self)@, s@) == if forall|k: int|
                    0 <= k < n ==> good_ratio(
                        g.hmax() / (#[trigger] g.comps[k]).h,
                        g.vmax() / g.comps[k].v,
                    ) {
                    Ok::<Header, Error>(g)
                } else {
                    Err::<Header, Error>(Error::Unsupported)
                },
                forall|j: int|
                    0 <= j < n ==> (#[trigger] comps[j])@ == g.comps[j] && component_fault(
                        g.comps[j],
                    ) is None,
                forall|j: int|
                    0 <= j < k ==> good_ratio(
                        g.hmax() / (#[trigger] g.comps[j]).h,
                        g.vmax() / g.comps[j].v,
                    ),
            decreases n - k,
        {
            let c: Comp = comps[k];
            assert(c@ == g.comps[k as int]);
            let rh: usize = hmax / c.h;
            let rv: usize = vmax / c.v;
            if !(rh == 1 && rv == 1 || rh == 2 && rv == 1 || rh == 2 && rv == 2) {
                assert(!good_ratio(
                    g.hmax() / g.comps[k as int].h,
                    g.vmax() / g.comps[k as int].v,
                ));
                return Err(Error::Unsupported);
            }
            k += 1;
        }
        self.comps = comps;
        self.ncomp = n;
        self.hmax = hmax;
        self.vmax = vmax;
        assert(self@ =~~= g);
        Ok(())
    }

    /// Quantization tables.
    pub fn dqt(&mut self, s: &[u8]) -> (r: Result<(), Error>)
        requires
            old(self).wf(),
        ensures
            match with_quant(old(self)@, s@) {
                Some(h) => r == Ok::<(), Error>(()) && final(self).wf() && final(self)@ == h,
                None => r == Err::<(), Error>(Error::Format),
            },
    {
        let mut rest: &[u8] = s;
        while rest.len() > 0
            invariant
                self.wf(),
                with_quant(self@, rest@) == with_quant(old(self)@, s@),
            decreases rest@.len(),
        {
            let pt: u8 = rest[0];
            assert(pt >> 4 == pt / 16 && pt & 15 == pt % 16) by (bit_vector);
            let p: usize = (pt >> 4) as usize;
            let t: usize = (pt & 15) as usize;
            let n: usize = if p == 0 {
                64
            } else {
                128
            };
            if p > 1 || t > 3 || rest.len() < 1 + n {
                return Err(Error::Format);
            }
            let mut table: [u16; 64] = [0; 64];
            let mut k: usize = 0;
            while k < 64
                invariant
                    k <= 64,
                    p <= 1,
                    rest@.len() >= 1 + (if p == 0 {
                        64int
                    } else {
                        128
                    }),
                    forall|i: int|
                        0 <= i < 64 && ORDER[i] < k ==> #[trigger] table[i] == quant_table(
                            rest@,
                            p as int,
                        )[i],
                decreases 64 - k,
            {
                let v: u16 = if p == 0 {
                    rest[1 + k] as u16
                } else {
                    match be16(rest, 1 + 2 * k) {
                        Ok(v) => v as u16,
                        Err(e) => {
                            return Err(e);
                        },
                    }
                };
                proof {
                    lemma_zigzag_permutation(k as int);
                    assert forall|i: int| 0 <= i < 64 && ORDER[i] == k implies i == ZIGZAG[k as int]
                        by {
                        lemma_zigzag_permutation(i);
                    }
                }
                table[ZIGZAG[k] as usize] = v;
                k += 1;
            }
            proof {
                assert forall|i: int| 0 <= i < 64 implies #[trigger] table[i] == quant_table(
                    rest@,
                    p as int,
                )[i] by {
                    lemma_zigzag_permutation(i);
                }
                assert(table@ =~= quant_table(rest@, p as int));
            }
            let ghost before = self@;
            self.qt[t] = table;
            self.qt_ok[t] = true;
            assert(self@ =~~= (Header {
                qt: before.qt.update(t as int, Some(quant_table(rest@, p as int))),
                ..before
            }));
            assert(rest@.subrange(1 + n as int, rest@.len() as int) =~= rest@.skip(1 + n as int));
            rest = &rest[1 + n..rest.len()];
        }
        Ok(())
    }

    /// Huffman tables.
    pub fn dht(&mut self, s: &[u8]) -> (r: Result<(), Error>)
        requires
            old(self).wf(),
        ensures
            match with_huff(old(self)@, s@) {
                Some(h) => r == Ok::<(), Error>(()) && final(self).wf() && final(self)@ == h,
                None => r == Err::<(), Error>(Error::Format),
            },
    {
        let mut rest: &[u8] = s;
        while rest.len() > 0
            invariant
                self.wf(),
                with_huff(self@, rest@) == with_huff(old(self)@, s@),
            decreases rest@.len(),
        {
            let ct: u8 = rest[0];
            assert(ct >> 4 == ct / 16 && ct & 15 == ct % 16) by (bit_vector);
            let class: usize = (ct >> 4) as usize;
            let t: usize = (ct & 15) as usize;
            if class > 1 || t > 3 || rest.len() < 17 {
                return Err(Error::Format);
            }
            let ghost counts = rest@.subrange(1, 17);
            let ghost sum = Table { counts, vals: Seq::empty() };
            let mut count: usize = 0;
            let mut l: usize = 1;
            while l <= 16
                invariant
                    1 <= l <= 17,
                    rest@.len() >= 17,
                    sum == (Table { counts: rest@.subrange(1, 17), vals: Seq::empty() }),
                    count == sum.first_index(l as int),
                    count <= 255 * (l - 1),
                decreases 17 - l,
            {
                count += rest[l] as usize;
                l += 1;
            }
            if count > 256 || rest.len() < 17 + count {
                return Err(Error::Format);
            }
            let bits: &[u8] = &rest[1..17];
            let vals: &[u8] = &rest[17..17 + count];
            let ghost table = huff_table(rest@);
            assert(table == (Table { counts: bits@, vals: vals@ }));
            proof {
                lemma_same_counts(sum, table, 17);
            }
            let ghost before = self@;
            if class == 0 {
                match self.dc[t].build(bits, vals, true) {
                    Ok(()) => {},
                    Err(e) => {
                        return Err(e);
                    },
                }
                assert(self@ =~~= (Header { dc: before.dc.update(t as int, Some(table)), ..before }));
            } else {
                match self.ac[t].build(bits, vals, false) {
                    Ok(()) => {},
                    Err(e) => {
                        return Err(e);
                    },
                }
                assert(self@ =~~= (Header { ac: before.ac.update(t as int, Some(table)), ..before }));
            }
            assert(rest@.subrange(17 + count as int, rest@.len() as int) =~= rest@.skip(
                17 + count as int,
            ));
            rest = &rest[17 + count..rest.len()];
        }
        Ok(())
    }
}

/// A fault among the first components is the first fault of all.
proof fn lemma_first_fault(s: Seq<u8>, n: int, m: int)
    requires
        n <= m,
        first_fault(s, n) is Some,
    ensures
        first_fault(s, m) == first_fault(s, n),
    decreases m - n,
{
    if n < m {
        lemma_first_fault(s, n, m - 1);
    }
}

/// Indices only depend on the counts.
proof fn lemma_same_counts(a: Table, b: Table, l: int)
    requires
        a.counts == b.counts,
    ensures
        a.first_index(l) == b.first_index(l),
    decreases l,
{
    if l > 1 {
        lemma_same_counts(a, b, l - 1);
    }
}

} // verus!
