//! Canonical Huffman tables: the code they stand for, and the lookup form used to read it.

use super::Error;
use vstd::arithmetic::div_mod::lemma_div_denominator;
use vstd::arithmetic::power2::{
    lemma2_to64, lemma_pow2_adds, lemma_pow2_pos, lemma_pow2_strictly_increases, lemma_pow2_unfold,
    pow2,
};
use vstd::prelude::*;

verus! {

/// Codes of up to this many bits are found by one table lookup.
pub const LOOK: usize = 9;

/// A canonical Huffman code: how many codes there are of each length from 1 to 16,
/// and the symbols in code order.
pub ghost struct Table {
    pub counts: Seq<u8>,
    pub vals: Seq<u8>,
}

/// The first `l` bits of the 16-bit window `w`, as a number.
pub open spec fn prefix(w: int, l: int) -> int {
    w / pow2((16 - l) as nat) as int
}

impl Table {
    /// Number of codes of length `l`.
    pub open spec fn count(self, l: int) -> int {
        if 1 <= l <= 16 {
            self.counts[l - 1] as int
        } else {
            0
        }
    }

    /// The first code of length `l`: twice the number just past the codes of length `l - 1`.
    pub open spec fn first_code(self, l: int) -> int
        decreases l,
    {
        if l <= 1 {
            0
        } else {
            2 * (self.first_code(l - 1) + self.count(l - 1))
        }
    }

    /// One more than the last code of length `l`.
    pub open spec fn end_code(self, l: int) -> int {
        self.first_code(l) + self.count(l)
    }

    /// How many symbols have codes shorter than `l`.
    pub open spec fn first_index(self, l: int) -> int
        decreases l,
    {
        if l <= 1 {
            0
        } else {
            self.first_index(l - 1) + self.count(l - 1)
        }
    }

    /// `c` is one of the codes of length `l`.
    pub open spec fn is_code(self, l: int, c: int) -> bool {
        self.first_code(l) <= c < self.end_code(l)
    }

    /// The symbol that the code `c` of length `l` stands for.
    pub open spec fn symbol_of(self, l: int, c: int) -> u8 {
        self.vals[self.first_index(l) + c - self.first_code(l)]
    }

    /// There are 16 counts and as many symbols as they add up to, at most 256.
    pub open spec fn sized(self) -> bool {
        &&& self.counts.len() == 16
        &&& self.vals.len() == self.first_index(17)
        &&& self.vals.len() <= 256
    }

    /// The codes of every length fit in it, and none is all ones.
    pub open spec fn valid(self) -> bool {
        forall|l: int| 1 <= l <= 16 ==> #[trigger] self.end_code(l) < pow2(l as nat)
    }

    /// Every symbol is a bit count that a DC difference can have.
    pub open spec fn dc_valid(self) -> bool {
        forall|i: int| 0 <= i < self.vals.len() ==> self.vals[i] <= 15
    }

    /// The code of at most `n` bits that the 16-bit window `w` starts with:
    /// its length and its symbol.
    pub open spec fn lookup_to(self, w: int, n: int) -> Option<(int, u8)>
        decreases n,
    {
        if n <= 0 {
            None
        } else {
            match self.lookup_to(w, n - 1) {
                Some(found) => Some(found),
                None => if self.is_code(n, prefix(w, n)) {
                    Some((n, self.symbol_of(n, prefix(w, n))))
                } else {
                    None
                },
            }
        }
    }

    /// The code that the 16-bit window `w` starts with: its length and its symbol.
    pub open spec fn lookup(self, w: int) -> Option<(int, u8)> {
        self.lookup_to(w, 16)
    }
}

/// One more bit of a prefix doubles it and adds the bit.
pub proof fn lemma_prefix_step(w: int, l: int)
    requires
        0 <= w,
        0 < l <= 16,
    ensures
        prefix(w, l - 1) == prefix(w, l) / 2,
        0 <= prefix(w, l),
{
    let e = (16 - l) as nat;
    lemma_pow2_pos(e);
    lemma_pow2_unfold(e + 1);
    lemma_div_denominator(w, pow2(e) as int, 2);
    vstd::arithmetic::div_mod::lemma_div_pos_is_pos(w, pow2(e) as int);
}

/// A prefix of a 16-bit window fits in its length.
pub proof fn lemma_prefix_bound(w: int, l: int)
    requires
        0 <= w < 65536,
        0 <= l <= 16,
    ensures
        0 <= prefix(w, l) < pow2(l as nat),
{
    let e = (16 - l) as nat;
    lemma_pow2_pos(e);
    lemma_pow2_adds(l as nat, e);
    lemma2_to64();
    assert(pow2(l as nat) * pow2(e) == 65536);
    vstd::arithmetic::div_mod::lemma_div_pos_is_pos(w, pow2(e) as int);
    assert(pow2(e) as int * pow2(l as nat) as int == 65536) by (nonlinear_arith)
        requires
            pow2(l as nat) * pow2(e) == 65536,
    ;
    vstd::arithmetic::div_mod::lemma_multiply_divide_lt(w, pow2(e) as int, pow2(l as nat) as int);
}

/// The prefix of `l <= 9` bits of a window only depends on its first 9 bits.
pub proof fn lemma_prefix_short(w: int, l: int)
    requires
        0 <= w,
        0 <= l <= 9,
    ensures
        prefix(w, l) == (w / 128) / pow2((9 - l) as nat) as int,
        prefix((w / 128) * 128, l) == prefix(w, l),
{
    let e = (9 - l) as nat;
    lemma2_to64();
    lemma_pow2_pos(e);
    lemma_pow2_adds(7, e);
    lemma_div_denominator(w, 128, pow2(e) as int);
    lemma_div_denominator((w / 128) * 128, 128, pow2(e) as int);
    assert(((w / 128) * 128) / 128 == w / 128);
}

impl Table {
    /// A window starts with a code of at most `n` bits exactly when its first `n`
    /// bits are below the end of the codes of length `n`.
    pub proof fn lemma_lookup_iff(self, w: int, n: int)
        requires
            self.counts.len() == 16,
            0 <= w < 65536,
            0 <= n <= 16,
        ensures
            self.lookup_to(w, n) is Some <==> prefix(w, n) < self.end_code(n),
        decreases n,
    {
        lemma_prefix_bound(w, n);
        if n > 0 {
            self.lemma_lookup_iff(w, n - 1);
            lemma_prefix_step(w, n);
        } else {
            lemma2_to64();
        }
    }

    /// What a lookup finds is a code of the table, of the length it says, and the
    /// prefix of that length is the code.
    pub proof fn lemma_lookup_found(self, w: int, n: int)
        requires
            self.counts.len() == 16,
            0 <= w < 65536,
            0 <= n <= 16,
        ensures
            self.lookup_to(w, n) matches Some((l, s)) ==> {
                &&& 1 <= l <= n
                &&& self.is_code(l, prefix(w, l))
                &&& s == self.symbol_of(l, prefix(w, l))
            },
        decreases n,
    {
        if n > 0 {
            self.lemma_lookup_found(w, n - 1);
        }
    }

    /// No code of the table is the beginning of another: a window starts with at most one.
    pub proof fn lemma_prefix_free(self, w: int, l: int)
        requires
            self.counts.len() == 16,
            0 <= w < 65536,
            1 <= l <= 16,
            self.is_code(l, prefix(w, l)),
        ensures
            self.lookup(w) == Some((l, self.symbol_of(l, prefix(w, l)))),
    {
        self.lemma_lookup_iff(w, l - 1);
        lemma_prefix_step(w, l);
        assert(self.lookup_to(w, l) == Some((l, self.symbol_of(l, prefix(w, l)))));
        self.lemma_lookup_stays(w, l, 16);
    }

    /// Longer codes do not change what was found.
    pub proof fn lemma_lookup_stays(self, w: int, n: int, m: int)
        requires
            n <= m,
            self.lookup_to(w, n) is Some,
        ensures
            self.lookup_to(w, m) == self.lookup_to(w, n),
        decreases m - n,
    {
        if n < m {
            self.lemma_lookup_stays(w, n, m - 1);
        }
    }

    /// Codes of at most 9 bits are decided by the first 9 bits of the window.
    pub proof fn lemma_lookup_short(self, w: int, n: int)
        requires
            0 <= w < 65536,
            n <= 9,
        ensures
            self.lookup_to((w / 128) * 128, n) == self.lookup_to(w, n),
        decreases n,
    {
        if n > 0 {
            self.lemma_lookup_short(w, n - 1);
            lemma_prefix_short(w, n);
        }
    }

    /// Indices grow with the length.
    pub proof fn lemma_index_monotone(self, l: int, m: int)
        requires
            l <= m,
        ensures
            0 <= self.first_index(l) <= self.first_index(m),
        decreases m,
    {
        if m > 1 {
            if l < m {
                self.lemma_index_monotone(l, m - 1);
            } else {
                self.lemma_index_monotone(m - 1, m - 1);
            }
        }
    }

    /// The index of a code is an index of the symbol list.
    pub proof fn lemma_symbol_index(self, l: int, c: int)
        requires
            self.sized(),
            1 <= l <= 16,
            self.is_code(l, c),
        ensures
            0 <= self.first_index(l) + c - self.first_code(l) < self.vals.len(),
    {
        self.lemma_index_monotone(l, l);
        self.lemma_index_monotone(l + 1, 17);
    }
}

/// The entry of the lookup table for a code found in a 9-bit window:
/// (code length << 8) | symbol, 0 when the code is longer.
pub open spec fn look_entry(found: Option<(int, u8)>) -> int {
    match found {
        None => 0,
        Some((l, s)) => l * 256 + s,
    }
}

/// A table in the form the bit reader uses.
#[derive(Clone, Copy)]
pub struct Huff {
    /// First LOOK bits -> (code length << 8) | symbol, 0 when the code is longer.
    pub look: [u16; 512],
    /// Last code of each length, -1 when there is none.
    pub maxcode: [i32; 17],
    /// Symbol index minus code, by code length.
    pub valoff: [i32; 17],
    pub vals: [u8; 256],
    /// The table was defined.
    pub ok: bool,
    /// The code it holds.
    pub table: Ghost<Table>,
}

impl Huff {
    /// A defined table answers lookups as its code does.
    pub open spec fn wf(self) -> bool {
        self.ok ==> {
            let t = self.table@;
            &&& t.sized()
            &&& t.valid()
            &&& forall|i: int| 0 <= i < t.vals.len() ==> self.vals[i] == t.vals[i]
            &&& forall|w: int|
                0 <= w < 512 ==> (#[trigger] self.look[w]) as int == look_entry(
                    t.lookup_to(w * 128, 9),
                )
            &&& forall|l: int|
                1 <= l <= 16 ==> (#[trigger] self.maxcode[l]) as int == if t.count(l) > 0 {
                    t.end_code(l) - 1
                } else {
                    -1
                }
            &&& forall|l: int|
                1 <= l <= 16 ==> (#[trigger] self.valoff[l]) as int == t.first_index(l)
                    - t.first_code(l)
        }
    }

    /// The code of a defined table.
    pub open spec fn defined(self) -> Option<Table> {
        if self.ok {
            Some(self.table@)
        } else {
            None
        }
    }

    /// A table that was not defined yet.
    pub fn empty() -> (h: Huff)
        ensures
            h.wf(),
            h.defined() is None,
            !h.ok,
            forall|w: int| 0 <= w < 512 ==> h.look[w] == 0,
            forall|l: int| 0 <= l < 17 ==> h.maxcode[l] == -1,
    {
        Huff {
            look: [0; 512],
            maxcode: [-1; 17],
            valoff: [0; 17],
            vals: [0; 256],
            ok: false,
            table: Ghost(Table { counts: Seq::empty(), vals: Seq::empty() }),
        }
    }
}

/// Fills `look[start..start + n]` with `entry`.
fn fill(look: &mut [u16; 512], start: usize, n: usize, entry: u16)
    requires
        start + n <= 512,
    ensures
        forall|w: int|
            0 <= w < 512 ==> #[trigger] final(look)[w] == if start <= w < start + n {
                entry
            } else {
                old(look)[w]
            },
{
    let mut i: usize = 0;
    while i < n
        invariant
            start + n <= 512,
            i <= n,
            forall|w: int|
                0 <= w < 512 ==> #[trigger] look[w] == if start <= w < start + i {
                    entry
                } else {
                    old(look)[w]
                },
        decreases n - i,
    {
        look[start + i] = entry;
        i += 1;
    }
}

impl Huff {
    /// Defines the table from the code counts by length and the symbols in code order.
    /// A DC table only has symbols up to 15; no code may be all ones.
    pub fn build(&mut self, bits: &[u8], vals: &[u8], dc: bool) -> (r: Result<(), Error>)
        requires
            (Table { counts: bits@, vals: vals@ }).sized(),
        ensures
            ({
                let t = Table { counts: bits@, vals: vals@ };
                if dc && !t.dc_valid() {
                    r == Err::<(), Error>(Error::Format) && *final(self) == *old(self)
                } else if !t.valid() {
                    r == Err::<(), Error>(Error::Format) && !final(self).ok
                } else {
                    r == Ok::<(), Error>(()) && final(self).wf() && final(self).defined() == Some(t)
                }
            }),
    {
        let ghost t = Table { counts: bits@, vals: vals@ };
        let count: usize = vals.len();
        if dc {
            let mut i: usize = 0;
            while i < count
                invariant
                    i <= count == vals@.len(),
                    t == (Table { counts: bits@, vals: vals@ }),
                    dc,
                    *self == *old(self),
                    forall|k: int| 0 <= k < i ==> vals@[k] <= 15,
                decreases count - i,
            {
                if vals[i] > 15 {
                    assert(t.vals[i as int] > 15);
                    return Err(Error::Format);
                }
                i += 1;
            }
        }
        *self = Huff::empty();
        let mut i: usize = 0;
        while i < count
            invariant
                i <= count == vals@.len() <= 256,
                !self.ok,
                forall|k: int| 0 <= k < i ==> self.vals[k] == vals@[k],
                forall|w: int| 0 <= w < 512 ==> self.look[w] == 0,
                forall|l: int| 1 <= l <= 16 ==> self.maxcode[l] == -1,
            decreases count - i,
        {
            self.vals[i] = vals[i];
            i += 1;
        }
        let mut code: i32 = 0;
        let mut p: usize = 0;
        let mut l: usize = 1;
        // 2^l, and how many 9-bit windows start with one code of length l.
        let mut limit: i32 = 2;
        let mut span: usize = 256;
        proof {
            lemma2_to64();
        }
        while l <= 16
            invariant
                1 <= l <= 17,
                t == (Table { counts: bits@, vals: vals@ }),
                t.sized(),
                dc ==> t.dc_valid(),
                code == t.first_code(l as int),
                p == t.first_index(l as int),
                l <= 16 ==> limit == pow2(l as nat) && 2 <= limit <= 65536,
                limit <= 131072,
                l <= 9 ==> span == pow2((9 - l) as nat),
                span <= 256,
                0 <= code < limit,
                !self.ok,
                forall|k: int| 0 <= k < t.vals.len() ==> self.vals[k] == t.vals[k],
                forall|m: int| 1 <= m < l ==> #[trigger] t.end_code(m) < pow2(m as nat),
                forall|w: int|
                    0 <= w < 512 ==> (#[trigger] self.look[w]) as int == look_entry(
                        t.lookup_to(
                            w * 128,
                            if l <= 10 {
                                l - 1
                            } else {
                                9
                            },
                        ),
                    ),
                forall|m: int|
                    1 <= m < l ==> (#[trigger] self.maxcode[m]) as int == if t.count(m) > 0 {
                        t.end_code(m) - 1
                    } else {
                        -1
                    },
                forall|m: int| l <= m <= 16 ==> #[trigger] self.maxcode[m] == -1,
                forall|m: int|
                    1 <= m < l ==> (#[trigger] self.valoff[m]) as int == t.first_index(m)
                        - t.first_code(m),
            decreases 17 - l,
        {
            let n: usize = bits[l - 1] as usize;
            proof {
                t.lemma_index_monotone(l + 1, 17);
                t.lemma_index_monotone(1, l as int);
            }
            self.valoff[l] = p as i32 - code;
            let mut j: usize = 0;
            while j < n
                invariant
                    1 <= l <= 16,
                    j <= n == t.count(l as int),
                    t == (Table { counts: bits@, vals: vals@ }),
                    t.sized(),
                    dc ==> t.dc_valid(),
                    code == t.first_code(l as int) + j,
                    p == t.first_index(l as int) + j,
                    t.first_index(l as int) + n <= vals@.len(),
                    limit == pow2(l as nat) && 2 <= limit <= 65536,
                    l <= 9 ==> span == pow2((9 - l) as nat),
                    0 <= code < limit,
                    !self.ok,
                    forall|k: int| 0 <= k < t.vals.len() ==> self.vals[k] == t.vals[k],
                    l <= 9 ==> forall|w: int|
                        0 <= w < 512 ==> (#[trigger] self.look[w]) as int == look_entry(
                            if t.first_code(l as int) <= prefix(w * 128, l as int) < code {
                                Some(
                                    (
                                        l as int,
                                        t.symbol_of(l as int, prefix(w * 128, l as int)),
                                    ),
                                )
                            } else {
                                t.lookup_to(w * 128, l - 1)
                            },
                        ),
                    l > 9 ==> forall|w: int|
                        0 <= w < 512 ==> (#[trigger] self.look[w]) as int == look_entry(
                            t.lookup_to(w * 128, 9),
                        ),
                    forall|m: int|
                        1 <= m < l ==> (#[trigger] self.maxcode[m]) as int == if t.count(m) > 0 {
                            t.end_code(m) - 1
                        } else {
                            -1
                        },
                    forall|m: int| l <= m <= 16 ==> #[trigger] self.maxcode[m] == -1,
                    forall|m: int|
                        1 <= m <= l ==> (#[trigger] self.valoff[m]) as int == t.first_index(m)
                            - t.first_code(m),
                decreases n - j,
            {
                // No code may be all ones: every code of length l stays below 2^l - 1.
                if code + 1 >= limit {
                    assert(t.end_code(l as int) >= pow2(l as nat));
                    return Err(Error::Format);
                }
                if l <= LOOK {
                    let v: u8 = vals[p];
                    let lw: u16 = l as u16;
                    let vw: u16 = v as u16;
                    assert(lw << 8 | vw == lw * 256 + vw) by (bit_vector)
                        requires
                            lw <= 9,
                            vw < 256,
                    ;
                    let entry: u16 = lw << 8 | vw;
                    proof {
                        lemma_pow2_adds(l as nat, (9 - l) as nat);
                        lemma2_to64();
                        assert(code * span + span <= 512) by (nonlinear_arith)
                            requires
                                code + 1 < limit,
                                limit * span == 512,
                                span >= 0,
                        ;
                        assert(0 <= code * span) by (nonlinear_arith)
                            requires
                                code >= 0,
                                span >= 0,
                        ;
                    }
                    let start: usize = code as usize * span;
                    fill(&mut self.look, start, span, entry);
                    proof {
                        assert forall|w: int| 0 <= w < 512 implies (start <= w < start + span)
                            == (#[trigger] prefix(w * 128, l as int) == code) by {
                            lemma_prefix_short(w * 128, l as int);
                            lemma_pow2_pos((9 - l) as nat);
                            vstd::arithmetic::div_mod::lemma_fundamental_div_mod(w, span as int);
                            vstd::arithmetic::div_mod::lemma_mod_bound(w, span as int);
                            let q = w / span as int;
                            let rem = w % span as int;
                            assert((code * span <= w < code * span + span) == (q == code))
                                by (nonlinear_arith)
                                requires
                                    w == span * q + rem,
                                    0 <= rem < span,
                            ;
                        }
                    }
                }
                p += 1;
                code += 1;
                j += 1;
            }
            if n > 0 {
                self.maxcode[l] = code - 1;
            }
            proof {
                lemma_pow2_unfold((l + 1) as nat);
                lemma2_to64();
                if l < 15 {
                    lemma_pow2_strictly_increases((l + 1) as nat, 16);
                }
                if l <= 8 {
                    lemma_pow2_unfold((9 - l) as nat);
                }
                if l <= 9 {
                    assert forall|w: int| 0 <= w < 512 implies (#[trigger] self.look[w]) as int
                        == look_entry(t.lookup_to(w * 128, l as int)) by {
                        t.lemma_lookup_iff(w * 128, l - 1);
                        lemma_prefix_step(w * 128, l as int);
                    }
                }
            }
            code = code * 2;
            limit = limit * 2;
            span = span / 2;
            l += 1;
        }
        proof {
            self.table@ = t;
        }
        self.ok = true;
        Ok(())
    }
}

} // verus!
