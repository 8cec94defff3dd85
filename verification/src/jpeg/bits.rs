//! The entropy-coded bit stream: byte stuffing, and the bit reader over it.

use super::huffman::{lemma_prefix_short, look_entry, prefix, Huff, Table};
use super::marker::{header_from, is_marker, lemma_marker_skip, marker_from};
use super::Error;
use vstd::arithmetic::power2::{
    lemma2_to64, lemma2_to64_rest, lemma_pow2_adds, lemma_pow2_pos, lemma_pow2_strictly_increases,
    lemma_pow2_unfold, pow2,
};
use vstd::bits::{
    lemma_u64_low_bits_mask_is_mod, lemma_u64_shl_is_mul, lemma_u64_shr_is_div, low_bits_mask,
};
use vstd::prelude::*;

verus! {

/// The first offset at or after `i` that does not hold FF.
pub open spec fn past_ff(d: Seq<u8>, i: int) -> int
    decreases d.len() - i,
{
    if 0 <= i < d.len() && d[i] == 0xFF {
        past_ff(d, i + 1)
    } else {
        i
    }
}

/// Only FF bytes are skipped.
pub proof fn lemma_past_ff(d: Seq<u8>, i: int)
    requires
        0 <= i <= d.len(),
    ensures
        i <= past_ff(d, i) <= d.len(),
        forall|p: int| i <= p < past_ff(d, i) ==> d[p] == 0xFF,
        past_ff(d, i) < d.len() ==> d[past_ff(d, i)] != 0xFF,
    decreases d.len() - i,
{
    if i < d.len() && d[i] == 0xFF {
        lemma_past_ff(d, i + 1);
    }
}

/// The bytes of the entropy-coded segment that starts at `i`: up to the next marker
/// or the end of the data, where FF (FF..) 00 stands for one FF.
pub open spec fn entropy_bytes(d: Seq<u8>, i: int) -> Seq<u8>
    decreases d.len() - i,
{
    proof {
        if 0 <= i < d.len() {
            lemma_past_ff(d, i);
        }
    }
    if !(0 <= i < d.len()) {
        Seq::empty()
    } else if d[i] != 0xFF {
        seq![d[i]] + entropy_bytes(d, i + 1)
    } else if past_ff(d, i) < d.len() && d[past_ff(d, i)] == 0 {
        seq![0xFFu8] + entropy_bytes(d, past_ff(d, i) + 1)
    } else {
        Seq::empty()
    }
}

/// Bit `i` of a byte string, most significant bit of each byte first; zero past its end.
pub open spec fn bit_at(s: Seq<u8>, i: int) -> int {
    if 0 <= i && i / 8 < s.len() {
        (s[i / 8] as int / pow2((7 - i % 8) as nat) as int) % 2
    } else {
        0
    }
}

/// The `n` bits from bit `k` on, as a number.
pub open spec fn bits_at(s: Seq<u8>, k: int, n: int) -> int
    decreases n,
{
    if n <= 0 {
        0
    } else {
        2 * bits_at(s, k, n - 1) + bit_at(s, k + n - 1)
    }
}

/// `n` bits are a number below 2^n.
pub proof fn lemma_bits_bound(s: Seq<u8>, k: int, n: int)
    requires
        0 <= n,
    ensures
        0 <= bits_at(s, k, n) < pow2(n as nat),
    decreases n,
{
    if n > 0 {
        lemma_bits_bound(s, k, n - 1);
        lemma_pow2_unfold(n as nat);
    } else {
        lemma2_to64();
    }
}

/// Reading `n + m` bits is reading `n` bits and then `m`.
pub proof fn lemma_bits_concat(s: Seq<u8>, k: int, n: int, m: int)
    requires
        0 <= n,
        0 <= m,
    ensures
        bits_at(s, k, n + m) == bits_at(s, k, n) * pow2(m as nat) + bits_at(s, k + n, m),
    decreases m,
{
    if m > 0 {
        lemma_bits_concat(s, k, n, m - 1);
        lemma_pow2_unfold(m as nat);
        let (a, p, b) = (bits_at(s, k, n), pow2((m - 1) as nat) as int, bits_at(s, k + n, m - 1));
        assert(2 * (a * p + b) == a * (2 * p) + 2 * b) by (nonlinear_arith);
    } else {
        lemma2_to64();
    }
}

/// The eight bits of byte `f`.
pub proof fn lemma_bits_byte(s: Seq<u8>, f: int)
    requires
        0 <= f,
    ensures
        bits_at(s, 8 * f, 8) == if f < s.len() {
            s[f] as int
        } else {
            0
        },
{
    reveal_with_fuel(bits_at, 2);
    lemma2_to64();
    let b = if f < s.len() {
        s[f] as int
    } else {
        0
    };
    let k = 8 * f;
    assert(bit_at(s, k) == (b / 128) % 2);
    assert(bit_at(s, k + 1) == (b / 64) % 2);
    assert(bit_at(s, k + 2) == (b / 32) % 2);
    assert(bit_at(s, k + 3) == (b / 16) % 2);
    assert(bit_at(s, k + 4) == (b / 8) % 2);
    assert(bit_at(s, k + 5) == (b / 4) % 2);
    assert(bit_at(s, k + 6) == (b / 2) % 2);
    assert((k + 7) % 8 == 7 && (k + 7) / 8 == f);
    assert(bit_at(s, k + 7) == (b / 1) % 2);
    assert(b / 1 == b);
    assert(bits_at(s, k, 1) == b / 128);
    assert(bits_at(s, k, 2) == b / 64);
    assert(bits_at(s, k, 3) == b / 32);
    assert(bits_at(s, k, 4) == b / 16);
    assert(bits_at(s, k, 5) == b / 8);
    assert(bits_at(s, k, 6) == b / 4);
    assert(bits_at(s, k, 7) == b / 2);
    assert(bits_at(s, k, 8) == b);
}

/// Shorter reads are prefixes of longer ones.
pub proof fn lemma_bits_prefix(s: Seq<u8>, k: int, l: int)
    requires
        0 <= l <= 16,
    ensures
        prefix(bits_at(s, k, 16), l) == bits_at(s, k, l),
        0 <= bits_at(s, k, 16) < 65536,
{
    lemma_bits_concat(s, k, l, 16 - l);
    lemma_bits_bound(s, k + l, 16 - l);
    lemma_bits_bound(s, k, 16);
    lemma2_to64();
    let p = pow2((16 - l) as nat) as int;
    let q = bits_at(s, k, l);
    let r = bits_at(s, k + l, 16 - l);
    vstd::arithmetic::div_mod::lemma_fundamental_div_mod_converse(q * p + r, p, q, r);
}

/// The symbol that the bits from `k` on start with, and where it ends.
pub open spec fn read_symbol(t: Table, s: Seq<u8>, k: int) -> Option<(u8, int)> {
    match t.lookup(bits_at(s, k, 16)) {
        Some((l, v)) => Some((v, k + l)),
        None => None,
    }
}

/// The number that `n` bits of value `v` stand for: those that start with a zero bit
/// are negative.
pub open spec fn extended(v: int, n: int) -> int {
    if n <= 0 {
        0
    } else if v < pow2((n - 1) as nat) {
        v - pow2(n as nat) + 1
    } else {
        v
    }
}

/// An extended number keeps within its bit count.
pub proof fn lemma_extended_range(v: int, n: int)
    requires
        0 <= n,
        0 <= v < pow2(n as nat),
    ensures
        -pow2(n as nat) < extended(v, n) < pow2(n as nat),
{
    lemma_pow2_pos(n as nat);
}

/// Bit reader over one entropy-coded segment.
pub struct Bits<'a> {
    pub d: &'a [u8],
    pub pos: usize,
    /// Next bits, MSB first; `n` of them are valid.
    pub acc: u64,
    pub n: u32,
    /// Hit a marker (or the end): feed zeros from now on.
    pub stop: bool,
    /// Where the segment starts, and how many of its bits were taken.
    pub start: Ghost<int>,
    pub used: Ghost<int>,
}

impl<'a> Bits<'a> {
    /// The bytes the reader hands out, zeros after them.
    pub open spec fn stream(self) -> Seq<u8> {
        entropy_bytes(self.d@, self.start@)
    }

    /// The buffered bits are the ones that follow those taken, and the position has
    /// not passed a marker.
    pub open spec fn wf(self) -> bool {
        let s = self.stream();
        let fed = (self.n + self.used@) / 8;
        &&& 0 <= self.start@ <= self.pos <= self.d@.len()
        &&& 0 <= self.used@
        &&& self.n <= 64
        &&& (self.n + self.used@) % 8 == 0
        &&& self.acc as int == bits_at(s, self.used@, self.n as int) * pow2((64 - self.n) as nat)
        &&& marker_from(self.d@, self.pos as int) == marker_from(self.d@, self.start@)
        &&& header_from(self.d@, self.pos as int) == header_from(self.d@, self.start@)
        &&& !self.stop ==> fed <= s.len() && s.skip(fed) == entropy_bytes(
            self.d@,
            self.pos as int,
        )
        &&& self.stop ==> fed >= s.len()
    }

    /// `k` more bits of the same segment were taken.
    pub open spec fn advanced(self, before: Bits<'a>, k: int) -> bool {
        &&& self.wf()
        &&& self.d@ == before.d@
        &&& self.start@ == before.start@
        &&& self.used@ == before.used@ + k
    }

    /// A reader at the start of the segment at `pos`.
    pub fn new(d: &'a [u8], pos: usize) -> (b: Bits<'a>)
        requires
            pos <= d@.len(),
        ensures
            b.wf(),
            b.d@ == d@,
            b.start@ == pos,
            b.used@ == 0,
    {
        let b = Bits { d, pos, acc: 0, n: 0, stop: false, start: Ghost(pos as int), used: Ghost(0) };
        proof {
            let s = b.stream();
            assert(s.skip(0) =~= s);
        }
        b
    }

    /// Keep at least 16 bits buffered: the longest code, or the most extra bits.
    pub fn need16(&mut self)
        requires
            old(self).wf(),
        ensures
            final(self).advanced(*old(self), 0),
            final(self).n >= 16,
            old(self).stop ==> final(self).stop && final(self).pos == old(self).pos,
    {
        if self.n < 16 {
            self.refill();
        }
    }

    /// Buffers more than 56 bits.
    pub fn refill(&mut self)
        requires
            old(self).wf(),
        ensures
            final(self).advanced(*old(self), 0),
            final(self).n > 56,
            old(self).stop ==> final(self).stop && final(self).pos == old(self).pos,
    {
        while self.n <= 56
            invariant
                self.advanced(*old(self), 0),
                old(self).stop ==> self.stop && self.pos == old(self).pos,
            decreases 64 - self.n,
        {
            let ghost s = self.stream();
            let ghost fed = (self.n + self.used@) / 8;
            let ghost pos0 = self.pos as int;
            let ghost stop0 = self.stop;
            let mut b: u8 = 0;
            if !self.stop {
                if self.pos >= self.d.len() {
                    self.stop = true;
                } else {
                    let v: u8 = self.d[self.pos];
                    if v == 0xFF {
                        // FF (FF..) 00 is a stuffed FF; FF followed by anything else is a marker.
                        let mut q: usize = self.pos + 1;
                        while q < self.d.len() && self.d[q] == 0xFF
                            invariant
                                self.pos < q <= self.d@.len(),
                                forall|p: int| self.pos <= p < q ==> self.d@[p] == 0xFF,
                            decreases self.d@.len() - q,
                        {
                            q += 1;
                        }
                        proof {
                            lemma_past_ff_is(self.d@, self.pos as int, q as int);
                        }
                        if q < self.d.len() && self.d[q] == 0 {
                            b = 0xFF;
                            proof {
                                assert forall|p: int| pos0 <= p < q + 1 implies !is_marker(
                                    self.d@,
                                    p,
                                ) by {
                                    if p < q - 1 {
                                        assert(self.d@[p + 1] == 0xFF);
                                    }
                                }
                                lemma_marker_skip(self.d@, pos0, q + 1);
                            }
                            self.pos = q + 1;
                        } else {
                            self.stop = true;
                        }
                    } else {
                        b = v;
                        proof {
                            lemma_marker_skip(self.d@, pos0, pos0 + 1);
                        }
                        self.pos = self.pos + 1;
                    }
                }
            }
            proof {
                // Byte `fed` of the stream is `b`.
                if !stop0 {
                    let rest = entropy_bytes(self.d@, pos0);
                    assert(s.skip(fed) == rest);
                    if self.stop {
                        assert(rest.len() == 0);
                        assert(fed == s.len());
                    } else {
                        assert(rest[0] == b);
                        assert(s[fed] == b);
                        assert(s.skip(fed + 1) =~= rest.skip(1));
                        assert(rest.skip(1) =~= entropy_bytes(self.d@, self.pos as int));
                    }
                }
                lemma_bits_byte(s, fed);
                lemma_bits_concat(s, self.used@, self.n as int, 8);
                lemma_bits_bound(s, self.used@, self.n as int);
                lemma2_to64();
                lemma_push_byte(self.acc, b, self.n, bits_at(s, self.used@, self.n as int));
            }
            self.acc = self.acc | (b as u64) << (56 - self.n);
            self.n = self.n + 8;
        }
    }

    /// The next `k` bits.
    pub fn take(&mut self, k: u32) -> (v: i32)
        requires
            old(self).wf(),
            1 <= k <= 16,
            k <= old(self).n,
        ensures
            v == bits_at(old(self).stream(), old(self).used@, k as int),
            0 <= v < pow2(k as nat) <= 65536,
            final(self).advanced(*old(self), k as int),
            final(self).n == old(self).n - k,
    {
        let ghost s = self.stream();
        proof {
            lemma_bits_bound(s, self.used@, k as int);
            lemma2_to64();
            if k < 16 {
                lemma_pow2_strictly_increases(k as nat, 16);
            }
            lemma_take(s, self.used@, self.acc, self.n, k);
        }
        let v: i32 = (self.acc >> (64 - k)) as i32;
        self.acc = self.acc << k;
        self.n = self.n - k;
        proof {
            self.used@ = self.used@ + k;
        }
        v
    }

    /// The next symbol of the table `h`.
    pub fn symbol(&mut self, h: &Huff) -> (r: Result<u8, Error>)
        requires
            old(self).wf(),
            h.wf(),
            h.ok,
        ensures
            match read_symbol(h.table@, old(self).stream(), old(self).used@) {
                Some((v, end)) => r == Ok::<u8, Error>(v) && final(self).advanced(
                    *old(self),
                    end - old(self).used@,
                ),
                None => r == Err::<u8, Error>(Error::Format) && final(self).advanced(
                    *old(self),
                    0,
                ),
            },
    {
        self.need16();
        let ghost s = self.stream();
        let ghost k = self.used@;
        let ghost w = bits_at(s, k, 16);
        let ghost t = h.table@;
        proof {
            lemma_bits_prefix(s, k, 9);
            lemma_prefix_short(w, 9);
            lemma2_to64();
            lemma_bits_bound(s, k, 9);
            lemma_take(s, k, self.acc, self.n, 9);
            assert(bits_at(s, k, 9) == w / 128);
            t.lemma_lookup_short(w, 9);
            t.lemma_lookup_found(w, 9);
        }
        let e: u16 = h.look[(self.acc >> 55) as usize];
        assert(e as int == look_entry(t.lookup_to(w, 9)));
        if e != 0 {
            let l: u32 = (e >> 8) as u32;
            let v: u8 = (e & 0xFF) as u8;
            proof {
                assert(e >> 8 == e / 256) by (bit_vector);
                assert(e & 0xFF == e % 256) by (bit_vector);
                t.lemma_lookup_stays(w, 9, 16);
            }
            self.take(l);
            return Ok(v);
        }
        let mut l: u32 = 10;
        while l <= 16
            invariant
                10 <= l <= 17,
                self.wf(),
                self.n >= 16,
                self.advanced(*old(self), 0),
                s == self.stream(),
                k == self.used@,
                w == bits_at(s, k, 16),
                t == h.table@,
                h.wf(),
                h.ok,
                t.lookup_to(w, l - 1) is None,
            decreases 17 - l,
        {
            proof {
                lemma_bits_prefix(s, k, l as int);
                lemma_bits_bound(s, k, l as int);
                lemma2_to64();
                if l < 16 {
                    lemma_pow2_strictly_increases(l as nat, 16);
                }
                lemma_take(s, k, self.acc, self.n, l);
                t.lemma_lookup_iff(w, l - 1);
                super::huffman::lemma_prefix_step(w, l as int);
            }
            let code: i32 = (self.acc >> (64 - l)) as i32;
            assert(code == prefix(w, l as int));
            assert(h.maxcode[l as int] == if t.count(l as int) > 0 {
                t.end_code(l as int) - 1
            } else {
                -1
            });
            if code <= h.maxcode[l as usize] {
                proof {
                    assert(t.is_code(l as int, code as int));
                    t.lemma_symbol_index(l as int, code as int);
                    assert(h.valoff[l as int] == t.first_index(l as int) - t.first_code(l as int));
                    t.lemma_lookup_stays(w, l as int, 16);
                }
                self.take(l);
                return Ok(h.vals[(h.valoff[l as usize] + code) as usize]);
            }
            l += 1;
        }
        Err(Error::Format)
    }

    /// `s` more bits, sign-extended the JPEG way.
    pub fn extend(&mut self, s: u8) -> (r: i32)
        requires
            old(self).wf(),
            s <= 16,
        ensures
            r == extended(bits_at(old(self).stream(), old(self).used@, s as int), s as int),
            -pow2(s as nat) < r < pow2(s as nat) <= 65536,
            final(self).advanced(*old(self), s as int),
    {
        proof {
            lemma2_to64();
            if s < 16 {
                lemma_pow2_strictly_increases(s as nat, 16);
            }
        }
        if s == 0 {
            return 0;
        }
        self.need16();
        proof {
            lemma_bits_bound(self.stream(), self.used@, s as int);
            lemma_pow2_unfold(s as nat);
            vstd::bits::lemma_u32_shl_is_mul(1, s as u32);
            vstd::bits::lemma_u32_shl_is_mul(1, (s - 1) as u32);
        }
        let v: i32 = self.take(s as u32);
        let half: i32 = (1u32 << (s as u32 - 1)) as i32;
        let full: i32 = (1u32 << s as u32) as i32;
        if v < half {
            v - full + 1
        } else {
            v
        }
    }
}

proof fn lemma_past_ff_is(d: Seq<u8>, i: int, q: int)
    requires
        0 <= i <= q <= d.len(),
        forall|p: int| i <= p < q ==> d[p] == 0xFF,
        q < d.len() ==> d[q] != 0xFF,
    ensures
        past_ff(d, i) == q,
    decreases q - i,
{
    if i < q {
        lemma_past_ff_is(d, i + 1, q);
    }
}

/// Appending a byte below `n` buffered bits.
proof fn lemma_push_byte(acc: u64, b: u8, n: u32, x: int)
    requires
        n <= 56,
        0 <= x < pow2(n as nat),
        acc as int == x * pow2((64 - n) as nat),
    ensures
        (acc | (b as u64) << ((56 - n) as u32)) as int == (x * 256 + b) * pow2((56 - n) as nat),
{
    let e = (56 - n) as nat;
    let p = pow2(e) as int;
    lemma2_to64();
    lemma2_to64_rest();
    lemma_pow2_pos(e);
    lemma_pow2_adds(8, e);
    assert(pow2((64 - n) as nat) == 256 * p);
    // The byte in place.
    let bs = (b as u64) << ((56 - n) as u32);
    if e < 56 {
        lemma_pow2_strictly_increases(e, 56);
    }
    assert(b * p <= u64::MAX) by (nonlinear_arith)
        requires
            b <= 255,
            0 < p <= 0x100000000000000,
    ;
    lemma_u64_shl_is_mul(b as u64, (56 - n) as u64);
    assert(bs == b * p);
    assert(b * p < 256 * p) by (nonlinear_arith)
        requires
            b <= 255,
            0 < p,
    ;
    if n == 0 {
        assert(x == 0);
        assert(acc == 0) by (nonlinear_arith)
            requires
                x == 0,
                acc as int == x * (256 * p),
        ;
        assert(0u64 | bs == bs) by (bit_vector);
    } else {
        let m = (64 - n) as nat;
        lemma_pow2_strictly_increases(m, 64);
        lemma_u64_low_bits_mask_is_mod(acc, m);
        lemma_u64_low_bits_mask_is_mod(bs, m);
        vstd::arithmetic::div_mod::lemma_mod_multiples_basic(x, pow2(m) as int);
        vstd::arithmetic::div_mod::lemma_small_mod(bs as nat, pow2(m));
        let mask = low_bits_mask(m) as u64;
        assert(acc & mask == 0);
        assert(bs & mask == bs);
        assert(acc | bs == acc + bs) by (bit_vector)
            requires
                acc & mask == 0,
                bs & mask == bs,
        ;
    }
    assert(x * (256 * p) + b * p == (x * 256 + b) * p) by (nonlinear_arith);
}

/// What the top `k` of `n` buffered bits are, and what is left when they are shifted out.
proof fn lemma_take(s: Seq<u8>, u: int, acc: u64, n: u32, k: u32)
    requires
        1 <= k <= 16,
        k <= n <= 64,
        acc as int == bits_at(s, u, n as int) * pow2((64 - n) as nat),
    ensures
        (acc >> ((64 - k) as u32)) as int == bits_at(s, u, k as int),
        (acc << k) as int == bits_at(s, u + k, n - k) * pow2((64 - (n - k)) as nat),
{
    let hi = bits_at(s, u, k as int);
    let lo = bits_at(s, u + k, n - k);
    let pn = pow2((64 - n) as nat) as int;
    let pk = pow2((64 - k) as nat) as int;
    let pd = pow2((n - k) as nat) as int;
    let p1 = pow2(k as nat) as int;
    lemma2_to64();
    lemma2_to64_rest();
    lemma_pow2_pos((64 - n) as nat);
    lemma_bits_concat(s, u, k as int, n - k);
    lemma_bits_bound(s, u, k as int);
    lemma_bits_bound(s, u + k, n - k);
    lemma_pow2_adds((n - k) as nat, (64 - n) as nat);
    assert(pd * pn == pk);
    lemma_pow2_adds(k as nat, (64 - k) as nat);
    assert(p1 * pk == 0x10000000000000000);
    lemma_pow2_adds(k as nat, (64 - n) as nat);
    assert(p1 * pn == pow2((64 - (n - k)) as nat));
    let rem = lo * pn;
    assert(acc as int == hi * pk + rem) by (nonlinear_arith)
        requires
            acc as int == (hi * pd + lo) * pn,
            pd * pn == pk,
            rem == lo * pn,
    ;
    assert(0 <= rem < pk) by (nonlinear_arith)
        requires
            rem == lo * pn,
            0 <= lo < pd,
            pn > 0,
            pd * pn == pk,
    ;
    lemma_u64_shr_is_div(acc, (64 - k) as u64);
    vstd::arithmetic::div_mod::lemma_fundamental_div_mod_converse(acc as int, pk, hi, rem);
    // Shifting out the top bits keeps the remainder.
    let m = (64 - k) as nat;
    lemma_pow2_strictly_increases(m, 64);
    lemma_u64_low_bits_mask_is_mod(acc, m);
    let mask = low_bits_mask(m) as u64;
    assert(acc & mask == rem);
    lemma_u64_shl_is_mul(1, (64 - k) as u64);
    assert(mask == (1u64 << ((64 - k) as u64)) - 1);
    assert(acc << k == (acc & mask) << k) by (bit_vector)
        requires
            1 <= k <= 16,
            mask == (1u64 << ((64 - k) as u64)) - 1,
    ;
    assert(rem * p1 < 0x10000000000000000) by (nonlinear_arith)
        requires
            rem < pk,
            p1 * pk == 0x10000000000000000,
            p1 > 0,
    ;
    lemma_u64_shl_is_mul(rem as u64, k as u64);
    assert(lo * pn * p1 == lo * (p1 * pn)) by (nonlinear_arith);
}

} // verus!
