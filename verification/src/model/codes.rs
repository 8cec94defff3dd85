//! Quantized weights: two's complement codes of 2 to 8 bits, packed LSB first.

use vstd::arithmetic::power2::{
    lemma2_to64, lemma_pow2_adds, lemma_pow2_pos, lemma_pow2_unfold, pow2,
};
use vstd::prelude::*;

verus! {

/// Bit `t` of a byte string, least significant bit of each byte first.
pub open spec fn low_bit(s: Seq<u8>, t: int) -> int {
    (s[t / 8] as int / pow2((t % 8) as nat) as int) % 2
}

/// The `n` bits from bit `t` on, as a number: the first bit is the lowest.
pub open spec fn low_bits(s: Seq<u8>, t: int, n: int) -> int
    decreases n,
{
    if n <= 0 {
        0
    } else {
        low_bits(s, t, n - 1) + low_bit(s, t + n - 1) * pow2((n - 1) as nat)
    }
}

/// An `n`-bit number read as two's complement.
pub open spec fn sign_extended(u: int, n: int) -> int {
    if u >= pow2((n - 1) as nat) {
        u - pow2(n as nat)
    } else {
        u
    }
}

/// Code `i` of a stream of `n`-bit codes.
pub open spec fn code(s: Seq<u8>, n: int, i: int) -> int {
    sign_extended(low_bits(s, i * n, n), n)
}

/// `n` bits make a number below 2^n.
pub proof fn lemma_low_bits_bound(s: Seq<u8>, t: int, n: int)
    requires
        0 <= n,
    ensures
        0 <= low_bits(s, t, n) < pow2(n as nat),
    decreases n,
{
    lemma_pow2_pos(n as nat);
    if n > 0 {
        lemma_low_bits_bound(s, t, n - 1);
        lemma_pow2_unfold(n as nat);
        let (b, p) = (low_bit(s, t + n - 1), pow2((n - 1) as nat) as int);
        assert(0 <= b * p <= p) by (nonlinear_arith)
            requires
                0 <= b <= 1,
                0 <= p,
        ;
    }
}

/// A run of bits splits into two.
pub proof fn lemma_low_bits_split(s: Seq<u8>, t: int, a: int, b: int)
    requires
        0 <= a,
        0 <= b,
    ensures
        low_bits(s, t, a + b) == low_bits(s, t, a) + pow2(a as nat) * low_bits(s, t + a, b),
    decreases b,
{
    if b > 0 {
        lemma_low_bits_split(s, t, a, b - 1);
        lemma_pow2_adds(a as nat, (b - 1) as nat);
        let (p, q) = (pow2(a as nat) as int, pow2((b - 1) as nat) as int);
        let (x, y) = (low_bits(s, t + a, b - 1), low_bit(s, t + a + b - 1));
        assert(p * (x + y * q) == p * x + y * (p * q)) by (nonlinear_arith);
    } else {
        let p = pow2(a as nat) as int;
        assert(p * 0 == 0) by (nonlinear_arith);
    }
}

/// The low `n` bits of a byte.
proof fn lemma_byte_low(s: Seq<u8>, p: int, n: int)
    requires
        0 <= p < s.len(),
        0 <= n <= 8,
    ensures
        low_bits(s, 8 * p, n) == s[p] as int % pow2(n as nat) as int,
    decreases n,
{
    lemma2_to64();
    let x = s[p] as int;
    if n > 0 {
        lemma_byte_low(s, p, n - 1);
        let t = 8 * p + n - 1;
        assert(t / 8 == p && t % 8 == n - 1);
        lemma_pow2_unfold(n as nat);
        lemma_pow2_pos((n - 1) as nat);
        let d = pow2((n - 1) as nat) as int;
        vstd::arithmetic::div_mod::lemma_mod_breakdown(x, d, 2);
        assert(d * 2 == pow2(n as nat));
        assert(((x / d) % 2) * d == d * ((x / d) % 2)) by (nonlinear_arith);
    } else {
        assert(x % 1 == 0);
    }
}

/// A whole byte is its eight bits.
pub proof fn lemma_byte(s: Seq<u8>, p: int)
    requires
        0 <= p < s.len(),
    ensures
        low_bits(s, 8 * p, 8) == s[p],
{
    lemma_byte_low(s, p, 8);
    lemma2_to64();
}

/// A reader of a stream of codes.
pub struct Codes<'a> {
    pub raw: &'a [u8],
    pub acc: u32,
    pub have: u32,
    pub pos: usize,
    /// Bits taken so far.
    pub used: Ghost<int>,
}

impl<'a> Codes<'a> {
    /// `acc` holds the next `have` bits.
    pub open spec fn wf(self) -> bool {
        &&& self.have < 8
        &&& self.pos <= self.raw@.len()
        &&& 0 <= self.used@
        &&& self.used@ + self.have == 8 * self.pos
        &&& self.acc == low_bits(self.raw@, self.used@, self.have as int)
    }

    /// A reader at the start of a stream.
    pub fn new(raw: &'a [u8]) -> (c: Codes<'a>)
        ensures
            c.wf(),
            c.raw@ == raw@,
            c.used@ == 0,
    {
        Codes { raw, acc: 0, have: 0, pos: 0, used: Ghost(0) }
    }

    /// The next `bits`-bit code.
    pub fn next(&mut self, bits: u32) -> (q: i32)
        requires
            old(self).wf(),
            2 <= bits <= 8,
            old(self).used@ + bits <= 8 * old(self).raw@.len(),
        ensures
            final(self).wf(),
            final(self).raw@ == old(self).raw@,
            final(self).used@ == old(self).used@ + bits,
            q == sign_extended(
                low_bits(old(self).raw@, old(self).used@, bits as int),
                bits as int,
            ),
            -128 <= q <= 127,
    {
        let ghost (s, t) = (self.raw@, self.used@);
        proof {
            lemma2_to64();
        }
        if self.have < bits {
            let b: u32 = self.raw[self.pos] as u32;
            let (acc, have): (u32, u32) = (self.acc, self.have);
            proof {
                lemma_low_bits_bound(s, t, have as int);
                lemma_low_bits_split(s, t, have as int, 8);
                lemma_byte(s, self.pos as int);
                vstd::bits::lemma_u32_pow2_no_overflow(have as nat);
                vstd::bits::lemma_u32_shl_is_mul(1, have);
                assert(b * pow2(have as nat) <= u32::MAX) by (nonlinear_arith)
                    requires
                        b < 256,
                        pow2(have as nat) <= 256,
                ;
                vstd::bits::lemma_u32_shl_is_mul(b, have);
                assert((acc | (b << have)) == acc + (b << have)) by (bit_vector)
                    requires
                        acc < 1u32 << have,
                        have < 8,
                        b < 256,
                ;
                assert(b * pow2(have as nat) == pow2(have as nat) * b) by (nonlinear_arith);
            }
            self.acc = acc | b << have;
            self.pos = self.pos + 1;
            self.have = have + 8;
        }
        let (acc, have): (u32, u32) = (self.acc, self.have);
        let q: i32 = ((acc << (32 - bits)) as i32) >> (32 - bits);
        proof {
            let (m, n) = (bits as int, have - bits);
            lemma_low_bits_split(s, t, m, n);
            lemma_low_bits_bound(s, t, m);
            let (lo, hi, d) = (low_bits(s, t, m), low_bits(s, t + m, n), pow2(m as nat) as int);
            assert(acc == hi * d + lo) by (nonlinear_arith)
                requires
                    acc == lo + d * hi,
            ;
            vstd::arithmetic::div_mod::lemma_fundamental_div_mod_converse(acc as int, d, hi, lo);
            vstd::bits::lemma_u32_shr_is_div(acc, bits);
            lemma_sign_extended(acc, bits);
        }
        self.acc = acc >> bits;
        self.have = have - bits;
        proof {
            self.used = Ghost(t + bits);
        }
        q
    }
}

/// Shifting a code up to the sign bit and back extends its sign.
proof fn lemma_sign_extended(acc: u32, bits: u32)
    requires
        2 <= bits <= 8,
    ensures
        ((acc << (32 - bits) as u32) as i32) >> ((32 - bits) as u32) == sign_extended(
            acc as int % pow2(bits as nat) as int,
            bits as int,
        ),
        -128 <= ((acc << (32 - bits) as u32) as i32) >> ((32 - bits) as u32) <= 127,
{
    lemma2_to64();
    let s: u32 = (32 - bits) as u32;
    let d: u32 = 1u32 << bits;
    let half: u32 = 1u32 << ((bits - 1) as u32);
    vstd::bits::lemma_u32_pow2_no_overflow(bits as nat);
    vstd::bits::lemma_u32_shl_is_mul(1, bits);
    vstd::bits::lemma_u32_pow2_no_overflow((bits - 1) as nat);
    vstd::bits::lemma_u32_shl_is_mul(1, (bits - 1) as u32);
    assert(((acc << s) as i32) >> s == (if acc % d >= half {
        (acc % d) - d
    } else {
        (acc % d) - 0
    }) && -128 <= (((acc << s) as i32) >> s) && (((acc << s) as i32) >> s) <= 127)
        by (bit_vector)
        requires
            2 <= bits <= 8,
            s == 32 - bits,
            d == 1u32 << bits,
            half == 1u32 << ((bits - 1) as u32),
    ;
}

} // verus!
