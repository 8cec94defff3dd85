//! One 8x8 block of the entropy-coded data: DC difference and AC run lengths.

use super::bits::{bits_at, extended, read_symbol, Bits};
use super::huffman::{prefix, Huff, Table};
use super::Error;
use crate::arith::{lemma_i32_as_i16, wrap16, wrap32};
use vstd::arithmetic::power2::{
    lemma2_to64, lemma_pow2_pos, lemma_pow2_strictly_increases, lemma_pow2_unfold,
};
use vstd::prelude::*;

verus! {

/// Zigzag index -> row-major index.
pub const ZIGZAG: [u8; 64] = [
    0, 1, 8, 16, 9, 2, 3, 10, 17, 24, 32, 25, 18, 11, 4, 5, 12, 19, 26, 33, 40, 48, 41, 34, 27,
    20, 13, 6, 7, 14, 21, 28, 35, 42, 49, 56, 57, 50, 43, 36, 29, 22, 15, 23, 30, 37, 44, 51, 58,
    59, 52, 45, 38, 31, 39, 46, 53, 60, 61, 54, 47, 55, 62, 63,
];

/// Where coefficient `k` of the zigzag order stands in a block.
pub open spec fn zigzag(k: int) -> int {
    ZIGZAG[k] as int
}

/// Every zigzag index has a place in the block, and only index 0 is the DC place.
pub proof fn lemma_zigzag_range(k: int)
    requires
        0 <= k < 64,
    ensures
        0 <= zigzag(k) < 64,
        k > 0 ==> zigzag(k) > 0,
{
}

/// The AC coefficients of a block, from zigzag index `k` and bit `bit` on, put into `coef`:
/// where they end, and the block in row-major order. A symbol holds how many zeros come
/// before a coefficient, and its bit count; 0/0 ends the block, 15/0 is sixteen zeros.
pub open spec fn ac_from(
    t: Table,
    s: Seq<u8>,
    bit: int,
    k: int,
    coef: Seq<i32>,
) -> Option<(int, Seq<i32>)>
    decreases 80 - k,
{
    if k >= 64 {
        Some((bit, coef))
    } else {
        match read_symbol(t, s, bit) {
            None => None,
            Some((rs, after)) => {
                let run = rs as int / 16;
                let size = rs as int % 16;
                if size == 0 {
                    if run != 15 {
                        Some((after, coef))
                    } else {
                        ac_from(t, s, after, k + 16, coef)
                    }
                } else if k + run > 63 {
                    None
                } else {
                    ac_from(
                        t,
                        s,
                        after + size,
                        k + run + 1,
                        coef.update(
                            zigzag(k + run),
                            extended(bits_at(s, after, size), size) as i32,
                        ),
                    )
                }
            },
        }
    }
}

/// A decoded block: the bit after it, the DC predictor for the next block of its
/// component, and its coefficients in row-major order.
pub ghost struct Block {
    pub end: int,
    pub pred: int,
    pub coef: Seq<i32>,
}

/// The block whose bits start at `bit`.
pub open spec fn block_at(
    dc: Table,
    ac: Table,
    s: Seq<u8>,
    bit: int,
    pred: int,
) -> Option<Block> {
    match read_symbol(dc, s, bit) {
        None => None,
        Some((size, after)) => {
            let next = wrap32(pred + extended(bits_at(s, after, size as int), size as int));
            let flat = Seq::new(64, |i: int| 0i32).update(0, wrap16(next) as i32);
            match ac_from(ac, s, after + size, 1, flat) {
                None => None,
                Some((end, coef)) => Some(Block { end, pred: next, coef }),
            }
        },
    }
}

/// Every coefficient is a 16-bit number.
pub open spec fn coefs_bounded(coef: Seq<i32>) -> bool {
    forall|i: int| 0 <= i < 64 ==> -0x8000 <= #[trigger] coef[i] <= 0x7FFF
}

/// Some AC coefficient is not zero.
pub open spec fn has_ac(coef: Seq<i32>) -> bool {
    exists|i: int| 1 <= i < 64 && coef[i] != 0
}

/// Decodes the AC coefficients into a block that holds only its DC coefficient.
/// Returns whether any is nonzero.
fn ac_coefs(bits: &mut Bits, ac: &Huff, coef: &mut [i32; 64]) -> (r: Result<bool, Error>)
    requires
        old(bits).wf(),
        ac.wf(),
        ac.ok,
        !has_ac(old(coef)@),
        coefs_bounded(old(coef)@),
    ensures
        match ac_from(ac.table@, old(bits).stream(), old(bits).used@, 1, old(coef)@) {
            None => r == Err::<bool, Error>(Error::Format),
            Some((end, c)) => {
                &&& r == Ok::<bool, Error>(has_ac(c))
                &&& final(bits).advanced(*old(bits), end - old(bits).used@)
                &&& final(coef)@ == c
                &&& coefs_bounded(c)
            },
        },
{
    let ghost s = bits.stream();
    let ghost all = ac_from(ac.table@, s, bits.used@, 1, coef@);
    let mut any: bool = false;
    let mut k: usize = 1;
    while k < 64
        invariant_except_break
            ac_from(ac.table@, s, bits.used@, k as int, coef@) == all,
        invariant
            1 <= k <= 80,
            ac.wf(),
            ac.ok,
            bits.wf(),
            s == bits.stream(),
            s == old(bits).stream(),
            bits.d@ == old(bits).d@,
            bits.start@ == old(bits).start@,
            all == ac_from(ac.table@, s, old(bits).used@, 1, old(coef)@),
            any == has_ac(coef@),
            coefs_bounded(coef@),
        ensures
            all == Some((bits.used@, coef@)),
        decreases 80 - k,
    {
        let rs: u8 = match bits.symbol(ac) {
            Ok(rs) => rs,
            Err(e) => {
                return Err(e);
            },
        };
        assert(rs >> 4 == rs / 16 && rs & 15 == rs % 16) by (bit_vector);
        let run: usize = (rs >> 4) as usize;
        let size: u8 = rs & 15;
        if size == 0 {
            if run != 15 {
                break;
            }
            k += 16;
            continue;
        }
        k += run;
        if k > 63 {
            return Err(Error::Format);
        }
        let e: i32 = bits.extend(size);
        proof {
            lemma_i32_as_i16(e);
            lemma2_to64();
            if size < 15 {
                lemma_pow2_strictly_increases(size as nat, 15);
            }
            lemma_pow2_pos((size - 1) as nat);
            lemma_pow2_unfold(size as nat);
            lemma_zigzag_range(k as int);
        }
        let v: i32 = e as i16 as i32;
        assert(v == e);
        let ghost before = coef@;
        let z: usize = ZIGZAG[k] as usize;
        coef[z] = v;
        assert(coef@ == before.update(zigzag(k as int), e));
        assert(coef@[z as int] != 0);
        any = any || v != 0;
        k += 1;
    }
    Ok(any)
}

/// Decodes the difference of a DC coefficient to the one before.
fn dc_difference(bits: &mut Bits, dc: &Huff) -> (r: Result<i32, Error>)
    requires
        old(bits).wf(),
        dc.wf(),
        dc.ok,
        dc.table@.dc_valid(),
    ensures
        match read_symbol(dc.table@, old(bits).stream(), old(bits).used@) {
            None => r == Err::<i32, Error>(Error::Format),
            Some((size, after)) => {
                &&& r matches Ok(d)
                &&& d == extended(
                    bits_at(old(bits).stream(), after, size as int),
                    size as int,
                )
                &&& final(bits).advanced(*old(bits), after + size - old(bits).used@)
            },
        },
{
    let ghost s = bits.stream();
    let t: u8 = match bits.symbol(dc) {
        Ok(t) => t,
        Err(e) => {
            return Err(e);
        },
    };
    proof {
        let w = bits_at(s, old(bits).used@, 16);
        super::bits::lemma_bits_prefix(s, old(bits).used@, 16);
        dc.table@.lemma_lookup_found(w, 16);
        let (l, v) = dc.table@.lookup(w).unwrap();
        dc.table@.lemma_symbol_index(l, prefix(w, l));
        assert(t <= 15);
    }
    Ok(bits.extend(t))
}

/// Decodes one block into `coef`, in row-major order. Returns whether any AC coefficient
/// is nonzero.
pub fn block(bits: &mut Bits, dc: &Huff, ac: &Huff, pred: &mut i32, coef: &mut [i32; 64]) -> (r:
    Result<bool, Error>)
    requires
        old(bits).wf(),
        dc.wf(),
        dc.ok,
        dc.table@.dc_valid(),
        ac.wf(),
        ac.ok,
    ensures
        match block_at(
            dc.table@,
            ac.table@,
            old(bits).stream(),
            old(bits).used@,
            *old(pred) as int,
        ) {
            None => r == Err::<bool, Error>(Error::Format),
            Some(b) => {
                &&& r == Ok::<bool, Error>(has_ac(b.coef))
                &&& final(bits).advanced(*old(bits), b.end - old(bits).used@)
                &&& *final(pred) as int == b.pred
                &&& final(coef)@ == b.coef
                &&& coefs_bounded(b.coef)
            },
        },
{
    *coef = [0; 64];
    let diff: i32 = match dc_difference(bits, dc) {
        Ok(d) => d,
        Err(e) => {
            return Err(e);
        },
    };
    *pred = pred.wrapping_add(diff);
    proof {
        lemma_i32_as_i16(*pred);
    }
    coef[0] = *pred as i16 as i32;
    assert(coef@ =~= Seq::new(64, |i: int| 0i32).update(0, wrap16(*pred as int) as i32));
    ac_coefs(bits, ac, coef)
}

} // verus!
