//! Two's complement wraparound and arithmetic shifts, as integer arithmetic.

use vstd::prelude::*;

verus! {

/// `x` reduced to a signed 32-bit number.
pub open spec fn wrap32(x: int) -> int {
    (x + 0x8000_0000) % 0x1_0000_0000 - 0x8000_0000
}

/// `x` reduced to a signed 16-bit number.
pub open spec fn wrap16(x: int) -> int {
    (x + 0x8000) % 0x1_0000 - 0x8000
}

/// A cast from `i64` to `i32` wraps around.
pub proof fn lemma_i64_as_i32(x: i64)
    ensures
        (x as i32) as int == wrap32(x as int),
{
    assert((x as i32) == (if (x & 0xffff_ffff) < 0x8000_0000 {
        (x & 0xffff_ffff) - 0
    } else {
        (x & 0xffff_ffff) - 0x1_0000_0000
    })) by (bit_vector);
    assert((x & 0xffff_ffff) == x % 0x1_0000_0000) by (bit_vector);
}

/// A cast from `i32` to `i16` wraps around.
pub proof fn lemma_i32_as_i16(x: i32)
    ensures
        (x as i16) as int == wrap16(x as int),
{
    assert((x as i16) == (if (x & 0xffff) < 0x8000 {
        (x & 0xffff) - 0
    } else {
        (x & 0xffff) - 0x1_0000
    })) by (bit_vector);
    assert((x & 0xffff) == x % 0x1_0000) by (bit_vector);
}

} // verus!
