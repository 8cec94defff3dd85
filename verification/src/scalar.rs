//! The arithmetic that the network and the assignment are made of.
//!
//! Both are written over any type with these operations, and their contracts say which
//! operations are applied to which values, in which order. The operations need not obey the
//! laws of real numbers: rounding and NaNs are fine. `Single` computes them on bit patterns;
//! a program can bring a type of its own that has the processor do it.

use crate::ieee::root::{root_of, sqrt};
use crate::ieee::single::{
    above, from_count, is_above, larger, lemma_nothing, negate, negated, over, pick_larger, plus,
    product, quotient, sum, times, whole,
};
use crate::ieee::{finite, is_nan, one, shift, significand, value, SIGN};
use vstd::arithmetic::power2::pow2;
use vstd::prelude::*;

verus! {

/// A number that the network computes with.
pub trait Scalar: Copy {
    /// Zero.
    spec fn zero_spec() -> Self;

    /// What a sum of products starts from: negative zero, which changes no number that is
    /// added to it.
    spec fn nothing_spec() -> Self;

    /// The number with a single-precision bit pattern.
    spec fn of_bits_spec(b: u32) -> Self;

    /// A count.
    spec fn count_spec(n: usize) -> Self;

    /// Below every sum of similarities.
    spec fn lowest_spec() -> Self;

    /// The least length of a vector that is normalized.
    spec fn tiny_spec() -> Self;

    spec fn plus_spec(self, o: Self) -> Self;

    spec fn minus_spec(self, o: Self) -> Self;

    spec fn times_spec(self, o: Self) -> Self;

    spec fn over_spec(self, o: Self) -> Self;

    /// `self + x * w`, in one step or in two.
    spec fn madd_spec(self, x: Self, w: Self) -> Self;

    /// The larger of two.
    spec fn larger_spec(self, o: Self) -> Self;

    /// The square root, and zero where there is none.
    spec fn root_spec(self) -> Self;

    /// Strictly larger than `o`.
    spec fn above_spec(self, o: Self) -> bool;

    fn zero() -> (r: Self)
        ensures
            r == Self::zero_spec(),
    ;

    fn nothing() -> (r: Self)
        ensures
            r == Self::nothing_spec(),
    ;

    fn of_bits(b: u32) -> (r: Self)
        ensures
            r == Self::of_bits_spec(b),
    ;

    fn count(n: usize) -> (r: Self)
        ensures
            r == Self::count_spec(n),
    ;

    fn lowest() -> (r: Self)
        ensures
            r == Self::lowest_spec(),
    ;

    fn tiny() -> (r: Self)
        ensures
            r == Self::tiny_spec(),
    ;

    fn plus(self, o: Self) -> (r: Self)
        ensures
            r == self.plus_spec(o),
    ;

    fn minus(self, o: Self) -> (r: Self)
        ensures
            r == self.minus_spec(o),
    ;

    fn times(self, o: Self) -> (r: Self)
        ensures
            r == self.times_spec(o),
    ;

    fn over(self, o: Self) -> (r: Self)
        ensures
            r == self.over_spec(o),
    ;

    fn madd(self, x: Self, w: Self) -> (r: Self)
        ensures
            r == self.madd_spec(x, w),
    ;

    fn larger(self, o: Self) -> (r: Self)
        ensures
            r == self.larger_spec(o),
    ;

    fn root(self) -> (r: Self)
        ensures
            r == self.root_spec(),
    ;

    fn above(self, o: Self) -> (r: bool)
        ensures
            r == self.above_spec(o),
    ;
}

/// A single-precision number, by its bit pattern.
#[derive(Clone, Copy, Debug, PartialEq, Eq, Structural)]
pub struct Single(pub u32);

impl Scalar for Single {
    open spec fn zero_spec() -> Single {
        Single(0)
    }

    open spec fn nothing_spec() -> Single {
        Single(SIGN)
    }

    open spec fn of_bits_spec(b: u32) -> Single {
        Single(b)
    }

    open spec fn count_spec(n: usize) -> Single {
        Single(whole(n as int))
    }

    /// Negative infinity.
    open spec fn lowest_spec() -> Single {
        Single(0xFF80_0000)
    }

    /// The number nearest to 1e-12.
    open spec fn tiny_spec() -> Single {
        Single(0x2B8C_BCCC)
    }

    open spec fn plus_spec(self, o: Single) -> Single {
        Single(sum(self.0, o.0))
    }

    open spec fn minus_spec(self, o: Single) -> Single {
        Single(sum(self.0, negated(o.0)))
    }

    open spec fn times_spec(self, o: Single) -> Single {
        Single(product(self.0, o.0))
    }

    open spec fn over_spec(self, o: Single) -> Single {
        Single(quotient(self.0, o.0))
    }

    open spec fn madd_spec(self, x: Single, w: Single) -> Single {
        Single(sum(self.0, product(x.0, w.0)))
    }

    open spec fn larger_spec(self, o: Single) -> Single {
        Single(larger(self.0, o.0))
    }

    open spec fn root_spec(self) -> Single {
        Single(root_of(self.0))
    }

    open spec fn above_spec(self, o: Single) -> bool {
        above(self.0, o.0)
    }

    fn zero() -> Single {
        Single(0)
    }

    fn nothing() -> Single {
        Single(SIGN)
    }

    fn of_bits(b: u32) -> Single {
        Single(b)
    }

    fn count(n: usize) -> Single {
        Single(from_count(n))
    }

    fn lowest() -> Single {
        Single(0xFF80_0000)
    }

    fn tiny() -> Single {
        Single(0x2B8C_BCCC)
    }

    fn plus(self, o: Single) -> Single {
        Single(plus(self.0, o.0))
    }

    fn minus(self, o: Single) -> Single {
        Single(plus(self.0, negate(o.0)))
    }

    fn times(self, o: Single) -> Single {
        Single(times(self.0, o.0))
    }

    fn over(self, o: Single) -> Single {
        Single(over(self.0, o.0))
    }

    fn madd(self, x: Single, w: Single) -> Single {
        Single(plus(self.0, times(x.0, w.0)))
    }

    fn larger(self, o: Single) -> Single {
        Single(pick_larger(self.0, o.0))
    }

    fn root(self) -> Single {
        Single(sqrt(self.0))
    }

    fn above(self, o: Single) -> bool {
        is_above(self.0, o.0)
    }
}

/// The single-precision constants: zero is zero, what a sum starts from changes no number that
/// is added to it, every number but one is above the lowest, and a tiny length is 1e-12, to the
/// nearest.
pub proof fn lemma_constants(
    b: u32,
    zero: Single,
    nothing: Single,
    lowest: Single,
    tiny: Single,
    bits: Single,
)
    requires
        call_ensures(Single::zero, (), zero),
        call_ensures(Single::nothing, (), nothing),
        call_ensures(Single::lowest, (), lowest),
        call_ensures(Single::tiny, (), tiny),
        call_ensures(Single::of_bits, (b,), bits),
    ensures
        zero.0 == 0,
        !is_nan(b) ==> sum(nothing.0, b) == b,
        !is_nan(lowest.0),
        !above(lowest.0, b),
        !is_nan(b) && b != lowest.0 ==> above(b, lowest.0),
        finite(b) ==> b != lowest.0,
        finite(tiny.0),
        0 < value(tiny.0),
        -(pow2(86) * 1000000000000) <= 2 * (value(tiny.0) * 1000000000000 - one()) <= pow2(86)
            * 1000000000000,
        bits.0 == b,
{
    if !is_nan(b) {
        lemma_nothing(b);
    }
    let t = 0x2B8C_BCCCint;
    assert(significand(t) == 9223372 && shift(t) == 86);
    vstd::arithmetic::power2::lemma_pow2_adds(86, 63);
    vstd::arithmetic::power2::lemma_pow2_pos(86);
    vstd::arithmetic::power2::lemma2_to64();
    vstd::arithmetic::power2::lemma2_to64_rest();
    let p = pow2(86) as int;
    assert(one() == p * 0x8000_0000_0000_0000);
    assert(value(tiny.0) == 9223372 * p);
}

/// Each operation on single-precision numbers is the operation on their bit patterns.
pub proof fn lemma_operations(
    a: Single,
    b: Single,
    c: Single,
    r: (Single, Single, Single, Single, Single, Single, Single, bool),
    q: (u32, u32, u32, u32, u32, u32, u32, bool),
    n: u32,
    w: u32,
)
    requires
        call_ensures(Single::plus, (a, b), r.0),
        call_ensures(plus, (a.0, b.0), q.0),
        call_ensures(Single::minus, (a, b), r.1),
        call_ensures(negate, (b.0,), n),
        call_ensures(plus, (a.0, n), q.1),
        call_ensures(Single::times, (a, b), r.2),
        call_ensures(times, (a.0, b.0), q.2),
        call_ensures(Single::over, (a, b), r.3),
        call_ensures(over, (a.0, b.0), q.3),
        call_ensures(Single::madd, (a, b, c), r.4),
        call_ensures(times, (b.0, c.0), w),
        call_ensures(plus, (a.0, w), q.4),
        call_ensures(Single::larger, (a, b), r.5),
        call_ensures(pick_larger, (a.0, b.0), q.5),
        call_ensures(Single::root, (a,), r.6),
        call_ensures(sqrt, (a.0,), q.6),
        call_ensures(Single::above, (a, b), r.7),
        call_ensures(is_above, (a.0, b.0), q.7),
    ensures
        r.0.0 == q.0,
        r.1.0 == q.1,
        r.2.0 == q.2,
        r.3.0 == q.3,
        r.4.0 == q.4,
        r.5.0 == q.5,
        r.6.0 == q.6,
        r.7 == q.7,
{
}

} // verus!
