//! Single-precision arithmetic on bit patterns.

use ccm::scalar::{Scalar, Single};

struct Xorshift(u64);

impl Xorshift {
    fn next(&mut self) -> u64 {
        self.0 ^= self.0 << 13;
        self.0 ^= self.0 >> 7;
        self.0 ^= self.0 << 17;
        self.0
    }
}

/// The numbers at the edges, and some in between.
const SPECIAL: [u32; 22] = [
    0, 1, 2, 0x7F_FFFF, 0x80_0000, 0x80_0001, 0xFF_FFFF, 0x100_0000, 0x3F7F_FFFF, 0x3F80_0000,
    0x3F80_0001, 0x3F00_0000, 0x4040_0000, 0x4B7F_FFFF, 0x4B80_0000, 0x7F00_0000, 0x7F7F_FFFF,
    0x7F80_0000, 0x7F80_0001, 0x7FC0_0000, 0x7FFF_FFFF, 0x2B8C_BCCC,
];

fn same(got: Single, want: f32, what: &str) {
    let got = f32::from_bits(got.0);
    assert!(got.to_bits() == want.to_bits() || got.is_nan() && want.is_nan(), "{what}: {got:e} is not {want:e}");
}

fn check(a: u32, b: u32, c: u32) {
    let (x, y, z) = (f32::from_bits(a), f32::from_bits(b), f32::from_bits(c));
    let (p, q, r) = (Single(a), Single(b), Single(c));
    same(p.plus(q), x + y, &format!("{x:e} + {y:e}"));
    same(p.minus(q), x - y, &format!("{x:e} - {y:e}"));
    same(p.times(q), x * y, &format!("{x:e} * {y:e}"));
    same(p.over(q), x / y, &format!("{x:e} / {y:e}"));
    same(r.madd(p, q), z + x * y, &format!("{z:e} + {x:e} * {y:e}"));
    assert_eq!(p.above(q), x > y, "{x:e} > {y:e}");
    let larger = f32::from_bits(p.larger(q).0);
    assert!(larger == x.max(y) || larger.is_nan() && x.max(y).is_nan(), "{x:e} max {y:e}: {larger:e}");
    if x > 0.0 && x.is_finite() {
        same(p.root(), x.sqrt(), &format!("root of {x:e}"));
    }
}

#[test]
fn operations_round_like_hardware() {
    for a in SPECIAL {
        for b in SPECIAL {
            for signs in 0..4 {
                check(a | (signs & 1) << 31, b | (signs >> 1) << 31, a ^ b);
            }
        }
    }
    let mut r = Xorshift(0x2545f4914f6cdd1d);
    for _ in 0..200000 {
        let (a, b, c) = (r.next() as u32, r.next() as u32, r.next() as u32);
        check(a, b, c);
        // Nearby exponents, where operands meet.
        let near = |v: u32, k: u32| v & 0x807F_FFFF | (100 + k % 48) << 23;
        check(near(a, b >> 8), near(b, c >> 8), near(c, a >> 8));
        // Subnormal numbers.
        check(a & 0x80FF_FFFF, b & 0x80FF_FFFF, c);
        // Exact ties.
        check(near(a, 24) & 0xFFFF_F000, near(b, 0) & 0xFFFF_F000, c & 0x8000_0000);
    }
}

#[test]
fn counts_round_like_hardware() {
    let mut r = Xorshift(88172645463325252);
    for n in 0..3000usize {
        same(Single::count(n), n as f32, "count");
    }
    for _ in 0..100000 {
        let n = (r.next() >> (r.next() % 64)) as usize;
        same(Single::count(n), n as f32, "count");
    }
    same(Single::count(usize::MAX), usize::MAX as f32, "count");
}

#[test]
fn constants_are_numbers() {
    same(Single::zero(), 0.0, "zero");
    same(Single::nothing(), -0.0, "nothing");
    for v in [0.0, -0.0, 1.5, f32::MIN_POSITIVE, f32::INFINITY] {
        same(Single::nothing().plus(Single(v.to_bits())), v, "nothing plus");
    }
    same(Single::lowest(), f32::NEG_INFINITY, "lowest");
    same(Single::tiny(), 1e-12, "tiny");
    assert_eq!(Single::of_bits(7), Single(7));
    // There is no root of these.
    for v in [0.0, -0.0, -4.0, f32::NEG_INFINITY, f32::NAN] {
        same(Single(v.to_bits()).root(), 0.0, "root");
    }
    same(Single(f32::INFINITY.to_bits()).root(), f32::INFINITY, "root");
}

#[test]
fn differences_are_not_negative() {
    let mut r = Xorshift(1);
    for _ in 0..20000 {
        let (a, b) = (Single(r.next() as u32), Single(r.next() as u32));
        assert_eq!((a.plus(b), a.times(b)), (b.plus(a), b.times(a)));
        if a.above(b) {
            assert!(!Single::zero().above(a.minus(b)));
            assert!(!b.above(a));
        }
    }
}
