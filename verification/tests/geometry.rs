//! Crops, click centers and rounding, against floating-point arithmetic.

use ccm::geometry::{
    candidate_centers, candidate_crops, ink, prompt_crops, round_half_even, CAND_PIXELS, CAND_ROWS, CAND_SIZE, H, INK_THRESHOLD,
    PROMPT_PIXELS, PROMPT_SIZE, SLOTS, W,
};
use ccm::ieee::product::{f16_to_f32, multiply};
use ccm::ieee::ratio::{add_ratio, divide};
use ccm::ieee::root::sqrt;
use ccm::ieee::NAN;

struct Lcg(u64);

impl Lcg {
    fn next(&mut self) -> u32 {
        self.0 = self.0.wrapping_mul(6364136223846793005).wrapping_add(1442695040888963407);
        (self.0 >> 33) as u32
    }
}

/// White, with `n` rectangles of random gray.
fn picture(seed: u64, n: usize) -> Vec<u8> {
    let mut r = Lcg(seed);
    let mut g = vec![255u8; W * H];
    for _ in 0..n {
        let (x, y, w, h) = (r.next() as usize % W, r.next() as usize % H, 1 + r.next() as usize % 20, 1 + r.next() as usize % 20);
        let v = r.next() as u8;
        for yy in y..(y + h).min(H) {
            for xx in x..(x + w).min(W) {
                g[yy * W + xx] = v;
            }
        }
    }
    g
}

#[test]
fn rounds_like_python() {
    for (x, want) in [(0.5f32, 0), (1.5, 2), (2.5, 2), (17.5, 18), (18.5, 18), (2.4999, 2), (2.5001, 3), (51.5, 52), (0.0, 0)] {
        assert_eq!(round_half_even(x.to_bits()), want, "round({x})");
    }
}

#[test]
fn rounds_at_the_edges() {
    for (x, want) in [
        (-0.5f32, 0),
        (-1.5, -2),
        (-2.5, -2),
        (-0.0, 0),
        (-0.49999997, 0),
        (0.49999997, 0),
        (-1e-30, 0),
        (8388607.5, 8388608),
        (8388608.0, 8388608),
        (16777215.0, 16777215),
        (-16777216.0, -16777216),
        (2147483520.0, 2147483520),
        (2147483648.0, i32::MAX),
        (-2147483648.0, i32::MIN),
        (f32::NAN, 0),
        (f32::from_bits(1), 0),
    ] {
        assert_eq!(round_half_even(x.to_bits()), want, "round({x})");
    }
    let mut r = Lcg(3);
    for _ in 0..20000 {
        let x = (r.next() as f64 / 1e5 - 10000.0) as f32;
        assert_eq!(round_half_even(x.to_bits()), x.round_ties_even() as i32, "round({x})");
    }
}

#[test]
fn ink_is_a_correctly_rounded_quotient() {
    for g in 0..=255u8 {
        assert_eq!(f32::from_bits(ink(g)), (255.0 - g as f32) / 255.0);
    }
    assert_eq!((ink(255), f32::from_bits(ink(0))), (0, 1.0));
    for n in 0..=255u32 {
        for d in 1..=255u32 {
            assert_eq!(divide(n, d), (n as f32 / d as f32).to_bits());
        }
    }
}

#[test]
fn offsets_round_through_double_precision() {
    let mut r = Lcg(11);
    for _ in 0..20000 {
        let (base, d) = (r.next() % 256, 1 + r.next() % 4096);
        let n = r.next() % (50 * d + 1);
        let want = (base as f64 + n as f64 / d as f64) as f32;
        assert_eq!(add_ratio(base, n, d), want.to_bits(), "{base} + {n} / {d}");
    }
    assert_eq!((add_ratio(0, 0, 7), f32::from_bits(add_ratio(37, 1, 3))), (0, 37.333332));
}

#[test]
fn halves_widen_exactly() {
    for h in 0..=u16::MAX {
        let v = f32::from_bits(((h & 0x7fff) as u32) << 13) * f32::from_bits(0x7780_0000);
        let want = if h & 0x8000 != 0 { -v } else { v };
        assert_eq!(f16_to_f32(h), want.to_bits(), "{h:#x}");
    }
    assert_eq!((f32::from_bits(f16_to_f32(0x3C00)), f32::from_bits(f16_to_f32(0x8001))), (1.0, -5.9604645e-8));
}

#[test]
fn integers_times_numbers_round_like_hardware() {
    let mut r = Lcg(5);
    let mut check = |q: i32, b: u32| {
        let want = q as f32 * f32::from_bits(b);
        let got = multiply(q, b);
        if want.is_nan() {
            assert_eq!(got, NAN);
        } else {
            assert_eq!(got, want.to_bits(), "{q} * {b:#x}");
        }
    };
    for b in [0, 1, 0x7fffff, 0x800000, 0x7f7fffff, 0x7f800000, 0x7fc00001, 0x80000000, 0x80000001, 0xff800000, 0x3f800000, 0x33333333] {
        for q in -128..=128 {
            check(q, b);
        }
    }
    for _ in 0..100000 {
        let (q, b) = (r.next() as i32 % 257 - 128, r.next() << 1 ^ r.next());
        check(q.clamp(-128, 128), b);
    }
}

#[test]
fn roots_are_correctly_rounded() {
    let mut r = Lcg(13);
    for b in [1, 2, 3, 0x7fffff, 0x800000, 0x3f800000, 0x40000000, 0x40800000, 0x7f7fffff, 0x3f7fffff, 0x3effffff] {
        assert_eq!(sqrt(b), f32::from_bits(b).sqrt().to_bits(), "{b:#x}");
    }
    for _ in 0..100000 {
        let b = r.next() & 0x7fffffff;
        if (1..0x7f800000).contains(&b) {
            assert_eq!(sqrt(b), f32::from_bits(b).sqrt().to_bits(), "{b:#x}");
        }
    }
    for none in [0.0f32, -0.0, -1.0, f32::NAN, f32::NEG_INFINITY] {
        assert_eq!(sqrt(none.to_bits()), 0);
    }
    assert_eq!(sqrt(f32::INFINITY.to_bits()), f32::INFINITY.to_bits());
    assert_eq!(f32::from_bits(sqrt(2.0f32.to_bits())), 1.4142135);
}

/// Mean of positions weighted by `hist` after clipping them to its 5%/95% quantiles.
fn clipped_mean(hist: &[i64]) -> f64 {
    let q = 0.05f64;
    let total: i64 = hist.iter().sum();
    let (lo_v, hi_v) = (q * total as f64, (1.0 - q) * total as f64);
    let (mut lo, mut hi, mut cum) = (hist.len(), hist.len(), 0i64);
    for (i, &h) in hist.iter().enumerate() {
        cum += h;
        if lo == hist.len() && cum as f64 > lo_v {
            lo = i;
        }
        if hi == hist.len() && cum as f64 >= hi_v {
            hi = i;
        }
    }
    let s: i64 = hist.iter().enumerate().map(|(i, &h)| i.max(lo).min(hi) as i64 * h).sum();
    s as f64 / total as f64
}

fn centers(gray: &[u8]) -> [[f32; 2]; 6] {
    let (y0, y1) = CAND_ROWS;
    SLOTS.map(|(a, b)| {
        let mut rows = [0i64; 53];
        let mut cols = [0i64; 40];
        for y in y0..y1 {
            for x in a..b {
                if gray[y * W + x] < INK_THRESHOLD {
                    rows[y - y0] += 1;
                    cols[x - a] += 1;
                }
            }
        }
        if rows.iter().sum::<i64>() < 5 {
            [((a + b) as f64 / 2.0) as f32, ((y0 + y1) as f64 / 2.0) as f32]
        } else {
            [(a as f64 + clipped_mean(&cols[..b - a])) as f32, (y0 as f64 + clipped_mean(&rows)) as f32]
        }
    })
}

#[test]
fn centers_are_winsorized_centroids() {
    for seed in 0..300 {
        let g = picture(seed, seed as usize % 25);
        let got = candidate_centers(&g).map(|c| c.map(f32::from_bits));
        assert_eq!(got, centers(&g), "picture {seed}");
    }
    // Every slot dark all over: the middle of its pixels.
    let dark = candidate_centers(&[0; W * H]).map(|c| c.map(f32::from_bits));
    assert_eq!(dark[1], [56.0, 51.0]);
    // Nothing dark: the middle of its edges.
    let blank = candidate_centers(&[255; W * H]).map(|c| c.map(f32::from_bits));
    assert_eq!(blank[1], [56.5, 51.5]);
    // Four dark pixels are nothing, five are something; 110 is not dark.
    let mut g = vec![255u8; W * H];
    for i in 0..4 {
        g[30 * W + 40 + i] = 109;
    }
    g[30 * W + 50] = 110;
    assert_eq!(candidate_centers(&g).map(|c| c.map(f32::from_bits))[1], [56.5, 51.5]);
    g[30 * W + 44] = 0;
    assert_eq!(candidate_centers(&g).map(|c| c.map(f32::from_bits))[1], [42.0, 30.0]);
}

#[test]
fn centers_stay_in_their_slots() {
    for seed in 300..400 {
        let g = picture(seed, 30);
        for (c, (a, b)) in candidate_centers(&g).into_iter().zip(SLOTS) {
            let (x, y) = (round_half_even(c[0]), round_half_even(c[1]));
            assert!(a as i32 <= x && x < b as i32);
            assert!(CAND_ROWS.0 as i32 <= y && y < CAND_ROWS.1 as i32);
        }
    }
}

#[test]
fn prompts_are_cut_at_fixed_places() {
    let g = picture(7, 40);
    let mut out = vec![1u32; 4 * PROMPT_PIXELS + 9];
    prompt_crops(&g, &mut out);
    for k in 0..4 {
        for r in 0..PROMPT_SIZE {
            for c in 0..PROMPT_SIZE {
                let got = f32::from_bits(out[k * PROMPT_PIXELS + r * PROMPT_SIZE + c]);
                let want = if (2..14).contains(&r) && (1..15).contains(&c) {
                    (255.0 - g[r * W + 81 + 13 * k + c - 2] as f32) / 255.0
                } else {
                    0.0
                };
                assert_eq!(got, want, "cell {k}, row {r}, column {c}");
            }
        }
    }
    assert_eq!(out[4 * PROMPT_PIXELS..], [1; 9]);
    // A buffer for one cell and a half gets one cell.
    let mut short = vec![1u32; 384];
    prompt_crops(&g, &mut short);
    assert_eq!(short[..256], out[..256]);
    assert_eq!(short[256..], [1; 128]);
}

#[test]
fn candidates_are_clipped_to_their_slots() {
    let g = picture(8, 40);
    let c = candidate_centers(&g);
    let mut out = vec![1u32; 6 * CAND_PIXELS + 9];
    candidate_crops(&g, &c, &mut out);
    for k in 0..6 {
        let (cx, cy) = (round_half_even(c[k][0]), round_half_even(c[k][1]));
        for r in 0..CAND_SIZE as i32 {
            for x in 0..CAND_SIZE as i32 {
                let (sy, sx) = (cy - 20 + r, cx - 20 + x);
                let inside = (25..78).contains(&sy) && (SLOTS[k].0 as i32..SLOTS[k].1 as i32).contains(&sx);
                let want = if inside { (255.0 - g[sy as usize * W + sx as usize] as f32) / 255.0 } else { 0.0 };
                assert_eq!(f32::from_bits(out[k * CAND_PIXELS + (r * 40 + x) as usize]), want);
            }
        }
    }
    assert_eq!(out[6 * CAND_PIXELS..], [1; 9]);
    // Far off the image there is nothing.
    let mut away = vec![1u32; CAND_PIXELS];
    candidate_crops(&g, &[[(-1e9f32).to_bits(), 1e9f32.to_bits()]; 6], &mut away);
    assert!(away.iter().all(|&v| v == 0));
}

#[test]
fn means_are_clipped_to_quantiles() {
    // Both stray counts are clipped to position 1.
    assert_eq!(ccm::geometry::clipped_mean(&[1, 98, 0, 0, 1]), (100, 100));
    assert_eq!(ccm::geometry::clipped_mean(&[0, 0, 1_000_000_000]), (2_000_000_000, 1_000_000_000));
    assert_eq!(ccm::geometry::clipped_mean(&[]), (0, 0));
    let mut seed = 5u32;
    for n in 1..200usize {
        let hist: Vec<u32> = (0..n)
            .map(|_| {
                seed = seed.wrapping_mul(1664525).wrapping_add(1013904223);
                (seed >> 8) % 5000
            })
            .collect();
        let (s, t) = ccm::geometry::clipped_mean(&hist);
        let wide: Vec<i64> = hist.iter().map(|&h| h as i64).collect();
        assert_eq!(s as f64 / t as f64, clipped_mean(&wide), "{n} positions");
    }
}
