//! Model files, the network, the assignment and the whole pipeline.

use ccm::assign::assign;
use ccm::geometry::{candidate_centers, candidate_crops, prompt_crops, round_half_even, H, SLOTS, W};
use ccm::kernel::{
    force_generic, generic, has_avx2, has_osxsave, isa, isa_name, run, Cpu, Gemm, Isa, Kernel,
};
use ccm::model::codes::Codes;
use ccm::model::net::{maxpool, mean_pool, normalize, Scratch};
use ccm::model::{Model, ModelError, Reader};
use ccm::scalar::{Scalar, Single};
use ccm::{Error, Work};

/// Single precision, multiplication and addition rounded apart.
#[derive(Clone, Copy, Debug, PartialEq)]
struct F(f32);

// What the contracts say of an operation is the operation itself.
impl Scalar for F {
    fn zero_spec() -> F {
        F::zero()
    }
    fn nothing_spec() -> F {
        Self::nothing()
    }
    fn of_bits_spec(b: u32) -> F {
        F::of_bits(b)
    }
    fn count_spec(n: usize) -> F {
        F::count(n)
    }
    fn lowest_spec() -> F {
        F::lowest()
    }
    fn tiny_spec() -> F {
        F::tiny()
    }
    fn plus_spec(self, o: F) -> F {
        self.plus(o)
    }
    fn minus_spec(self, o: F) -> F {
        self.minus(o)
    }
    fn times_spec(self, o: F) -> F {
        self.times(o)
    }
    fn over_spec(self, o: F) -> F {
        self.over(o)
    }
    fn madd_spec(self, x: F, w: F) -> F {
        self.madd(x, w)
    }
    fn larger_spec(self, o: F) -> F {
        self.larger(o)
    }
    fn root_spec(self) -> F {
        self.root()
    }
    fn above_spec(self, o: F) -> bool {
        self.above(o)
    }

    fn zero() -> F {
        F(0.0)
    }
    fn nothing() -> F {
        F(-0.0)
    }
    fn of_bits(b: u32) -> F {
        F(f32::from_bits(b))
    }
    fn count(n: usize) -> F {
        F(n as f32)
    }
    fn lowest() -> F {
        F(f32::NEG_INFINITY)
    }
    fn tiny() -> F {
        F(1e-12)
    }
    fn plus(self, o: F) -> F {
        F(self.0 + o.0)
    }
    fn minus(self, o: F) -> F {
        F(self.0 - o.0)
    }
    fn times(self, o: F) -> F {
        F(self.0 * o.0)
    }
    fn over(self, o: F) -> F {
        F(self.0 / o.0)
    }
    fn madd(self, x: F, w: F) -> F {
        F(self.0 + x.0 * w.0)
    }
    fn larger(self, o: F) -> F {
        F(self.0.max(o.0))
    }
    fn root(self) -> F {
        F(if self.0 > 0.0 { self.0.sqrt() } else { 0.0 })
    }
    fn above(self, o: F) -> bool {
        self.0 > o.0
    }
}

impl Kernel for F {
    fn run(g: &Gemm<F>, out: &mut [F]) {
        generic(g, out)
    }
}

struct Lcg(u64);

impl Lcg {
    fn next(&mut self) -> u32 {
        self.0 = self.0.wrapping_mul(6364136223846793005).wrapping_add(1442695040888963407);
        (self.0 >> 33) as u32
    }

    fn unit(&mut self) -> f32 {
        (self.next() % 20001) as f32 / 10000.0 - 1.0
    }
}

/// (cin, cout, is_conv) of the twelve layers.
fn shapes(w: usize, dim: usize) -> [(usize, usize, bool); 12] {
    [
        (1, w, true),
        (w, w, true),
        (w, 2 * w, true),
        (2 * w, 2 * w, true),
        (32 * w, dim, false),
        (1, w, true),
        (w, w, true),
        (w, 2 * w, true),
        (2 * w, 2 * w, true),
        (2 * w, 4 * w, true),
        (4 * w, 4 * w, true),
        (4 * w, dim, false),
    ]
}

/// A layer in file order: biases, and weights by (output channel, input).
struct Plain {
    bias: Vec<f32>,
    weights: Vec<f32>,
}

/// A file with random contents, and what it should load as.
fn file(seed: u64, w: usize, dim: usize, dtype: u8, bits: &[u8; 12]) -> (Vec<u8>, Vec<Plain>) {
    let mut r = Lcg(seed);
    let mut out = b"CCM1".to_vec();
    out.extend_from_slice(&[w as u8, dtype, dim as u8, (dim >> 8) as u8]);
    let mut layers = vec![];
    for (li, &(cin, cout, conv)) in shapes(w, dim).iter().enumerate() {
        let k = if conv { 9 * cin } else { cin };
        let spread = 1.0 / (k as f32).sqrt();
        let scales: Vec<f32> = (0..cout).map(|_| spread * (1.0 + r.unit() / 2.0) / (1 << (bits[li] - 1)) as f32).collect();
        if dtype == 2 {
            out.push(bits[li]);
            scales.iter().for_each(|s| out.extend_from_slice(&s.to_le_bytes()));
        }
        let bias: Vec<f32> = (0..cout).map(|_| r.unit() / 10.0).collect();
        bias.iter().for_each(|b| out.extend_from_slice(&b.to_le_bytes()));
        let mut weights = vec![];
        let (mut acc, mut have) = (0u32, 0u32);
        for i in 0..cout * k {
            match dtype {
                0 => {
                    let v = r.unit() * spread;
                    out.extend_from_slice(&v.to_le_bytes());
                    weights.push(v);
                }
                1 => {
                    let h = (r.next() & 0x83ff | 0x2800 | (r.next() & 0x0400)) as u16;
                    out.extend_from_slice(&h.to_le_bytes());
                    let v = f32::from_bits(((h & 0x7fff) as u32) << 13) * f32::from_bits(0x7780_0000);
                    weights.push(if h & 0x8000 != 0 { -v } else { v });
                }
                _ => {
                    let n = bits[li] as u32;
                    let q = (r.next() % (1 << n)) as i32 - (1 << (n - 1));
                    acc |= (q as u32 & ((1 << n) - 1)) << have;
                    have += n;
                    while have >= 8 {
                        out.push(acc as u8);
                        acc >>= 8;
                        have -= 8;
                    }
                    weights.push(q as f32 * scales[i / k]);
                }
            }
        }
        if have > 0 {
            out.push(acc as u8);
        }
        layers.push(Plain { bias, weights });
    }
    (out, layers)
}

const BITS: [u8; 12] = [8, 8, 8, 8, 4, 8, 7, 6, 5, 3, 6, 2];

#[test]
fn model_file_is_validated() {
    let (bytes, _) = file(1, 16, 48, 2, &BITS);
    assert!(Model::load(&bytes).is_ok());
    assert!(Model::load(&bytes[..bytes.len() - 1]).is_err());
    let mut longer = bytes.to_vec();
    longer.push(0);
    assert!(Model::load(&longer).is_err());
    let mut magic = bytes.to_vec();
    magic[0] = b'X';
    assert!(Model::load(&magic).is_err());
    assert!(Model::load(&[]).is_err());
}

#[test]
fn model_headers_are_validated() {
    let (bytes, _) = file(1, 16, 16, 0, &BITS);
    assert!(Model::load(&bytes).is_ok());
    for (at, v) in [(1, b'X'), (2, b'X'), (3, b'2'), (4, 0), (4, 8), (4, 80), (5, 3), (6, 0), (6, 17), (7, 3)] {
        let mut bad = bytes.clone();
        bad[at] = v;
        assert_eq!(Model::load(&bad).err(), Some(ModelError), "byte {at} = {v}");
    }
    // Codes of 1 or 9 bits.
    for bits in [1, 9, 0, 255] {
        let (mut bad, _) = file(1, 16, 16, 2, &BITS);
        bad[8] = bits;
        assert!(Model::load(&bad).is_err());
    }
    for cut in [0, 7, 8, 9, 100, 5000] {
        assert!(Model::load(&bytes[..cut]).is_err());
    }
}

#[test]
fn weights_are_unpacked_for_the_kernel() {
    for dtype in 0..3 {
        let (w, dim) = (16, 32);
        let (bytes, layers) = file(2 + dtype as u64, w, dim, dtype, &BITS);
        let m = Model::load(&bytes).ok().unwrap();
        assert_eq!((m.width, m.dim), (w, dim));
        let mut at = 0;
        for (li, &(cin, cout, conv)) in shapes(w, dim).iter().enumerate() {
            let k = if conv { 9 * cin } else { cin };
            let l = &m.layers[li];
            assert_eq!((l.cin, l.cout, l.k, l.w, l.b), (cin, cout, k, at, at + cout * k));
            for co in 0..cout {
                assert_eq!(m.buf[l.b + co], layers[li].bias[co].to_bits());
                for e in 0..k {
                    let kidx = match li {
                        4 => (e % 16) * (2 * w) + e / 16,
                        11 => e,
                        _ => (e % 9) * cin + e / 9,
                    };
                    let got = m.buf[l.w + ((co / 16) * k + kidx) * 16 + co % 16];
                    assert_eq!(got, layers[li].weights[co * k + e].to_bits(), "layer {li}, channel {co}, input {e}");
                }
            }
            at += cout * k + cout;
        }
        assert_eq!(m.buf.len(), at);
    }
}

#[test]
fn codes_are_signed_and_packed_low_bit_first() {
    // 3-bit codes 1, -1, 3, -4, -3: 001 111 011 100 101 from the low end.
    let raw = [0b11_111_001, 0b0_101_100_0];
    let mut c = Codes::new(&raw);
    let got: Vec<i32> = (0..5).map(|_| c.next(3)).collect();
    assert_eq!(got, [1, -1, 3, -4, -3]);
    let raw = [0x80, 0x7F];
    let mut c = Codes::new(&raw);
    assert_eq!((c.next(8), c.next(8)), (-128, 127));
}

#[test]
fn readers_stop_at_the_end() {
    let mut r = Reader { b: &[1, 2, 3], i: 0 };
    assert_eq!(r.take(2), Ok(&[1u8, 2][..]));
    assert_eq!(r.take(2), Err(ModelError));
    assert_eq!(r.take(1), Ok(&[3u8][..]));
    assert_eq!(r.take(0), Ok(&[][..]));
    assert_eq!(r.take(usize::MAX), Err(ModelError));
}

#[test]
fn kernel_sums_in_order() {
    let mut r = Lcg(9);
    // (pixels, rows, len, cout, relu): conv-like and fc-like shapes, odd pixel counts
    for &(n, rows, len, cout, relu) in &[(25, 3, 96, 32, true), (7, 3, 3, 16, true), (4, 1, 512, 128, false), (6, 1, 64, 16, false), (1, 3, 48, 48, true)] {
        let stride = len + 5;
        let inp: Vec<F> = (0..n * stride + rows * stride + len).map(|_| F(r.unit())).collect();
        let w: Vec<F> = (0..cout * rows * len).map(|_| F(r.unit())).collect();
        let b: Vec<F> = (0..cout).map(|_| F(r.unit())).collect();
        let a: Vec<usize> = (0..n).map(|p| p * stride).collect();
        let o: Vec<usize> = (0..n).map(|p| p * cout).collect();
        let g = Gemm { inp: &inp, a: &a, o: &o, rows, stride, len, w: &w, b: &b, cout, relu };
        assert!(g.check(n * cout));
        assert!(!g.check(n * cout - 1));
        let mut out = vec![F(9.0); n * cout + 1];
        run(&g, &mut out);
        for p in 0..n {
            for co in 0..cout {
                let mut s = b[co].0;
                for i in 0..rows {
                    for j in 0..len {
                        s += inp[a[p] + i * stride + j].0 * w[((co / 16) * rows * len + i * len + j) * 16 + co % 16].0;
                    }
                }
                assert_eq!(out[o[p] + co].0, if relu { s.max(0.0) } else { s });
            }
        }
        assert_eq!(out[n * cout], F(9.0));
    }
}

#[test]
fn misfits_are_found_before_the_kernel_runs() {
    let (x, w, b) = (vec![F(1.0); 10], vec![F(1.0); 16 * 6], vec![F(1.0); 16]);
    let fit = |a: &[usize], o: &[usize], rows, stride, len, cout, n| {
        Gemm { inp: &x, a, o, rows, stride, len, w: &w, b: &b, cout, relu: false }.check(n)
    };
    assert!(fit(&[3], &[0], 2, 4, 3, 16, 16));
    assert!(!fit(&[4], &[0], 2, 4, 3, 16, 16)); // reads past the input
    assert!(!fit(&[3], &[1], 2, 4, 3, 16, 16)); // writes past the output
    assert!(!fit(&[3], &[0], 2, 4, 3, 8, 16)); // channels come in sixteens
    assert!(!fit(&[3], &[0], 0, 4, 3, 16, 16));
    assert!(!fit(&[3], &[0], 2, 4, 0, 16, 16));
    assert!(!fit(&[3], &[0, 0], 2, 4, 3, 16, 16));
    assert!(!fit(&[0], &[0], 3, 3, 3, 16, 16)); // too few weights
    assert!(!fit(&[3], &[0], 2, usize::MAX, 3, 16, 16));
    assert!(!fit(&[usize::MAX], &[0], 2, 4, 3, 16, 16));
    assert!(!fit(&[3], &[usize::MAX], 2, 4, 3, 16, 16));
    assert!(!fit(&[3], &[0], usize::MAX, 4, 3, 16, 16));
}

#[test]
fn kernels_are_picked_by_the_processor() {
    let none = Cpu { aarch64: false, max_leaf: 0, leaf1_ecx: 0, leaf7_ebx: 0, xcr0: 0 };
    let full = Cpu { aarch64: false, max_leaf: 13, leaf1_ecx: 1 << 12 | 1 << 27 | 1 << 28, leaf7_ebx: 1 << 5, xcr0: 7 };
    assert_eq!((isa_name(Isa::Unknown, &none), isa_name(Isa::Unknown, &full)), ("generic", "avx2"));
    assert_eq!(isa_name(Isa::Unknown, &Cpu { aarch64: true, ..none }), "neon");
    assert!(has_avx2(Isa::Unknown, &full) && !has_avx2(Isa::Unknown, &none));
    for lacking in [
        Cpu { max_leaf: 6, ..full },
        Cpu { leaf1_ecx: full.leaf1_ecx & !(1 << 12), ..full },
        Cpu { leaf1_ecx: full.leaf1_ecx & !(1 << 27), ..full },
        Cpu { leaf1_ecx: full.leaf1_ecx & !(1 << 28), ..full },
        Cpu { leaf7_ebx: !(1 << 5), ..full },
        Cpu { xcr0: 2, ..full },
        Cpu { xcr0: 5, ..full },
    ] {
        assert_eq!(isa(Isa::Unknown, &lacking), Isa::Generic);
    }
    assert!(has_osxsave(1 << 27) && !has_osxsave(!(1 << 27)));
    let mut settled = isa(Isa::Unknown, &full);
    assert_eq!(settled, Isa::Avx2);
    force_generic(&mut settled);
    assert_eq!(isa_name(settled, &full), "generic");
}

/// A padded n x n x c map around `f`.
fn padded(n: usize, c: usize, f: impl Fn(usize, usize, usize) -> f32) -> Vec<F> {
    let mut v = vec![F(0.0); (n + 2) * (n + 2) * c];
    for y in 0..n {
        for x in 0..n {
            for k in 0..c {
                v[((y + 1) * (n + 2) + x + 1) * c + k] = F(f(y, x, k));
            }
        }
    }
    v
}

#[test]
fn pooling_takes_the_largest_and_the_mean() {
    let f = |y: usize, x: usize, k: usize| ((y * 7 + x * 13 + k * 5) % 11) as f32 - 5.0;
    let inp = padded(4, 3, f);
    let mut out = vec![F(1.0); 4 * 4 * 3 + 2];
    maxpool(&inp, 4, 3, &mut out, true);
    let want = padded(2, 3, |y, x, k| f(2 * y, 2 * x, k).max(f(2 * y, 2 * x + 1, k)).max(f(2 * y + 1, 2 * x, k)).max(f(2 * y + 1, 2 * x + 1, k)));
    assert_eq!(out[..48], want[..]);
    assert_eq!(out[48..], [F(1.0); 2]);
    let mut packed = vec![F(1.0); 12];
    maxpool(&inp, 4, 3, &mut packed, false);
    assert_eq!(packed[..3], want[15..18]);
    assert_eq!(packed[9..], want[30..33]);
    let mut mean = vec![F(1.0); 3];
    mean_pool(&inp, 4, 3, &mut mean);
    for k in 0..3 {
        let sum: f32 = (0..16).map(|q| f(q / 4, q % 4, k)).sum();
        assert_eq!(mean[k].0, sum / 16.0);
    }
}

#[test]
fn vectors_are_normalized() {
    let mut v = [F(3.0), F(0.0), F(-4.0)];
    normalize(&mut v);
    assert_eq!(v, [F(3.0 / 5.0), F(0.0), F(-4.0 / 5.0)]);
    let mut z = [F(0.0); 4];
    normalize(&mut z);
    assert_eq!(z, [F(0.0); 4]);
}

/// A 3x3 conv + ReLU, from weights in file order.
fn conv(l: &Plain, inp: &[f32], n: usize, cin: usize, cout: usize, stride: usize) -> Vec<f32> {
    let m = n / stride;
    let mut out = vec![0.0; m * m * cout];
    for y in 0..m {
        for x in 0..m {
            for co in 0..cout {
                let mut s = l.bias[co];
                for ky in 0..3 {
                    for kx in 0..3 {
                        for ci in 0..cin {
                            let (sy, sx) = (y * stride + ky, x * stride + kx);
                            let v = if (1..=n).contains(&sy) && (1..=n).contains(&sx) { inp[((sy - 1) * n + sx - 1) * cin + ci] } else { 0.0 };
                            s += v * l.weights[co * 9 * cin + ci * 9 + ky * 3 + kx];
                        }
                    }
                }
                out[(y * m + x) * cout + co] = s.max(0.0);
            }
        }
    }
    out
}

fn pool(inp: &[f32], n: usize, c: usize) -> Vec<f32> {
    let m = n / 2;
    (0..m * m * c)
        .map(|i| {
            let (y, x, k) = (i / c / m, i / c % m, i % c);
            let at = |dy, dx| inp[((2 * y + dy) * n + 2 * x + dx) * c + k];
            at(0, 0).max(at(0, 1)).max(at(1, 0).max(at(1, 1)))
        })
        .collect()
}

fn unit(v: Vec<f32>) -> Vec<f32> {
    let norm = v.iter().fold(0.0, |s, x| s + x * x).sqrt().max(1e-12);
    v.iter().map(|x| x / norm).collect()
}

/// The network, from weights in file order.
fn forward(l: &[Plain], w: usize, dim: usize, prompts: &[f32], cands: &[f32]) -> [[f32; 6]; 4] {
    let embed = |l: &Plain, f: &dyn Fn(usize) -> f32, k: usize| -> Vec<f32> {
        unit((0..dim).map(|co| (0..k).fold(l.bias[co], |s, j| s + f(j) * l.weights[co * k + j])).collect())
    };
    let ep: Vec<Vec<f32>> = prompts
        .chunks(256)
        .map(|crop| {
            let m = conv(&l[0], crop, 16, 1, w, 1);
            let m = pool(&conv(&l[1], &m, 16, w, w, 1), 16, w);
            let m = conv(&l[2], &m, 8, w, 2 * w, 1);
            let m = pool(&conv(&l[3], &m, 8, 2 * w, 2 * w, 1), 8, 2 * w);
            // Summed in (y, x, channel) order over weights in (channel, y, x) order.
            let c = 2 * w;
            unit(
                (0..dim)
                    .map(|co| (0..16 * c).fold(l[4].bias[co], |s, j| s + m[j] * l[4].weights[co * 16 * c + j % c * 16 + j / c]))
                    .collect(),
            )
        })
        .collect();
    let ec: Vec<Vec<f32>> = cands
        .chunks(1600)
        .map(|crop| {
            let m = conv(&l[5], crop, 40, 1, w, 2);
            let m = pool(&conv(&l[6], &m, 20, w, w, 1), 20, w);
            let m = conv(&l[7], &m, 10, w, 2 * w, 1);
            let m = pool(&conv(&l[8], &m, 10, 2 * w, 2 * w, 1), 10, 2 * w);
            let m = conv(&l[9], &m, 5, 2 * w, 4 * w, 1);
            let m = conv(&l[10], &m, 5, 4 * w, 4 * w, 1);
            let mean: Vec<f32> = (0..4 * w).map(|k| (0..25).fold(0.0, |s, q| s + m[q * 4 * w + k]) / 25.0).collect();
            embed(&l[11], &|j| mean[j], 4 * w)
        })
        .collect();
    let mut sim = [[0.0; 6]; 4];
    for i in 0..4 {
        for j in 0..6 {
            sim[i][j] = ep[i].iter().zip(&ec[j]).fold(-0.0, |s, (x, y)| s + x * y);
        }
    }
    sim
}

fn picture(seed: u64) -> Vec<u8> {
    let mut r = Lcg(seed);
    let mut g = vec![250u8; W * H];
    for _ in 0..60 {
        let (x, y, w, h) = (r.next() as usize % W, r.next() as usize % H, 1 + r.next() as usize % 12, 1 + r.next() as usize % 12);
        let v = r.next() as u8;
        for yy in y..(y + h).min(H) {
            for xx in x..(x + w).min(W) {
                g[yy * W + xx] = v;
            }
        }
    }
    g
}

#[test]
fn network_matches_a_direct_computation() {
    let (w, dim) = (16, 32);
    let (bytes, layers) = file(21, w, dim, 2, &BITS);
    let m: Model<F> = Model::load(&bytes).ok().unwrap().numbers();
    let mut s: Scratch<F> = Scratch::new(&m);
    let gray = picture(5);
    let (mut p, mut c) = (vec![0u32; 1024], vec![0u32; 9600]);
    prompt_crops(&gray, &mut p);
    candidate_crops(&gray, &candidate_centers(&gray), &mut c);
    let number = |v: &[u32]| v.iter().map(|&b| f32::from_bits(b)).collect::<Vec<f32>>();
    let (p, c) = (number(&p), number(&c));
    let wrap = |v: &[f32]| v.iter().map(|&x| F(x)).collect::<Vec<F>>();
    let want = forward(&layers, w, dim, &p, &c);
    let got = m.similarity(&wrap(&p), &wrap(&c), &mut s).map(|r| r.map(|x| x.0));
    assert_eq!(got, want);
    // Used buffers give the same again.
    assert_eq!(m.similarity(&wrap(&p), &wrap(&c), &mut s).map(|r| r.map(|x| x.0)), want);
    assert!(want.iter().flatten().all(|v| v.abs() <= 1.00001));
    // What lies behind the crops is not read.
    let (mut p, mut c) = (wrap(&p), wrap(&c));
    p.push(F(f32::NAN));
    c.extend([F(9.0); 1600]);
    assert_eq!(m.similarity(&p, &c, &mut s).map(|r| r.map(|x| x.0)), want);
}

fn single(v: f32) -> Single {
    Single(v.to_bits())
}

fn float(v: Single) -> f32 {
    f32::from_bits(v.0)
}

#[test]
fn assignment_is_injective_and_scored() {
    let mut sim = [[0.0f32; 6]; 4];
    for (i, s) in [5, 2, 0, 3].into_iter().enumerate() {
        sim[i][s] = 1.0;
    }
    sim[0][2] = 0.9; // tempting, but slot 2 belongs to prompt 1: [2, _, 0, 3] only scores 2.9
    sim[3][1] = 0.8; // runner-up: [5, 2, 0, 1] = 3.8
    let a = assign(&sim.map(|r| r.map(single)));
    let (score, margin) = (float(a.score), float(a.margin));
    assert_eq!(a.slots, [5, 2, 0, 3]);
    assert!((score - 4.0).abs() < 1e-6 && (margin - 0.2).abs() < 1e-6, "{} {}", score, margin);
    let b = assign(&sim.map(|r| r.map(F)));
    assert_eq!((b.slots, b.score.0, b.margin.0), (a.slots, score, margin));
}

#[test]
fn assignment_is_the_best_of_all() {
    let mut r = Lcg(17);
    for _ in 0..200 {
        let mut sim = [[0i32; 6]; 4];
        sim.iter_mut().flatten().for_each(|v| *v = (r.next() % 10) as i32 - 5);
        let mut all = vec![];
        for t in 0..1296usize {
            let m = [t / 216, t / 36 % 6, t / 6 % 6, t % 6];
            if (0..4).all(|i| (0..i).all(|j| m[i] != m[j])) {
                all.push((-(0..4).map(|i| sim[i][m[i]]).sum::<i32>(), m));
            }
        }
        assert_eq!(all.len(), 360);
        all.sort();
        let a = assign(&sim.map(|r| r.map(|v| single(v as f32))));
        let (best, second) = (-all[0].0, -all[1].0);
        assert_eq!((a.slots, float(a.score), float(a.margin)), (all[0].1, best as f32, (best - second) as f32));
    }
    // The first of equals, and nothing at all without numbers.
    assert_eq!(assign(&[[single(7.0); 6]; 4]).slots, [0, 1, 2, 3]);
    assert_eq!(assign(&[[single(f32::NAN); 6]; 4]).slots, [0, 0, 0, 0]);
    assert!(float(assign(&[[single(f32::INFINITY); 6]; 4]).margin).is_nan());
}

#[test]
fn singles_compute_what_the_processor_does() {
    let (bytes, _) = file(43, 16, 16, 2, &BITS);
    let bits = Model::load(&bytes).ok().unwrap();
    let (m, n): (Model<Single>, Model<F>) = (bits.numbers(), bits.numbers());
    let (mut v, mut w) = (Work::<Single>::new(&m), Work::<F>::new(&n));
    v.gray = picture(3);
    w.gray = v.gray.clone();
    let (x, y) = (v.similarity(&m).0, w.similarity(&n).0);
    assert_eq!(x, y.map(|r| r.map(|v| single(v.0))));
}

/// A gray JPEG of flat 8x8 blocks: `level(x, y)` is the value of block (x, y), minus 128.
fn blocks(level: impl Fn(usize, usize) -> i32) -> Vec<u8> {
    let mut out = vec![0xFF, 0xD8, 0xFF, 0xDB, 0, 67, 0];
    out.extend_from_slice(&[8; 64]);
    out.extend_from_slice(&[0xFF, 0xC0, 0, 11, 8, 0, 80, 0, 250, 1, 1, 0x11, 0]);
    out.extend_from_slice(&[0xFF, 0xC4, 0, 31, 0, 0, 0, 0, 12, 0, 0, 0, 0, 0, 0, 0, 0, 0, 0, 0, 0]);
    out.extend(0..12u8);
    out.extend_from_slice(&[0xFF, 0xC4, 0, 20, 0x10, 1, 0, 0, 0, 0, 0, 0, 0, 0, 0, 0, 0, 0, 0, 0, 0, 0]);
    out.extend_from_slice(&[0xFF, 0xDA, 0, 8, 1, 1, 0, 0, 63, 0]);
    let (mut acc, mut n, mut pred) = (0u32, 0, 0);
    let mut put = |out: &mut Vec<u8>, v: i32, len: u32| {
        for i in (0..len).rev() {
            acc = acc << 1 | (v >> i & 1) as u32;
            n += 1;
            if n == 8 {
                out.push(acc as u8);
                if acc as u8 == 0xFF {
                    out.push(0);
                }
                acc = 0;
                n = 0;
            }
        }
    };
    for y in 0..10 {
        for x in 0..32 {
            let v = level(x, y);
            let d: i32 = v - pred;
            pred = v;
            let c = 32 - d.unsigned_abs().leading_zeros();
            put(&mut out, c as i32, 4);
            put(&mut out, if d > 0 { d } else { d + (1 << c) - 1 }, c);
            put(&mut out, 0, 1);
        }
    }
    put(&mut out, 0x7F, 7);
    out.extend_from_slice(&[0xFF, 0xD9]);
    out
}

/// A captcha of dark blocks on white.
fn captcha(seed: u64) -> Vec<u8> {
    let cells: Vec<bool> = {
        let mut r = Lcg(seed);
        (0..320).map(|_| r.next() % 4 == 0).collect()
    };
    blocks(|x, y| if cells[y * 32 + x] { -100 } else { 127 })
}

#[test]
fn blocks_decode_to_their_levels() {
    let m: Model<F> = Model::load(&file(33, 16, 16, 0, &BITS).0).ok().unwrap().numbers();
    let mut work: Work<F> = Work::new(&m);
    assert_eq!(work.decode(&blocks(|x, y| (x * 3 + y) as i32 - 50)), Ok(()));
    for y in 0..H {
        for x in 0..W {
            assert_eq!(work.gray[y * W + x] as usize, x / 8 * 3 + y / 8 + 78);
        }
    }
    let kept = work.gray.clone();
    assert_eq!(work.decode(b"no JPEG"), Err(Error::Jpeg));
    assert_eq!(work.gray, kept);
}

#[test]
fn solves_synthetic_captchas() {
    let (w, dim) = (16, 32);
    let (bytes, layers) = file(40, w, dim, 1, &BITS);
    let m: Model<F> = Model::load(&bytes).ok().unwrap().numbers();
    let mut work: Work<F> = Work::new(&m);
    let mut n = 0;
    for seed in 0..4 {
        let sol = work.solve(&m, &captcha(seed)).ok().unwrap();
        let gray = work.gray.clone();
        let centers = candidate_centers(&gray);
        let (mut p, mut c) = (vec![0u32; 1024], vec![0u32; 9600]);
        prompt_crops(&gray, &mut p);
        candidate_crops(&gray, &centers, &mut c);
        let number = |v: &[u32]| v.iter().map(|&b| f32::from_bits(b)).collect::<Vec<f32>>();
        let sim = forward(&layers, w, dim, &number(&p), &number(&c));
        let (mut best, mut second, mut slots) = (f32::NEG_INFINITY, f32::NEG_INFINITY, [0; 4]);
        for a in 0..6 {
            for b in (0..6).filter(|&b| b != a) {
                for c in (0..6).filter(|&c| c != a && c != b) {
                    for d in (0..6).filter(|&d| d != a && d != b && d != c) {
                        let s = sim[0][a] + sim[1][b] + sim[2][c] + sim[3][d];
                        if s > best {
                            (second, best, slots) = (best, s, [a, b, c, d]);
                        } else if s > second {
                            second = s;
                        }
                    }
                }
            }
        }
        assert_eq!((sol.slots, sol.score, sol.margin), (slots, F(best), F(best - second)));
        for (p, s) in sol.points.iter().zip(slots) {
            assert_eq!(*p, centers[s].map(round_half_even));
            assert!((SLOTS[s].0 as i32..SLOTS[s].1 as i32).contains(&p[0]) && (25..78).contains(&p[1]));
        }
        n += 1;
    }
    assert!(n >= 4);
}

#[test]
fn work_buffers_are_reusable() {
    let m: Model<F> = Model::load(&file(41, 16, 16, 0, &BITS).0).ok().unwrap().numbers();
    let mut work: Work<F> = Work::new(&m);
    let files: Vec<Vec<u8>> = (0..3).map(captcha).chain([b"broken".to_vec()]).collect();
    let first = work.solve(&m, &files[0]).ok().unwrap().points;
    for f in &files {
        let _ = work.solve(&m, f);
    }
    assert_eq!(work.solve(&m, &files[0]).ok().unwrap().points, first);
    assert_eq!(work.solve(&m, &files[3]).err(), Some(Error::Jpeg));
}

#[test]
fn spare_buffers_go_to_the_first_call() {
    let m: Model<F> = Model::load(&file(42, 16, 16, 0, &BITS).0).ok().unwrap().numbers();
    let mut spare = Some(Work::<F>::new(&m));
    let mut first = Work::take(&mut spare, &m);
    assert!(spare.is_none());
    let mut second = Work::take(&mut spare, &m);
    let jpeg = captcha(1);
    let a = first.solve(&m, &jpeg).ok().unwrap();
    let b = second.solve(&m, &jpeg).ok().unwrap();
    assert_eq!((a.points, a.slots, a.margin, a.score), (b.points, b.slots, b.margin, b.score));
    let kept = first.gray.clone();
    spare = Some(first);
    assert_eq!(Work::take(&mut spare, &m).gray, kept);
}

#[test]
fn similarities_follow_their_crops() {
    let m: Model<F> = Model::load(&file(44, 16, 32, 1, &BITS).0).ok().unwrap().numbers();
    let mut s: Scratch<F> = Scratch::new(&m);
    let mut r = Lcg(45);
    let p: Vec<F> = (0..1024).map(|_| F(r.unit().abs())).collect();
    let c: Vec<F> = (0..9600).map(|_| F(r.unit().abs())).collect();
    let sim = m.similarity(&p, &c, &mut s);
    let (rows, cols) = ([2, 0, 3, 1], [5, 1, 4, 0, 2, 2]);
    let p2: Vec<F> = rows.iter().flat_map(|&i| p[256 * i..256 * i + 256].to_vec()).collect();
    let c2: Vec<F> = cols.iter().flat_map(|&j| c[1600 * j..1600 * j + 1600].to_vec()).collect();
    assert_eq!(m.similarity(&p2, &c2, &mut s), rows.map(|i| cols.map(|j| sim[i][j])));
}

#[test]
fn rounding_can_take_a_similarity_past_one() {
    // Nothing but equal biases in the last layers: every embedding is the same.
    let (w, dim, bias) = (16, 480, f32::from_bits(0x3FD5_4B59));
    let mut bytes = b"CCM1".to_vec();
    bytes.extend_from_slice(&[w as u8, 0, dim as u8, (dim >> 8) as u8]);
    for (cin, cout, conv) in shapes(w, dim) {
        (0..cout).for_each(|_| bytes.extend_from_slice(&(if conv { 0.0 } else { bias }).to_le_bytes()));
        bytes.resize(bytes.len() + 4 * cout * if conv { 9 * cin } else { cin }, 0);
    }
    let m: Model<F> = Model::load(&bytes).ok().unwrap().numbers();
    let sim = m.similarity(&[F(0.5); 1024], &[F(0.5); 9600], &mut Scratch::new(&m));
    assert_eq!(sim, [[F(1.0000116); 6]; 4]);
}

#[test]
fn sums_start_at_negative_zero() {
    // Prompts embed to zero and candidates to a negative number: every product is -0.0.
    let (w, dim) = (16, 16);
    let mut bytes = b"CCM1".to_vec();
    bytes.extend_from_slice(&[w as u8, 0, dim as u8, 0]);
    for (k, (cin, cout, conv)) in shapes(w, dim).into_iter().enumerate() {
        let bias: f32 = if k == 11 { -1.0 } else { 0.0 };
        (0..cout).for_each(|_| bytes.extend_from_slice(&bias.to_le_bytes()));
        bytes.resize(bytes.len() + 4 * cout * if conv { 9 * cin } else { cin }, 0);
    }
    let bits = Model::load(&bytes).ok().unwrap();
    let m: Model<F> = bits.numbers();
    let sim = m.similarity(&[F(0.5); 1024], &[F(0.5); 9600], &mut Scratch::new(&m));
    assert!(sim.iter().flatten().all(|x| x.0.to_bits() == 0x8000_0000));
}

#[test]
fn layers_read_the_front_of_longer_buffers() {
    let m: Model<F> = Model::load(&file(46, 16, 32, 0, &BITS).0).ok().unwrap().numbers();
    let mut r = Lcg(47);
    let mut ix = Scratch::<F>::new(&m).ix;
    // A conv with stride 3 over 7 pixels: two pixels a row, at 0 and 3.
    let long: Vec<F> = (0..81 * 16 + 5).map(|_| F(r.unit())).collect();
    let (mut a, mut b) = (vec![F(7.0); 4 * 4 * 16 + 3], vec![F(8.0); 4 * 4 * 16]);
    m.conv(1, &long, 7, 3, &mut a, &mut ix);
    m.conv(1, &long[..81 * 16], 7, 3, &mut b, &mut ix);
    assert_eq!((&a[..256], &a[256..]), (&b[..], &[F(7.0); 3][..]));
    assert!(b[..64 + 16].iter().all(|x| *x == F(0.0)));
    // The same pixels out of a conv with stride 1.
    let mut c = vec![F(0.0); 81 * 16];
    m.conv(1, &long, 7, 1, &mut c, &mut ix);
    for (y, x) in [(0, 0), (0, 1), (1, 0), (1, 1)] {
        let (p, q) = ((y + 1) * 4 + x + 1, (3 * y + 1) * 9 + 3 * x + 1);
        assert_eq!(b[16 * p..16 * p + 16], c[16 * q..16 * q + 16]);
    }
    // No pixels: only the border.
    let mut e = vec![F(7.0); 4 * 16 + 1];
    m.conv(1, &long, 0, 1, &mut e, &mut ix);
    assert!(e[..64].iter().all(|x| *x == F(0.0)) && e[64] == F(7.0));

    let (mut a, mut b) = (vec![F(7.0); 3 * 32 + 1], vec![F(8.0); 32]);
    m.fc(11, &long, 3, &mut a, &mut ix);
    for i in 0..3 {
        m.fc(11, &long[64 * i..64 * i + 64], 1, &mut b, &mut ix);
        assert_eq!(a[32 * i..32 * i + 32], b[..]);
    }
    assert_eq!(a[96], F(7.0));
}

#[test]
fn pools_of_any_size() {
    let v: Vec<F> = (0..60).map(|i| F(i as f32)).collect();
    // An odd side loses its last row and column.
    let mut out = vec![F(-1.0); 3];
    maxpool(&v, 3, 2, &mut out, false);
    assert_eq!(out, [F(24.0), F(25.0), F(-1.0)]);
    let mut out = vec![F(-1.0); 9];
    maxpool(&v, 1, 2, &mut out, true);
    assert_eq!(out[..8], [F(0.0); 8]);
    assert_eq!(out[8], F(-1.0));
    // Averages of two pixels by two, one channel; outputs past it are blank.
    let mut out = vec![F(-1.0); 3];
    mean_pool(&v, 2, 1, &mut out);
    assert_eq!(out, [F(7.5), F(0.0), F(0.0)]);
    let mut out = vec![F(-1.0); 1];
    mean_pool(&v, 1, 2, &mut out);
    assert_eq!(out, [F(8.0)]);
    mean_pool(&v, 0, 2, &mut out);
    assert!(out[0].0.is_nan());
}
