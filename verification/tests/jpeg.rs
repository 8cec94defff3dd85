//! The decoder, on files that an encoder below writes.

use ccm::geometry::{H, W};
use ccm::jpeg::bits::Bits;
use ccm::jpeg::block::ZIGZAG;
use ccm::jpeg::color::{luma, pixel, upsample, Up};
use ccm::jpeg::frame::ORDER;
use ccm::jpeg::huffman::Huff;
use ccm::jpeg::idct::{descale, idct, idct_flat, range_limit};
use ccm::jpeg::marker::{be16, next_marker};
use ccm::jpeg::{self, SCRATCH};
use ccm::Error;

fn fnv1a(data: &[u8]) -> u64 {
    data.iter().fold(0xcbf29ce484222325u64, |h, &b| (h ^ b as u64).wrapping_mul(0x100000001b3))
}

fn decode(data: &[u8]) -> Result<Vec<u8>, Error> {
    let (mut planes, mut gray) = (vec![0u8; SCRATCH], vec![0u8; W * H]);
    match jpeg::decode(data, &mut planes, &mut gray) {
        Ok(()) => Ok(gray),
        Err(e) => Err(Error::from(e)),
    }
}

struct Lcg(u32);

impl Lcg {
    fn next(&mut self, n: u32) -> u32 {
        self.0 = self.0.wrapping_mul(1664525).wrapping_add(1013904223);
        (self.0 >> 16) % n
    }
}

struct BitWriter {
    out: Vec<u8>,
    acc: u8,
    n: u32,
}

impl BitWriter {
    fn put(&mut self, v: i32, len: u32) {
        for i in (0..len).rev() {
            self.acc = self.acc << 1 | (v >> i & 1) as u8;
            self.n += 1;
            if self.n == 8 {
                self.out.push(self.acc);
                if self.acc == 0xFF {
                    self.out.push(0);
                }
                self.acc = 0;
                self.n = 0;
            }
        }
    }

    fn flush(&mut self) {
        while self.n > 0 {
            self.put(1, 1);
        }
    }
}

fn segment(marker: u8, body: &[u8]) -> Vec<u8> {
    let len = body.len() + 2;
    let mut s = vec![0xFF, marker, (len >> 8) as u8, len as u8];
    s.extend_from_slice(body);
    s
}

/// (code, length) of every symbol, for a table in the form of a DHT segment.
fn codes(counts: &[u8; 16], vals: &[u8]) -> Vec<(i32, u32)> {
    let mut table = vec![(0, 0); 256];
    let (mut code, mut k) = (0, 0);
    for (l, &n) in counts.iter().enumerate() {
        for _ in 0..n {
            table[vals[k] as usize] = (code, l as u32 + 1);
            code += 1;
            k += 1;
        }
        code <<= 1;
    }
    table
}

fn category(v: i32) -> u32 {
    32 - v.unsigned_abs().leading_zeros()
}

/// What to encode.
struct Spec {
    seed: u32,
    comps: Vec<(usize, usize)>,
    restart: usize,
    interleave: bool,
    sof: u8,
    eoi: bool,
    app: Vec<u8>,
    q16: bool,
    ids: [u8; 3],
    size: (usize, usize),
    /// A table with long codes.
    long: bool,
}

fn spec(seed: u32, comps: &[(usize, usize)]) -> Spec {
    Spec {
        seed,
        comps: comps.to_vec(),
        restart: 0,
        interleave: true,
        sof: 0xC0,
        eoi: true,
        app: vec![],
        q16: false,
        ids: [1, 2, 3],
        size: (250, 80),
        long: false,
    }
}

fn encode(s: &Spec) -> Vec<u8> {
    let (w, h) = s.size;
    let mut r = Lcg(s.seed);
    let hm = s.comps.iter().map(|c| c.0).max().unwrap();
    let vm = s.comps.iter().map(|c| c.1).max().unwrap();
    let mut out = vec![0xFF, 0xD8];
    out.extend_from_slice(&s.app);
    for t in 0..2usize {
        let q: Vec<u32> = (0..64).map(|i| 1 + r.next(3) + ((i / 8 + i % 8) * (1 + t)) as u32).collect();
        let mut body = vec![if s.q16 { 0x10 | t as u8 } else { t as u8 }];
        for &k in ZIGZAG.iter() {
            if s.q16 {
                body.push((q[k as usize] >> 8) as u8);
            }
            body.push(q[k as usize] as u8);
        }
        out.extend(segment(0xDB, &body));
    }
    let mut body = vec![8, (h >> 8) as u8, h as u8, (w >> 8) as u8, w as u8, s.comps.len() as u8];
    for (i, c) in s.comps.iter().enumerate() {
        body.extend_from_slice(&[s.ids[i], (c.0 << 4 | c.1) as u8, i.min(1) as u8]);
    }
    out.extend(segment(s.sof, &body));

    let (mut dc_counts, mut ac_counts) = ([0u8; 16], [0u8; 16]);
    dc_counts[3] = 12;
    let dc_vals: Vec<u8> = (0..12).collect();
    let mut all: Vec<u8> = vec![0x00, 0xF0];
    all.extend((0..16u8).flat_map(|r| (1..11u8).map(move |s| r << 4 | s)));
    let ac_vals: Vec<u8> = if s.long {
        let short = [0x00, 0x01, 0x11, 0x02, 0x21, 0x31];
        ac_counts[3] = 6;
        ac_counts[11] = 156;
        short.iter().copied().chain(all.into_iter().filter(|v| !short.contains(v))).collect()
    } else {
        ac_counts[7] = 162;
        all
    };
    let mut body = vec![0];
    body.extend_from_slice(&dc_counts);
    body.extend_from_slice(&dc_vals);
    body.push(0x10);
    body.extend_from_slice(&ac_counts);
    body.extend_from_slice(&ac_vals);
    out.extend(segment(0xC4, &body));
    if s.restart > 0 {
        out.extend(segment(0xDD, &[(s.restart >> 8) as u8, s.restart as u8]));
    }
    let (dc, ac) = (codes(&dc_counts, &dc_vals), codes(&ac_counts, &ac_vals));

    let (mx, my) = (w.div_ceil(8 * hm), h.div_ceil(8 * vm));
    let places = [1, 2, 3, 4, 5, 6, 7, 8, 9, 12, 20, 33, 63];
    let levels = [-3, -2, -1, 1, 2, 3, 5, -9];
    let mut blocks: Vec<Vec<[i32; 64]>> = vec![];
    for c in &s.comps {
        let mut level = 0i32;
        let mut plane = vec![];
        for _ in 0..my * c.1 * mx * c.0 {
            level = (level + r.next(51) as i32 - 25).clamp(-120, 120);
            let mut coef = [0i32; 64];
            coef[0] = level * 4;
            if r.next(10) < 6 {
                for _ in 0..1 + r.next(3) {
                    let k = places[r.next(13) as usize];
                    coef[k] = levels[r.next(8) as usize];
                }
            }
            plane.push(coef);
        }
        blocks.push(plane);
    }

    let n = s.comps.len();
    let scans: Vec<Vec<usize>> = if s.interleave { vec![(0..n).collect()] } else { (0..n).map(|i| vec![i]).collect() };
    for scan in scans {
        let mut body = vec![scan.len() as u8];
        for &i in &scan {
            body.extend_from_slice(&[s.ids[i], 0]);
        }
        body.extend_from_slice(&[0, 63, 0]);
        out.extend(segment(0xDA, &body));
        let mut units: Vec<Vec<(usize, usize)>> = vec![];
        if scan.len() == 1 {
            let c = s.comps[scan[0]];
            let (bw, bh) = ((w * c.0).div_ceil(hm).div_ceil(8), (h * c.1).div_ceil(vm).div_ceil(8));
            for y in 0..bh {
                for x in 0..bw {
                    units.push(vec![(scan[0], y * mx * c.0 + x)]);
                }
            }
        } else {
            for yy in 0..my {
                for xx in 0..mx {
                    let mut u = vec![];
                    for &i in &scan {
                        let c = s.comps[i];
                        for y in 0..c.1 {
                            for x in 0..c.0 {
                                u.push((i, (yy * c.1 + y) * mx * c.0 + xx * c.0 + x));
                            }
                        }
                    }
                    units.push(u);
                }
            }
        }
        let mut bits = BitWriter { out: vec![], acc: 0, n: 0 };
        let mut pred = [0i32; 3];
        let mut rst = 0u8;
        for (m, u) in units.iter().enumerate() {
            if s.restart > 0 && m > 0 && m % s.restart == 0 {
                bits.flush();
                bits.out.extend_from_slice(&[0xFF, 0xD0 + rst % 8]);
                rst += 1;
                pred = [0; 3];
            }
            for &(ci, b) in u {
                let coef = &blocks[ci][b];
                let d = coef[0] - pred[ci];
                pred[ci] = coef[0];
                let c = category(d);
                bits.put(dc[c as usize].0, dc[c as usize].1);
                bits.put(if d > 0 { d } else { d + (1 << c) - 1 }, c);
                let last = (1..64).rev().find(|&k| coef[k] != 0).unwrap_or(0);
                let mut run = 0;
                for k in 1..=last {
                    let v = coef[k];
                    if v == 0 {
                        run += 1;
                        continue;
                    }
                    while run > 15 {
                        bits.put(ac[0xF0].0, ac[0xF0].1);
                        run -= 16;
                    }
                    let c = category(v);
                    let sym = run << 4 | c as usize;
                    bits.put(ac[sym].0, ac[sym].1);
                    bits.put(if v > 0 { v } else { v + (1 << c) - 1 }, c);
                    run = 0;
                }
                if last < 63 {
                    bits.put(ac[0].0, ac[0].1);
                }
            }
        }
        bits.flush();
        out.extend(bits.out);
    }
    if s.eoi {
        out.extend_from_slice(&[0xFF, 0xD9]);
    }
    out
}

const FULL: [(usize, usize); 3] = [(1, 1), (1, 1), (1, 1)];
const HALF: [(usize, usize); 3] = [(2, 1), (1, 1), (1, 1)];
const QUARTER: [(usize, usize); 3] = [(2, 2), (1, 1), (1, 1)];

fn jfif() -> Vec<u8> {
    segment(0xE0, b"JFIF\0\x01\x01\0\0\x01\0\x01\0\0")
}

fn adobe(transform: u8) -> Vec<u8> {
    let mut body = b"Adobe\0\x64\0\0\0\0".to_vec();
    body.push(transform);
    segment(0xEE, &body)
}

#[test]
fn decoder_matches_pillow() {
    // (file, status, hash of the image): sampling, restarts, scans, tables, color spaces.
    // The files are written by `encode`. The hashes come from a second decoder, a Python
    // script that redoes libjpeg-turbo's and Pillow's integer arithmetic (exact IDCT, fancy
    // upsampling, YCbCr tables, luma) from their formulas; Pillow itself did not run.
    let files = [
        ("gray", Spec { app: jfif(), ..spec(1, &[(1, 1)]) }, 0, 0x927d837d3f4d2926u64),
        ("4:4:4", Spec { app: jfif(), ..spec(2, &FULL) }, 0, 0x9e7e80f810a68a0d),
        ("4:2:2, long codes", Spec { long: true, ..spec(3, &HALF) }, 0, 0x9daacbff16dc8df7),
        ("4:2:0, restarts", Spec { app: jfif(), restart: 7, ..spec(4, &QUARTER) }, 0, 0x20ad8e9fd66edcd7),
        ("rgb, 16-bit tables, extended", Spec { app: adobe(0), q16: true, sof: 0xC1, ..spec(5, &FULL) }, 0, 0xe1919285951fe932),
        ("adobe ycc", Spec { app: adobe(1), ..spec(5, &FULL) }, 0, 0xf89e9cf5a61105ce),
        ("rgb by name", Spec { ids: *b"RGB", ..spec(8, &FULL) }, 0, 0xa6fe8400814e8c96),
        ("jfif over adobe", Spec { ids: *b"RGB", app: [jfif(), adobe(0)].concat(), ..spec(8, &FULL) }, 0, 0xee66098992091176),
        ("a scan per component", Spec { interleave: false, restart: 5, ..spec(6, &QUARTER) }, 0, 0x3124f9dfc78d1b76),
        ("2x2 gray, no end marker", Spec { eoi: false, ..spec(7, &[(2, 2)]) }, 0, 0x8bdebed6d5f65237),
        ("progressive", Spec { sof: 0xC2, ..spec(1, &[(1, 1)]) }, -3, 0),
        ("arithmetic", Spec { sof: 0xC9, ..spec(1, &[(1, 1)]) }, -3, 0),
        ("two components", spec(1, &[(1, 1), (1, 1)]), -3, 0),
        ("1x2 chroma", spec(1, &[(1, 2), (1, 1), (1, 1)]), -3, 0),
        ("240x80", Spec { size: (240, 80), ..spec(1, &[(1, 1)]) }, -4, 0),
        ("250x72", Spec { size: (250, 72), ..spec(1, &[(1, 1)]) }, -4, 0),
    ];
    for (name, s, status, hash) in files {
        match decode(&encode(&s)) {
            Ok(gray) => {
                assert_eq!(status, 0, "{} should fail", name);
                assert_eq!(fnv1a(&gray), hash, "{}: pixels differ", name);
            }
            Err(e) => assert_eq!(e.code(), status, "{}", name),
        }
    }
}

#[test]
fn corrupt_input_never_panics() {
    // The JPEG comes from a remote server: any byte string must give Ok or Err.
    let base = &encode(&Spec { app: jfif(), restart: 7, ..spec(4, &QUARTER) });
    let mut seed = 0x2545f4914f6cdd1du64;
    let mut rand = || {
        seed ^= seed << 13;
        seed ^= seed >> 7;
        seed ^= seed << 17;
        seed
    };
    for cut in (0..base.len()).step_by(97) {
        let _ = decode(&base[..cut]);
    }
    for _ in 0..3000 {
        let mut d = base.clone();
        for _ in 0..1 + rand() % 8 {
            let i = rand() as usize % d.len();
            d[i] = rand() as u8;
        }
        let _ = decode(&d);
    }
    let _ = decode(&[0xFF, 0xD8, 0xFF]);
    let _ = decode(&[]);
}

#[test]
fn errors_leave_the_image_alone() {
    let good = encode(&spec(1, &[(1, 1)]));
    let mut planes = vec![7u8; SCRATCH + 3];
    let mut gray = vec![9u8; W * H + 5];
    assert_eq!(jpeg::decode(&good[..100], &mut planes, &mut gray), Err(jpeg::Error::Format));
    assert!(gray.iter().all(|&g| g == 9));
    assert_eq!(jpeg::decode(&good, &mut planes, &mut gray), Ok(()));
    assert_eq!(gray[W * H..], [9; 5]);
    assert_eq!(planes[SCRATCH..], [7; 3]);
}

#[test]
fn scratch_contents_do_not_matter() {
    let data = encode(&spec(3, &HALF));
    let (mut a, mut b) = (vec![0u8; W * H], vec![0u8; W * H]);
    jpeg::decode(&data, &mut vec![0u8; SCRATCH], &mut a).unwrap();
    jpeg::decode(&data, &mut vec![0xABu8; SCRATCH], &mut b).unwrap();
    assert_eq!(a, b);
}

#[test]
fn end_marker_is_optional() {
    let with = encode(&Spec { restart: 7, ..spec(4, &QUARTER) });
    let without = encode(&Spec { restart: 7, eoi: false, ..spec(4, &QUARTER) });
    let image = decode(&with).unwrap();
    assert_eq!(decode(&without).unwrap(), image);
    let mut trailing = with.clone();
    trailing.extend_from_slice(b"anything \xFF\xD8\xFF\xC0 at all");
    assert_eq!(decode(&trailing).unwrap(), image);
}

#[test]
fn incomplete_files_are_refused() {
    // No scan at all.
    let mut headers = encode(&spec(1, &[(1, 1)]));
    let scan = headers.windows(2).position(|w| w == [0xFF, 0xDA]).unwrap();
    headers.truncate(scan);
    assert_eq!(decode(&headers).map_err(|e| e.code()), Err(-2));
    headers.extend_from_slice(&[0xFF, 0xD9]);
    assert_eq!(decode(&headers).map_err(|e| e.code()), Err(-2));
    // One component of three was never scanned.
    let split = encode(&Spec { interleave: false, ..spec(6, &QUARTER) });
    let last = split.windows(2).rposition(|w| w == [0xFF, 0xDA]).unwrap();
    assert!(decode(&split).is_ok());
    assert_eq!(decode(&split[..last]).map_err(|e| e.code()), Err(-2));
    // A second start marker, and a file that does not start with one.
    let good = encode(&spec(1, &[(1, 1)]));
    let mut twice = good[..2].to_vec();
    twice.extend_from_slice(&good);
    assert_eq!(decode(&twice).map_err(|e| e.code()), Err(-2));
    assert_eq!(decode(&good[1..]).map_err(|e| e.code()), Err(-2));
}

#[test]
fn missing_restart_marker_is_refused() {
    let good = encode(&Spec { restart: 7, ..spec(4, &QUARTER) });
    let at = good.windows(2).position(|w| w == [0xFF, 0xD0]).unwrap();
    let mut bad = good.clone();
    bad[at + 1] = 0xD9;
    assert!(decode(&good).is_ok());
    assert_eq!(decode(&bad).map_err(|e| e.code()), Err(-2));
}

#[test]
fn markers_skip_fill_and_stuffing() {
    let d = [0x12, 0xFF, 0x00, 0xFF, 0xFF, 0xD8, 0x34, 0xFF];
    assert_eq!(next_marker(&d, 0), Ok((0xD8, 6)));
    assert_eq!(next_marker(&d, 6), Err(jpeg::Error::Format));
    assert_eq!(be16(&d, 5), Ok(0xD834));
    assert_eq!(be16(&d, 7), Err(jpeg::Error::Format));
}

#[test]
fn zigzag_is_a_permutation() {
    for k in 0..64 {
        assert_eq!(ORDER[ZIGZAG[k] as usize] as usize, k);
        assert_eq!(ZIGZAG[ORDER[k] as usize] as usize, k);
    }
    assert_eq!(ZIGZAG[..10], [0, 1, 8, 16, 9, 2, 3, 10, 17, 24]);
}

#[test]
fn bits_are_read_past_stuffing_and_the_end() {
    let d = [0xA5, 0xFF, 0x00, 0x0F, 0xFF, 0xD9];
    let mut b = Bits::new(&d, 0);
    b.need16();
    assert_eq!(b.take(4), 0xA);
    assert_eq!(b.take(12), 0x5FF);
    b.need16();
    assert_eq!(b.take(8), 0x0F);
    // Zeros from the marker on.
    b.need16();
    assert_eq!(b.take(16), 0);
    let at = b.pos;
    b.refill();
    assert!(b.stop && b.pos == at && at == 4);
    b.take(16);
    b.refill();
    assert!(b.stop && b.pos == at && b.n > 56);
    let mut b = Bits::new(&[0b1010_0111], 0);
    // Three bits, 101 and 001: at least half of the range stands for itself.
    assert_eq!(b.extend(3), 5);
    assert_eq!(b.extend(3), -6);
    assert_eq!(b.extend(0), 0);
}

#[test]
fn huffman_codes_are_canonical() {
    // Codes 0, 10, 110, 1110 and one of 12 bits.
    let mut counts = [0u8; 16];
    counts[0] = 1;
    counts[1] = 1;
    counts[2] = 1;
    counts[3] = 1;
    counts[11] = 1;
    let mut h = Huff::empty();
    assert_eq!(h.build(&counts, &[5, 6, 7, 8, 0xEE], false), Ok(()));
    let d = [0b0_10_110_11, 0b10_111100, 0b000000_00];
    let mut b = Bits::new(&d, 0);
    for want in [5, 6, 7, 8, 0xEE] {
        assert_eq!(b.symbol(&h), Ok(want));
    }
    // A code that no symbol has.
    let mut b = Bits::new(&[0xFE, 0xFE, 0xFE], 0);
    assert_eq!(b.symbol(&h), Err(jpeg::Error::Format));
    // It takes no bits.
    assert_eq!(b.take(16), 0xFEFE);
    // More codes than there is room for, and a DC category that is none.
    assert_eq!(Huff::empty().build(&[3, 0, 0, 0, 0, 0, 0, 0, 0, 0, 0, 0, 0, 0, 0, 0], &[1, 2, 3], false), Err(jpeg::Error::Format));
    assert_eq!(Huff::empty().build(&counts, &[5, 6, 7, 8, 0xEE], true), Err(jpeg::Error::Format));
}

#[test]
fn flat_blocks_take_a_short_cut() {
    let mut q = [1u16; 64];
    q[0] = 16;
    for dc in [-2000, -80, -1, 0, 1, 3, 77, 2000] {
        let mut coef = [0i32; 64];
        coef[0] = dc;
        let (mut full, mut flat) = (vec![1u8; 2048], vec![2u8; 2048]);
        idct(&coef, &q, &mut full, 256);
        idct_flat(&coef, &q, &mut flat, 256);
        for y in 0..8 {
            assert_eq!(full[256 * y..256 * y + 8], flat[256 * y..256 * y + 8]);
        }
        assert_eq!((full[8], flat[8]), (1, 2));
    }
    let mut coef = [0i32; 64];
    coef[0] = 8;
    let mut out = vec![0u8; 2048];
    idct_flat(&coef, &q, &mut out, 256);
    assert_eq!(out[0], 144); // 128 + 8 * 16 / 8
}

#[test]
fn idct_of_one_cosine() {
    // The first horizontal frequency alone: amplitude 80 * cos(pi (2x + 1) / 16) * sqrt(2) / 8.
    let mut coef = [0i32; 64];
    coef[1] = 80;
    let mut out = vec![0u8; 2048];
    idct(&coef, &[1; 64], &mut out, 256);
    assert_eq!(out[..8], [142, 140, 136, 131, 125, 120, 116, 114]);
    assert_eq!(out[256 * 7..256 * 7 + 8], out[..8]);
}

#[test]
fn idct_rows_lie_a_stride_apart() {
    let mut coef = [0i32; 64];
    coef[0] = 16;
    let q = [2u16; 64];
    let mut out = vec![0u8; 80];
    idct(&coef, &q, &mut out, 10);
    for (i, &v) in out.iter().enumerate() {
        assert_eq!(v, if i % 10 < 8 { 132 } else { 0 });
    }
    let mut flat = vec![0u8; 80];
    idct_flat(&coef, &q, &mut flat, 10);
    assert_eq!(flat, out);
    // The same samples at any distance.
    let mut r = Lcg(9);
    let coef: [i32; 64] = core::array::from_fn(|_| r.next(200) as i32 - 100);
    let (mut near, mut far) = (vec![7u8; 64], vec![7u8; 7 * 31 + 8]);
    idct(&coef, &q, &mut near, 8);
    idct(&coef, &q, &mut far, 31);
    for i in 0..64 {
        assert_eq!(near[i], far[i / 8 * 31 + i % 8]);
    }
    assert!(far.iter().enumerate().all(|(i, &v)| i % 31 < 8 || v == 7));
    // Rows that overlap: the later one shows.
    let mut close = vec![7u8; 7 * 3 + 9];
    idct(&coef, &q, &mut close, 3);
    for i in 0..29 {
        let row = (i / 3).min(7);
        assert_eq!(close[i], near[8 * row + i - 3 * row]);
    }
    assert_eq!(close[29], 7);
    let mut one = vec![7u8; 9];
    idct(&coef, &q, &mut one, 0);
    assert_eq!((&one[..8], one[8]), (&near[56..], 7));
}

#[test]
fn idct_takes_any_coefficient() {
    // Large samples wrap around.
    let q = [65535u16; 64];
    for (dc, want) in [(i32::MIN, 128), (i32::MAX, 128), (1000000, 56), (-77777, 255), (32776, 127)] {
        let mut coef = [0i32; 64];
        coef[0] = dc;
        let (mut full, mut flat) = (vec![1u8; 64], vec![2u8; 64]);
        idct(&coef, &q, &mut full, 8);
        idct_flat(&coef, &q, &mut flat, 8);
        assert_eq!((full, flat), (vec![want; 64], vec![want; 64]));
    }
    let coef: [i32; 64] = core::array::from_fn(|i| if i * i / 3 % 2 == 0 { i32::MIN } else { i32::MAX });
    let mut out = vec![0u8; 64];
    idct(&coef, &q, &mut out, 8);
    assert_eq!(out[..16], [0, 255, 0, 0, 0, 238, 255, 0, 0, 108, 255, 133, 255, 0, 141, 255]);
    let coef: [i32; 64] = core::array::from_fn(|i| if i % 3 == 0 { -32768 } else { 32768 });
    idct(&coef, &[3; 64], &mut out, 8);
    assert_eq!(out[..16], [0, 0, 0, 118, 3, 0, 0, 255, 0, 0, 149, 188, 0, 0, 93, 0]);
}

#[test]
fn samples_are_clamped() {
    assert_eq!((descale(5, 1), descale(-5, 1), descale(2047, 11), descale(1023, 11)), (3, -2, 1, 0));
    assert_eq!((range_limit(0), range_limit(-129), range_limit(-128), range_limit(127), range_limit(300)), (128, 0, 0, 255, 255));
}

#[test]
fn luma_weights() {
    assert_eq!((luma(255, 0, 0), luma(0, 255, 0), luma(0, 0, 255)), (76, 150, 29));
    for v in 0..256 {
        assert_eq!(luma(v, v, v) as i32, v);
    }
    assert_eq!(pixel(true, 255, 0, 0), 76);
    // Out of range, the low byte: 300 and -1.
    assert_eq!((luma(300, 300, 300), luma(-1, -1, -1)), (44, 255));
    // Without chroma, gray is Y.
    for y in 0..=255u8 {
        assert_eq!(pixel(false, y, 128, 128), y);
    }
    // JPEG's own red: (76, 85, 255) is (254, 0, 0).
    assert_eq!(pixel(false, 76, 85, 255), 76);
}

#[test]
fn upsampling_is_triangular() {
    let mut plane = vec![0u8; 256 * 80];
    for r in 0..80 {
        for (x, v) in [10u8, 20, 60, 100].into_iter().enumerate() {
            plane[256 * r + x] = v;
        }
        for x in 4..125 {
            plane[256 * r + x] = 100;
        }
    }
    let u = Up { h2: true, v2: false, dw: 125, dh: 80 };
    let mut out = [0u8; 512];
    upsample(&u, &plane, 3, &mut out);
    // 3/4 and 1/4 of the two nearest samples, rounded down and up in turn; edges as they are.
    assert_eq!(out[..8], [10, 13, 17, 30, 50, 70, 90, 100]);
    let u = Up { h2: true, v2: true, dw: 125, dh: 40 };
    upsample(&u, &plane, 0, &mut out);
    assert_eq!(out[..8], [10, 12, 18, 30, 50, 70, 90, 100]);
    let u = Up { h2: false, v2: false, dw: 250, dh: 80 };
    upsample(&u, &plane, 0, &mut out);
    assert_eq!(out[..5], [10, 20, 60, 100, 100]);
}

#[test]
fn enlarged_rows_leave_the_rest_alone() {
    // Three samples a row, two rows, and no more bytes than those.
    let mut plane = vec![0u8; 256 + 3];
    plane[..3].copy_from_slice(&[0, 100, 200]);
    plane[256..].copy_from_slice(&[40, 40, 40]);
    let mut out = [7u8; 512];
    upsample(&Up { h2: true, v2: false, dw: 3, dh: 2 }, &plane, 0, &mut out);
    assert_eq!(out[..8], [0, 25, 75, 125, 175, 200, 7, 7]);
    assert!(out[6..].iter().all(|&v| v == 7));
    // Row 1 is 3/4 of the first row and 1/4 of the second; row 3 has nothing below it.
    let tall = Up { h2: true, v2: true, dw: 3, dh: 2 };
    upsample(&tall, &plane, 1, &mut out);
    assert_eq!(out[..8], [10, 29, 66, 104, 141, 160, 7, 7]);
    upsample(&tall, &plane, 3, &mut out);
    assert_eq!(out[..8], [40, 40, 40, 40, 40, 40, 7, 7]);
    // The widest row fills everything; a row that is not enlarged stops at the image's edge.
    let wide = vec![9u8; 256];
    upsample(&Up { h2: true, v2: false, dw: 256, dh: 1 }, &wide, 0, &mut out);
    assert_eq!(out, [9; 512]);
    let long = vec![8u8; 300];
    upsample(&Up { h2: false, v2: true, dw: 300, dh: 0 }, &long, 0, &mut out);
    assert!(out[..250].iter().all(|&v| v == 8) && out[250..].iter().all(|&v| v == 9));
}

#[test]
fn end_marker_can_be_taken_away() {
    let data = encode(&Spec { app: jfif(), restart: 7, ..spec(4, &QUARTER) });
    let cut = &data[..data.len() - 2];
    let want = decode(&data);
    assert!(want.is_ok() && data[data.len() - 2..] == [0xFF, 0xD9]);
    assert_eq!(decode(cut), want);
    assert_eq!(decode(&[cut, &[0xFF, 0xD9, 0xFF, 0xD8, 1, 2, 3]].concat()), want);
    // Without its scan, a file is as incomplete with an end marker as it is without.
    let scan = data.windows(2).position(|w| w == [0xFF, 0xDA]).unwrap();
    assert_eq!(decode(&data[..scan]), Err(Error::Jpeg));
    assert_eq!(decode(&[&data[..scan], &[0xFF, 0xD9]].concat()), Err(Error::Jpeg));
}

#[test]
fn comments_are_skipped() {
    let data = encode(&Spec { app: jfif(), ..spec(2, &FULL) });
    for code in [0xFE, 0xE1, 0xED, 0xEF] {
        for payload in [&b""[..], b"hello", &[0xFF, 0xD9, 0xFF, 0xC2]] {
            let with = |rest: &[u8]| [&[0xFF, 0xD8], &segment(code, payload)[..], rest].concat();
            assert_eq!(decode(&with(&data[2..])), decode(&data));
            // Whatever the file holds.
            assert_eq!(decode(&with(&data[2..900])), decode(&data[..900]));
            assert_eq!(decode(&with(&[])), decode(&[0xFF, 0xD8]));
        }
    }
}
