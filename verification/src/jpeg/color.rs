//! From component planes to gray: "fancy" upsampling, YCbCr -> RGB, ITU-R 601 luma.

use super::{PLANE, PLANE_W, SCRATCH};
use crate::geometry::{H, W};
use vstd::prelude::*;

verus! {

/// How one component reaches full resolution: `h2` = 2x wide, `v2` = 2x tall.
#[derive(Clone, Copy)]
pub struct Up {
    pub h2: bool,
    pub v2: bool,
    /// Samples per row / rows in the component.
    pub dw: usize,
    pub dh: usize,
}

impl Up {
    /// The component's size fits its factors: it covers the image once enlarged.
    pub open spec fn wf(self) -> bool {
        &&& 2 <= self.dw <= PLANE_W
        &&& 1 <= self.dh <= H
        &&& self.v2 ==> self.h2
        &&& W <= self.dw * (if self.h2 {
            2int
        } else {
            1int
        })
        &&& H <= self.dh * (if self.v2 {
            2int
        } else {
            1int
        })
    }
}

/// Row `r` of a component lies within `n` bytes of samples.
pub open spec fn row_fits(u: Up, n: int, r: int) -> bool {
    0 <= r && r * 256 + u.dw <= n
}

impl Up {
    /// Row `y` of the image can be made of `n` bytes of samples: the rows that it is made of
    /// are there, and are not too long to be enlarged or too short to be copied.
    pub open spec fn fits(self, n: int, y: int) -> bool {
        if !self.h2 {
            self.dw >= W && row_fits(self, n, y)
        } else if !self.v2 {
            2 <= self.dw <= PLANE_W && row_fits(self, n, y)
        } else {
            2 <= self.dw <= PLANE_W && row_fits(self, n, y / 2) && row_fits(
                self,
                n,
                neighbour(y, self.dh as int),
            )
        }
    }

    /// How many pixels a row of the component makes.
    pub open spec fn reach(self) -> int {
        if self.h2 {
            2 * self.dw
        } else {
            W as int
        }
    }
}

/// `x` limited to the range from `lo` to `hi`.
pub open spec fn clamped(x: int, lo: int, hi: int) -> int {
    if x < lo {
        lo
    } else if x > hi {
        hi
    } else {
        x
    }
}

/// Sample `x` of row `r` of a plane.
pub open spec fn at(plane: Seq<u8>, r: int, x: int) -> int {
    plane[r * 256 + x] as int
}

/// The neighbour of sample `i / 2` that lies nearer to output `i`, among `n` samples;
/// past either edge it is the edge sample.
pub open spec fn neighbour(i: int, n: int) -> int {
    if i % 2 == 0 {
        if i < 2 {
            0
        } else {
            i / 2 - 1
        }
    } else if i / 2 + 1 < n {
        i / 2 + 1
    } else {
        n - 1
    }
}

/// Column `x` between the rows of a component that is 2x tall: 3/4 nearer, 1/4 further
/// row, times 4.
pub open spec fn mixed(u: Up, plane: Seq<u8>, y: int, x: int) -> int {
    3 * at(plane, y / 2, x) + at(plane, neighbour(y, u.dh as int), x)
}

/// Pixel (`x`, `y`) of the component at full resolution: 3/4 nearer and 1/4 further
/// sample in each enlarged direction.
pub open spec fn upsampled(u: Up, plane: Seq<u8>, y: int, x: int) -> int {
    let (c, n) = (x / 2, neighbour(x, u.dw as int));
    if !u.h2 {
        at(plane, y, x)
    } else if !u.v2 {
        (3 * at(plane, y, c) + at(plane, y, n) + (if x % 2 == 0 {
            1int
        } else {
            2
        })) / 4
    } else {
        (3 * mixed(u, plane, y, c) + mixed(u, plane, y, n) + (if x % 2 == 0 {
            8int
        } else {
            7
        })) / 16
    }
}

/// ITU-R 601 luma of an RGB pixel, rounded.
pub open spec fn luma_of(r: int, g: int, b: int) -> int {
    (r * 19595 + g * 38470 + b * 7471 + 0x8000) / 0x10000
}

/// Luma of a pixel given as Y, Cb, Cr, by way of RGB.
pub open spec fn ycc_luma(y: int, cb: int, cr: int) -> int {
    let (b, r) = (cb - 128, cr - 128);
    luma_of(
        clamped(y + (91881 * r + 32768) / 0x10000, 0, 255),
        clamped(y + (-22554 * b + 32768 - 46802 * r) / 0x10000, 0, 255),
        clamped(y + (116130 * b + 32768) / 0x10000, 0, 255),
    )
}

/// The gray value of a pixel with components `c0`, `c1`, `c2`.
pub open spec fn gray_of(rgb: bool, c0: int, c1: int, c2: int) -> int {
    if rgb {
        luma_of(c0, c1, c2)
    } else {
        ycc_luma(c0, c1, c2)
    }
}

/// Plane `k` of the three.
pub open spec fn plane_of(planes: Seq<u8>, k: int) -> Seq<u8> {
    planes.subrange(k * PLANE, (k + 1) * PLANE)
}

/// Pixel (`x`, `y`) of the component, or zero where its rows do not reach.
pub open spec fn enlarged(u: Up, plane: Seq<u8>, y: int, x: int) -> int {
    if x < u.reach() {
        upsampled(u, plane, y, x)
    } else {
        0
    }
}

/// Pixel (`x`, `y`) of the gray image of three component planes.
pub open spec fn color_pixel(up: Seq<Up>, planes: Seq<u8>, rgb: bool, y: int, x: int) -> int {
    gray_of(
        rgb,
        enlarged(up[0], plane_of(planes, 0), y, x),
        enlarged(up[1], plane_of(planes, 1), y, x),
        enlarged(up[2], plane_of(planes, 2), y, x),
    )
}

/// Equal red, green and blue are their own luma.
pub proof fn lemma_luma_gray(v: int)
    ensures
        luma_of(v, v, v) == v,
{
    assert(v * 19595 + v * 38470 + v * 7471 == v * 65536);
}

/// Luma of 8-bit components is 8 bits.
pub proof fn lemma_luma_range(r: int, g: int, b: int)
    requires
        0 <= r <= 255,
        0 <= g <= 255,
        0 <= b <= 255,
    ensures
        0 <= luma_of(r, g, b) <= 255,
{
}

/// Without chroma, the gray value is Y.
pub proof fn lemma_neutral_chroma(y: int)
    requires
        0 <= y <= 255,
    ensures
        gray_of(false, y, 128, 128) == y,
{
    lemma_luma_gray(y);
}

/// Enlarging a flat component keeps it flat.
pub proof fn lemma_upsample_flat(u: Up, plane: Seq<u8>, v: u8, y: int, x: int)
    requires
        u.fits(plane.len() as int, y),
        forall|i: int| 0 <= i < plane.len() ==> plane[i] == v,
        0 <= x < u.reach(),
    ensures
        upsampled(u, plane, y, x) == v,
{
}

/// The first and the last pixel of a row that is 2x wide are the edge samples themselves.
pub proof fn lemma_upsample_edges(u: Up, plane: Seq<u8>, y: int)
    requires
        u.fits(plane.len() as int, y),
        u.h2,
        !u.v2,
    ensures
        upsampled(u, plane, y, 0) == at(plane, y, 0),
        upsampled(u, plane, y, 2 * u.dw - 1) == at(plane, y, u.dw - 1),
{
}

/// A pixel only depends on the samples of the component, and is 8 bits.
pub proof fn lemma_upsampled_local(u: Up, p: Seq<u8>, q: Seq<u8>, y: int, x: int)
    requires
        u.wf(),
        p.len() == PLANE,
        q.len() == PLANE,
        0 <= y < H,
        0 <= x < W,
        forall|r: int, c: int|
            0 <= r < u.dh && 0 <= c < u.dw ==> #[trigger] at(p, r, c) == at(q, r, c),
    ensures
        upsampled(u, p, y, x) == upsampled(u, q, y, x),
        0 <= upsampled(u, p, y, x) <= 255,
{
}

/// Unpacks (even | odd << 8) pairs into consecutive output bytes.
pub fn interleave(pairs: &[u16; 256], n: usize, out: &mut [u8; 512])
    requires
        n <= 256,
    ensures
        forall|i: int|
            0 <= i < 512 ==> #[trigger] final(out)[i] == if i < 2 * n {
                if i % 2 == 0 {
                    (pairs[i / 2] % 256) as u8
                } else {
                    (pairs[i / 2] / 256) as u8
                }
            } else {
                old(out)[i]
            },
{
    let mut x: usize = 0;
    while x < n
        invariant
            x <= n <= 256,
            forall|i: int|
                0 <= i < 512 ==> #[trigger] out[i] == if i < 2 * x {
                    if i % 2 == 0 {
                        (pairs[i / 2] % 256) as u8
                    } else {
                        (pairs[i / 2] / 256) as u8
                    }
                } else {
                    old(out)[i]
                },
        decreases n - x,
    {
        let p: u16 = pairs[x];
        assert(p & 0xFF == p % 256 && p >> 8 == p / 256) by (bit_vector);
        out[2 * x] = (p & 0xFF) as u8;
        out[2 * x + 1] = (p >> 8) as u8;
        x += 1;
    }
}

/// One sample and its neighbours as a pair of output pixels, when the samples are scaled
/// by `2^(shift - 2)`.
fn pair(c: u16, l: u16, r: u16, even: u16, odd: u16, shift: u16) -> (p: u16)
    requires
        c <= 1020,
        l <= 1020,
        r <= 1020,
        shift == 2 && c <= 255 && l <= 255 && r <= 255 && even <= 2 && odd <= 2 || shift == 4
            && even <= 8 && odd <= 8,
    ensures
        p % 256 == (c * 3 + l + even) / (if shift == 2 {
            4
        } else {
            16int
        }),
        p / 256 == (c * 3 + r + odd) / (if shift == 2 {
            4
        } else {
            16int
        }),
{
    let a: u16 = c * 3 + l + even;
    let b: u16 = c * 3 + r + odd;
    assert(a >> 2 == a / 4 && b >> 2 == b / 4 && a >> 4 == a / 16 && b >> 4 == b / 16)
        by (bit_vector);
    let lo: u16 = a >> shift;
    let hi: u16 = b >> shift;
    assert(lo <= 255 && hi <= 255);
    assert((lo | hi << 8) % 256 == lo && (lo | hi << 8) / 256 == hi) by (bit_vector)
        requires
            lo <= 255,
            hi <= 255,
    ;
    lo | hi << 8
}

/// Full-resolution row `y` of one component. What lies past it is left alone.
pub fn upsample(u: &Up, plane: &[u8], y: usize, out: &mut [u8; 512])
    requires
        u.fits(plane@.len() as int, y as int),
    ensures
        forall|i: int|
            0 <= i < 512 ==> (#[trigger] final(out)[i]) as int == if i < u.reach() {
                upsampled(*u, plane@, y as int, i)
            } else {
                old(out)[i] as int
            },
{
    let dw: usize = u.dw;
    assert(plane@.len() == plane.len());
    if !u.h2 {
        let mut x: usize = 0;
        while x < W
            invariant
                x <= W,
                u.fits(plane@.len() as int, y as int),
                !u.h2,
                plane@.len() == plane.len(),
                forall|i: int|
                    0 <= i < 512 ==> (#[trigger] out[i]) as int == if i < x {
                        upsampled(*u, plane@, y as int, i)
                    } else {
                        old(out)[i] as int
                    },
            decreases W - x,
        {
            out[x] = plane[y * PLANE_W + x];
            x += 1;
        }
        return;
    }
    // The samples of the row, or of the row mixed with its neighbour.
    let mut cs: [u16; 256] = [0; 256];
    let cy: usize = if u.v2 {
        y / 2
    } else {
        y
    };
    let other: usize = if !u.v2 {
        y
    } else if y % 2 == 0 {
        if cy > 0 {
            cy - 1
        } else {
            0
        }
    } else if cy < u.dh && cy + 1 < u.dh {
        cy + 1
    } else {
        u.dh - 1
    };
    let mut x: usize = 0;
    while x < dw
        invariant
            x <= dw == u.dw,
            u.fits(plane@.len() as int, y as int),
            u.h2,
            plane@.len() == plane.len(),
            row_fits(*u, plane@.len() as int, cy as int),
            row_fits(*u, plane@.len() as int, other as int),
            u.v2 ==> cy == y / 2 && other == neighbour(y as int, u.dh as int),
            !u.v2 ==> cy == y,
            forall|i: int|
                0 <= i < x ==> (#[trigger] cs[i]) as int == if u.v2 {
                    mixed(*u, plane@, y as int, i)
                } else {
                    at(plane@, y as int, i)
                },
        decreases dw - x,
    {
        let a: u16 = plane[cy * PLANE_W + x] as u16;
        if u.v2 {
            let b: u16 = plane[other * PLANE_W + x] as u16;
            cs[x] = a * 3 + b;
        } else {
            cs[x] = a;
        }
        x += 1;
    }
    let mut pairs: [u16; 256] = [0; 256];
    let mut x: usize = 0;
    while x < dw
        invariant
            x <= dw == u.dw,
            2 <= dw <= 256,
            u.h2,
            forall|i: int|
                0 <= i < dw ==> (#[trigger] cs[i]) as int == if u.v2 {
                    mixed(*u, plane@, y as int, i)
                } else {
                    at(plane@, y as int, i)
                },
            forall|i: int|
                0 <= i < x ==> (#[trigger] pairs[i]) % 256 == upsampled(
                    *u,
                    plane@,
                    y as int,
                    2 * i,
                ) && pairs[i] / 256 == upsampled(*u, plane@, y as int, 2 * i + 1),
        decreases dw - x,
    {
        // Edge columns are their own neighbours.
        let l: u16 = cs[if x > 0 {
            x - 1
        } else {
            0
        }];
        let r: u16 = cs[if x + 1 < dw {
            x + 1
        } else {
            x
        }];
        pairs[x] = if u.v2 {
            pair(cs[x], l, r, 8, 7, 4)
        } else {
            pair(cs[x], l, r, 1, 2, 2)
        };
        x += 1;
    }
    interleave(&pairs, dw, out);
    proof {
        assert forall|i: int| 0 <= i < 512 implies (#[trigger] out[i]) as int == if i < u.reach() {
            upsampled(*u, plane@, y as int, i)
        } else {
            old(out)[i] as int
        } by {
            if i < 2 * dw {
                let k = i / 2;
                assert(pairs[k] % 256 == upsampled(*u, plane@, y as int, 2 * k));
            }
        }
    }
}

/// A component that covers the image has every row of it.
pub proof fn lemma_wf_fits(u: Up, y: int)
    requires
        u.wf(),
        0 <= y < H,
    ensures
        u.fits(PLANE as int, y),
        u.reach() >= W,
{
}

/// The weighted sums stay in range.
pub open spec fn luma_fits(r: int, g: int, b: int) -> bool {
    let (x, y, z) = (r * 19595, g * 38470, b * 7471);
    &&& i32::MIN <= x <= i32::MAX
    &&& i32::MIN <= y <= i32::MAX
    &&& i32::MIN <= z <= i32::MAX
    &&& i32::MIN <= x + y <= i32::MAX
    &&& i32::MIN <= x + y + z
    &&& x + y + z + 0x8000 <= i32::MAX
}

/// Rounded ITU-R 601 luma; only its low byte, where the color is out of range.
pub fn luma(r: i32, g: i32, b: i32) -> (l: u8)
    requires
        luma_fits(r as int, g as int, b as int),
    ensures
        l == luma_of(r as int, g as int, b as int) % 256,
        0 <= r <= 255 && 0 <= g <= 255 && 0 <= b <= 255 ==> l == luma_of(
            r as int,
            g as int,
            b as int,
        ),
{
    let s: i32 = r * 19595 + g * 38470 + b * 7471 + 0x8000;
    assert(s >> 16 == s / 0x10000 && (s >> 16) as u8 == (s >> 16) % 256) by (bit_vector);
    (s >> 16) as u8
}

fn clamp_byte(x: i32) -> (r: i32)
    ensures
        r == clamped(x as int, 0, 255),
{
    if x < 0 {
        0
    } else if x > 255 {
        255
    } else {
        x
    }
}

/// One pixel from its three components.
pub fn pixel(rgb: bool, c0: u8, c1: u8, c2: u8) -> (l: u8)
    ensures
        l == gray_of(rgb, c0 as int, c1 as int, c2 as int),
{
    if rgb {
        return luma(c0 as i32, c1 as i32, c2 as i32);
    }
    let y: i32 = c0 as i32;
    let cb: i32 = c1 as i32 - 128;
    let cr: i32 = c2 as i32 - 128;
    let rs: i32 = 91881 * cr + 32768;
    let gs: i32 = 32768 - 22554 * cb - 46802 * cr;
    let bs: i32 = 116130 * cb + 32768;
    assert(rs >> 16 == rs / 0x10000 && gs >> 16 == gs / 0x10000 && bs >> 16 == bs / 0x10000)
        by (bit_vector);
    luma(clamp_byte(y + (rs >> 16)), clamp_byte(y + (gs >> 16)), clamp_byte(y + (bs >> 16)))
}

/// Full-resolution rows of the three components.
pub type Rows = [[u8; 512]; 3];

/// One output row: RGB, or YCbCr unless `rgb`, to gray.
pub fn convert(rows: &Rows, rgb: bool, out: &mut [u8])
    ensures
        final(out)@.len() == old(out)@.len(),
        forall|x: int|
            0 <= x < old(out)@.len() ==> #[trigger] final(out)@[x] == if x < W {
                gray_of(rgb, rows[0][x] as int, rows[1][x] as int, rows[2][x] as int) as u8
            } else {
                old(out)@[x]
            },
{
    let n: usize = if out.len() < W {
        out.len()
    } else {
        W
    };
    let mut x: usize = 0;
    while x < n
        invariant
            x <= n <= W,
            n <= out@.len() == old(out)@.len(),
            forall|i: int|
                0 <= i < out@.len() ==> #[trigger] out@[i] == if i < x {
                    gray_of(rgb, rows[0][i] as int, rows[1][i] as int, rows[2][i] as int) as u8
                } else {
                    old(out)@[i]
                },
        decreases n - x,
    {
        out[x] = pixel(rgb, rows[0][x], rows[1][x], rows[2][x]);
        x += 1;
    }
}

/// Upsamples, converts and stores the gray image row by row.
pub fn rows_to_gray(up: &[Up; 3], planes: &[u8], rgb: bool, gray: &mut [u8])
    requires
        forall|k: int, y: int|
            0 <= k < 3 && 0 <= y < H ==> #[trigger] up[k].fits(PLANE as int, y),
        planes@.len() >= SCRATCH,
        old(gray)@.len() >= W * H,
    ensures
        final(gray)@.len() == old(gray)@.len(),
        forall|i: int|
            0 <= i < old(gray)@.len() ==> #[trigger] final(gray)@[i] == if i < W * H {
                color_pixel(up@, planes@, rgb, i / 250, i % 250) as u8
            } else {
                old(gray)@[i]
            },
{
    let mut rows: Rows = [[0; 512]; 3];
    let mut y: usize = 0;
    while y < H
        invariant
            y <= H,
            forall|k: int, y: int|
                0 <= k < 3 && 0 <= y < H ==> #[trigger] up[k].fits(PLANE as int, y),
            forall|k: int, x: int|
                0 <= k < 3 && up[k].reach() <= x < 512 ==> #[trigger] rows[k][x] == 0,
            planes@.len() >= SCRATCH,
            gray@.len() == old(gray)@.len(),
            gray@.len() >= W * H,
            forall|i: int|
                0 <= i < gray@.len() ==> #[trigger] gray@[i] == if i < y * W {
                    color_pixel(up@, planes@, rgb, i / 250, i % 250) as u8
                } else {
                    old(gray)@[i]
                },
        decreases H - y,
    {
        let mut k: usize = 0;
        while k < 3
            invariant
                k <= 3,
                y < H,
                forall|k: int, y: int|
                    0 <= k < 3 && 0 <= y < H ==> #[trigger] up[k].fits(PLANE as int, y),
                planes@.len() >= SCRATCH,
                forall|j: int, x: int|
                    0 <= j < 3 && up[j].reach() <= x < 512 ==> #[trigger] rows[j][x] == 0,
                forall|j: int, x: int|
                    0 <= j < k && 0 <= x < W ==> (#[trigger] rows[j][x]) as int == enlarged(
                        up[j],
                        plane_of(planes@, j),
                        y as int,
                        x,
                    ),
            decreases 3 - k,
        {
            let plane: &[u8] = &planes[k * PLANE..(k + 1) * PLANE];
            assert(up[k as int].fits(PLANE as int, y as int));
            upsample(&up[k], plane, y, &mut rows[k]);
            k += 1;
        }
        let (head, tail) = gray.split_at_mut(y * W);
        convert(&rows, rgb, tail);
        proof {
            assert forall|i: int| 0 <= i < gray@.len() implies #[trigger] gray@[i] == if i < (y
                + 1) * W {
                color_pixel(up@, planes@, rgb, i / 250, i % 250) as u8
            } else {
                old(gray)@[i]
            } by {
                if i >= y * W && i < (y + 1) * W {
                    let x = i - y * W;
                    assert(i / 250 == y && i % 250 == x);
                    assert(rows[0][x] == enlarged(up[0], plane_of(planes@, 0), y as int, x));
                    assert(rows[1][x] == enlarged(up[1], plane_of(planes@, 1), y as int, x));
                    assert(rows[2][x] == enlarged(up[2], plane_of(planes@, 2), y as int, x));
                }
            }
        }
        y += 1;
    }
}

/// A component at full resolution is taken as it is. One of half the width has each pixel of a
/// row at three parts of the sample it lies in and one part of the sample next to it on its
/// side, or of the edge; what is left of a fourth is rounded down at even pixels if it is a
/// half, and up at odd ones.
pub proof fn lemma_upsample_row(u: Up, plane: Seq<u8>, y: int, x: int)
    requires
        !u.v2,
        u.h2 ==> 0 <= x < 2 * u.dw,
    ensures
        !u.h2 ==> upsampled(u, plane, y, x) == plane[y * 256 + x],
        u.h2 ==> {
            let near = plane[y * 256 + x / 2] as int;
            let far = if x % 2 == 0 {
                if x == 0 {
                    near
                } else {
                    plane[y * 256 + x / 2 - 1] as int
                }
            } else if x == 2 * u.dw - 1 {
                near
            } else {
                plane[y * 256 + x / 2 + 1] as int
            };
            let four = 4 * upsampled(u, plane, y, x);
            &&& x % 2 == 0 ==> -1 <= 3 * near + far - four <= 2
            &&& x % 2 == 1 ==> -2 <= 3 * near + far - four <= 1
        },
{
}

/// A component of half the width and half the height has each pixel at nine parts of the sample
/// it lies in, three of the one next to it in its row and of the one next to it in its column,
/// and one of the one across, each on the pixel's side; halves of a sixteenth are rounded up at
/// even pixels and down at odd ones.
pub proof fn lemma_upsample_square(u: Up, plane: Seq<u8>, y: int, x: int)
    requires
        u.h2,
        u.v2,
        0 <= x < 2 * u.dw,
        0 <= y < 2 * u.dh,
    ensures
        ({
            let (c, r) = (x / 2, y / 2);
            let c2 = if x % 2 == 0 {
                if x == 0 {
                    0
                } else {
                    c - 1
                }
            } else if x == 2 * u.dw - 1 {
                c
            } else {
                c + 1
            };
            let r2 = if y % 2 == 0 {
                if y == 0 {
                    0
                } else {
                    r - 1
                }
            } else if y == 2 * u.dh - 1 {
                r
            } else {
                r + 1
            };
            let sum = 9 * plane[r * 256 + c] + 3 * plane[r * 256 + c2] + 3 * plane[r2 * 256 + c]
                + plane[r2 * 256 + c2];
            let all = 16 * upsampled(u, plane, y, x);
            &&& x % 2 == 0 ==> -8 <= sum - all <= 7
            &&& x % 2 == 1 ==> -7 <= sum - all <= 8
        }),
{
}

/// Luma is 0.299 red, 0.587 green and 0.114 blue, to the nearest number.
pub proof fn lemma_luma_weights(r: int, g: int, b: int)
    requires
        0 <= r <= 255,
        0 <= g <= 255,
        0 <= b <= 255,
    ensures
        -502 <= 1000 * luma_of(r, g, b) - (299 * r + 587 * g + 114 * b) <= 502,
{
}

/// More red, green or blue is not darker.
pub proof fn lemma_luma_monotone(r: int, g: int, b: int, r2: int, g2: int, b2: int)
    requires
        r <= r2,
        g <= g2,
        b <= b2,
    ensures
        luma_of(r, g, b) <= luma_of(r2, g2, b2),
{
}

/// The gray value of Y, Cb and Cr is the luma of red = Y + 1.402 (Cr - 128), green
/// = Y - 0.34414 (Cb - 128) - 0.71414 (Cr - 128) and blue = Y + 1.772 (Cb - 128), each to the
/// nearest number and limited to 0 to 255.
pub proof fn lemma_ycc_by_way_of_rgb(y: int, cb: int, cr: int) -> (t: (int, int, int))
    requires
        0 <= y <= 255,
        0 <= cb <= 255,
        0 <= cr <= 255,
    ensures
        -50200 <= 100000 * (t.0 - y) - 140200 * (cr - 128) <= 50200,
        -50200 <= 100000 * (t.1 - y) + 34414 * (cb - 128) + 71414 * (cr - 128) <= 50200,
        -50200 <= 100000 * (t.2 - y) - 177200 * (cb - 128) <= 50200,
        gray_of(false, y, cb, cr) == luma_of(
            if t.0 < 0 {
                0
            } else if t.0 > 255 {
                255
            } else {
                t.0
            },
            if t.1 < 0 {
                0
            } else if t.1 > 255 {
                255
            } else {
                t.1
            },
            if t.2 < 0 {
                0
            } else if t.2 > 255 {
                255
            } else {
                t.2
            },
        ),
        gray_of(true, y, cb, cr) == luma_of(y, cb, cr),
{
    let (b, r) = (cb - 128, cr - 128);
    let (u, v, w) = (
        (91881 * r + 32768) / 0x10000,
        (-22554 * b + 32768 - 46802 * r) / 0x10000,
        (116130 * b + 32768) / 0x10000,
    );
    lemma_part(91881 * r + 32768, u);
    lemma_part(-22554 * b + 32768 - 46802 * r, v);
    lemma_part(116130 * b + 32768, w);
    (y + u, y + v, y + w)
}

/// What a division leaves.
proof fn lemma_part(s: int, q: int)
    requires
        q == s / 0x10000,
    ensures
        0 <= s - 65536 * q < 65536,
{
}

} // verus!
