//! Baseline JPEG -> 250x80 gray.

pub mod bits;
pub mod block;
pub mod calls;
pub mod color;
pub mod decoder;
pub mod files;
pub mod frame;
pub mod huffman;
pub mod idct;
pub mod image;
pub mod laws;
pub mod marker;
pub mod scan;
pub mod tables;
pub mod writing;

use crate::geometry::{H, W};
use decoder::Decoder;
use frame::no_header;
use image::{
    after_segments, blank, decoded, lemma_pixel_painted, lemma_segments_paint, read_segments,
};
use scan::tail_kept;
use vstd::prelude::*;

verus! {

/// Component planes are stored MCU-padded: at most 256x80 samples each.
pub const PLANE_W: usize = 256;

/// Bytes of one component plane.
pub const PLANE: usize = PLANE_W * H;

/// Scratch needed by `decode`: three planes.
pub const SCRATCH: usize = 3 * PLANE;

/// Why a byte string was not decoded.
#[derive(Clone, Copy, Debug, PartialEq, Eq, Structural)]
pub enum Error {
    /// Not a JPEG, or a corrupt one.
    Format,
    /// A valid JPEG using something left out here (progressive, 12-bit, CMYK, ...).
    Unsupported,
    /// Decodable, but not 250x80.
    Size,
}

/// Decodes a JPEG into the first 250x80 bytes of `gray`. `scratch` holds the component
/// planes meanwhile; what is in it before does not matter.
pub fn decode(data: &[u8], scratch: &mut [u8], gray: &mut [u8]) -> (r: Result<(), Error>)
    requires
        old(scratch)@.len() >= SCRATCH,
        old(gray)@.len() >= W * H,
    ensures
        tail_kept(old(scratch)@, final(scratch)@),
        match decoded(data@) {
            Ok(image) => {
                &&& r == Ok::<(), Error>(())
                &&& image.len() == W * H
                &&& final(gray)@ == image + old(gray)@.skip(image.len() as int)
            },
            Err(e) => r == Err::<(), Error>(e) && final(gray)@ == old(gray)@,
        },
{
    if data.len() < 4 || data[0] != 0xFF || data[1] != 0xD8 {
        return Err(Error::Format);
    }
    let mut d = Decoder::new();
    match read_segments(&mut d, data, 2, scratch) {
        Ok(()) => {},
        Err(e) => {
            return Err(e);
        },
    }
    proof {
        lemma_segments_paint(no_header(), blank(), data@, 2);
    }
    d.to_gray(scratch, gray);
    proof {
        let (h, canvas) = after_segments(no_header(), blank(), data@, 2).unwrap();
        let image = decoded(data@).unwrap();
        assert forall|i: int| 0 <= i < gray@.len() implies gray@[i] == (image + old(gray)@.skip(
            20000,
        ))[i] by {
            if i < 20000 {
                lemma_pixel_painted(h, canvas, scratch@, i / 250, i % 250);
            }
        }
        assert(gray@ =~= image + old(gray)@.skip(20000));
    }
    Ok(())
}

} // verus!
