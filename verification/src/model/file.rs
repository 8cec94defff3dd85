//! The .ccm weight file: an eight-byte header, and for every layer its biases and weights.
//!
//! ```text
//! "CCM1", width, dtype, dim (16 bits)
//! dtype 0: bias, weights            single precision
//! dtype 1: bias, weights            weights in half precision
//! dtype 2: bits, scales, bias, codes  one scale per output channel
//! ```
//!
//! Numbers are little-endian; weights are in (output channel, input) order.

use super::codes::code;
use super::layout::{
    channel_at, cin_of, cout_of, input_at, k_of, offset_of, place_at, sized, weights_of,
};
use crate::ieee::product::{multiple, widened};
use vstd::prelude::*;

verus! {

/// The little-endian 16-bit number at `i`.
pub open spec fn le16_at(b: Seq<u8>, i: int) -> u16 {
    (b[i] + 256 * b[i + 1]) as u16
}

/// The little-endian 32-bit number at `i`.
pub open spec fn le32_at(b: Seq<u8>, i: int) -> u32 {
    (b[i] + 256 * b[i + 1] + 65536 * b[i + 2] + 16777216 * b[i + 3]) as u32
}

/// The channel count that the header gives.
pub open spec fn width_in(b: Seq<u8>) -> int {
    b[4] as int
}

/// How the header says that weights are stored.
pub open spec fn dtype_in(b: Seq<u8>) -> int {
    b[5] as int
}

/// The embedding size that the header gives.
pub open spec fn dim_in(b: Seq<u8>) -> int {
    le16_at(b, 6) as int
}

/// The header is one that can be loaded.
pub open spec fn header_ok(b: Seq<u8>) -> bool {
    &&& b.len() >= 8
    &&& b[0] == 0x43
    &&& b[1] == 0x43
    &&& b[2] == 0x4D
    &&& b[3] == 0x31
    &&& dtype_in(b) <= 2
    &&& sized(width_in(b), dim_in(b))
}

/// Output channels of layer `li`.
pub open spec fn channels(b: Seq<u8>, li: int) -> int {
    cout_of(width_in(b), dim_in(b), li)
}

/// Inputs per output channel of layer `li`.
pub open spec fn inputs(b: Seq<u8>, li: int) -> int {
    k_of(width_in(b), li)
}

/// Weights of layer `li`.
pub open spec fn weight_count(b: Seq<u8>, li: int) -> int {
    weights_of(width_in(b), dim_in(b), li)
}

/// Bytes before the biases of a layer.
pub open spec fn scale_bytes(b: Seq<u8>, li: int) -> int {
    if dtype_in(b) == 2 {
        1 + 4 * channels(b, li)
    } else {
        0
    }
}

/// Bytes that the weights of a layer at `start` take.
pub open spec fn weight_bytes(b: Seq<u8>, li: int, start: int) -> int {
    if dtype_in(b) == 0 {
        4 * weight_count(b, li)
    } else if dtype_in(b) == 1 {
        2 * weight_count(b, li)
    } else {
        (weight_count(b, li) * b[start] + 7) / 8
    }
}

/// The end of the layer that starts at `start`, if there is room for it and its codes have
/// 2 to 8 bits.
pub open spec fn layer_end(b: Seq<u8>, li: int, start: int) -> Option<int> {
    if dtype_in(b) == 2 && (start >= b.len() || b[start] < 2 || b[start] > 8) {
        None
    } else {
        let end = start + scale_bytes(b, li) + 4 * channels(b, li) + weight_bytes(b, li, start);
        if end <= b.len() {
            Some(end)
        } else {
            None
        }
    }
}

/// Where layer `li` starts.
pub open spec fn layer_start(b: Seq<u8>, li: int) -> Option<int>
    decreases li,
{
    if li <= 0 {
        Some(8)
    } else {
        match layer_start(b, li - 1) {
            None => None,
            Some(start) => layer_end(b, li - 1, start),
        }
    }
}

/// A model file: a good header, and twelve layers that end where the file does.
pub open spec fn valid(b: Seq<u8>) -> bool {
    header_ok(b) && layer_start(b, 12) == Some(b.len() as int)
}

/// The bias of output channel `co`.
pub open spec fn bias_in(b: Seq<u8>, li: int, co: int) -> u32 {
    le32_at(b, layer_start(b, li).unwrap() + scale_bytes(b, li) + 4 * co)
}

/// The weight of input `e` of output channel `co`.
pub open spec fn weight_in(b: Seq<u8>, li: int, co: int, e: int) -> u32 {
    let start = layer_start(b, li).unwrap();
    let from = start + scale_bytes(b, li) + 4 * channels(b, li);
    let raw = b.subrange(from, from + weight_bytes(b, li, start));
    let i = co * inputs(b, li) + e;
    if dtype_in(b) == 0 {
        le32_at(raw, 4 * i)
    } else if dtype_in(b) == 1 {
        widened(le16_at(raw, 2 * i))
    } else {
        multiple(code(raw, b[start] as int, i), le32_at(b, start + 1 + 4 * co))
    }
}

/// The weight that belongs into cell `j` of layer `li`.
pub open spec fn weight_at(b: Seq<u8>, li: int, j: int) -> u32 {
    let k = inputs(b, li);
    weight_in(
        b,
        li,
        channel_at(j, k),
        input_at(li, cin_of(width_in(b), li), place_at(j, k)),
    )
}

/// Cell `j` of layer `li`.
pub open spec fn cell(b: Seq<u8>, buf: Seq<u32>, li: int, j: int) -> u32 {
    buf[offset_of(width_in(b), dim_in(b), li) + j]
}

/// Bias `co` of layer `li`, kept behind the layer's weights.
pub open spec fn bias_cell(b: Seq<u8>, buf: Seq<u32>, li: int, co: int) -> u32 {
    buf[offset_of(width_in(b), dim_in(b), li) + weight_count(b, li) + co]
}

/// `buf` holds the first `n` layers of a file.
pub open spec fn unpacked(b: Seq<u8>, buf: Seq<u32>, n: int) -> bool {
    &&& buf.len() == offset_of(width_in(b), dim_in(b), 12)
    &&& forall|li: int, j: int|
        0 <= li < n && 0 <= j < weight_count(b, li) ==> #[trigger] cell(b, buf, li, j)
            == weight_at(b, li, j)
    &&& forall|li: int, co: int|
        0 <= li < n && 0 <= co < channels(b, li) ==> #[trigger] bias_cell(b, buf, li, co)
            == bias_in(b, li, co)
}

} // verus!
