//! Constant tables of the decoder and the saturation to a byte.

use vstd::prelude::*;

verus! {

/// For each position of the zigzag scan, the raster index of the coefficient
/// inside the 8x8 block.
pub const ZIGZAG: [u8; 64] = [
    0, 1, 8, 16, 9, 2, 3, 10,
    17, 24, 32, 25, 18, 11, 4, 5,
    12, 19, 26, 33, 40, 48, 41, 34,
    27, 20, 13, 6, 7, 14, 21, 28,
    35, 42, 49, 56, 57, 50, 43, 36,
    29, 22, 15, 23, 30, 37, 44, 51,
    58, 59, 52, 45, 38, 31, 39, 46,
    53, 60, 61, 54, 47, 55, 62, 63,
];

/// For each raster index, the position in the zigzag scan: the inverse of
/// [`ZIGZAG`].
pub const ZIGZAG_POSITION: [u8; 64] = [
    0, 1, 5, 6, 14, 15, 27, 28,
    2, 4, 7, 13, 16, 26, 29, 42,
    3, 8, 12, 17, 25, 30, 41, 43,
    9, 11, 18, 24, 31, 40, 44, 53,
    10, 19, 23, 32, 39, 45, 52, 54,
    20, 22, 33, 38, 46, 51, 55, 60,
    21, 34, 37, 47, 50, 56, 59, 61,
    35, 36, 48, 49, 57, 58, 62, 63,
];

/// Input scale factors of the Arai algorithm in raster order, as fixed-point
/// numbers with 13 fractional bits.
pub const ARAI_SCALE_FACTOR: [u16; 64] = [
    8192, 11363, 10703, 9633, 8192, 6436, 4433, 2260,
    11363, 15746, 14852, 13363, 11363, 8930, 6149, 3135,
    10703, 14852, 13983, 12583, 10703, 8410, 5793, 2953,
    9633, 13363, 12583, 11327, 9633, 7568, 5212, 2657,
    8192, 11363, 10703, 9633, 8192, 6436, 4433, 2260,
    6436, 8930, 8410, 7568, 6436, 5057, 3484, 1776,
    4433, 6149, 5793, 5212, 4433, 3484, 2400, 1224,
    2260, 3135, 2953, 2657, 2260, 1776, 1224, 623,
];

/// Scale of the fixed-point colour conversion coefficients.
pub const CVACC: i32 = 1024;

/// 1.402 scaled by [`CVACC`]: the weight of Cr in red.
pub const CR_TO_R: i32 = 1436;

/// 0.344 scaled by [`CVACC`]: the weight of Cb in green.
pub const CB_TO_G: i32 = 352;

/// 0.714 scaled by [`CVACC`]: the weight of Cr in green.
pub const CR_TO_G: i32 = 731;

/// 1.772 scaled by [`CVACC`]: the weight of Cb in blue.
pub const CB_TO_B: i32 = 1815;

/// The value `val` held to the range of a byte.
pub open spec fn clip(val: int) -> int {
    if val < 0 {
        0
    } else if val > 255 {
        255
    } else {
        val
    }
}

/// Saturates a sample to `0..=255`.
pub fn byte_clip(val: i32) -> (r: u8)
    ensures
        r == clip(val as int),
{
    if val < 0 {
        0
    } else if val > 255 {
        255
    } else {
        val as u8
    }
}

/// Each raster index is the entry of the zigzag table at its position, and
/// no Arai scale factor exceeds 15746.
pub proof fn lemma_zigzag_position(k: int)
    requires
        0 <= k < 64,
    ensures
        0 <= ZIGZAG_POSITION[k] < 64,
        ZIGZAG[ZIGZAG_POSITION[k] as int] == k,
        ARAI_SCALE_FACTOR@.len() == 64,
        0 < ARAI_SCALE_FACTOR[k] <= 15746,
{
    if k < 16 {
        if k < 8 {
        } else {
        }
    } else if k < 32 {
        if k < 24 {
        } else {
        }
    } else if k < 48 {
        if k < 40 {
        } else {
        }
    } else {
        if k < 56 {
        } else {
        }
    }
}

/// The entry of the zigzag table at position `i` is a raster index of the
/// block, and [`ZIGZAG_POSITION`] maps it back to `i`.
pub proof fn lemma_zigzag_entry(i: int)
    requires
        0 <= i < 64,
    ensures
        0 <= ZIGZAG[i] < 64,
        ZIGZAG_POSITION[ZIGZAG[i] as int] == i,
{
    if i < 16 {
        if i < 8 {
        } else {
        }
    } else if i < 32 {
        if i < 24 {
        } else {
        }
    } else if i < 48 {
        if i < 40 {
        } else {
        }
    } else {
        if i < 56 {
        } else {
        }
    }
}

} // verus!
