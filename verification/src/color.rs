//! Conversion of decoded samples to pixels: YCbCr to RGB in fixed-point
//! arithmetic, the packed 16-bit format, and the walk over the blocks of one
//! MCU.

use crate::tables::{byte_clip, clip, CB_TO_B, CB_TO_G, CR_TO_G, CR_TO_R, CVACC};
use vstd::prelude::*;

verus! {

/// The quotient of `a` by the positive `b`, rounded toward zero.
pub open spec fn div_toward_zero(a: int, b: int) -> int {
    if a >= 0 {
        a / b
    } else {
        -((-a) / b)
    }
}

/// The red, green and blue bytes of a pixel with luma `y` and with the
/// chroma values `cb` and `cr`, both already centred on zero.
pub open spec fn rgb_of(y: int, cb: int, cr: int) -> Seq<u8> {
    seq![
        clip(y + div_toward_zero(CR_TO_R * cr, CVACC as int)) as u8,
        clip(y - div_toward_zero(CB_TO_G * cb + CR_TO_G * cr, CVACC as int)) as u8,
        clip(y + div_toward_zero(CB_TO_B * cb, CVACC as int)) as u8,
    ]
}

fn scale_down(a: i64) -> (q: i64)
    ensures
        q == div_toward_zero(a as int, CVACC as int),
{
    a / 1024
}

fn weigh(k: i32, v: i32) -> (p: i64)
    requires
        0 <= k <= 2048,
    ensures
        p == k * v,
{
    assert(-0x400_0000_0000 <= k * v <= 0x400_0000_0000) by (nonlinear_arith)
        requires
            0 <= k <= 2048,
            -0x8000_0000 <= v < 0x8000_0000,
    ;
    k as i64 * v as i64
}

fn clip_wide(v: i64) -> (r: u8)
    ensures
        r == clip(v as int),
{
    if v < 0 {
        0
    } else if v > 255 {
        255
    } else {
        byte_clip(v as i32)
    }
}

/// Converts one pixel from YCbCr to RGB888. `cb` and `cr` are centred on
/// zero.
pub fn ycbcr_to_rgb(y: i32, cb: i32, cr: i32) -> (rgb: [u8; 3])
    ensures
        rgb@ == rgb_of(y as int, cb as int, cr as int),
{
    let red: i64 = weigh(CR_TO_R, cr);
    let green_cb: i64 = weigh(CB_TO_G, cb);
    let green_cr: i64 = weigh(CR_TO_G, cr);
    let blue: i64 = weigh(CB_TO_B, cb);
    let r: i64 = y as i64 + scale_down(red);
    let g: i64 = y as i64 - scale_down(green_cb + green_cr);
    let b: i64 = y as i64 + scale_down(blue);
    let rgb: [u8; 3] = [clip_wide(r), clip_wide(g), clip_wide(b)];
    assert(rgb@ =~= rgb_of(y as int, cb as int, cr as int));
    rgb
}

/// The RGB565 word of a pixel: the top 5 bits of red, the top 6 bits of
/// green and the top 5 bits of blue, red highest.
pub open spec fn rgb565_of(r: u8, g: u8, b: u8) -> int {
    (r / 8) * 2048 + (g / 4) * 32 + b / 8
}

/// Packs an RGB888 pixel into RGB565.
pub fn rgb888_to_rgb565(r: u8, g: u8, b: u8) -> (packed: u16)
    ensures
        packed == rgb565_of(r, g, b),
{
    let r5: u16 = (r & 0xF8) as u16;
    let g6: u16 = (g & 0xFC) as u16;
    let b5: u16 = (b & 0xF8) as u16;
    let packed: u16 = (r5 << 8) | (g6 << 3) | (b5 >> 3);
    assert(((((r & 0xF8) as u16) << 8) | (((g & 0xFC) as u16) << 3) | (((b & 0xF8) as u16) >> 3))
        == (r / 8) as u16 * 2048 + (g / 4) as u16 * 32 + (b / 8) as u16) by (bit_vector);
    packed
}

/// Swaps the two bytes of an RGB565 word.
pub fn swap_rgb565(color: u16) -> (swapped: u16)
    ensures
        swapped == (color % 256) * 256 + color / 256,
{
    let swapped: u16 = (color << 8) | (color >> 8);
    assert(((color << 8) | (color >> 8)) == (color % 256) * 256 + color / 256) by (bit_vector);
    swapped
}

/// Where the luma sample of the pixel at (`row`, `col`) of an MCU stands
/// among the samples of its luma blocks. The MCU is `blocks_wide` blocks
/// wide; its blocks follow each other row by row, each in raster order.
pub open spec fn luma_index(blocks_wide: int, row: int, col: int) -> int {
    ((row / 8) * blocks_wide + col / 8) * 64 + (row % 8) * 8 + col % 8
}

/// Where the chroma sample of the pixel at (`row`, `col`) stands in either
/// chroma block: the nearest sample above and to the left.
pub open spec fn chroma_index(sampling_h: int, sampling_v: int, row: int, col: int) -> int {
    (row / sampling_v) * 8 + col / sampling_h
}

/// Every pixel of an MCU of `blocks_wide` by `blocks_high` blocks finds its
/// chroma sample inside blocks of `cb_len` and `cr_len` samples.
#[verifier::opaque]
pub open spec fn chroma_in_reach(
    sampling_h: int,
    sampling_v: int,
    blocks_wide: int,
    blocks_high: int,
    cb_len: int,
    cr_len: int,
) -> bool {
    forall|row: int, col: int|
        0 <= row < 8 * blocks_high && 0 <= col < 8 * blocks_wide ==> {
            &&& sampling_h > 0
            &&& sampling_v > 0
            &&& 0 <= #[trigger] chroma_index(sampling_h, sampling_v, row, col) < cb_len
            &&& chroma_index(sampling_h, sampling_v, row, col) < cr_len
        }
}

/// The RGB bytes of the pixel at (`row`, `col`) of an MCU.
pub open spec fn rgb_pixel(
    y: Seq<i16>,
    cb: Seq<i16>,
    cr: Seq<i16>,
    blocks_wide: int,
    sampling_h: int,
    sampling_v: int,
    row: int,
    col: int,
) -> Seq<u8> {
    let c = chroma_index(sampling_h, sampling_v, row, col);
    rgb_of(y[luma_index(blocks_wide, row, col)] as int, cb[c] - 128, cr[c] - 128)
}

/// The RGB888 tile of an MCU: its pixels row by row, `8 * blocks_wide`
/// pixels to a row, three bytes to a pixel.
#[verifier::opaque]
pub open spec fn rgb_tile(
    y: Seq<i16>,
    cb: Seq<i16>,
    cr: Seq<i16>,
    blocks_wide: int,
    blocks_high: int,
    sampling_h: int,
    sampling_v: int,
) -> Seq<u8> {
    Seq::new(
        (blocks_wide * 8 * blocks_high * 8 * 3) as nat,
        |k: int|
            rgb_pixel(
                y,
                cb,
                cr,
                blocks_wide,
                sampling_h,
                sampling_v,
                (k / 3) / (8 * blocks_wide),
                (k / 3) % (8 * blocks_wide),
            )[k % 3],
    )
}

/// The grayscale tile of an MCU: its pixels row by row, `8 * blocks_wide`
/// pixels to a row, one byte to a pixel.
#[verifier::opaque]
pub open spec fn gray_tile(y: Seq<i16>, blocks_wide: int, blocks_high: int) -> Seq<u8> {
    Seq::new(
        (blocks_wide * 8 * blocks_high * 8) as nat,
        |k: int|
            clip(y[luma_index(blocks_wide, k / (8 * blocks_wide), k % (8 * blocks_wide))] as int) as u8,
    )
}

/// Row `r` and column `c` of a grid with `cols` columns stand at
/// `r * cols + c`, inside the grid.
pub proof fn lemma_grid_index(r: int, c: int, rows: int, cols: int)
    requires
        0 <= r < rows,
        0 <= c < cols,
    ensures
        0 <= r * cols + c < rows * cols,
        (r * cols + c) / cols == r,
        (r * cols + c) % cols == c,
{
    assert(0 <= r * cols + c < rows * cols) by (nonlinear_arith)
        requires
            0 <= r < rows,
            0 <= c < cols,
    ;
    vstd::arithmetic::div_mod::lemma_fundamental_div_mod_converse(r * cols + c, cols, r, c);
}

/// Writes the RGB888 tile of one MCU to the front of `output`. The luma
/// blocks of the MCU stand in `y_block` one after the other; nothing is
/// written where the MCU has no block.
pub fn mcu_to_rgb(
    y_block: &[i16],
    cb_block: &[i16],
    cr_block: &[i16],
    output: &mut [u8],
    mcu_width: usize,
    mcu_height: usize,
    sampling_h: usize,
    sampling_v: usize,
)
    requires
        mcu_width * mcu_height * 64 <= y_block@.len(),
        mcu_width * 8 * mcu_height * 8 * 3 <= old(output)@.len(),
        chroma_in_reach(
            sampling_h as int,
            sampling_v as int,
            mcu_width as int,
            mcu_height as int,
            cb_block@.len() as int,
            cr_block@.len() as int,
        ),
    ensures
        final(output)@.len() == old(output)@.len(),
        final(output)@.subrange(0, mcu_width * 8 * mcu_height * 8 * 3) == rgb_tile(
            y_block@,
            cb_block@,
            cr_block@,
            mcu_width as int,
            mcu_height as int,
            sampling_h as int,
            sampling_v as int,
        ),
        forall|k: int|
            mcu_width * 8 * mcu_height * 8 * 3 <= k < old(output)@.len() ==> final(output)@[k] == old(
                output,
            )@[k],
{
    let ghost tile = rgb_tile(
        y_block@,
        cb_block@,
        cr_block@,
        mcu_width as int,
        mcu_height as int,
        sampling_h as int,
        sampling_v as int,
    );
    if mcu_width == 0 || mcu_height == 0 {
        assert(mcu_width * 8 * mcu_height * 8 * 3 == 0) by (nonlinear_arith)
            requires
                mcu_width == 0 || mcu_height == 0,
        ;
        assert(output@.subrange(0, 0) =~= tile) by {
            reveal(rgb_tile);
        }
        return ;
    }
    let ghost total: int = mcu_width * 8 * mcu_height * 8 * 3;
    assert(output@.len() == vstd::slice::spec_slice_len(&*output));
    assert(y_block@.len() == vstd::slice::spec_slice_len(y_block));
    assert(cb_block@.len() == vstd::slice::spec_slice_len(cb_block));
    assert(tile.len() == total) by {
        reveal(rgb_tile);
    }
    assert(total == (8 * mcu_height) * (8 * mcu_width) * 3 && 8 * mcu_width <= total && 8
        * mcu_height <= total && mcu_width * mcu_height * 64 == (mcu_height * mcu_width) * 64)
        by (nonlinear_arith)
        requires
            total == mcu_width * 8 * mcu_height * 8 * 3,
            mcu_width >= 1,
            mcu_height >= 1,
    ;
    let width: usize = 8 * mcu_width;
    let height: usize = 8 * mcu_height;
    let mut out_idx: usize = 0;
    let mut row: usize = 0;
    while row < height
        invariant
            row <= height,
            width == 8 * mcu_width,
            height == 8 * mcu_height,
            mcu_width >= 1,
            mcu_height >= 1,
            total == height * width * 3,
            out_idx == row * width * 3,
            total <= output@.len(),
            output@.len() == old(output)@.len(),
            (mcu_height * mcu_width) * 64 <= y_block@.len() <= usize::MAX,
            tile == rgb_tile(
                y_block@,
                cb_block@,
                cr_block@,
                mcu_width as int,
                mcu_height as int,
                sampling_h as int,
                sampling_v as int,
            ),
                chroma_in_reach(
                    sampling_h as int,
                    sampling_v as int,
                    mcu_width as int,
                    mcu_height as int,
                    cb_block@.len() as int,
                    cr_block@.len() as int,
                ),
                cb_block@.len() <= usize::MAX,
                tile.len() == total,
            forall|k: int| 0 <= k < out_idx ==> output@[k] == tile[k],
            forall|k: int| total <= k < output@.len() ==> output@[k] == old(output)@[k],
        decreases height - row,
    {
        let mut col: usize = 0;
        while col < width
            invariant
                row < height,
                col <= width,
                width == 8 * mcu_width,
                height == 8 * mcu_height,
                mcu_width >= 1,
                mcu_height >= 1,
                total == height * width * 3,
                out_idx == (row * width + col) * 3,
                total <= output@.len(),
                output@.len() == old(output)@.len(),
                (mcu_height * mcu_width) * 64 <= y_block@.len() <= usize::MAX,
                tile == rgb_tile(
                    y_block@,
                    cb_block@,
                    cr_block@,
                    mcu_width as int,
                    mcu_height as int,
                    sampling_h as int,
                    sampling_v as int,
                ),
                chroma_in_reach(
                    sampling_h as int,
                    sampling_v as int,
                    mcu_width as int,
                    mcu_height as int,
                    cb_block@.len() as int,
                    cr_block@.len() as int,
                ),
                cb_block@.len() <= usize::MAX,
                tile.len() == total,
                forall|k: int| 0 <= k < out_idx ==> output@[k] == tile[k],
                forall|k: int| total <= k < output@.len() ==> output@[k] == old(output)@[k],
            decreases width - col,
        {
            proof {
                lemma_grid_index(row as int, col as int, height as int, width as int);
                lemma_grid_index(
                    (row / 8) as int,
                    (col / 8) as int,
                    mcu_height as int,
                    mcu_width as int,
                );
                let ghost ci = chroma_index(sampling_h as int, sampling_v as int, row as int, col as int);
                assert(sampling_h > 0 && sampling_v > 0 && 0 <= ci < cb_block@.len() && ci
                    < cr_block@.len()) by {
                    reveal(chroma_in_reach);
                    assert(0 <= row < 8 * mcu_height && 0 <= col < 8 * mcu_width);
                }
                assert(0 <= (row / 8) * mcu_width + col / 8 < mcu_height * mcu_width);
            }
            let y_idx: usize = ((row / 8) * mcu_width + col / 8) * 64 + (row % 8) * 8 + col % 8;
            let yy: i32 = y_block[y_idx] as i32;
            let c_idx: usize = (row / sampling_v) * 8 + col / sampling_h;
            let cb: i32 = cb_block[c_idx] as i32 - 128;
            let cr: i32 = cr_block[c_idx] as i32 - 128;
            let rgb: [u8; 3] = ycbcr_to_rgb(yy, cb, cr);
            output[out_idx] = rgb[0];
            output[out_idx + 1] = rgb[1];
            output[out_idx + 2] = rgb[2];
            proof {
                let p: int = row * width + col;
                assert((p * 3) / 3 == p && (p * 3 + 1) / 3 == p && (p * 3 + 2) / 3 == p);
                assert((p * 3) % 3 == 0 && (p * 3 + 1) % 3 == 1 && (p * 3 + 2) % 3 == 2);
                assert(rgb@ == rgb_pixel(
                    y_block@,
                    cb_block@,
                    cr_block@,
                    mcu_width as int,
                    sampling_h as int,
                    sampling_v as int,
                    row as int,
                    col as int,
                ));
                assert(tile[p * 3] == rgb@[0] && tile[p * 3 + 1] == rgb@[1] && tile[p * 3 + 2]
                    == rgb@[2]) by {
                    reveal(rgb_tile);
                }
            }
            out_idx += 3;
            col += 1;
        }
        proof {
            assert((row * width + width) * 3 == (row + 1) * width * 3) by (nonlinear_arith);
        }
        row += 1;
    }
    assert(output@.subrange(0, total) =~= tile);
}

/// Writes the grayscale tile of one MCU to the front of `output`. Nothing is
/// written where the MCU has no block.
pub fn mcu_to_grayscale(y_block: &[i16], output: &mut [u8], mcu_width: usize, mcu_height: usize)
    requires
        mcu_width * mcu_height * 64 <= y_block@.len(),
        mcu_width * 8 * mcu_height * 8 <= old(output)@.len(),
    ensures
        final(output)@.len() == old(output)@.len(),
        final(output)@.subrange(0, mcu_width * 8 * mcu_height * 8) == gray_tile(
            y_block@,
            mcu_width as int,
            mcu_height as int,
        ),
        forall|k: int|
            mcu_width * 8 * mcu_height * 8 <= k < old(output)@.len() ==> final(output)@[k] == old(
                output,
            )@[k],
{
    let ghost tile = gray_tile(y_block@, mcu_width as int, mcu_height as int);
    if mcu_width == 0 || mcu_height == 0 {
        assert(mcu_width * 8 * mcu_height * 8 == 0) by (nonlinear_arith)
            requires
                mcu_width == 0 || mcu_height == 0,
        ;
        assert(output@.subrange(0, 0) =~= tile) by {
            reveal(gray_tile);
        }
        return ;
    }
    let ghost total: int = mcu_width * 8 * mcu_height * 8;
    assert(output@.len() == vstd::slice::spec_slice_len(&*output));
    assert(y_block@.len() == vstd::slice::spec_slice_len(y_block));
    assert(tile.len() == total) by {
        reveal(gray_tile);
    }
    assert(total == (8 * mcu_height) * (8 * mcu_width) && 8 * mcu_width <= total && 8 * mcu_height
        <= total && mcu_width * mcu_height * 64 == (mcu_height * mcu_width) * 64)
        by (nonlinear_arith)
        requires
            total == mcu_width * 8 * mcu_height * 8,
            mcu_width >= 1,
            mcu_height >= 1,
    ;
    let width: usize = 8 * mcu_width;
    let height: usize = 8 * mcu_height;
    let mut out_idx: usize = 0;
    let mut row: usize = 0;
    while row < height
        invariant
            row <= height,
            width == 8 * mcu_width,
            height == 8 * mcu_height,
            mcu_width >= 1,
            mcu_height >= 1,
            total == height * width,
            out_idx == row * width,
            total <= output@.len(),
            output@.len() == old(output)@.len(),
            (mcu_height * mcu_width) * 64 <= y_block@.len() <= usize::MAX,
            tile == gray_tile(y_block@, mcu_width as int, mcu_height as int),
            tile.len() == total,
            forall|k: int| 0 <= k < out_idx ==> output@[k] == tile[k],
            forall|k: int| total <= k < output@.len() ==> output@[k] == old(output)@[k],
        decreases height - row,
    {
        let mut col: usize = 0;
        while col < width
            invariant
                row < height,
                col <= width,
                width == 8 * mcu_width,
                height == 8 * mcu_height,
                mcu_width >= 1,
                mcu_height >= 1,
                total == height * width,
                out_idx == row * width + col,
                total <= output@.len(),
                output@.len() == old(output)@.len(),
                (mcu_height * mcu_width) * 64 <= y_block@.len() <= usize::MAX,
                tile == gray_tile(y_block@, mcu_width as int, mcu_height as int),
                tile.len() == total,
                forall|k: int| 0 <= k < out_idx ==> output@[k] == tile[k],
                forall|k: int| total <= k < output@.len() ==> output@[k] == old(output)@[k],
            decreases width - col,
        {
            proof {
                lemma_grid_index(row as int, col as int, height as int, width as int);
                lemma_grid_index(
                    (row / 8) as int,
                    (col / 8) as int,
                    mcu_height as int,
                    mcu_width as int,
                );
                assert(0 <= (row / 8) * mcu_width + col / 8 < mcu_height * mcu_width);
            }
            let y_idx: usize = ((row / 8) * mcu_width + col / 8) * 64 + (row % 8) * 8 + col % 8;
            output[out_idx] = byte_clip(y_block[y_idx] as i32);
            assert(tile[out_idx as int] == output@[out_idx as int]) by {
                reveal(gray_tile);
            }
            out_idx += 1;
            col += 1;
        }
        proof {
            assert(row * width + width == (row + 1) * width) by (nonlinear_arith);
        }
        row += 1;
    }
    assert(output@.subrange(0, total) =~= tile);
}

} // verus!
