//! The tile of one MCU as it goes to the output sink: its pixels, clipped to
//! the image, scaled down and packed row by row, and the rectangle that they
//! cover in the scaled image.
//!
//! Scaling by `2^scale` keeps the top left pixel of each square of
//! `2^scale` by `2^scale` pixels.

use crate::color::{
    chroma_in_reach,
    chroma_index,
    gray_tile,
    lemma_grid_index,
    mcu_to_grayscale,
    mcu_to_rgb,
    rgb_tile,
};
use crate::header::{FrameInfo, FrameSpec};
use crate::mcu::luma_count;
use crate::types::Rectangle;
use vstd::prelude::*;
use vstd::slice::slice_subrange;

verus! {

/// Width of one MCU in pixels.
pub open spec fn mcu_pixel_width(frame: FrameSpec) -> int {
    8 * frame.sampling.spec_mcu_width()
}

/// Height of one MCU in pixels.
pub open spec fn mcu_pixel_height(frame: FrameSpec) -> int {
    8 * frame.sampling.spec_mcu_height()
}

/// What is left of `total` pixels behind the offset `at`, held to the side
/// `side` of an MCU.
pub open spec fn clipped(total: u16, at: u16, side: int) -> u16 {
    if total - at < side {
        (total - at) as u16
    } else {
        side as u16
    }
}

/// Number of pixel columns of the scaled tile of the MCU at column `x`.
pub open spec fn scaled_width(frame: FrameSpec, scale: u8, x: u16) -> u16 {
    clipped(frame.width, x, mcu_pixel_width(frame)) >> scale
}

/// Number of pixel rows of the scaled tile of the MCU at row `y`.
pub open spec fn scaled_height(frame: FrameSpec, scale: u8, y: u16) -> u16 {
    clipped(frame.height, y, mcu_pixel_height(frame)) >> scale
}

/// The rectangle in the scaled image of the MCU whose top left pixel stands
/// at (`x`, `y`) of the image; none where scaling leaves no pixel of it.
pub open spec fn tile_rect(frame: FrameSpec, scale: u8, x: u16, y: u16) -> Option<Rectangle> {
    let sw = scaled_width(frame, scale, x);
    let sh = scaled_height(frame, scale, y);
    if sw == 0 || sh == 0 {
        None
    } else {
        Some(
            Rectangle {
                left: x >> scale,
                right: ((x >> scale) + sw - 1) as u16,
                top: y >> scale,
                bottom: ((y >> scale) + sh - 1) as u16,
            },
        )
    }
}

/// Bytes to a pixel: three for a colour image, else one.
pub open spec fn bytes_per_pixel(frame: FrameSpec) -> int {
    if frame.components == 3 {
        3
    } else {
        1
    }
}

/// The whole tile of an MCU with the samples `samples`, before clipping and
/// scaling: RGB for a colour image, whose Cb and Cr blocks follow the luma
/// blocks, else grayscale.
pub open spec fn full_tile(frame: FrameSpec, samples: Seq<i16>) -> Seq<u8> {
    let n = luma_count(frame);
    let wide = frame.sampling.spec_mcu_width() as int;
    let high = frame.sampling.spec_mcu_height() as int;
    if frame.components == 3 {
        rgb_tile(
            samples.subrange(0, 64 * n),
            samples.subrange(64 * n, 64 * n + 64),
            samples.subrange(64 * n + 64, 64 * n + 128),
            wide,
            high,
            wide,
            high,
        )
    } else {
        gray_tile(samples.subrange(0, 64 * n), wide, high)
    }
}

/// The tile of an MCU comes from the samples that the MCU writes, and from
/// no others.
pub proof fn lemma_tile_of_written(frame: FrameSpec, scale: u8, a: Seq<i16>, b: Seq<i16>, x: u16, y: u16)
    requires
        a.len() >= mcu_samples(frame),
        crate::mcu::same_samples(a, b, crate::mcu::written_samples(frame)),
    ensures
        full_tile(frame, a) == full_tile(frame, b),
        tile_pixels(frame, scale, a, x, y) == tile_pixels(frame, scale, b, x, y),
{
    let n = luma_count(frame);
    assert(1 <= n <= 4) by {
        assert(1 <= frame.sampling.spec_mcu_width() <= 2);
        assert(1 <= frame.sampling.spec_mcu_height() <= 2);
        assert(n == frame.sampling.spec_mcu_width() * frame.sampling.spec_mcu_height());
    }
    assert(a.subrange(0, 64 * n) =~= b.subrange(0, 64 * n));
    if frame.components == 3 {
        assert(a.subrange(64 * n, 64 * n + 64) =~= b.subrange(64 * n, 64 * n + 64));
        assert(a.subrange(64 * n + 64, 64 * n + 128) =~= b.subrange(64 * n + 64, 64 * n + 128));
    }
}

/// Where byte `k` of a scaled tile comes from in the whole tile. The scaled
/// tile has `sw` pixels to a row and the whole tile `stride`; pixel
/// (`r`, `c`) of the scaled tile is pixel (`r * step`, `c * step`) of the
/// whole tile.
pub open spec fn source_index(k: int, stride: int, bpp: int, sw: int, step: int) -> int {
    let pixel = k / bpp;
    let r = pixel / sw;
    let c = pixel % sw;
    ((r * step) * stride + c * step) * bpp + k % bpp
}

/// The tile of `sw` by `sh` pixels that keeps every `step`-th pixel of every
/// `step`-th row of the tile `full`.
pub open spec fn decimated(full: Seq<u8>, stride: int, bpp: int, sw: int, sh: int, step: int) -> Seq<
    u8,
> {
    Seq::new((sw * sh * bpp) as nat, |k: int| full[source_index(k, stride, bpp, sw, step)])
}

/// The pixels of the scaled tile of the MCU at (`x`, `y`) with the samples
/// `samples`, row by row.
pub open spec fn tile_pixels(frame: FrameSpec, scale: u8, samples: Seq<i16>, x: u16, y: u16) -> Seq<
    u8,
> {
    decimated(
        full_tile(frame, samples),
        mcu_pixel_width(frame),
        bytes_per_pixel(frame),
        scaled_width(frame, scale, x) as int,
        scaled_height(frame, scale, y) as int,
        (1u32 << scale) as int,
    )
}

/// Number of samples that the buffer for one MCU needs: its luma blocks,
/// one Cb and one Cr block.
pub open spec fn mcu_samples(frame: FrameSpec) -> int {
    (luma_count(frame) + 2) * 64
}

/// Number of bytes that the buffer for the pixels of one MCU needs: one
/// byte a pixel for a grayscale image, else three.
pub open spec fn tile_bytes(frame: FrameSpec) -> int {
    if frame.components == 1 {
        mcu_pixel_width(frame) * mcu_pixel_height(frame)
    } else {
        mcu_pixel_width(frame) * mcu_pixel_height(frame) * 3
    }
}

/// Where a byte of the scaled tile comes from lies inside the whole tile,
/// and not before the byte itself.
pub proof fn lemma_source_index(
    k: int,
    stride: int,
    rows: int,
    bpp: int,
    sw: int,
    sh: int,
    step: int,
)
    requires
        bpp >= 1,
        step >= 1,
        sw >= 1,
        sh >= 0,
        sw * step <= stride,
        sh * step <= rows,
        0 <= k < sw * sh * bpp,
    ensures
        k <= source_index(k, stride, bpp, sw, step) < stride * rows * bpp,
{
    let pixel = k / bpp;
    let ch = k % bpp;
    assert(sw * sh >= 0) by (nonlinear_arith)
        requires
            sw >= 1,
            sh >= 0,
    ;
    assert(0 <= pixel < sw * sh) by (nonlinear_arith)
        requires
            pixel == k / bpp,
            bpp >= 1,
            sw * sh >= 0,
            0 <= k < sw * sh * bpp,
    ;
    let r = pixel / sw;
    let c = pixel % sw;
    assert(0 <= r < sh && pixel == r * sw + c) by (nonlinear_arith)
        requires
            r == pixel / sw,
            c == pixel % sw,
            sw >= 1,
            0 <= pixel < sw * sh,
    ;
    assert(0 <= r * step < rows && 0 <= c * step < stride && r * step >= r && stride >= sw)
        by (nonlinear_arith)
        requires
            0 <= r < sh,
            0 <= c < sw,
            step >= 1,
            sw * step <= stride,
            sh * step <= rows,
    ;
    lemma_grid_index(r * step, c * step, rows, stride);
    let from = (r * step) * stride + c * step;
    assert(from >= pixel) by (nonlinear_arith)
        requires
            from == (r * step) * stride + c * step,
            pixel == r * sw + c,
            r * step >= r,
            r >= 0,
            c >= 0,
            step >= 1,
            stride >= sw,
            sw >= 1,
    ;
    assert(from * bpp + ch >= pixel * bpp + ch && from * bpp + ch < stride * rows * bpp && k
        == pixel * bpp + ch) by (nonlinear_arith)
        requires
            pixel <= from < rows * stride,
            bpp >= 1,
            0 <= ch < bpp,
            pixel == k / bpp,
            ch == k % bpp,
    ;
}

/// The scaled tile comes from the whole tile alone: a buffer that begins
/// with the whole tile gives the same scaled tile as the whole tile.
pub proof fn lemma_decimated_front(
    buffer: Seq<u8>,
    whole: Seq<u8>,
    stride: int,
    rows: int,
    bpp: int,
    sw: int,
    sh: int,
    step: int,
)
    requires
        bpp >= 1,
        step >= 1,
        sw >= 1,
        sh >= 0,
        sw * step <= stride,
        sh * step <= rows,
        stride * rows * bpp <= buffer.len(),
        buffer.subrange(0, stride * rows * bpp) == whole,
    ensures
        decimated(buffer, stride, bpp, sw, sh, step) == decimated(whole, stride, bpp, sw, sh, step),
{
    let a = decimated(buffer, stride, bpp, sw, sh, step);
    let b = decimated(whole, stride, bpp, sw, sh, step);
    assert(sw * sh >= 0) by (nonlinear_arith)
        requires
            sw >= 1,
            sh >= 0,
    ;
    assert(sw * sh * bpp >= 0) by (nonlinear_arith)
        requires
            sw * sh >= 0,
            bpp >= 1,
    ;
    assert forall|k: int| 0 <= k < a.len() implies a[k] == b[k] by {
        lemma_source_index(k, stride, rows, bpp, sw, sh, step);
        let from = source_index(k, stride, bpp, sw, step);
        assert(whole[from] == buffer.subrange(0, stride * rows * bpp)[from]);
    }
    assert(a =~= b);
}

/// Packs the scaled tile to the front of `buffer`, which holds the whole
/// tile of `rows` rows of `stride` pixels.
pub fn decimate(
    buffer: &mut [u8],
    stride: usize,
    rows: usize,
    bpp: usize,
    sw: usize,
    sh: usize,
    step: usize,
)
    requires
        bpp >= 1,
        step >= 1,
        sw >= 1,
        sw * step <= stride,
        sh * step <= rows,
        stride * rows * bpp <= old(buffer)@.len(),
    ensures
        final(buffer)@.len() == old(buffer)@.len(),
        final(buffer)@.subrange(0, sw * sh * bpp) == decimated(
            old(buffer)@,
            stride as int,
            bpp as int,
            sw as int,
            sh as int,
            step as int,
        ),
        forall|k: int|
            sw * sh * bpp <= k < old(buffer)@.len() ==> final(buffer)@[k] == old(buffer)@[k],
{
    let ghost full = buffer@;
    let ghost tile = decimated(full, stride as int, bpp as int, sw as int, sh as int, step as int);
    assert(buffer@.len() == vstd::slice::spec_slice_len(&*buffer));
    assert(0 <= sw * sh * bpp <= stride * rows * bpp) by (nonlinear_arith)
        requires
            bpp >= 1,
            step >= 1,
            sw >= 1,
            sh >= 0,
            sw * step <= stride,
            sh * step <= rows,
    ;
    assert(sw * sh <= sw * sh * bpp) by (nonlinear_arith)
        requires
            bpp >= 1,
            sw >= 1,
            sh >= 0,
    ;
    assert(stride >= 1) by (nonlinear_arith)
        requires
            step >= 1,
            sw >= 1,
            sw * step <= stride,
    ;
    let total: usize = sw * sh * bpp;
    let mut k: usize = 0;
    while k < total
        invariant
            k <= total,
            stride >= 1,
            total == sw * sh * bpp,
            bpp >= 1,
            step >= 1,
            sw >= 1,
            sw * step <= stride,
            sh * step <= rows,
            stride * rows * bpp <= buffer@.len() <= usize::MAX,
            buffer@.len() == full.len(),
            tile == decimated(full, stride as int, bpp as int, sw as int, sh as int, step as int),
            forall|j: int| 0 <= j < k ==> buffer@[j] == tile[j],
            forall|j: int| k <= j < buffer@.len() ==> buffer@[j] == full[j],
        decreases total - k,
    {
        proof {
            lemma_source_index(
                k as int,
                stride as int,
                rows as int,
                bpp as int,
                sw as int,
                sh as int,
                step as int,
            );
        }
        let pixel: usize = k / bpp;
        let r: usize = pixel / sw;
        let c: usize = pixel % sw;
        let ghost from = source_index(k as int, stride as int, bpp as int, sw as int, step as int);
        assert(0 <= r * step && 0 <= (r * step) * stride && 0 <= c * step && ((r * step) * stride
            + c * step) * bpp <= from && (r * step) * stride <= (r * step) * stride + c * step <= ((r
            * step) * stride + c * step) * bpp && r * step <= (r * step) * stride
            + c * step && c * step <= (r * step) * stride + c * step) by (nonlinear_arith)
            requires
                bpp >= 1,
                step >= 1,
                stride >= 1,
                from == ((r * step) * stride + c * step) * bpp + k % bpp,
                k % bpp >= 0,
        ;
        let source: usize = ((r * step) * stride + c * step) * bpp + k % bpp;
        buffer[k] = buffer[source];
        k += 1;
    }
    assert(buffer@.subrange(0, total as int) =~= tile);
}

/// The chroma samples of an MCU are in reach where the chroma blocks are as
/// wide and as high in pixels as the MCU is in blocks.
proof fn lemma_chroma_fits(wide: int, high: int)
    requires
        1 <= wide <= 2,
        1 <= high <= 2,
    ensures
        chroma_in_reach(wide, high, wide, high, 64, 64),
{
    reveal(chroma_in_reach);
    assert forall|row: int, col: int| 0 <= row < 8 * high && 0 <= col < 8 * wide implies 0
        <= #[trigger] chroma_index(wide, high, row, col) < 64 by {
        let down = if high == 1 {
            row / 1
        } else {
            row / 2
        };
        let across = if wide == 1 {
            col / 1
        } else {
            col / 2
        };
        assert(0 <= down <= 7 && 0 <= across <= 7);
        assert(row / high == down);
        assert(col / wide == across);
    }
}

/// Number of bytes of the whole tile of an MCU.
pub open spec fn whole_bytes(frame: FrameSpec) -> int {
    mcu_pixel_width(frame) * mcu_pixel_height(frame) * bytes_per_pixel(frame)
}

/// Writes the whole tile of an MCU to the front of `work_buffer` and returns
/// the number of bytes to a pixel.
pub fn render_whole(frame: &FrameInfo, mcu_buffer: &[i16], work_buffer: &mut [u8]) -> (bpp: usize)
    requires
        mcu_buffer@.len() >= mcu_samples(frame@),
        old(work_buffer)@.len() >= tile_bytes(frame@),
    ensures
        bpp == bytes_per_pixel(frame@),
        final(work_buffer)@.len() == old(work_buffer)@.len(),
        whole_bytes(frame@) <= final(work_buffer)@.len(),
        final(work_buffer)@.subrange(0, whole_bytes(frame@)) == full_tile(frame@, mcu_buffer@),
{
    let wide: usize = frame.sampling.mcu_width() as usize;
    let high: usize = frame.sampling.mcu_height() as usize;
    proof {
        assert(wide * 8 * high * 8 == (8 * wide) * (8 * high) && wide * 8 * high * 8 * 3 == (8
            * wide) * (8 * high) * 3 && (8 * wide) * (8 * high) == 64 * (wide * high) && 1 <= wide
            * high <= 4 && wide * high * 64 == 64 * (wide * high)) by (nonlinear_arith)
            requires
                1 <= wide <= 2,
                1 <= high <= 2,
        ;
        assert(luma_count(frame@) == wide * high);
        lemma_chroma_fits(wide as int, high as int);
    }
    let count: usize = wide * high;
    let y_data: &[i16] = slice_subrange(mcu_buffer, 0, 64 * count);
    if frame.num_components == 3 {
        let cb_data: &[i16] = slice_subrange(mcu_buffer, 64 * count, 64 * count + 64);
        let cr_data: &[i16] = slice_subrange(mcu_buffer, 64 * count + 64, 64 * count + 128);
        mcu_to_rgb(y_data, cb_data, cr_data, work_buffer, wide, high, wide, high);
        3
    } else {
        mcu_to_grayscale(y_data, work_buffer, wide, high);
        1
    }
}

/// Writes the scaled tile of the MCU at (`x`, `y`) to the front of
/// `work_buffer` and returns its rectangle, or returns nothing, and writes
/// nothing, where scaling leaves no pixel of the MCU.
pub fn render_tile(
    frame: &FrameInfo,
    scale: u8,
    mcu_buffer: &[i16],
    work_buffer: &mut [u8],
    x: u16,
    y: u16,
) -> (r: Option<Rectangle>)
    requires
        scale <= 3,
        x < frame.width,
        y < frame.height,
        mcu_buffer@.len() >= mcu_samples(frame@),
        old(work_buffer)@.len() >= tile_bytes(frame@),
    ensures
        r == tile_rect(frame@, scale, x, y),
        final(work_buffer)@.len() == old(work_buffer)@.len(),
        r is None ==> final(work_buffer)@ == old(work_buffer)@,
        r is Some ==> final(work_buffer)@.subrange(
            0,
            scaled_width(frame@, scale, x) * scaled_height(frame@, scale, y) * bytes_per_pixel(
                frame@,
            ),
        ) == tile_pixels(frame@, scale, mcu_buffer@, x, y),
{
    let wide: usize = frame.sampling.mcu_width() as usize;
    let high: usize = frame.sampling.mcu_height() as usize;
    assert(1 <= wide <= 2 && 1 <= high <= 2);
    let side_w: u16 = (8 * wide) as u16;
    let side_h: u16 = (8 * high) as u16;
    let out_w: u16 = if frame.width - x < side_w {
        frame.width - x
    } else {
        side_w
    };
    let out_h: u16 = if frame.height - y < side_h {
        frame.height - y
    } else {
        side_h
    };
    let sw: u16 = out_w >> scale;
    let sh: u16 = out_h >> scale;
    if sw == 0 || sh == 0 {
        return None;
    }
    let step: usize = if scale == 0 {
        1
    } else if scale == 1 {
        2
    } else if scale == 2 {
        4
    } else {
        8
    };
    let left: u16 = x >> scale;
    let top: u16 = y >> scale;
    proof {
        assert(step == (1u32 << scale)) by (bit_vector)
            requires
                scale <= 3,
                step == if scale == 0 {
                    1usize
                } else if scale == 1 {
                    2usize
                } else if scale == 2 {
                    4usize
                } else {
                    8usize
                },
        ;
        assert((out_w >> scale) * (1u32 << scale) <= out_w) by (bit_vector)
            requires
                scale <= 3,
        ;
        assert((out_h >> scale) * (1u32 << scale) <= out_h) by (bit_vector)
            requires
                scale <= 3,
        ;
        assert((x >> scale) <= x) by (bit_vector);
        assert((y >> scale) <= y) by (bit_vector);
        assert((out_w >> scale) <= out_w) by (bit_vector);
        assert((out_h >> scale) <= out_h) by (bit_vector);
        lemma_chroma_fits(wide as int, high as int);
        assert(wide * 8 * high * 8 == (8 * wide) * (8 * high) && wide * 8 * high * 8 * 3 == (8
            * wide) * (8 * high) * 3 && (8 * wide) * (8 * high) == 64 * (wide * high) && 1 <= wide
            * high <= 4 && wide * high * 64 == 64 * (wide * high)) by (nonlinear_arith)
            requires
                1 <= wide <= 2,
                1 <= high <= 2,
        ;
        assert(luma_count(frame@) == wide * high);
    }
    let rect = Rectangle::new(left, left + sw - 1, top, top + sh - 1);
    let bpp: usize = render_whole(frame, mcu_buffer, work_buffer);
    let ghost whole = work_buffer@;
    decimate(work_buffer, 8 * wide, 8 * high, bpp, sw as usize, sh as usize, step);
    proof {
        lemma_decimated_front(
            whole,
            full_tile(frame@, mcu_buffer@),
            8 * wide,
            8 * high,
            bpp as int,
            sw as int,
            sh as int,
            step as int,
        );
    }
    Some(rect)
}

} // verus!
