//! The decoder: it takes the headers of a stream in, then decodes the scan
//! MCU by MCU and hands each tile to an output sink.
//!
//! What the sink is handed, and how its answers decide the result, is stated
//! over the record of the calls that a [`Recorder`] keeps: see [`explains`].

use crate::bitstream::BitStream;
use crate::header::{declared_frame, lemma_parse_reports_frame, FrameSpec, Header, HeaderSpec};
use crate::mcu::{luma_count, scan_mcu, ScanSpec};
use crate::pool::{same_bytes, MemoryPool};
use crate::sink::{Delivery, OutputCallback, Recorder};
use crate::tile::{
    bytes_per_pixel,
    mcu_pixel_height,
    mcu_pixel_width,
    mcu_samples,
    render_tile,
    scaled_height,
    scaled_width,
    tile_bytes,
    tile_pixels,
    tile_rect,
};
use crate::types::Error;
use vstd::prelude::*;

verus! {

/// The pool size that suits every stream: room for four Huffman tables, with
/// lookup tables where `fast_decode` is set, and for four quantization
/// tables, and never less than the smallest workspace of that way of
/// decoding. The size of the image does not enter.
pub open spec fn pool_size(fast_decode: bool) -> int {
    if fast_decode {
        13120
    } else {
        4928
    }
}

/// Computes the workspace pool size to recommend for an image.
pub fn calculate_pool_size(_width: u16, _height: u16, fast_decode: bool) -> (size: usize)
    ensures
        size == pool_size(fast_decode),
{
    let tables: usize = if fast_decode {
        4 * (16 + 512 + 256 + 2048 + 64)
    } else {
        4 * (16 + 512 + 256 + 64)
    };
    let size: usize = tables + 4 * 256 + 512;
    let floor: usize = if fast_decode {
        9644
    } else {
        3500
    };
    if size < floor {
        floor
    } else {
        size
    }
}

/// Number of MCUs side by side in the image.
pub open spec fn mcu_columns(frame: FrameSpec) -> int {
    (frame.width + mcu_pixel_width(frame) - 1) / mcu_pixel_width(frame)
}

/// Number of rows of MCUs in the image.
pub open spec fn mcu_rows(frame: FrameSpec) -> int {
    (frame.height + mcu_pixel_height(frame) - 1) / mcu_pixel_height(frame)
}

/// How the scan of the entropy-coded data `data` ends where no sink stops
/// it: well, after the last MCU of the image, or with the error of the first
/// MCU that cannot be decoded.
pub open spec fn scan_outcome(header: HeaderSpec, data: Seq<u8>, samples: Seq<i16>) -> Result<
    (),
    Error,
> {
    match ScanSpec::start(data, samples).after(
        header,
        (mcu_columns(header.frame) * mcu_rows(header.frame)) as nat,
    ) {
        Ok(_) => Ok(()),
        Err(e) => Err(e),
    }
}

/// Scaling by 2^`scale` leaves no pixel of any MCU, or the image has none:
/// no tile goes to the sink.
pub open spec fn no_tile(frame: FrameSpec, scale: u8) -> bool {
    ||| frame.width == 0
    ||| frame.height == 0
    ||| scaled_width(frame, scale, 0) == 0
    ||| scaled_height(frame, scale, 0) == 0
}

/// Where no tile goes to the sink, no MCU has a rectangle.
pub proof fn lemma_no_tile(frame: FrameSpec, scale: u8, x: u16, y: u16)
    requires
        no_tile(frame, scale),
        x < frame.width,
        y < frame.height,
    ensures
        tile_rect(frame, scale, x, y) is None,
{
    let first_w = crate::tile::clipped(frame.width, 0, mcu_pixel_width(frame));
    let first_h = crate::tile::clipped(frame.height, 0, mcu_pixel_height(frame));
    let here_w = crate::tile::clipped(frame.width, x, mcu_pixel_width(frame));
    let here_h = crate::tile::clipped(frame.height, y, mcu_pixel_height(frame));
    assert(here_w <= first_w && here_h <= first_h);
    assert(here_w <= first_w ==> (here_w >> scale) <= (first_w >> scale)) by (bit_vector);
    assert(here_h <= first_h ==> (here_h >> scale) <= (first_h >> scale)) by (bit_vector);
}

/// A scan that fails at one MCU fails at every later one with the same
/// error.
pub proof fn lemma_scan_fails(begin: ScanSpec, header: HeaderSpec, at: nat, later: nat)
    requires
        begin.after(header, at) is Err,
        at <= later,
    ensures
        begin.after(header, later) == begin.after(header, at),
    decreases later - at,
{
    if at < later {
        lemma_scan_fails(begin, header, at, (later - 1) as nat);
    }
}

/// The buffer `work` begins with the pixels of the scaled tile of the MCU at
/// (`x`, `y`) with the samples `samples`, row by row.
pub open spec fn holds_tile(
    work: Seq<u8>,
    frame: FrameSpec,
    scale: u8,
    samples: Seq<i16>,
    x: u16,
    y: u16,
) -> bool {
    work.subrange(
        0,
        scaled_width(frame, scale, x) * scaled_height(frame, scale, y) * bytes_per_pixel(frame),
    ) == tile_pixels(frame, scale, samples, x, y)
}

/// The call `rec` of a sink hands over the tile of the MCU at (`x`, `y`)
/// with the samples `samples`: its rectangle, a buffer that begins with its
/// pixels, and a decoder that reports the image as it is scaled.
pub open spec fn delivers(
    rec: Delivery,
    frame: FrameSpec,
    scale: u8,
    samples: Seq<i16>,
    x: u16,
    y: u16,
) -> bool {
    &&& Some(rec.rect) == tile_rect(frame, scale, x, y)
    &&& holds_tile(rec.bitmap, frame, scale, samples, x, y)
    &&& rec.width == frame.width >> scale
    &&& rec.height == frame.height >> scale
    &&& rec.components == frame.components
}

/// Column of the image at which MCU number `k` begins, the MCUs counted row
/// by row.
pub open spec fn mcu_x(frame: FrameSpec, k: int) -> u16 {
    ((k % mcu_columns(frame)) * mcu_pixel_width(frame)) as u16
}

/// Row of the image at which MCU number `k` begins.
pub open spec fn mcu_y(frame: FrameSpec, k: int) -> u16 {
    ((k / mcu_columns(frame)) * mcu_pixel_height(frame)) as u16
}

/// Number of MCUs of the image.
pub open spec fn mcu_total(frame: FrameSpec) -> nat {
    (mcu_columns(frame) * mcu_rows(frame)) as nat
}

/// What a record holds beyond the calls `before`.
pub open spec fn since(before: Seq<Delivery>, after: Seq<Delivery>) -> Seq<Delivery> {
    after.subrange(before.len() as int, after.len() as int)
}

/// The calls `calls` and the result `r` are those of decoding the MCUs from
/// number `k` on, where the scan `begin` has come through the MCUs before
/// them.
///
/// The MCUs are taken in raster order. Each is decoded first; the error of
/// one that cannot be decoded is the result, and the sink is not called for
/// it. An MCU of which scaling leaves no pixel is passed over. For any other
/// the sink takes one call with the tile of the MCU, and its answer decides:
/// the scan goes on where the sink says so, else that call is the last one
/// and what comes of its answer is the result. After the last MCU the result
/// is success.
pub open spec fn explains(
    header: HeaderSpec,
    begin: ScanSpec,
    scale: u8,
    k: nat,
    calls: Seq<Delivery>,
    r: Result<(), Error>,
) -> bool
    decreases mcu_total(header.frame) - k,
{
    if k >= mcu_total(header.frame) {
        calls.len() == 0 && r == Ok::<(), Error>(())
    } else {
        match begin.after(header, k + 1) {
            Err(e) => calls.len() == 0 && r == Err::<(), Error>(e),
            Ok(s) => if tile_rect(
                header.frame,
                scale,
                mcu_x(header.frame, k as int),
                mcu_y(header.frame, k as int),
            ) is None {
                explains(header, begin, scale, k + 1, calls, r)
            } else {
                &&& calls.len() > 0
                &&& delivers(
                    calls[0],
                    header.frame,
                    scale,
                    s.samples,
                    mcu_x(header.frame, k as int),
                    mcu_y(header.frame, k as int),
                )
                &&& if calls[0].answer == Ok::<bool, Error>(true) {
                    explains(header, begin, scale, k + 1, calls.drop_first(), r)
                } else {
                    calls.len() == 1 && r == verdict(calls[0].answer)
                }
            },
        }
    }
}

/// The calls `calls` are those of decoding the first `k` MCUs of the scan
/// `begin`, where every MCU was decoded and the sink let the scan go on
/// each time.
pub open spec fn delivered(
    header: HeaderSpec,
    begin: ScanSpec,
    scale: u8,
    k: nat,
    calls: Seq<Delivery>,
) -> bool
    decreases k,
{
    if k == 0 {
        calls.len() == 0
    } else {
        match begin.after(header, k) {
            Err(e) => false,
            Ok(s) => if tile_rect(
                header.frame,
                scale,
                mcu_x(header.frame, k - 1),
                mcu_y(header.frame, k - 1),
            ) is None {
                delivered(header, begin, scale, (k - 1) as nat, calls)
            } else {
                &&& calls.len() > 0
                &&& delivers(
                    calls.last(),
                    header.frame,
                    scale,
                    s.samples,
                    mcu_x(header.frame, k - 1),
                    mcu_y(header.frame, k - 1),
                )
                &&& calls.last().answer == Ok::<bool, Error>(true)
                &&& delivered(header, begin, scale, (k - 1) as nat, calls.drop_last())
            },
        }
    }
}

/// The calls of the first `k` MCUs, followed by the calls of the MCUs from
/// number `k` on, are the calls of the whole scan.
pub proof fn lemma_explains_joined(
    header: HeaderSpec,
    begin: ScanSpec,
    scale: u8,
    k: nat,
    first: Seq<Delivery>,
    rest: Seq<Delivery>,
    r: Result<(), Error>,
)
    requires
        k <= mcu_total(header.frame),
        delivered(header, begin, scale, k, first),
        explains(header, begin, scale, k, rest, r),
    ensures
        explains(header, begin, scale, 0, first + rest, r),
    decreases k,
{
    if k == 0 {
        assert(first + rest =~= rest);
    } else {
        let before = (k - 1) as nat;
        let x = mcu_x(header.frame, k - 1);
        let y = mcu_y(header.frame, k - 1);
        if tile_rect(header.frame, scale, x, y) is None {
            lemma_explains_joined(header, begin, scale, before, first, rest, r);
        } else {
            let call = first.last();
            let longer = seq![call] + rest;
            assert(longer.drop_first() =~= rest);
            assert(longer[0] == call);
            assert(explains(header, begin, scale, before, longer, r));
            lemma_explains_joined(header, begin, scale, before, first.drop_last(), longer, r);
            assert(first.drop_last() + longer =~= first + rest);
        }
    }
}

/// A scan that succeeds has decoded every MCU of the image.
pub proof fn lemma_explains_success(
    header: HeaderSpec,
    begin: ScanSpec,
    scale: u8,
    k: nat,
    calls: Seq<Delivery>,
    r: Result<(), Error>,
)
    requires
        k <= mcu_total(header.frame),
        begin.after(header, k) is Ok,
        explains(header, begin, scale, k, calls, r),
        r is Ok,
    ensures
        begin.after(header, mcu_total(header.frame)) is Ok,
        forall|i: int| 0 <= i < calls.len() ==> (#[trigger] calls[i]).answer == Ok::<bool, Error>(true),
    decreases mcu_total(header.frame) - k,
{
    if k < mcu_total(header.frame) {
        let x = mcu_x(header.frame, k as int);
        let y = mcu_y(header.frame, k as int);
        if tile_rect(header.frame, scale, x, y) is None {
            lemma_explains_success(header, begin, scale, k + 1, calls, r);
        } else {
            lemma_explains_success(header, begin, scale, k + 1, calls.drop_first(), r);
            assert forall|i: int| 0 <= i < calls.len() implies (#[trigger] calls[i]).answer == Ok::<
                bool,
                Error,
            >(true) by {
                if i > 0 {
                    assert(calls[i] == calls.drop_first()[i - 1]);
                }
            }
        }
    }
}

/// The number of the MCU of call number `i` among the calls for the MCUs
/// from number `k` on: the MCUs without a tile are passed over.
pub open spec fn tile_at(frame: FrameSpec, scale: u8, k: nat, i: nat) -> nat
    decreases mcu_total(frame) - k,
{
    if k >= mcu_total(frame) {
        k
    } else if tile_rect(frame, scale, mcu_x(frame, k as int), mcu_y(frame, k as int)) is None {
        tile_at(frame, scale, k + 1, i)
    } else if i == 0 {
        k
    } else {
        tile_at(frame, scale, k + 1, (i - 1) as nat)
    }
}

/// What the sink is handed. Call number `i` has the tile of an MCU of the
/// image, and the calls come in the order of the MCUs: its rectangle is that
/// of the MCU, its buffer begins with the pixels of the MCU as the scan
/// decoded them, scaled, and the decoder reports the scaled image. Every
/// call but the last let the scan go on, and a last call that did not
/// decides the result.
pub proof fn lemma_explains_calls(
    header: HeaderSpec,
    begin: ScanSpec,
    scale: u8,
    k: nat,
    calls: Seq<Delivery>,
    r: Result<(), Error>,
    i: nat,
)
    requires
        explains(header, begin, scale, k, calls, r),
        i < calls.len(),
    ensures
        k <= tile_at(header.frame, scale, k, i) < mcu_total(header.frame),
        i > 0 ==> tile_at(header.frame, scale, k, (i - 1) as nat) < tile_at(
            header.frame,
            scale,
            k,
            i,
        ),
        begin.after(header, tile_at(header.frame, scale, k, i) + 1) matches Ok(s) && delivers(
            calls[i as int],
            header.frame,
            scale,
            s.samples,
            mcu_x(header.frame, tile_at(header.frame, scale, k, i) as int),
            mcu_y(header.frame, tile_at(header.frame, scale, k, i) as int),
        ),
        i + 1 < calls.len() ==> calls[i as int].answer == Ok::<bool, Error>(true),
        i + 1 == calls.len() && calls[i as int].answer != Ok::<bool, Error>(true) ==> r == verdict(
            calls[i as int].answer,
        ),
    decreases mcu_total(header.frame) - k,
{
    let x = mcu_x(header.frame, k as int);
    let y = mcu_y(header.frame, k as int);
    if tile_rect(header.frame, scale, x, y) is None {
        lemma_explains_calls(header, begin, scale, k + 1, calls, r, i);
    } else if i > 0 {
        let rest = calls.drop_first();
        lemma_explains_calls(header, begin, scale, k + 1, rest, r, (i - 1) as nat);
        assert(rest[i - 1] == calls[i as int]);
        if i > 1 {
            assert(rest[i - 2] == calls[i - 1]);
        } else {
            lemma_tile_at_bounds(header.frame, scale, k + 1, 0);
        }
    }
}

/// The MCU of a call is not before the MCU from which the calls are
/// counted.
pub proof fn lemma_tile_at_bounds(frame: FrameSpec, scale: u8, k: nat, i: nat)
    ensures
        k <= tile_at(frame, scale, k, i),
    decreases mcu_total(frame) - k,
{
    if k < mcu_total(frame) {
        if tile_rect(frame, scale, mcu_x(frame, k as int), mcu_y(frame, k as int)) is None {
            lemma_tile_at_bounds(frame, scale, k + 1, i);
        } else if i > 0 {
            lemma_tile_at_bounds(frame, scale, k + 1, (i - 1) as nat);
        }
    }
}

/// Where the sink lets the scan go on at every call, the result is that of
/// the scan alone: success after the last MCU, or the error of the first MCU
/// that cannot be decoded.
pub proof fn lemma_explains_going_on(
    header: HeaderSpec,
    begin: ScanSpec,
    scale: u8,
    k: nat,
    calls: Seq<Delivery>,
    r: Result<(), Error>,
)
    requires
        k <= mcu_total(header.frame),
        begin.after(header, k) is Ok,
        explains(header, begin, scale, k, calls, r),
        forall|i: int| 0 <= i < calls.len() ==> (#[trigger] calls[i]).answer == Ok::<bool, Error>(true),
    ensures
        r == match begin.after(header, mcu_total(header.frame)) {
            Ok(_) => Ok::<(), Error>(()),
            Err(e) => Err::<(), Error>(e),
        },
    decreases mcu_total(header.frame) - k,
{
    if k < mcu_total(header.frame) {
        match begin.after(header, k + 1) {
            Err(e) => {
                lemma_scan_fails(begin, header, k + 1, mcu_total(header.frame));
            },
            Ok(s) => {
                let x = mcu_x(header.frame, k as int);
                let y = mcu_y(header.frame, k as int);
                if tile_rect(header.frame, scale, x, y) is None {
                    lemma_explains_going_on(header, begin, scale, k + 1, calls, r);
                } else {
                    let rest = calls.drop_first();
                    assert(calls[0].answer == Ok::<bool, Error>(true));
                    assert forall|i: int| 0 <= i < rest.len() implies (#[trigger] rest[i]).answer
                        == Ok::<bool, Error>(true) by {
                        assert(rest[i] == calls[i + 1]);
                    }
                    lemma_explains_going_on(header, begin, scale, k + 1, rest, r);
                }
            },
        }
    }
}

/// The number of calls where every MCU is decoded and the sink lets the scan
/// go on: one for each MCU that has a tile.
pub open spec fn tiles_from(frame: FrameSpec, scale: u8, k: nat) -> nat
    decreases mcu_total(frame) - k,
{
    if k >= mcu_total(frame) {
        0
    } else if tile_rect(frame, scale, mcu_x(frame, k as int), mcu_y(frame, k as int)) is None {
        tiles_from(frame, scale, k + 1)
    } else {
        1 + tiles_from(frame, scale, k + 1)
    }
}

/// A scan that succeeds has called the sink once for each MCU that has a
/// tile.
pub proof fn lemma_explains_count(
    header: HeaderSpec,
    begin: ScanSpec,
    scale: u8,
    k: nat,
    calls: Seq<Delivery>,
    r: Result<(), Error>,
)
    requires
        explains(header, begin, scale, k, calls, r),
        r is Ok,
    ensures
        calls.len() == tiles_from(header.frame, scale, k),
    decreases mcu_total(header.frame) - k,
{
    if k < mcu_total(header.frame) {
        let x = mcu_x(header.frame, k as int);
        let y = mcu_y(header.frame, k as int);
        if tile_rect(header.frame, scale, x, y) is None {
            lemma_explains_count(header, begin, scale, k + 1, calls, r);
        } else {
            lemma_explains_count(header, begin, scale, k + 1, calls.drop_first(), r);
        }
    }
}

/// Every MCU of the image begins inside the image.
pub proof fn lemma_mcu_inside(frame: FrameSpec, k: int)
    requires
        0 <= k < mcu_total(frame),
    ensures
        mcu_x(frame, k) < frame.width,
        mcu_y(frame, k) < frame.height,
        mcu_x(frame, k) == (k % mcu_columns(frame)) * mcu_pixel_width(frame),
        mcu_y(frame, k) == (k / mcu_columns(frame)) * mcu_pixel_height(frame),
{
    let columns = mcu_columns(frame);
    let rows = mcu_rows(frame);
    let wide = mcu_pixel_width(frame);
    let high = mcu_pixel_height(frame);
    assert(wide == 8 || wide == 16);
    assert(high == 8 || high == 16);
    lemma_tiling(frame.width as int, wide);
    lemma_tiling(frame.height as int, high);
    assert(columns > 0 && rows > 0) by (nonlinear_arith)
        requires
            0 <= k < columns * rows,
            columns >= 0,
            rows >= 0,
    ;
    let c = k % columns;
    let d = k / columns;
    assert(0 <= c < columns && 0 <= d < rows && k == d * columns + c) by (nonlinear_arith)
        requires
            0 <= k < columns * rows,
            columns > 0,
            c == k % columns,
            d == k / columns,
    ;
    lemma_covered(frame.width as int, wide, c);
    lemma_covered(frame.height as int, high, d);
}

/// A step that is counted among the steps that cover a side begins inside
/// the side.
pub proof fn lemma_covered(size: int, step: int, index: int)
    requires
        size >= 0,
        step == 8 || step == 16,
        0 <= index < (size + step - 1) / step,
    ensures
        0 <= index * step < size,
{
    if step == 8 {
        assert(index * 8 < size);
    } else {
        assert(index * 16 < size);
    }
}

/// Without scaling every MCU has a tile, so that the calls of a scan are
/// those of its MCUs one after the other: call number `i` has the tile of
/// MCU number `i`, and a scan that succeeds has made as many calls as the
/// image has MCUs.
pub proof fn lemma_unscaled_calls(frame: FrameSpec, k: nat, i: nat)
    requires
        k + i < mcu_total(frame),
    ensures
        tile_at(frame, 0, k, i) == k + i,
        tiles_from(frame, 0, k) == mcu_total(frame) - k,
        tile_rect(frame, 0, mcu_x(frame, k as int), mcu_y(frame, k as int)) is Some,
    decreases mcu_total(frame) - k,
{
    lemma_mcu_inside(frame, k as int);
    let x = mcu_x(frame, k as int);
    let y = mcu_y(frame, k as int);
    let w = crate::tile::clipped(frame.width, x, mcu_pixel_width(frame));
    let h = crate::tile::clipped(frame.height, y, mcu_pixel_height(frame));
    assert(w >= 1 && h >= 1);
    assert(w >> 0u8 == w) by (bit_vector);
    assert(h >> 0u8 == h) by (bit_vector);
    if k + 1 < mcu_total(frame) {
        if i > 0 {
            lemma_unscaled_calls(frame, k + 1, (i - 1) as nat);
        } else {
            lemma_unscaled_calls(frame, k + 1, 0);
        }
    } else {
        assert(tiles_from(frame, 0, k + 1) == 0);
    }
}

/// What comes of the answer of the output sink to a tile: the scan goes on
/// where the sink says so, stops as interrupted where the sink asks to stop,
/// and stops with the error of the sink where it has one.
pub open spec fn verdict(answer: Result<bool, Error>) -> Result<(), Error> {
    match answer {
        Ok(true) => Ok(()),
        Ok(false) => Err(Error::Interrupted),
        Err(e) => Err(e),
    }
}

/// What comes of the answer of the output sink to a tile.
pub fn after_output(answer: Result<bool, Error>) -> (r: Result<(), Error>)
    ensures
        r == verdict(answer),
{
    match answer {
        Ok(true) => Ok(()),
        Ok(false) => Err(Error::Interrupted),
        Err(e) => Err(e),
    }
}

/// A baseline JPEG decoder.
pub struct JpegDecoder {
    header: Header,
    scale: u8,
}

impl JpegDecoder {
    #[verifier::type_invariant]
    spec fn inv(&self) -> bool {
        self.scale <= 3
    }

    /// The frame and the table handles of the decoder.
    pub closed spec fn header(&self) -> Header {
        self.header
    }

    /// The scale exponent of the last call of [`JpegDecoder::decompress`].
    pub closed spec fn spec_scale(&self) -> u8 {
        self.scale
    }

    /// The header of the decoder is a header of the pool.
    pub open spec fn wf(&self, pool: &MemoryPool) -> bool {
        &&& self.header().wf(pool@, pool.spec_used() as int)
        &&& self.spec_scale() <= 3
    }

    /// Width of the image in the stream.
    pub open spec fn spec_raw_width(&self) -> u16 {
        self.header().frame.width
    }

    /// Height of the image in the stream.
    pub open spec fn spec_raw_height(&self) -> u16 {
        self.header().frame.height
    }

    /// Width of the scaled image.
    pub open spec fn spec_width(&self) -> u16 {
        self.spec_raw_width() >> self.spec_scale()
    }

    /// Height of the scaled image.
    pub open spec fn spec_height(&self) -> u16 {
        self.spec_raw_height() >> self.spec_scale()
    }

    /// Number of colour components.
    pub open spec fn spec_components(&self) -> u8 {
        self.header().frame.num_components
    }

    /// Number of samples that the MCU buffer needs.
    pub open spec fn spec_mcu_buffer_size(&self) -> usize {
        mcu_samples(self.header().frame@) as usize
    }

    /// Number of bytes that the work buffer needs.
    pub open spec fn spec_work_buffer_size(&self) -> usize {
        tile_bytes(self.header().frame@) as usize
    }

    /// A decoder that has seen no stream: no frame and no tables.
    pub fn new() -> (decoder: Self)
        ensures
            decoder.header().frame@ == FrameSpec::empty(),
            forall|bytes: Seq<u8>| #[trigger] decoder.header().spec_in(bytes) == HeaderSpec::empty(),
            forall|pool: &MemoryPool| pool.wf() ==> #[trigger] decoder.wf(pool),
            decoder.spec_scale() == 0,
            decoder.spec_width() == 0,
            decoder.spec_height() == 0,
            decoder.spec_components() == 0,
    {
        let decoder = JpegDecoder { header: Header::new(), scale: 0 };
        assert(0u16 >> 0u8 == 0u16) by (bit_vector);
        decoder
    }

    /// Takes the headers of the stream `data` in and builds their tables in
    /// the pool. The walk starts from what the decoder holds, and ends at the
    /// start of scan, where every component must have its tables.
    pub fn prepare(&mut self, data: &[u8], pool: &mut MemoryPool) -> (r: Result<(), Error>)
        requires
            old(pool).wf(),
            old(self).wf(old(pool)),
        ensures
            final(pool).wf(),
            final(pool)@.len() == old(pool)@.len(),
            old(pool).spec_used() <= final(pool).spec_used(),
            same_bytes(old(pool)@, final(pool)@, 0, old(pool).spec_used() as int),
            final(self).wf(final(pool)),
            final(self).spec_scale() == old(self).spec_scale(),
            match old(self).header().spec_in(old(pool)@).parse(
                data@,
                old(pool).spec_used() as int,
                old(pool)@.len() as int,
            ) {
                Ok((header, used)) => {
                    &&& r is Ok
                    &&& final(self).header().spec_in(final(pool)@) == header
                    &&& final(pool).spec_used() == used
                    &&& final(self).header().ready()
                    &&& final(self).spec_components() == 0 || final(self).spec_components() == 1
                        || final(self).spec_components() == 3
                },
                Err(e) => r == Err::<(), Error>(e),
            },
            r is Ok ==> match declared_frame(data@, 2, None) {
                Some(d) => {
                    &&& final(self).spec_raw_width() == d.width
                    &&& final(self).spec_raw_height() == d.height
                    &&& final(self).spec_components() == d.components
                    &&& (d.components == 1 || d.components == 3)
                },
                None => {
                    &&& final(self).spec_raw_width() == old(self).spec_raw_width()
                    &&& final(self).spec_raw_height() == old(self).spec_raw_height()
                    &&& final(self).spec_components() == old(self).spec_components()
                },
            },
    {
        proof {
            use_type_invariant(&*self);
            lemma_parse_reports_frame(
                self.header.spec_in(pool@),
                data@,
                pool.spec_used() as int,
                pool@.len() as int,
            );
        }
        let mut header: Header = self.header;
        let r = header.parse(data, pool);
        self.header = header;
        r
    }

    /// Builds a lookup table for every Huffman table of the decoder that has
    /// none, so that decoding goes through the lookup tables. Each table
    /// takes 2048 bytes of the pool; a pool with too little room for all of
    /// them is a memory error, and leaves decoder and pool as they were.
    pub fn build_lookup_tables(&mut self, pool: &mut MemoryPool) -> (r: Result<(), Error>)
        requires
            old(pool).wf(),
            old(self).wf(old(pool)),
        ensures
            final(pool).wf(),
            final(pool)@.len() == old(pool)@.len(),
            same_bytes(old(pool)@, final(pool)@, 0, old(pool).spec_used() as int),
            final(self).wf(final(pool)),
            final(self).spec_scale() == old(self).spec_scale(),
            final(self).header().frame == old(self).header().frame,
            r is Err <==> old(pool).spec_remaining() < 2048 * old(
                self,
            ).header().tables.missing_luts(),
            r is Err ==> r == Err::<(), Error>(Error::InsufficientMemory) && *final(self) == *old(
                self,
            ) && final(pool)@ == old(pool)@ && final(pool).spec_used() == old(pool).spec_used(),
            r is Ok ==> {
                &&& final(self).header().tables.spec_in(final(pool)@) == old(
                    self,
                ).header().tables.spec_in(old(pool)@).with_luts()
                &&& final(self).header().tables.missing_luts() == 0
                &&& final(pool).spec_used() == old(pool).spec_used() + 2048 * old(
                    self,
                ).header().tables.missing_luts()
            },
    {
        proof {
            use_type_invariant(&*self);
            assert(2 * crate::huffman::HUFF_LEN == 2048);
        }
        let mut header: Header = self.header;
        let r = header.tables.build_lookup_tables(pool);
        self.header = header;
        r
    }

    /// Decodes the scan of the stream `data` and hands each tile to the sink
    /// of `callback`, which records the calls. `scale` asks for an image
    /// scaled down by 2^`scale`; more than 3 is a parameter error. Buffers
    /// smaller than [`JpegDecoder::mcu_buffer_size`] and
    /// [`JpegDecoder::work_buffer_size`] are a memory error. Both errors
    /// leave the decoder as it was, and so does the error of a stream whose
    /// entropy-coded data cannot be found leave the sink: the sink is not
    /// called.
    ///
    /// After that the calls of the sink and the result are what [`explains`]
    /// says: the MCUs are decoded in raster order, each tile goes to the
    /// sink, and the scan ends with the error of the first MCU that cannot
    /// be decoded, with what comes of the first answer of the sink that does
    /// not let it go on, or well after the last MCU.
    pub fn decompress<C: OutputCallback>(
        &mut self,
        pool: &MemoryPool,
        data: &[u8],
        scale: u8,
        mcu_buffer: &mut [i16],
        work_buffer: &mut [u8],
        callback: &mut Recorder<C>,
    ) -> (r: Result<(), Error>)
        requires
            pool.wf(),
            old(self).wf(pool),
        ensures
            final(self).wf(pool),
            final(self).header() == old(self).header(),
            final(mcu_buffer)@.len() == old(mcu_buffer)@.len(),
            final(work_buffer)@.len() == old(work_buffer)@.len(),
            final(callback).received().len() >= old(callback).received().len(),
            final(callback).received().subrange(0, old(callback).received().len() as int) == old(
                callback,
            ).received(),
            scale > 3 ==> {
                &&& r == Err::<(), Error>(Error::Parameter)
                &&& *final(self) == *old(self)
                &&& *final(callback) == *old(callback)
            },
            scale <= 3 && (old(mcu_buffer)@.len() < old(self).spec_mcu_buffer_size() || old(
                work_buffer,
            )@.len() < old(self).spec_work_buffer_size()) ==> {
                &&& r == Err::<(), Error>(Error::InsufficientMemory)
                &&& *final(self) == *old(self)
                &&& *final(callback) == *old(callback)
            },
            scale <= 3 && old(mcu_buffer)@.len() >= old(self).spec_mcu_buffer_size() && old(
                work_buffer,
            )@.len() >= old(self).spec_work_buffer_size() ==> {
                &&& final(self).spec_scale() == scale
                &&& match old(self).header().frame@.scan_start(data@) {
                    Err(e) => r == Err::<(), Error>(e) && *final(callback) == *old(callback),
                    Ok(start) => {
                        &&& explains(
                            old(self).header().spec_in(pool@),
                            ScanSpec::start(
                                data@.subrange(start, data@.len() as int),
                                old(mcu_buffer)@,
                            ),
                            scale,
                            0,
                            since(old(callback).received(), final(callback).received()),
                            r,
                        )
                        &&& r is Ok ==> scan_outcome(
                            old(self).header().spec_in(pool@),
                            data@.subrange(start, data@.len() as int),
                            old(mcu_buffer)@,
                        ) is Ok
                        &&& no_tile(old(self).header().frame@, scale) ==> *final(callback) == *old(
                            callback,
                        ) && r == scan_outcome(
                            old(self).header().spec_in(pool@),
                            data@.subrange(start, data@.len() as int),
                            old(mcu_buffer)@,
                        )
                        &&& old(self).spec_raw_width() > 0 && old(self).spec_raw_height() > 0
                            ==> (ScanSpec::start(
                            data@.subrange(start, data@.len() as int),
                            old(mcu_buffer)@,
                        ).after(old(self).header().spec_in(pool@), 1) matches Err(e) ==> r == Err::<
                            (),
                            Error,
                        >(e) && *final(callback) == *old(callback))
                    },
                }
            },
    {
        proof {
            use_type_invariant(&*self);
        }
        if scale > 3 {
            return Err(Error::Parameter);
        }
        if mcu_buffer.len() < self.mcu_buffer_size() || work_buffer.len() < self.work_buffer_size() {
            return Err(Error::InsufficientMemory);
        }
        self.scale = scale;
        let scan_data: &[u8] = match self.header.find_scan_data(data) {
            Ok(scan_data) => scan_data,
            Err(e) => {
                return Err(e);
            },
        };
        let ghost begin = ScanSpec::start(scan_data@, mcu_buffer@);
        let ghost spec = self.header.spec_in(pool@);
        let r = self.scan(pool, scan_data, mcu_buffer, work_buffer, callback);
        proof {
            let calls = since(old(callback).received(), callback.received());
            if r is Ok {
                lemma_explains_success(spec, begin, scale, 0, calls, r);
            }
            if spec.frame.width > 0 && spec.frame.height > 0 {
                lemma_tiling(spec.frame.width as int, mcu_pixel_width(spec.frame));
                lemma_tiling(spec.frame.height as int, mcu_pixel_height(spec.frame));
                assert(mcu_columns(spec.frame) * mcu_rows(spec.frame) >= 1) by (nonlinear_arith)
                    requires
                        mcu_columns(spec.frame) >= 1,
                        mcu_rows(spec.frame) >= 1,
                ;
            }
        }
        r
    }

    /// Decodes the MCUs of the entropy-coded data `scan_data` and hands each
    /// tile to `callback`, as [`explains`] says.
    fn scan<C: OutputCallback>(
        &self,
        pool: &MemoryPool,
        scan_data: &[u8],
        mcu_buffer: &mut [i16],
        work_buffer: &mut [u8],
        callback: &mut Recorder<C>,
    ) -> (r: Result<(), Error>)
        requires
            pool.wf(),
            self.wf(pool),
            old(mcu_buffer)@.len() >= mcu_samples(self.header().frame@),
            old(work_buffer)@.len() >= tile_bytes(self.header().frame@),
        ensures
            final(mcu_buffer)@.len() == old(mcu_buffer)@.len(),
            final(work_buffer)@.len() == old(work_buffer)@.len(),
            final(callback).received().len() >= old(callback).received().len(),
            final(callback).received().subrange(0, old(callback).received().len() as int) == old(
                callback,
            ).received(),
            explains(
                self.header().spec_in(pool@),
                ScanSpec::start(scan_data@, old(mcu_buffer)@),
                self.spec_scale(),
                0,
                since(old(callback).received(), final(callback).received()),
                r,
            ),
            no_tile(self.header().frame@, self.spec_scale()) ==> {
                &&& *final(callback) == *old(callback)
                &&& r == scan_outcome(
                    self.header().spec_in(pool@),
                    scan_data@,
                    old(mcu_buffer)@,
                )
            },
            ScanSpec::start(scan_data@, old(mcu_buffer)@).after(self.header().spec_in(pool@), 1)
                is Err ==> *final(callback) == *old(callback),
    {
        proof {
            use_type_invariant(self);
        }
        let scale: u8 = self.scale;
        let mut dc_values: [i16; 3] = [0i16; 3];
        let ghost spec = self.header.spec_in(pool@);
        let ghost frame = self.header.frame@;
        let ghost begin = ScanSpec::start(scan_data@, mcu_buffer@);
        let ghost base = callback.received();
        let ghost mut calls: Seq<Delivery> = Seq::empty();
        let mut bitstream = BitStream::new(scan_data);
        let mut restart_counter: u16 = 0;
        let step_x: u32 = 8 * (self.header.frame.sampling.mcu_width() as u32);
        let step_y: u32 = 8 * (self.header.frame.sampling.mcu_height() as u32);
        let width: u32 = self.header.frame.width as u32;
        let height: u32 = self.header.frame.height as u32;
        let ghost columns = mcu_columns(frame);
        let ghost rows = mcu_rows(frame);
        assert(dc_values@ =~= crate::mcu::no_prediction());
        assert(columns == (width + step_x - 1) / (step_x as int) && rows == (height + step_y - 1)
            / (step_y as int));
        proof {
            lemma_tiling(width as int, step_x as int);
            lemma_tiling(height as int, step_y as int);
            assert(base + calls =~= base);
        }
        let ghost mut done: nat = 0;
        let ghost mut row: int = 0;
        let mut y: u32 = 0;
        while y < height
            invariant
                pool.wf(),
                self.scale == scale,
                scale <= 3,
                self.header.wf(pool@, pool.spec_used() as int),
                spec == self.header.spec_in(pool@),
                frame == self.header.frame@,
                width == frame.width,
                height == frame.height,
                step_x == mcu_pixel_width(frame),
                step_y == mcu_pixel_height(frame),
                step_x == 8 || step_x == 16,
                step_y == 8 || step_y == 16,
                columns == mcu_columns(frame),
                rows == mcu_rows(frame),
                0 <= row <= rows,
                (width == 0) == (columns == 0),
                begin == ScanSpec::start(scan_data@, old(mcu_buffer)@),
                base == old(callback).received(),
                callback.received() == base + calls,
                delivered(spec, begin, scale, done, calls),
                no_tile(frame, scale) ==> *callback == *old(callback),
                done == 0 ==> *callback == *old(callback),
                y == row * step_y,
                y >= height ==> row == rows,
                y < height ==> row < rows,
                done == row * columns,
                mcu_buffer@.len() == old(mcu_buffer)@.len(),
                work_buffer@.len() == old(work_buffer)@.len(),
                mcu_buffer@.len() >= mcu_samples(frame),
                work_buffer@.len() >= tile_bytes(frame),
                bitstream@.wf(),
                restart_counter <= frame.restart_interval,
                begin.after(spec, done) == Ok::<ScanSpec, Error>(
                    ScanSpec {
                        bits: bitstream@,
                        preds: dc_values@,
                        counter: restart_counter as int,
                        samples: mcu_buffer@,
                    },
                ),
            decreases height + 16 - y,
        {
            let ghost mut col: int = 0;
            let mut x: u32 = 0;
            while x < width
                invariant
                    pool.wf(),
                    self.scale == scale,
                    scale <= 3,
                    self.header.wf(pool@, pool.spec_used() as int),
                    spec == self.header.spec_in(pool@),
                    frame == self.header.frame@,
                    width == frame.width,
                    height == frame.height,
                    y < height,
                    step_x == mcu_pixel_width(frame),
                    step_y == mcu_pixel_height(frame),
                    step_x == 8 || step_x == 16,
                    columns == mcu_columns(frame),
                    0 <= col <= columns,
                    (width == 0) == (columns == 0),
                    begin == ScanSpec::start(scan_data@, old(mcu_buffer)@),
                    base == old(callback).received(),
                    callback.received() == base + calls,
                    delivered(spec, begin, scale, done, calls),
                    no_tile(frame, scale) ==> *callback == *old(callback),
                    done == 0 ==> *callback == *old(callback),
                    rows == mcu_rows(frame),
                    row < rows,
                    y == row * step_y,
                    x == col * step_x,
                    x >= width ==> col == columns,
                    x < width ==> col < columns,
                    0 <= row,
                    done == row * columns + col,
                    mcu_buffer@.len() == old(mcu_buffer)@.len(),
                    work_buffer@.len() == old(work_buffer)@.len(),
                    mcu_buffer@.len() >= mcu_samples(frame),
                    work_buffer@.len() >= tile_bytes(frame),
                    bitstream@.wf(),
                    restart_counter <= frame.restart_interval,
                    begin.after(spec, done) == Ok::<ScanSpec, Error>(
                        ScanSpec {
                            bits: bitstream@,
                            preds: dc_values@,
                            counter: restart_counter as int,
                            samples: mcu_buffer@,
                        },
                    ),
                decreases width + 16 - x,
            {
                proof {
                    assert(done + 1 <= columns * rows) by (nonlinear_arith)
                        requires
                            done == row * columns + col,
                            0 <= row < rows,
                            0 <= col < columns,
                    ;
                    crate::color::lemma_grid_index(row, col, rows, columns);
                    assert(mcu_x(frame, done as int) == x);
                    assert(mcu_y(frame, done as int) == y);
                }
                match scan_mcu(
                    &self.header,
                    pool,
                    &mut bitstream,
                    &mut dc_values,
                    &mut restart_counter,
                    mcu_buffer,
                ) {
                    Ok(()) => {},
                    Err(e) => {
                        proof {
                            if done >= 1 && begin.after(spec, 1) is Err {
                                lemma_scan_fails(begin, spec, 1, done);
                            }
                            lemma_scan_fails(begin, spec, done + 1, (columns * rows) as nat);
                            let nothing = Seq::<Delivery>::empty();
                            assert(explains(spec, begin, scale, done, nothing, Err::<(), Error>(e)));
                            lemma_explains_joined(
                                spec,
                                begin,
                                scale,
                                done,
                                calls,
                                nothing,
                                Err::<(), Error>(e),
                            );
                            assert(calls + nothing =~= calls);
                            assert(since(base, callback.received()) =~= calls);
                            assert(callback.received().subrange(0, base.len() as int) =~= base);
                        }
                        return Err(e);
                    },
                }
                let ghost earlier = calls;
                let ghost at = done;
                proof {
                    if no_tile(frame, scale) {
                        lemma_no_tile(frame, scale, x as u16, y as u16);
                    }
                }
                let answer = self.output_mcu(mcu_buffer, work_buffer, x as u16, y as u16, callback);
                proof {
                    done = done + 1;
                    col = col + 1;
                    lemma_tiling_step(width as int, step_x as int, x as int, col);
                    assert(row * columns + col == done);
                    if tile_rect(frame, scale, x as u16, y as u16) is Some {
                        let call = callback.received().last();
                        calls = earlier.push(call);
                        assert(callback.received() =~= callback.received().drop_last().push(call));
                        assert(callback.received() =~= base + calls);
                        assert(calls.drop_last() =~= earlier);
                    }
                }
                match answer {
                    Ok(()) => {},
                    Err(e) => {
                        proof {
                            if begin.after(spec, 1) is Err {
                                lemma_scan_fails(begin, spec, 1, done);
                            }
                            let call = callback.received().last();
                            let one = seq![call];
                            assert(one.drop_first() =~= Seq::<Delivery>::empty());
                            assert(explains(spec, begin, scale, at, one, Err::<(), Error>(e)));
                            lemma_explains_joined(
                                spec,
                                begin,
                                scale,
                                at,
                                earlier,
                                one,
                                Err::<(), Error>(e),
                            );
                            assert(earlier + one =~= calls);
                            assert(since(base, callback.received()) =~= calls);
                            assert(callback.received().subrange(0, base.len() as int) =~= base);
                        }
                        return Err(e);
                    },
                }
                x += step_x;
            }
            proof {
                row = row + 1;
                lemma_tiling_step(height as int, step_y as int, y as int, row);
                assert(row * columns == (row - 1) * columns + columns) by (nonlinear_arith);
            }
            y += step_y;
        }
        proof {
            assert(done == columns * rows) by (nonlinear_arith)
                requires
                    done == row * columns,
                    row == rows,
            ;
            if done >= 1 && begin.after(spec, 1) is Err {
                lemma_scan_fails(begin, spec, 1, done);
            }
            let nothing = Seq::<Delivery>::empty();
            lemma_explains_joined(spec, begin, scale, done, calls, nothing, Ok::<(), Error>(()));
            assert(calls + nothing =~= calls);
            assert(since(base, callback.received()) =~= calls);
            assert(callback.received().subrange(0, base.len() as int) =~= base);
        }
        Ok(())
    }

    /// Renders the tile of the MCU at (`x`, `y`) from the samples in
    /// `mcu_buffer` and hands it to `callback`. An MCU of which scaling leaves
    /// no pixel is passed over, and the sink is not asked. Else the sink
    /// takes exactly one call, with the rectangle of the tile and with
    /// `work_buffer`, whose front holds the pixels of the tile, and its
    /// answer decides the result.
    pub fn output_mcu<C: OutputCallback>(
        &self,
        mcu_buffer: &[i16],
        work_buffer: &mut [u8],
        x: u16,
        y: u16,
        callback: &mut Recorder<C>,
    ) -> (r: Result<(), Error>)
        requires
            x < self.spec_raw_width(),
            y < self.spec_raw_height(),
            mcu_buffer@.len() >= mcu_samples(self.header().frame@),
            old(work_buffer)@.len() >= tile_bytes(self.header().frame@),
        ensures
            final(work_buffer)@.len() == old(work_buffer)@.len(),
            tile_rect(self.header().frame@, self.spec_scale(), x, y) is None ==> {
                &&& r is Ok
                &&& final(work_buffer)@ == old(work_buffer)@
                &&& *final(callback) == *old(callback)
                &&& final(callback).received() == old(callback).received()
            },
            tile_rect(self.header().frame@, self.spec_scale(), x, y) is Some ==> {
                &&& final(callback).received().len() == old(callback).received().len() + 1
                &&& final(callback).received().drop_last() == old(callback).received()
                &&& final(callback).received().last().bitmap == final(work_buffer)@
                &&& delivers(
                    final(callback).received().last(),
                    self.header().frame@,
                    self.spec_scale(),
                    mcu_buffer@,
                    x,
                    y,
                )
                &&& r == verdict(final(callback).received().last().answer)
            },
    {
        proof {
            use_type_invariant(self);
        }
        match render_tile(&self.header.frame, self.scale, mcu_buffer, work_buffer, x, y) {
            None => Ok(()),
            Some(rect) => {
                let ghost before = callback.received();
                let answer = callback.output(self, work_buffer, &rect);
                assert(callback.received().drop_last() =~= before);
                after_output(answer)
            },
        }
    }

    /// Number of samples that the MCU buffer of
    /// [`JpegDecoder::decompress`] needs.
    #[verifier::when_used_as_spec(spec_mcu_buffer_size)]
    pub fn mcu_buffer_size(&self) -> (n: usize)
        ensures
            n == mcu_samples(self.header().frame@),
            n == self.spec_mcu_buffer_size(),
    {
        let wide: usize = self.header.frame.sampling.mcu_width() as usize;
        let high: usize = self.header.frame.sampling.mcu_height() as usize;
        assert(wide * high == luma_count(self.header.frame@) && wide * high <= 4) by (nonlinear_arith)
            requires
                wide == self.header.frame.sampling.spec_mcu_width(),
                high == self.header.frame.sampling.spec_mcu_height(),
                1 <= wide <= 2,
                1 <= high <= 2,
                luma_count(self.header.frame@) == self.header.frame.sampling.spec_mcu_width()
                    * self.header.frame.sampling.spec_mcu_height(),
        ;
        (wide * high + 2) * 64
    }

    /// Number of bytes that the work buffer of [`JpegDecoder::decompress`]
    /// needs.
    #[verifier::when_used_as_spec(spec_work_buffer_size)]
    pub fn work_buffer_size(&self) -> (n: usize)
        ensures
            n == tile_bytes(self.header().frame@),
            n == self.spec_work_buffer_size(),
    {
        let wide: usize = 8 * (self.header.frame.sampling.mcu_width() as usize);
        let high: usize = 8 * (self.header.frame.sampling.mcu_height() as usize);
        assert(wide * high <= 256 && wide * high == mcu_pixel_width(self.header.frame@)
            * mcu_pixel_height(self.header.frame@)) by (nonlinear_arith)
            requires
                wide == mcu_pixel_width(self.header.frame@),
                high == mcu_pixel_height(self.header.frame@),
                8 <= wide <= 16,
                8 <= high <= 16,
        ;
        if self.header.frame.num_components == 1 {
            wide * high
        } else {
            wide * high * 3
        }
    }

    /// Width of the image as the last call of
    /// [`JpegDecoder::decompress`] scaled it.
    #[verifier::when_used_as_spec(spec_width)]
    pub fn width(&self) -> (w: u16)
        ensures
            w == self.spec_raw_width() >> self.spec_scale(),
            w == self.spec_width(),
    {
        proof {
            use_type_invariant(self);
        }
        self.header.frame.width >> self.scale
    }

    /// Height of the image as the last call of
    /// [`JpegDecoder::decompress`] scaled it.
    #[verifier::when_used_as_spec(spec_height)]
    pub fn height(&self) -> (h: u16)
        ensures
            h == self.spec_raw_height() >> self.spec_scale(),
            h == self.spec_height(),
    {
        proof {
            use_type_invariant(self);
        }
        self.header.frame.height >> self.scale
    }

    /// Width of the image in the stream.
    #[verifier::when_used_as_spec(spec_raw_width)]
    pub fn raw_width(&self) -> (w: u16)
        ensures
            w == self.spec_raw_width(),
    {
        self.header.frame.width
    }

    /// Height of the image in the stream.
    #[verifier::when_used_as_spec(spec_raw_height)]
    pub fn raw_height(&self) -> (h: u16)
        ensures
            h == self.spec_raw_height(),
    {
        self.header.frame.height
    }

    /// Number of colour components: 1 for grayscale, 3 for colour, 0 before
    /// any stream.
    #[verifier::when_used_as_spec(spec_components)]
    pub fn components(&self) -> (n: u8)
        ensures
            n == self.spec_components(),
    {
        self.header.frame.num_components
    }
}

impl Default for JpegDecoder {
    fn default() -> (decoder: Self)
        ensures
            decoder.header().frame@ == FrameSpec::empty(),
            decoder.spec_scale() == 0,
    {
        JpegDecoder::new()
    }
}

/// The pixels of the tile of a call, as the sink finds them: the front of
/// the buffer, as many bytes as the rectangle has pixels, three times that
/// for a colour image.
pub open spec fn tile_front(call: Delivery) -> Seq<u8> {
    call.bitmap.subrange(
        0,
        call.rect.spec_width() * call.rect.spec_height() * (if call.components == 3 {
            3int
        } else {
            1int
        }),
    )
}

/// A call that hands over the tile of an MCU has the pixels of that tile at
/// the front of its buffer.
pub proof fn lemma_tile_front(
    call: Delivery,
    frame: FrameSpec,
    scale: u8,
    samples: Seq<i16>,
    x: u16,
    y: u16,
)
    requires
        scale <= 3,
        x < frame.width,
        y < frame.height,
        delivers(call, frame, scale, samples, x, y),
    ensures
        call.rect.spec_width() == scaled_width(frame, scale, x),
        call.rect.spec_height() == scaled_height(frame, scale, y),
        tile_front(call) == tile_pixels(frame, scale, samples, x, y),
{
    let w = crate::tile::clipped(frame.width, x, mcu_pixel_width(frame));
    let h = crate::tile::clipped(frame.height, y, mcu_pixel_height(frame));
    assert((x >> scale) <= x && (y >> scale) <= y && (w >> scale) <= w && (h >> scale) <= h)
        by (bit_vector);
}

/// Two calls hand over the same tile: the same rectangle, the same pixels,
/// and a decoder that reports the same image.
pub open spec fn same_tile(a: Delivery, b: Delivery) -> bool {
    &&& a.rect == b.rect
    &&& tile_front(a) == tile_front(b)
    &&& a.width == b.width
    &&& a.height == b.height
    &&& a.components == b.components
}

/// Decoding is repeatable. Two scans of the same data with the same headers
/// and the same scale, whatever the sample buffer held before each, hand the
/// sink the same tiles in the same order and end with the same result, where
/// the sink answers the second time as it did the first.
pub proof fn lemma_decompress_repeatable(
    header: HeaderSpec,
    data: Seq<u8>,
    scale: u8,
    first: Seq<i16>,
    second: Seq<i16>,
    k: nat,
    calls: Seq<Delivery>,
    again: Seq<Delivery>,
    r: Result<(), Error>,
    r_again: Result<(), Error>,
)
    requires
        scale <= 3,
        first.len() == second.len(),
        first.len() >= mcu_samples(header.frame),
        explains(header, ScanSpec::start(data, first), scale, k, calls, r),
        explains(header, ScanSpec::start(data, second), scale, k, again, r_again),
        forall|i: int|
            0 <= i < calls.len() && i < again.len() ==> (#[trigger] calls[i]).answer == again[i].answer,
    ensures
        r == r_again,
        calls.len() == again.len(),
        forall|i: int| 0 <= i < calls.len() ==> same_tile(#[trigger] calls[i], again[i]),
    decreases mcu_total(header.frame) - k,
{
    if k < mcu_total(header.frame) {
        let one = ScanSpec::start(data, first);
        let two = ScanSpec::start(data, second);
        let x = mcu_x(header.frame, k as int);
        let y = mcu_y(header.frame, k as int);
        crate::mcu::lemma_scan_covers(header, data, first, second, k + 1);
        lemma_samples_kept(header, one, k + 1);
        lemma_mcu_inside(header.frame, k as int);
        match (one.after(header, k + 1), two.after(header, k + 1)) {
            (Ok(a), Ok(b)) => {
                if tile_rect(header.frame, scale, x, y) is None {
                    lemma_decompress_repeatable(
                        header,
                        data,
                        scale,
                        first,
                        second,
                        k + 1,
                        calls,
                        again,
                        r,
                        r_again,
                    );
                } else {
                    crate::tile::lemma_tile_of_written(
                        header.frame,
                        scale,
                        a.samples,
                        b.samples,
                        x,
                        y,
                    );
                    lemma_tile_front(calls[0], header.frame, scale, a.samples, x, y);
                    lemma_tile_front(again[0], header.frame, scale, b.samples, x, y);
                    assert(same_tile(calls[0], again[0]));
                    assert(calls[0].answer == again[0].answer);
                    if calls[0].answer == Ok::<bool, Error>(true) {
                        let rest = calls.drop_first();
                        let rest_again = again.drop_first();
                        assert forall|i: int| 0 <= i < rest.len() && i < rest_again.len() implies (
                        #[trigger] rest[i]).answer == rest_again[i].answer by {
                            assert(rest[i] == calls[i + 1]);
                            assert(rest_again[i] == again[i + 1]);
                        }
                        lemma_decompress_repeatable(
                            header,
                            data,
                            scale,
                            first,
                            second,
                            k + 1,
                            rest,
                            rest_again,
                            r,
                            r_again,
                        );
                        assert forall|i: int| 0 <= i < calls.len() implies same_tile(
                            #[trigger] calls[i],
                            again[i],
                        ) by {
                            if i > 0 {
                                assert(rest[i - 1] == calls[i]);
                                assert(rest_again[i - 1] == again[i]);
                                assert(same_tile(rest[i - 1], rest_again[i - 1]));
                            }
                        }
                    }
                }
            },
            _ => {},
        }
    }
}

/// A scan keeps the length of the sample buffer.
pub proof fn lemma_samples_kept(header: HeaderSpec, begin: ScanSpec, k: nat)
    ensures
        begin.after(header, k) matches Ok(s) ==> s.samples.len() == begin.samples.len(),
    decreases k,
{
    if k > 0 {
        lemma_samples_kept(header, begin, (k - 1) as nat);
        match begin.after(header, (k - 1) as nat) {
            Ok(s) => {
                crate::mcu::lemma_step_keeps_length(header, s);
            },
            Err(e) => {},
        }
    }
}

/// Steps of `step` pixels cover a side of `size` pixels in as many steps as
/// the side, rounded up, holds.
pub proof fn lemma_tiling(size: int, step: int)
    requires
        size >= 0,
        step == 8 || step == 16,
    ensures
        (size + step - 1) / step >= 0,
        size == 0 <==> (size + step - 1) / step == 0,
{
    if step == 8 {
        assert((size + 8 - 1) / 8 >= 0);
    } else {
        assert((size + 16 - 1) / 16 >= 0);
    }
}

/// After step number `index`, which began at `at`, the walk over a side of
/// `size` pixels has reached its end exactly where `index` is the number of
/// steps that cover the side.
pub proof fn lemma_tiling_step(size: int, step: int, at: int, index: int)
    requires
        size >= 0,
        step == 8 || step == 16,
        index >= 1,
        at == (index - 1) * step,
        at < size,
    ensures
        at + step == index * step,
        index <= (size + step - 1) / step,
        at + step >= size <==> index == (size + step - 1) / step,
{
    if step == 8 {
        assert((index - 1) * 8 + 8 == index * 8);
        assert(index <= (size + 8 - 1) / 8);
    } else {
        assert((index - 1) * 16 + 16 == index * 16);
        assert(index <= (size + 16 - 1) / 16);
    }
}

} // verus!
