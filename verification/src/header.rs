//! The headers of a baseline JPEG stream: what they say about the frame, and
//! the tables that they fill.
//!
//! A stream begins with the SOI marker. Segments follow, each a marker
//! `FF xx`, a big-endian length of two bytes that counts itself, and the
//! payload. The walk through the segments ends at the start of scan.

use crate::huffman::{total_codes, HuffSpec, HuffmanTable, HUFF_LEN};
use crate::pool::{lemma_read_i32_local, same_bytes, I32Region, MemoryPool};
use crate::tables::{lemma_zigzag_position, ARAI_SCALE_FACTOR, ZIGZAG, ZIGZAG_POSITION};
use crate::types::{Error, SamplingFactor};
use vstd::prelude::*;
use vstd::slice::slice_subrange;

verus! {

/// Second byte of the start-of-image marker.
pub const SOI: u8 = 0xD8;

/// Second byte of the marker of a baseline frame header.
pub const SOF0: u8 = 0xC0;

/// Second byte of the marker of a Huffman table segment.
pub const DHT: u8 = 0xC4;

/// Second byte of the marker of a quantization table segment.
pub const DQT: u8 = 0xDB;

/// Second byte of the marker of a restart interval segment.
pub const DRI: u8 = 0xDD;

/// Second byte of the start-of-scan marker.
pub const SOS: u8 = 0xDA;

/// Second byte of the end-of-image marker.
pub const EOI: u8 = 0xD9;

/// Number of bytes that one quantization table takes in the pool.
pub const QTABLE_BYTES: usize = 256;

/// The 16-bit number with the high byte `high` and the low byte `low`.
pub open spec fn be16(high: u8, low: u8) -> u16 {
    (high as int * 256 + low as int) as u16
}

/// The 16-bit number with the high byte `high` and the low byte `low`.
pub fn read_be16(high: u8, low: u8) -> (v: u16)
    ensures
        v == be16(high, low),
{
    (high as u16) * 256 + (low as u16)
}

/// What the headers say about the frame, as plain values.
pub struct FrameSpec {
    /// Width of the image in pixels.
    pub width: u16,
    /// Height of the image in pixels.
    pub height: u16,
    /// Number of colour components: 0 before any frame header.
    pub components: u8,
    /// Subsampling of the chroma planes.
    pub sampling: SamplingFactor,
    /// The quantization table of each component.
    pub quant_ids: Seq<u8>,
    /// Number of MCUs between restart markers, 0 for none.
    pub restart_interval: u16,
    /// Offset of the start-of-scan marker in the stream.
    pub sos_position: nat,
}

impl FrameSpec {
    /// One or three components, or none yet, and each of them with one of
    /// the four quantization tables.
    pub open spec fn wf(self) -> bool {
        &&& self.components == 0 || self.components == 1 || self.components == 3
        &&& self.quant_ids.len() == 3
        &&& forall|i: int| 0 <= i < 3 ==> self.quant_ids[i] <= 3
    }

    /// The frame before any header.
    pub open spec fn empty() -> FrameSpec {
        FrameSpec {
            width: 0,
            height: 0,
            components: 0,
            sampling: SamplingFactor::Yuv444,
            quant_ids: seq![0u8, 0u8, 0u8],
            restart_interval: 0,
            sos_position: 0,
        }
    }

    /// The first fault among the components `i ..` of a frame header with
    /// `n` components. The first component must have one of the accepted
    /// sampling patterns and the others the factors 1x1, else the format is
    /// unsupported; a quantization table id over 3 is a format error.
    pub open spec fn component_fault(seg: Seq<u8>, i: int, n: int) -> Option<Error>
        decreases n - i,
    {
        if i >= n {
            None
        } else {
            let sampling = seg[7 + 3 * i];
            let quant = seg[8 + 3 * i];
            if i == 0 && SamplingFactor::spec_from_factor(sampling / 16, sampling % 16) is None {
                Some(Error::UnsupportedFormat)
            } else if i > 0 && sampling != 0x11 {
                Some(Error::UnsupportedFormat)
            } else if quant > 3 {
                Some(Error::FormatError)
            } else {
                Self::component_fault(seg, i + 1, n)
            }
        }
    }

    /// The frame after the frame header `seg`. The header gives the sample
    /// precision, which must be 8, the height, the width, the number of
    /// components, which must be 1 or 3, and three bytes for each component.
    pub open spec fn sof(self, seg: Seq<u8>) -> Result<FrameSpec, Error> {
        if seg.len() < 6 {
            Err(Error::FormatError)
        } else if seg[0] != 8 {
            Err(Error::UnsupportedFormat)
        } else if seg[5] != 1 && seg[5] != 3 {
            Err(Error::UnsupportedStandard)
        } else if seg.len() < 6 + 3 * seg[5] {
            Err(Error::FormatError)
        } else {
            match Self::component_fault(seg, 0, seg[5] as int) {
                Some(e) => Err(e),
                None => Ok(
                    FrameSpec {
                        height: be16(seg[1], seg[2]),
                        width: be16(seg[3], seg[4]),
                        components: seg[5],
                        sampling: SamplingFactor::spec_from_factor(seg[7] / 16, seg[7] % 16)->0,
                        quant_ids: Seq::new(
                            3,
                            |i: int|
                                if i < seg[5] {
                                    seg[8 + 3 * i]
                                } else {
                                    self.quant_ids[i]
                                },
                        ),
                        ..self
                    },
                ),
            }
        }
    }

    /// The frame after the restart interval segment `seg`.
    pub open spec fn dri(self, seg: Seq<u8>) -> Result<FrameSpec, Error> {
        if seg.len() < 2 {
            Err(Error::FormatError)
        } else {
            Ok(FrameSpec { restart_interval: be16(seg[0], seg[1]), ..self })
        }
    }

    /// Where the entropy-coded data of the stream `data` begin: behind the
    /// start-of-scan segment. A stream that ends before or with that segment
    /// is an input error, and so is no marker at the recorded offset a
    /// format error.
    pub open spec fn scan_start(self, data: Seq<u8>) -> Result<int, Error> {
        let i = self.sos_position as int;
        if i + 4 > data.len() {
            Err(Error::Input)
        } else if data[i] != 0xFF || data[i + 1] != SOS {
            Err(Error::FormatError)
        } else if i + 2 + be16(data[i + 2], data[i + 3]) < data.len() {
            Ok(i + 2 + be16(data[i + 2], data[i + 3]))
        } else {
            Err(Error::Input)
        }
    }
}

/// What the headers say about the frame.
#[derive(Debug, Clone, Copy)]
pub struct FrameInfo {
    /// Width of the image in pixels.
    pub width: u16,
    /// Height of the image in pixels.
    pub height: u16,
    /// Number of colour components: 0 before any frame header.
    pub num_components: u8,
    /// Subsampling of the chroma planes.
    pub sampling: SamplingFactor,
    /// The quantization table of each component.
    pub qtable_ids: [u8; 3],
    /// Number of MCUs between restart markers, 0 for none.
    pub restart_interval: u16,
    /// Offset of the start-of-scan marker in the stream.
    pub sos_position: usize,
}

impl View for FrameInfo {
    type V = FrameSpec;

    open spec fn view(&self) -> FrameSpec {
        FrameSpec {
            width: self.width,
            height: self.height,
            components: self.num_components,
            sampling: self.sampling,
            quant_ids: self.qtable_ids@,
            restart_interval: self.restart_interval,
            sos_position: self.sos_position as nat,
        }
    }
}

impl FrameInfo {
    /// The frame before any header.
    pub fn new() -> (frame: Self)
        ensures
            frame@ == FrameSpec::empty(),
            frame@.wf(),
    {
        let frame = FrameInfo {
            width: 0,
            height: 0,
            num_components: 0,
            sampling: SamplingFactor::Yuv444,
            qtable_ids: [0u8; 3],
            restart_interval: 0,
            sos_position: 0,
        };
        assert(frame@.quant_ids =~= seq![0u8, 0u8, 0u8]);
        frame
    }

    /// Takes the frame header `seg` in. After an error the frame is as it
    /// was.
    #[verifier::loop_isolation(false)]
    pub fn parse_sof(&mut self, seg: &[u8]) -> (r: Result<(), Error>)
        requires
            old(self)@.wf(),
        ensures
            final(self)@.wf(),
            match old(self)@.sof(seg@) {
                Ok(frame) => r is Ok && final(self)@ == frame,
                Err(e) => r == Err::<(), Error>(e) && *final(self) == *old(self),
            },
    {
        if seg.len() < 6 {
            return Err(Error::FormatError);
        }
        if seg[0] != 8 {
            return Err(Error::UnsupportedFormat);
        }
        let height: u16 = read_be16(seg[1], seg[2]);
        let width: u16 = read_be16(seg[3], seg[4]);
        let count: u8 = seg[5];
        if count != 1 && count != 3 {
            return Err(Error::UnsupportedStandard);
        }
        if seg.len() < 6 + 3 * (count as usize) {
            return Err(Error::FormatError);
        }
        let mut sampling: SamplingFactor = self.sampling;
        let mut ids: [u8; 3] = self.qtable_ids;
        let mut i: usize = 0;
        while i < count as usize
            invariant
                i <= count,
                count == 1 || count == 3,
                seg@.len() >= 6 + 3 * count,
                old(self)@.wf(),
                FrameSpec::component_fault(seg@, 0, count as int) == FrameSpec::component_fault(
                    seg@,
                    i as int,
                    count as int,
                ),
                i > 0 ==> Some(sampling) == SamplingFactor::spec_from_factor(
                    seg@[7] / 16,
                    seg@[7] % 16,
                ),
                forall|k: int| 0 <= k < i ==> ids@[k] == seg@[8 + 3 * k] && ids@[k] <= 3,
                forall|k: int| i <= k < 3 ==> ids@[k] == old(self).qtable_ids@[k],
            decreases count - i,
        {
            let factor: u8 = seg[7 + 3 * i];
            let quant: u8 = seg[8 + 3 * i];
            if i == 0 {
                match SamplingFactor::from_factor(factor / 16, factor % 16) {
                    Some(s) => {
                        sampling = s;
                    },
                    None => {
                        return Err(Error::UnsupportedFormat);
                    },
                }
            } else if factor != 0x11 {
                return Err(Error::UnsupportedFormat);
            }
            if quant > 3 {
                return Err(Error::FormatError);
            }
            ids[i] = quant;
            i += 1;
        }
        self.height = height;
        self.width = width;
        self.num_components = count;
        self.sampling = sampling;
        self.qtable_ids = ids;
        assert(self@.quant_ids =~= old(self)@.sof(seg@)->Ok_0.quant_ids);
        Ok(())
    }

    /// Takes the restart interval segment `seg` in.
    pub fn parse_dri(&mut self, seg: &[u8]) -> (r: Result<(), Error>)
        ensures
            match old(self)@.dri(seg@) {
                Ok(frame) => r is Ok && final(self)@ == frame,
                Err(e) => r == Err::<(), Error>(e) && *final(self) == *old(self),
            },
    {
        if seg.len() < 2 {
            return Err(Error::FormatError);
        }
        self.restart_interval = read_be16(seg[0], seg[1]);
        Ok(())
    }
}

/// The quantization table for the 64 coefficients `raw`, which come in
/// zigzag order: each coefficient times the Arai scale factor of its place
/// in the block, in raster order.
pub open spec fn quant_table(raw: Seq<int>) -> Seq<i32> {
    Seq::new(64, |k: int| (raw[ZIGZAG_POSITION[k] as int] * ARAI_SCALE_FACTOR[k]) as i32)
}

/// The tables of a stream, as plain values.
pub struct TablesSpec {
    /// The two Huffman tables for DC coefficients.
    pub dc: Seq<Option<HuffSpec>>,
    /// The two Huffman tables for AC coefficients.
    pub ac: Seq<Option<HuffSpec>>,
    /// The four quantization tables.
    pub quant: Seq<Option<Seq<i32>>>,
}

/// A Huffman table segment cannot be taken further from `seg`: the first
/// table in it is cut short, names a slot over 1, or has no code.
pub open spec fn dht_fault(seg: Seq<u8>) -> bool {
    ||| seg.len() < 17
    ||| seg[0] % 16 > 1
    ||| seg.len() < 17 + total_codes(seg.subrange(1, 17))
    ||| total_codes(seg.subrange(1, 17)) == 0
}

impl TablesSpec {
    /// No table at all.
    pub open spec fn empty() -> TablesSpec {
        TablesSpec {
            dc: seq![None, None],
            ac: seq![None, None],
            quant: seq![None, None, None, None],
        }
    }

    /// The tables with a lookup table for every Huffman table.
    pub open spec fn with_luts(self) -> TablesSpec {
        TablesSpec {
            dc: Seq::new(2, |i: int| with_lut_slot(self.dc[i])),
            ac: Seq::new(2, |i: int| with_lut_slot(self.ac[i])),
            ..self
        }
    }

    /// Two slots for each kind of Huffman table and four quantization tables
    /// of 64 entries.
    pub open spec fn wf(self) -> bool {
        &&& self.dc.len() == 2
        &&& self.ac.len() == 2
        &&& self.quant.len() == 4
        &&& forall|i: int| 0 <= i < 4 ==> (#[trigger] self.quant[i] matches Some(q) ==> q.len() == 64)
    }

    /// The tables after the Huffman table segment `seg`, and the pool offset
    /// after them, where the pool stands at `used` of `capacity` bytes. The
    /// segment holds tables one after the other; each is a byte with the
    /// class in its high half (odd for AC) and the slot in its low half, the
    /// 16 counts of the histogram, and one symbol for each code.
    pub open spec fn dht(self, seg: Seq<u8>, used: int, capacity: int) -> Result<
        (TablesSpec, int),
        Error,
    >
        decreases seg.len(),
    {
        if seg.len() == 0 {
            Ok((self, used))
        } else if dht_fault(seg) {
            Err(Error::FormatError)
        } else {
            let bits = seg.subrange(1, 17);
            let n = total_codes(bits) as int;
            let id = (seg[0] % 16) as int;
            let table = HuffSpec::canonical(bits, seg.subrange(17, 17 + n));
            if capacity - used < HuffmanTable::space_for(bits) {
                Err(Error::InsufficientMemory)
            } else {
                let next = if (seg[0] / 16) % 2 == 0 {
                    TablesSpec { dc: self.dc.update(id, Some(table)), ..self }
                } else {
                    TablesSpec { ac: self.ac.update(id, Some(table)), ..self }
                };
                next.dht(
                    seg.subrange(17 + n, seg.len() as int),
                    used + HuffmanTable::space_for(bits),
                    capacity,
                )
            }
        }
    }

    /// The coefficients of the first quantization table in `seg`: 64 bytes,
    /// or 64 big-endian pairs where `wide` is set.
    pub open spec fn dqt_raw(seg: Seq<u8>, wide: bool) -> Seq<int> {
        Seq::new(
            64,
            |i: int|
                if wide {
                    be16(seg[1 + 2 * i], seg[2 + 2 * i]) as int
                } else {
                    seg[1 + i] as int
                },
        )
    }

    /// The tables after the quantization table segment `seg`, and the pool
    /// offset after them. The segment holds tables one after the other; each
    /// is a byte with the precision in its high half (0 for bytes, else
    /// pairs) and the slot in its low half, and 64 coefficients in zigzag
    /// order.
    pub open spec fn dqt(self, seg: Seq<u8>, used: int, capacity: int) -> Result<
        (TablesSpec, int),
        Error,
    >
        decreases seg.len(),
    {
        if seg.len() == 0 {
            Ok((self, used))
        } else {
            let wide = seg[0] / 16 != 0;
            let size: int = if wide {
                129
            } else {
                65
            };
            if seg[0] % 16 > 3 {
                Err(Error::FormatError)
            } else if capacity - used < QTABLE_BYTES {
                Err(Error::InsufficientMemory)
            } else if seg.len() < size {
                Err(Error::FormatError)
            } else {
                let table = quant_table(Self::dqt_raw(seg, wide));
                (TablesSpec { quant: self.quant.update((seg[0] % 16) as int, Some(table)), ..self }).dqt(
                    seg.subrange(size, seg.len() as int),
                    used + QTABLE_BYTES,
                    capacity,
                )
            }
        }
    }
}

/// The tables of a stream: handles to what stands in the workspace pool.
#[derive(Debug, Clone, Copy)]
pub struct TableSet {
    /// The two Huffman tables for DC coefficients.
    pub huff_dc: [Option<HuffmanTable>; 2],
    /// The two Huffman tables for AC coefficients.
    pub huff_ac: [Option<HuffmanTable>; 2],
    /// The four quantization tables.
    pub qtables: [Option<I32Region>; 4],
}

/// The table in a slot as it reads from the pool bytes `bytes`.
pub open spec fn huffman_slot(slot: Option<HuffmanTable>, bytes: Seq<u8>) -> Option<HuffSpec> {
    match slot {
        Some(table) => Some(table.spec_in(bytes)),
        None => None,
    }
}

/// The table in a slot as it reads from the pool bytes `bytes`.
pub open spec fn quant_slot(slot: Option<I32Region>, bytes: Seq<u8>) -> Option<Seq<i32>> {
    match slot {
        Some(region) => Some(region.read(bytes)),
        None => None,
    }
}

/// The table in a slot is a table of the pool bytes `bytes` that lies below
/// the offset `used`, and it is the canonical table of its histogram.
pub open spec fn huffman_slot_wf(slot: Option<HuffmanTable>, bytes: Seq<u8>, used: int) -> bool {
    slot matches Some(table) ==> {
        &&& table.wf_in(bytes)
        &&& table.extent() <= used
        &&& canonical_slot(Some(table.spec_in(bytes)))
    }
}

/// The table in a slot has 64 entries and lies below the offset `used`.
pub open spec fn quant_slot_wf(slot: Option<I32Region>, used: int) -> bool {
    slot matches Some(region) ==> region.count == 64 && region.end() <= used
}

/// 1 where the slot holds a table without a lookup table, else 0.
pub open spec fn lacks_lut(slot: Option<HuffmanTable>) -> int {
    if slot matches Some(table) && table.lut is None {
        1
    } else {
        0
    }
}

/// The table of a slot with a lookup table, where it had none.
pub open spec fn with_lut_slot(slot: Option<HuffSpec>) -> Option<HuffSpec> {
    match slot {
        Some(table) => Some(
            if table.lut is Some {
                table
            } else {
                table.with_lut()
            },
        ),
        None => None,
    }
}

fn count_missing(slot: &Option<HuffmanTable>) -> (n: usize)
    ensures
        n == lacks_lut(*slot),
{
    match slot {
        Some(table) => if table.lut.is_none() {
            1
        } else {
            0
        },
        None => 0,
    }
}

/// Builds the lookup table of the table in `slot`, where there is a table
/// without one, and returns the slot with it.
fn upgrade_slot(slot: Option<HuffmanTable>, pool: &mut MemoryPool) -> (r: Option<HuffmanTable>)
    requires
        old(pool).wf(),
        huffman_slot_wf(slot, old(pool)@, old(pool).spec_used() as int),
        old(pool).spec_remaining() >= 2 * HUFF_LEN * lacks_lut(slot),
    ensures
        final(pool).wf(),
        final(pool)@.len() == old(pool)@.len(),
        same_bytes(old(pool)@, final(pool)@, 0, old(pool).spec_used() as int),
        final(pool).spec_used() == old(pool).spec_used() + 2 * HUFF_LEN * lacks_lut(slot),
        huffman_slot_wf(r, final(pool)@, final(pool).spec_used() as int),
        huffman_slot(r, final(pool)@) == with_lut_slot(huffman_slot(slot, old(pool)@)),
        lacks_lut(r) == 0,
{
    match slot {
        Some(table) => {
            if table.lut.is_none() {
                let mut built: HuffmanTable = table;
                match built.build_fast_lut(pool) {
                    Ok(()) => Some(built),
                    Err(e) => Some(table),
                }
            } else {
                Some(table)
            }
        },
        None => None,
    }
}

/// The number of codes of the histogram `bits`.
pub fn count_codes(bits: &[u8]) -> (n: usize)
    requires
        bits@.len() == 16,
    ensures
        n == total_codes(bits@),
        n <= 4080,
{
    let mut n: usize = 0;
    let mut l: usize = 0;
    while l < 16
        invariant
            l <= 16,
            bits@.len() == 16,
            n == crate::huffman::count_below(bits@, l as nat),
            n <= 255 * l,
        decreases 16 - l,
    {
        n += bits[l] as usize;
        l += 1;
    }
    n
}

/// Writes the quantization table whose coefficients stand in `seg` behind
/// the byte at `p` to `region`.
fn fill_quant(pool: &mut MemoryPool, region: &I32Region, seg: &[u8], p: usize, wide: bool)
    requires
        old(pool).wf(),
        region.count == 64,
        region.end() <= old(pool)@.len(),
        p + (if wide {
            129int
        } else {
            65int
        }) <= seg@.len(),
    ensures
        final(pool).wf(),
        final(pool).spec_used() == old(pool).spec_used(),
        crate::pool::same_outside(old(pool)@, final(pool)@, region.start as int, region.end()),
        region.read(final(pool)@) == quant_table(
            TablesSpec::dqt_raw(seg@.subrange(p as int, seg@.len() as int), wide),
        ),
{
    let ghost raw = TablesSpec::dqt_raw(seg@.subrange(p as int, seg@.len() as int), wide);
    let ghost goal = quant_table(raw);
    assert(seg@.len() == vstd::slice::spec_slice_len(seg));
    let mut i: usize = 0;
    while i < 64
        invariant
            i <= 64,
            seg@.len() <= usize::MAX,
            p + (if wide {
                129int
            } else {
                65int
            }) <= seg@.len(),
            raw == TablesSpec::dqt_raw(seg@.subrange(p as int, seg@.len() as int), wide),
            goal == quant_table(raw),
            pool.wf(),
            pool.spec_used() == old(pool).spec_used(),
            region.count == 64,
            region.end() <= pool@.len(),
            crate::pool::same_outside(old(pool)@, pool@, region.start as int, region.end()),
            forall|k: int|
                0 <= k < 64 && ZIGZAG_POSITION[k] < i ==> #[trigger] region.read(pool@)[k] == goal[k],
        decreases 64 - i,
    {
        proof {
            crate::tables::lemma_zigzag_entry(i as int);
            lemma_zigzag_position(ZIGZAG[i as int] as int);
        }
        let zi: usize = ZIGZAG[i] as usize;
        let value: u32 = if wide {
            read_be16(seg[p + 1 + 2 * i], seg[p + 2 + 2 * i]) as u32
        } else {
            seg[p + 1 + i] as u32
        };
        let factor: u32 = ARAI_SCALE_FACTOR[zi] as u32;
        assert(value * factor <= 65535 * 15746) by (nonlinear_arith)
            requires
                value <= 65535,
                factor <= 15746,
        ;
        assert(value == raw[i as int]);
        let ghost before = region.read(pool@);
        pool.set_i32(&region, zi, (value * factor) as i32);
        proof {
            assert(region.read(pool@) == before.update(zi as int, (value * factor) as i32));
            assert(goal[zi as int] == (value * factor) as i32);
            assert forall|k: int| 0 <= k < 64 && ZIGZAG_POSITION[k] < i + 1 implies #[trigger] region.read(
                pool@,
            )[k] == goal[k] by {
                lemma_zigzag_position(k);
            }
        }
        i += 1;
    }
    proof {
        assert forall|k: int| 0 <= k < 64 implies region.read(pool@)[k] == goal[k] by {
            lemma_zigzag_position(k);
        }
        assert(region.read(pool@) =~= goal);
    }
}

impl TableSet {
    /// The tables as they read from the pool bytes `bytes`.
    pub open spec fn spec_in(&self, bytes: Seq<u8>) -> TablesSpec {
        TablesSpec {
            dc: Seq::new(2, |i: int| huffman_slot(self.huff_dc[i], bytes)),
            ac: Seq::new(2, |i: int| huffman_slot(self.huff_ac[i], bytes)),
            quant: Seq::new(4, |i: int| quant_slot(self.qtables[i], bytes)),
        }
    }

    /// Every table is a table of the pool bytes `bytes` and lies below the
    /// offset `used`.
    pub open spec fn wf(&self, bytes: Seq<u8>, used: int) -> bool {
        &&& used <= bytes.len()
        &&& forall|i: int| 0 <= i < 2 ==> huffman_slot_wf(#[trigger] self.huff_dc[i], bytes, used)
        &&& forall|i: int| 0 <= i < 2 ==> huffman_slot_wf(#[trigger] self.huff_ac[i], bytes, used)
        &&& forall|i: int| 0 <= i < 4 ==> quant_slot_wf(#[trigger] self.qtables[i], used)
    }

    /// No table at all.
    pub fn new() -> (tables: Self)
        ensures
            tables.huff_dc@ == seq![None::<HuffmanTable>, None::<HuffmanTable>],
            tables.huff_ac@ == seq![None::<HuffmanTable>, None::<HuffmanTable>],
            tables.qtables@ == seq![
                None::<I32Region>,
                None::<I32Region>,
                None::<I32Region>,
                None::<I32Region>,
            ],
            forall|bytes: Seq<u8>| #[trigger] tables.spec_in(bytes) == TablesSpec::empty(),
            forall|bytes: Seq<u8>, used: int| used <= bytes.len() ==> #[trigger] tables.wf(bytes, used),
    {
        let tables = TableSet {
            huff_dc: [None, None],
            huff_ac: [None, None],
            qtables: [None, None, None, None],
        };
        assert(tables.huff_dc@ =~= seq![None::<HuffmanTable>, None::<HuffmanTable>]);
        assert(tables.huff_ac@ =~= seq![None::<HuffmanTable>, None::<HuffmanTable>]);
        assert(tables.qtables@ =~= seq![
            None::<I32Region>,
            None::<I32Region>,
            None::<I32Region>,
            None::<I32Region>,
        ]);
        assert forall|bytes: Seq<u8>| #[trigger] tables.spec_in(bytes) == TablesSpec::empty() by {
            assert(tables.spec_in(bytes).dc =~= TablesSpec::empty().dc);
            assert(tables.spec_in(bytes).ac =~= TablesSpec::empty().ac);
            assert(tables.spec_in(bytes).quant =~= TablesSpec::empty().quant);
        }
        tables
    }

    /// The tables read the same, and stay tables of the pool, where the
    /// bytes below `used` stay as they are.
    pub proof fn lemma_frame(&self, a: Seq<u8>, b: Seq<u8>, used: int, later: int)
        requires
            self.wf(a, used),
            same_bytes(a, b, 0, used),
            used <= later <= b.len(),
        ensures
            self.wf(b, later),
            self.spec_in(b) == self.spec_in(a),
            self.spec_in(a).wf(),
    {
        assert forall|i: int| 0 <= i < 2 implies huffman_slot_wf(#[trigger] self.huff_dc[i], b, later)
            && huffman_slot(self.huff_dc[i], b) == huffman_slot(self.huff_dc[i], a) by {
            assert(huffman_slot_wf(self.huff_dc[i], a, used));
            match self.huff_dc[i] {
                Some(table) => {
                    table.lemma_frame(a, b, used);
                },
                None => {},
            }
        }
        assert forall|i: int| 0 <= i < 2 implies huffman_slot_wf(#[trigger] self.huff_ac[i], b, later)
            && huffman_slot(self.huff_ac[i], b) == huffman_slot(self.huff_ac[i], a) by {
            assert(huffman_slot_wf(self.huff_ac[i], a, used));
            match self.huff_ac[i] {
                Some(table) => {
                    table.lemma_frame(a, b, used);
                },
                None => {},
            }
        }
        assert forall|i: int| 0 <= i < 4 implies quant_slot_wf(#[trigger] self.qtables[i], later)
            && quant_slot(self.qtables[i], b) == quant_slot(self.qtables[i], a) by {
            assert(quant_slot_wf(self.qtables[i], used));
            match self.qtables[i] {
                Some(region) => {
                    lemma_read_i32_local(region, a, b);
                },
                None => {},
            }
        }
        assert(self.spec_in(b).dc =~= self.spec_in(a).dc);
        assert(self.spec_in(b).ac =~= self.spec_in(a).ac);
        assert(self.spec_in(b).quant =~= self.spec_in(a).quant);
        assert forall|i: int| 0 <= i < 4 implies (#[trigger] self.spec_in(a).quant[i] matches Some(
            q,
        ) ==> q.len() == 64) by {
            assert(quant_slot_wf(self.qtables[i], used));
        }
    }

    /// Takes the Huffman table segment `seg` in and builds its tables in the
    /// pool.
    pub fn parse_dht(&mut self, seg: &[u8], pool: &mut MemoryPool) -> (r: Result<(), Error>)
        requires
            old(pool).wf(),
            old(self).wf(old(pool)@, old(pool).spec_used() as int),
        ensures
            final(pool).wf(),
            final(pool)@.len() == old(pool)@.len(),
            old(pool).spec_used() <= final(pool).spec_used(),
            same_bytes(old(pool)@, final(pool)@, 0, old(pool).spec_used() as int),
            final(self).wf(final(pool)@, final(pool).spec_used() as int),
            match old(self).spec_in(old(pool)@).dht(
                seg@,
                old(pool).spec_used() as int,
                old(pool)@.len() as int,
            ) {
                Ok((tables, used)) => r is Ok && final(self).spec_in(final(pool)@) == tables
                    && final(pool).spec_used() == used,
                Err(e) => r == Err::<(), Error>(e),
            },
    {
        let ghost orig = pool@;
        let ghost orig_used = pool.spec_used() as int;
        let ghost capacity = pool@.len() as int;
        let ghost goal = self.spec_in(pool@).dht(seg@, orig_used, capacity);
        proof {
            self.lemma_frame(orig, orig, orig_used, orig_used);
        }
        let mut p: usize = 0;
        assert(seg@.subrange(0, seg@.len() as int) =~= seg@);
        while p < seg.len()
            invariant
                p <= seg@.len(),
                orig == old(pool)@,
                orig_used == old(pool).spec_used(),
                pool.wf(),
                pool@.len() == capacity,
                orig.len() == capacity,
                orig_used <= pool.spec_used(),
                same_bytes(orig, pool@, 0, orig_used),
                self.wf(pool@, pool.spec_used() as int),
                goal == old(self).spec_in(old(pool)@).dht(seg@, orig_used, capacity),
                goal == self.spec_in(pool@).dht(
                    seg@.subrange(p as int, seg@.len() as int),
                    pool.spec_used() as int,
                    capacity,
                ),
            decreases seg@.len() - p,
        {
            let ghost rest = seg@.subrange(p as int, seg@.len() as int);
            let ghost before = pool@;
            let ghost before_used = pool.spec_used() as int;
            let ghost before_spec = self.spec_in(pool@);
            if seg.len() - p < 17 {
                return Err(Error::FormatError);
            }
            let info: u8 = seg[p];
            let id: usize = (info % 16) as usize;
            if id > 1 {
                return Err(Error::FormatError);
            }
            let bits: &[u8] = slice_subrange(seg, p + 1, p + 17);
            assert(bits@ =~= rest.subrange(1, 17));
            let n: usize = count_codes(bits);
            if seg.len() - p < 17 + n {
                return Err(Error::FormatError);
            }
            let values: &[u8] = slice_subrange(seg, p + 17, p + 17 + n);
            assert(values@ =~= rest.subrange(17, 17 + n));
            assert(rest.subrange(17 + n, rest.len() as int) =~= seg@.subrange(
                p + 17 + n,
                seg@.len() as int,
            ));
            let table: HuffmanTable = match HuffmanTable::create_in_pool(pool, bits, values) {
                Ok(table) => table,
                Err(e) => {
                    proof {
                        self.lemma_frame(before, pool@, before_used, pool.spec_used() as int);
                    }
                    return Err(e);
                },
            };
            proof {
                self.lemma_frame(before, pool@, before_used, pool.spec_used() as int);
            }
            if (info / 16) % 2 == 0 {
                self.huff_dc[id] = Some(table);
                assert(self.spec_in(pool@).dc =~= before_spec.dc.update(
                    id as int,
                    Some(table.spec_in(pool@)),
                ));
                assert(self.spec_in(pool@).ac =~= before_spec.ac);
            } else {
                self.huff_ac[id] = Some(table);
                assert(self.spec_in(pool@).ac =~= before_spec.ac.update(
                    id as int,
                    Some(table.spec_in(pool@)),
                ));
                assert(self.spec_in(pool@).dc =~= before_spec.dc);
            }
            assert(self.spec_in(pool@).quant =~= before_spec.quant);
            p += 17 + n;
        }
        Ok(())
    }

    /// Number of Huffman tables that have no lookup table.
    pub open spec fn missing_luts(&self) -> int {
        lacks_lut(self.huff_dc[0]) + lacks_lut(self.huff_dc[1]) + lacks_lut(self.huff_ac[0])
            + lacks_lut(self.huff_ac[1])
    }

    /// Builds the lookup table of every Huffman table that has none, so that
    /// [`HuffmanTable::decode`] goes through the lookup table. Each table
    /// takes 2048 bytes of the pool; a pool with too little room for all of
    /// them is a memory error, and leaves tables and pool as they were.
    pub fn build_lookup_tables(&mut self, pool: &mut MemoryPool) -> (r: Result<(), Error>)
        requires
            old(pool).wf(),
            old(self).wf(old(pool)@, old(pool).spec_used() as int),
        ensures
            final(pool).wf(),
            final(pool)@.len() == old(pool)@.len(),
            same_bytes(old(pool)@, final(pool)@, 0, old(pool).spec_used() as int),
            final(self).wf(final(pool)@, final(pool).spec_used() as int),
            r is Err <==> old(pool).spec_remaining() < 2 * HUFF_LEN * old(self).missing_luts(),
            r is Err ==> r == Err::<(), Error>(Error::InsufficientMemory) && *final(self) == *old(
                self,
            ) && final(pool)@ == old(pool)@ && final(pool).spec_used() == old(pool).spec_used(),
            r is Ok ==> {
                &&& final(self).spec_in(final(pool)@) == old(self).spec_in(old(pool)@).with_luts()
                &&& final(self).missing_luts() == 0
                &&& final(pool).spec_used() == old(pool).spec_used() + 2 * HUFF_LEN * old(
                    self,
                ).missing_luts()
            },
    {
        let ghost orig = pool@;
        let ghost before = self.spec_in(pool@);
        let missing: usize = count_missing(&self.huff_dc[0]) + count_missing(&self.huff_dc[1])
            + count_missing(&self.huff_ac[0]) + count_missing(&self.huff_ac[1]);
        assert(2 * HUFF_LEN == 2048);
        if pool.remaining() < 2048 * missing {
            return Err(Error::InsufficientMemory);
        }
        self.upgrade_dc(0, pool);
        self.upgrade_dc(1, pool);
        self.upgrade_ac(0, pool);
        self.upgrade_ac(1, pool);
        proof {
            let after = self.spec_in(pool@);
            assert(after.dc =~= before.with_luts().dc);
            assert(after.ac =~= before.with_luts().ac);
        }
        Ok(())
    }

    /// Builds the lookup table of the DC table in slot `i`, where there is a
    /// table without one.
    fn upgrade_dc(&mut self, i: usize, pool: &mut MemoryPool)
        requires
            i < 2,
            old(pool).wf(),
            old(self).wf(old(pool)@, old(pool).spec_used() as int),
            old(pool).spec_remaining() >= 2048 * lacks_lut(old(self).huff_dc[i as int]),
        ensures
            final(pool).wf(),
            final(pool)@.len() == old(pool)@.len(),
            same_bytes(old(pool)@, final(pool)@, 0, old(pool).spec_used() as int),
            final(pool).spec_used() == old(pool).spec_used() + 2048 * lacks_lut(
                old(self).huff_dc[i as int],
            ),
            final(self).wf(final(pool)@, final(pool).spec_used() as int),
            final(self).huff_ac == old(self).huff_ac,
            final(self).qtables == old(self).qtables,
            forall|k: int| 0 <= k < 2 && k != i ==> final(self).huff_dc[k] == old(self).huff_dc[k],
            lacks_lut(final(self).huff_dc[i as int]) == 0,
            final(self).spec_in(final(pool)@).ac == old(self).spec_in(old(pool)@).ac,
            final(self).spec_in(final(pool)@).quant == old(self).spec_in(old(pool)@).quant,
            final(self).spec_in(final(pool)@).dc == old(self).spec_in(old(pool)@).dc.update(
                i as int,
                with_lut_slot(old(self).spec_in(old(pool)@).dc[i as int]),
            ),
    {
        let ghost a = pool@;
        let ghost used = pool.spec_used() as int;
        let ghost before = self.spec_in(pool@);
        assert(huffman_slot_wf(self.huff_dc[i as int], pool@, used));
        assert(2 * HUFF_LEN == 2048);
        let slot = upgrade_slot(self.huff_dc[i], pool);
        proof {
            self.lemma_frame(a, pool@, used, pool.spec_used() as int);
        }
        self.huff_dc[i] = slot;
        assert(self.spec_in(pool@).dc =~= before.dc.update(i as int, with_lut_slot(before.dc[i as int])));
        assert(self.spec_in(pool@).ac =~= before.ac);
        assert(self.spec_in(pool@).quant =~= before.quant);
    }

    /// Builds the lookup table of the AC table in slot `i`, where there is a
    /// table without one.
    fn upgrade_ac(&mut self, i: usize, pool: &mut MemoryPool)
        requires
            i < 2,
            old(pool).wf(),
            old(self).wf(old(pool)@, old(pool).spec_used() as int),
            old(pool).spec_remaining() >= 2048 * lacks_lut(old(self).huff_ac[i as int]),
        ensures
            final(pool).wf(),
            final(pool)@.len() == old(pool)@.len(),
            same_bytes(old(pool)@, final(pool)@, 0, old(pool).spec_used() as int),
            final(pool).spec_used() == old(pool).spec_used() + 2048 * lacks_lut(
                old(self).huff_ac[i as int],
            ),
            final(self).wf(final(pool)@, final(pool).spec_used() as int),
            final(self).huff_dc == old(self).huff_dc,
            final(self).qtables == old(self).qtables,
            forall|k: int| 0 <= k < 2 && k != i ==> final(self).huff_ac[k] == old(self).huff_ac[k],
            lacks_lut(final(self).huff_ac[i as int]) == 0,
            final(self).spec_in(final(pool)@).dc == old(self).spec_in(old(pool)@).dc,
            final(self).spec_in(final(pool)@).quant == old(self).spec_in(old(pool)@).quant,
            final(self).spec_in(final(pool)@).ac == old(self).spec_in(old(pool)@).ac.update(
                i as int,
                with_lut_slot(old(self).spec_in(old(pool)@).ac[i as int]),
            ),
    {
        let ghost a = pool@;
        let ghost used = pool.spec_used() as int;
        let ghost before = self.spec_in(pool@);
        assert(huffman_slot_wf(self.huff_ac[i as int], pool@, used));
        assert(2 * HUFF_LEN == 2048);
        let slot = upgrade_slot(self.huff_ac[i], pool);
        proof {
            self.lemma_frame(a, pool@, used, pool.spec_used() as int);
        }
        self.huff_ac[i] = slot;
        assert(self.spec_in(pool@).ac =~= before.ac.update(i as int, with_lut_slot(before.ac[i as int])));
        assert(self.spec_in(pool@).dc =~= before.dc);
        assert(self.spec_in(pool@).quant =~= before.quant);
    }

    /// Takes the quantization table segment `seg` in and builds its tables in
    /// the pool.
    pub fn parse_dqt(&mut self, seg: &[u8], pool: &mut MemoryPool) -> (r: Result<(), Error>)
        requires
            old(pool).wf(),
            old(self).wf(old(pool)@, old(pool).spec_used() as int),
        ensures
            final(pool).wf(),
            final(pool)@.len() == old(pool)@.len(),
            old(pool).spec_used() <= final(pool).spec_used(),
            same_bytes(old(pool)@, final(pool)@, 0, old(pool).spec_used() as int),
            final(self).wf(final(pool)@, final(pool).spec_used() as int),
            match old(self).spec_in(old(pool)@).dqt(
                seg@,
                old(pool).spec_used() as int,
                old(pool)@.len() as int,
            ) {
                Ok((tables, used)) => r is Ok && final(self).spec_in(final(pool)@) == tables
                    && final(pool).spec_used() == used,
                Err(e) => r == Err::<(), Error>(e),
            },
    {
        let ghost orig = pool@;
        let ghost orig_used = pool.spec_used() as int;
        let ghost capacity = pool@.len() as int;
        let ghost goal = self.spec_in(pool@).dqt(seg@, orig_used, capacity);
        let mut p: usize = 0;
        assert(seg@.subrange(0, seg@.len() as int) =~= seg@);
        while p < seg.len()
            invariant
                p <= seg@.len(),
                orig == old(pool)@,
                orig_used == old(pool).spec_used(),
                pool.wf(),
                pool@.len() == capacity,
                orig.len() == capacity,
                orig_used <= pool.spec_used(),
                same_bytes(orig, pool@, 0, orig_used),
                self.wf(pool@, pool.spec_used() as int),
                goal == old(self).spec_in(old(pool)@).dqt(seg@, orig_used, capacity),
                goal == self.spec_in(pool@).dqt(
                    seg@.subrange(p as int, seg@.len() as int),
                    pool.spec_used() as int,
                    capacity,
                ),
            decreases seg@.len() - p,
        {
            let ghost rest = seg@.subrange(p as int, seg@.len() as int);
            let ghost before = pool@;
            let ghost before_used = pool.spec_used() as int;
            let ghost before_spec = self.spec_in(pool@);
            let info: u8 = seg[p];
            let wide: bool = info / 16 != 0;
            let id: usize = (info % 16) as usize;
            if id > 3 {
                return Err(Error::FormatError);
            }
            let region: I32Region = match pool.alloc_i32(64) {
                Some(region) => region,
                None => {
                    return Err(Error::InsufficientMemory);
                },
            };
            proof {
                self.lemma_frame(before, pool@, before_used, pool.spec_used() as int);
            }
            let size: usize = if wide {
                129
            } else {
                65
            };
            if seg.len() - p < size {
                return Err(Error::FormatError);
            }
            let ghost allocated = pool@;
            fill_quant(pool, &region, seg, p, wide);
            proof {
                assert(same_bytes(allocated, pool@, 0, before_used));
                self.lemma_frame(before, pool@, before_used, pool.spec_used() as int);
                assert(rest.subrange(size as int, rest.len() as int) =~= seg@.subrange(
                    p + size,
                    seg@.len() as int,
                ));
            }
            self.qtables[id] = Some(region);
            assert(self.spec_in(pool@).quant =~= before_spec.quant.update(
                id as int,
                Some(region.read(pool@)),
            ));
            assert(self.spec_in(pool@).dc =~= before_spec.dc);
            assert(self.spec_in(pool@).ac =~= before_spec.ac);
            p += size;
        }
        Ok(())
    }
}

/// The frame and the tables of a stream, as plain values.
pub struct HeaderSpec {
    /// What the headers say about the frame.
    pub frame: FrameSpec,
    /// The tables that the headers filled.
    pub tables: TablesSpec,
}

impl HeaderSpec {
    /// A header before any segment.
    pub open spec fn empty() -> HeaderSpec {
        HeaderSpec { frame: FrameSpec::empty(), tables: TablesSpec::empty() }
    }

    /// The frame is a frame and the tables have their slots.
    pub open spec fn wf(self) -> bool {
        self.frame.wf() && self.tables.wf()
    }

    /// The Huffman tables of component `i`: slot 0 for luma, slot 1 for
    /// chroma.
    pub open spec fn table_slot(i: int) -> int {
        if i == 0 {
            0
        } else {
            1
        }
    }

    /// Every component has its two Huffman tables and its quantization
    /// table.
    pub open spec fn ready(self) -> bool {
        forall|i: int|
            0 <= i < self.frame.components ==> {
                &&& (#[trigger] self.tables.dc[Self::table_slot(i)]) is Some
                &&& self.tables.ac[Self::table_slot(i)] is Some
                &&& self.tables.quant[self.frame.quant_ids[i] as int] is Some
            }
    }

    /// What the start-of-scan segment `seg` asks: its component count is the
    /// one of the frame, and every component has its tables.
    pub open spec fn sos(self, seg: Seq<u8>) -> Result<(), Error> {
        if seg.len() == 0 || seg[0] != self.frame.components || !self.ready() {
            Err(Error::FormatError)
        } else {
            Ok(())
        }
    }

    /// The header after the segments of `data` from `pos` to the start of
    /// scan, and the pool offset after them. A segment that does not fit in
    /// the data is an input error; a length under 2 or a marker that does
    /// not begin with `FF` is a format error, and so is the end of the image
    /// before the scan. Frame headers other than the baseline one are not
    /// supported. Segments of other kinds are passed over.
    pub open spec fn segments(self, data: Seq<u8>, pos: int, used: int, capacity: int) -> Result<
        (HeaderSpec, int),
        Error,
    >
        decreases data.len() - pos,
    {
        if pos < 0 || pos + 4 > data.len() {
            Err(Error::Input)
        } else {
            let kind = data[pos + 1];
            let length = be16(data[pos + 2], data[pos + 3]) as int;
            if length < 2 || data[pos] != 0xFF {
                Err(Error::FormatError)
            } else if pos + 2 + length > data.len() {
                Err(Error::Input)
            } else {
                let seg = data.subrange(pos + 4, pos + 2 + length);
                let next = pos + 2 + length;
                if kind == SOF0 {
                    match self.frame.sof(seg) {
                        Err(e) => Err(e),
                        Ok(frame) => (HeaderSpec { frame, ..self }).segments(
                            data,
                            next,
                            used,
                            capacity,
                        ),
                    }
                } else if kind == DHT {
                    match self.tables.dht(seg, used, capacity) {
                        Err(e) => Err(e),
                        Ok((tables, after)) => (HeaderSpec { tables, ..self }).segments(
                            data,
                            next,
                            after,
                            capacity,
                        ),
                    }
                } else if kind == DQT {
                    match self.tables.dqt(seg, used, capacity) {
                        Err(e) => Err(e),
                        Ok((tables, after)) => (HeaderSpec { tables, ..self }).segments(
                            data,
                            next,
                            after,
                            capacity,
                        ),
                    }
                } else if kind == DRI {
                    match self.frame.dri(seg) {
                        Err(e) => Err(e),
                        Ok(frame) => (HeaderSpec { frame, ..self }).segments(
                            data,
                            next,
                            used,
                            capacity,
                        ),
                    }
                } else if kind == SOS {
                    match self.sos(seg) {
                        Err(e) => Err(e),
                        Ok(()) => Ok(
                            (
                                HeaderSpec {
                                    frame: FrameSpec { sos_position: pos as nat, ..self.frame },
                                    ..self
                                },
                                used,
                            ),
                        ),
                    }
                } else if kind == EOI {
                    Err(Error::FormatError)
                } else if 0xC0 <= kind <= 0xCF {
                    Err(Error::UnsupportedStandard)
                } else {
                    self.segments(data, next, used, capacity)
                }
            }
        }
    }

    /// The header after the headers of the stream `data`, and the pool
    /// offset after them. Fewer than two bytes are an input error, and a
    /// stream that does not begin with the SOI marker is a format error.
    pub open spec fn parse(self, data: Seq<u8>, used: int, capacity: int) -> Result<
        (HeaderSpec, int),
        Error,
    > {
        if data.len() < 2 {
            Err(Error::Input)
        } else if data[0] != 0xFF || data[1] != SOI {
            Err(Error::FormatError)
        } else {
            self.segments(data, 2, used, capacity)
        }
    }
}

/// The table of a slot, where there is one, is the canonical table of its
/// histogram and symbols, with or without its lookup table.
pub open spec fn canonical_slot(slot: Option<HuffSpec>) -> bool {
    slot matches Some(table) ==> {
        &&& table.bits.len() == 16
        &&& table.symbols.len() == total_codes(table.bits)
        &&& (table == HuffSpec::canonical(table.bits, table.symbols) || table
            == HuffSpec::canonical(table.bits, table.symbols).with_lut())
    }
}

/// In a canonical table, such as every table of a header, the codes are
/// distinct, and their lengths match the histogram: two codes differ in
/// length or in value, and the code with index `i` has `l + 1` bits exactly
/// where `i` stands among the `bits[l]` codes of that length.
pub proof fn lemma_table_codes(table: HuffSpec, i: nat, j: nat, l: nat)
    requires
        canonical_slot(Some(table)),
        i < total_codes(table.bits),
        j < total_codes(table.bits),
        i != j,
        l < 16,
    ensures
        table.codes.len() == total_codes(table.bits),
        table.codes[i as int] == crate::huffman::code_of(table.bits, i),
        crate::huffman::code_length(table.bits, i) != crate::huffman::code_length(table.bits, j)
            || table.codes[i as int] != table.codes[j as int],
        1 <= crate::huffman::code_length(table.bits, i) <= 16,
        crate::huffman::code_length(table.bits, i) == l + 1 <==> crate::huffman::count_below(
            table.bits,
            l,
        ) <= i < crate::huffman::count_below(table.bits, l) + table.bits[l as int],
{
    crate::huffman::lemma_codes_distinct(table.bits, i, j);
    crate::huffman::lemma_code_lengths(table.bits, i, l);
}

/// Every Huffman table is the canonical table of its histogram and symbols.
pub open spec fn canonical_tables(tables: TablesSpec) -> bool {
    &&& tables.dc.len() == 2
    &&& tables.ac.len() == 2
    &&& forall|i: int| 0 <= i < 2 ==> canonical_slot(#[trigger] tables.dc[i])
    &&& forall|i: int| 0 <= i < 2 ==> canonical_slot(#[trigger] tables.ac[i])
}

proof fn lemma_dht_canonical(tables: TablesSpec, seg: Seq<u8>, used: int, capacity: int)
    requires
        canonical_tables(tables),
    ensures
        tables.dht(seg, used, capacity) matches Ok((after, _)) ==> canonical_tables(after),
    decreases seg.len(),
{
    if seg.len() != 0 && !dht_fault(seg) {
        let bits = seg.subrange(1, 17);
        let n = total_codes(bits) as int;
        let id = (seg[0] % 16) as int;
        let table = HuffSpec::canonical(bits, seg.subrange(17, 17 + n));
        if capacity - used >= HuffmanTable::space_for(bits) {
            let next = if (seg[0] / 16) % 2 == 0 {
                TablesSpec { dc: tables.dc.update(id, Some(table)), ..tables }
            } else {
                TablesSpec { ac: tables.ac.update(id, Some(table)), ..tables }
            };
            assert(canonical_slot(Some(table)));
            assert forall|i: int| 0 <= i < 2 implies canonical_slot(#[trigger] next.dc[i]) by {
                assert(canonical_slot(tables.dc[i]));
            }
            assert forall|i: int| 0 <= i < 2 implies canonical_slot(#[trigger] next.ac[i]) by {
                assert(canonical_slot(tables.ac[i]));
            }
            lemma_dht_canonical(
                next,
                seg.subrange(17 + n, seg.len() as int),
                used + HuffmanTable::space_for(bits),
                capacity,
            );
        }
    }
}

proof fn lemma_dqt_canonical(tables: TablesSpec, seg: Seq<u8>, used: int, capacity: int)
    requires
        canonical_tables(tables),
    ensures
        tables.dqt(seg, used, capacity) matches Ok((after, _)) ==> canonical_tables(after),
    decreases seg.len(),
{
    if seg.len() != 0 {
        let wide = seg[0] / 16 != 0;
        let size: int = if wide {
            129
        } else {
            65
        };
        if !(seg[0] % 16 > 3) && capacity - used >= QTABLE_BYTES && seg.len() >= size {
            let table = quant_table(TablesSpec::dqt_raw(seg, wide));
            let next = TablesSpec {
                quant: tables.quant.update((seg[0] % 16) as int, Some(table)),
                ..tables
            };
            lemma_dqt_canonical(
                next,
                seg.subrange(size, seg.len() as int),
                used + QTABLE_BYTES,
                capacity,
            );
        }
    }
}

proof fn lemma_segments_canonical(
    header: HeaderSpec,
    data: Seq<u8>,
    pos: int,
    used: int,
    capacity: int,
)
    requires
        canonical_tables(header.tables),
    ensures
        header.segments(data, pos, used, capacity) matches Ok((after, _)) ==> canonical_tables(
            after.tables,
        ),
    decreases data.len() - pos,
{
    if pos >= 0 && pos + 4 <= data.len() {
        let kind = data[pos + 1];
        let length = be16(data[pos + 2], data[pos + 3]) as int;
        if length >= 2 && data[pos] == 0xFF && pos + 2 + length <= data.len() {
            let seg = data.subrange(pos + 4, pos + 2 + length);
            let next = pos + 2 + length;
            if kind == SOF0 {
                match header.frame.sof(seg) {
                    Ok(frame) => {
                        lemma_segments_canonical(
                            HeaderSpec { frame, ..header },
                            data,
                            next,
                            used,
                            capacity,
                        );
                    },
                    Err(e) => {},
                }
            } else if kind == DHT {
                lemma_dht_canonical(header.tables, seg, used, capacity);
                match header.tables.dht(seg, used, capacity) {
                    Ok((tables, after)) => {
                        lemma_segments_canonical(
                            HeaderSpec { tables, ..header },
                            data,
                            next,
                            after,
                            capacity,
                        );
                    },
                    Err(e) => {},
                }
            } else if kind == DQT {
                lemma_dqt_canonical(header.tables, seg, used, capacity);
                match header.tables.dqt(seg, used, capacity) {
                    Ok((tables, after)) => {
                        lemma_segments_canonical(
                            HeaderSpec { tables, ..header },
                            data,
                            next,
                            after,
                            capacity,
                        );
                    },
                    Err(e) => {},
                }
            } else if kind == DRI {
                match header.frame.dri(seg) {
                    Ok(frame) => {
                        lemma_segments_canonical(
                            HeaderSpec { frame, ..header },
                            data,
                            next,
                            used,
                            capacity,
                        );
                    },
                    Err(e) => {},
                }
            } else if kind == SOS {
            } else if kind == EOI {
            } else if 0xC0 <= kind <= 0xCF {
            } else {
                lemma_segments_canonical(header, data, next, used, capacity);
            }
        }
    }
}

/// The Huffman tables that the headers of a stream fill are canonical: each
/// has the codes that its histogram gives, which are distinct and have the
/// lengths of the histogram.
pub proof fn lemma_parse_tables_canonical(
    header: HeaderSpec,
    data: Seq<u8>,
    used: int,
    capacity: int,
)
    requires
        canonical_tables(header.tables),
    ensures
        header.parse(data, used, capacity) matches Ok((after, _)) ==> canonical_tables(
            after.tables,
        ),
{
    lemma_segments_canonical(header, data, 2, used, capacity);
}

/// Width, height and number of components of an image.
pub struct Dimensions {
    /// Width in pixels.
    pub width: u16,
    /// Height in pixels.
    pub height: u16,
    /// Number of colour components.
    pub components: u8,
}

/// The dimensions that the stream `data` declares from `pos` on: those of
/// its last baseline frame header before the start of scan, or `last` where
/// there is none. Only the framing of the segments is looked at.
pub open spec fn declared_frame(data: Seq<u8>, pos: int, last: Option<Dimensions>) -> Option<
    Dimensions,
>
    decreases data.len() - pos,
{
    if pos < 0 || pos + 4 > data.len() {
        last
    } else {
        let length = be16(data[pos + 2], data[pos + 3]) as int;
        if length < 2 || pos + 2 + length > data.len() || data[pos + 1] == SOS {
            last
        } else if data[pos + 1] == SOF0 && length >= 8 {
            declared_frame(
                data,
                pos + 2 + length,
                Some(
                    Dimensions {
                        width: be16(data[pos + 7], data[pos + 8]),
                        height: be16(data[pos + 5], data[pos + 6]),
                        components: data[pos + 9],
                    },
                ),
            )
        } else {
            declared_frame(data, pos + 2 + length, last)
        }
    }
}

/// The frame `frame` has the dimensions `dimensions`, with one or three
/// components.
pub open spec fn reports(frame: FrameSpec, dimensions: Dimensions) -> bool {
    &&& frame.width == dimensions.width
    &&& frame.height == dimensions.height
    &&& frame.components == dimensions.components
    &&& (frame.components == 1 || frame.components == 3)
}

proof fn lemma_declared_kept(data: Seq<u8>, pos: int, last: Option<Dimensions>)
    requires
        last is Some,
    ensures
        declared_frame(data, pos, last) is Some,
    decreases data.len() - pos,
{
    if pos >= 0 && pos + 4 <= data.len() {
        let length = be16(data[pos + 2], data[pos + 3]) as int;
        if !(length < 2 || pos + 2 + length > data.len() || data[pos + 1] == SOS) {
            if data[pos + 1] == SOF0 && length >= 8 {
                lemma_declared_kept(
                    data,
                    pos + 2 + length,
                    Some(
                        Dimensions {
                            width: be16(data[pos + 7], data[pos + 8]),
                            height: be16(data[pos + 5], data[pos + 6]),
                            components: data[pos + 9],
                        },
                    ),
                );
            } else {
                lemma_declared_kept(data, pos + 2 + length, last);
            }
        }
    }
}

proof fn lemma_segments_report(
    header: HeaderSpec,
    data: Seq<u8>,
    pos: int,
    used: int,
    capacity: int,
    last: Option<Dimensions>,
)
    requires
        last matches Some(d) ==> reports(header.frame, d),
    ensures
        header.segments(data, pos, used, capacity) matches Ok((after, _)) ==> match declared_frame(
            data,
            pos,
            last,
        ) {
            Some(d) => reports(after.frame, d),
            None => after.frame.width == header.frame.width && after.frame.height
                == header.frame.height && after.frame.components == header.frame.components,
        },
    decreases data.len() - pos,
{
    if pos >= 0 && pos + 4 <= data.len() {
        let kind = data[pos + 1];
        let length = be16(data[pos + 2], data[pos + 3]) as int;
        if length >= 2 && data[pos] == 0xFF && pos + 2 + length <= data.len() {
            let seg = data.subrange(pos + 4, pos + 2 + length);
            let next = pos + 2 + length;
            if kind == SOF0 {
                match header.frame.sof(seg) {
                    Ok(frame) => {
                        let d = Dimensions {
                            width: be16(data[pos + 7], data[pos + 8]),
                            height: be16(data[pos + 5], data[pos + 6]),
                            components: data[pos + 9],
                        };
                        assert(seg[1] == data[pos + 5] && seg[2] == data[pos + 6] && seg[3]
                            == data[pos + 7] && seg[4] == data[pos + 8] && seg[5] == data[pos + 9]);
                        lemma_declared_kept(data, next, Some(d));
                        lemma_segments_report(
                            HeaderSpec { frame, ..header },
                            data,
                            next,
                            used,
                            capacity,
                            Some(d),
                        );
                    },
                    Err(e) => {},
                }
            } else if kind == DHT {
                match header.tables.dht(seg, used, capacity) {
                    Ok((tables, after)) => {
                        lemma_segments_report(
                            HeaderSpec { tables, ..header },
                            data,
                            next,
                            after,
                            capacity,
                            last,
                        );
                    },
                    Err(e) => {},
                }
            } else if kind == DQT {
                match header.tables.dqt(seg, used, capacity) {
                    Ok((tables, after)) => {
                        lemma_segments_report(
                            HeaderSpec { tables, ..header },
                            data,
                            next,
                            after,
                            capacity,
                            last,
                        );
                    },
                    Err(e) => {},
                }
            } else if kind == DRI {
                match header.frame.dri(seg) {
                    Ok(frame) => {
                        lemma_segments_report(
                            HeaderSpec { frame, ..header },
                            data,
                            next,
                            used,
                            capacity,
                            last,
                        );
                    },
                    Err(e) => {},
                }
            } else if kind == SOS {
            } else if kind == EOI {
            } else if 0xC0 <= kind <= 0xCF {
            } else {
                lemma_segments_report(header, data, next, used, capacity, last);
            }
        }
    }
}

/// Where the headers of a stream are taken in, the frame has the dimensions
/// that the stream declares, with one or three components; a stream that
/// declares none leaves those of the frame as they were.
pub proof fn lemma_parse_reports_frame(header: HeaderSpec, data: Seq<u8>, used: int, capacity: int)
    ensures
        header.parse(data, used, capacity) matches Ok((after, _)) ==> match declared_frame(
            data,
            2,
            None,
        ) {
            Some(d) => reports(after.frame, d),
            None => after.frame.width == header.frame.width && after.frame.height
                == header.frame.height && after.frame.components == header.frame.components,
        },
{
    lemma_segments_report(header, data, 2, used, capacity, None);
}

/// The frame and the tables of a stream.
#[derive(Debug, Clone, Copy)]
pub struct Header {
    /// What the headers say about the frame.
    pub frame: FrameInfo,
    /// The tables that the headers filled.
    pub tables: TableSet,
}

impl Header {
    /// The header as it reads from the pool bytes `bytes`.
    pub open spec fn spec_in(&self, bytes: Seq<u8>) -> HeaderSpec {
        HeaderSpec { frame: self.frame@, tables: self.tables.spec_in(bytes) }
    }

    /// The frame is a frame and the tables are tables of the pool bytes
    /// `bytes` below the offset `used`.
    pub open spec fn wf(&self, bytes: Seq<u8>, used: int) -> bool {
        self.frame@.wf() && self.tables.wf(bytes, used)
    }

    /// Every component has its two Huffman tables and its quantization
    /// table.
    pub open spec fn ready(&self) -> bool {
        forall|i: int|
            0 <= i < self.frame.num_components ==> {
                &&& (#[trigger] self.tables.huff_dc[HeaderSpec::table_slot(i)]) is Some
                &&& self.tables.huff_ac[HeaderSpec::table_slot(i)] is Some
                &&& self.tables.qtables[self.frame.qtable_ids[i] as int] is Some
            }
    }

    /// Which tables are there does not depend on the bytes of the pool.
    pub proof fn lemma_ready(&self, bytes: Seq<u8>)
        requires
            self.frame@.wf(),
        ensures
            self.spec_in(bytes).ready() == self.ready(),
    {
        let spec = self.spec_in(bytes);
        if self.ready() {
            assert forall|i: int| 0 <= i < spec.frame.components implies {
                &&& (#[trigger] spec.tables.dc[HeaderSpec::table_slot(i)]) is Some
                &&& spec.tables.ac[HeaderSpec::table_slot(i)] is Some
                &&& spec.tables.quant[spec.frame.quant_ids[i] as int] is Some
            } by {
                assert(self.tables.huff_dc[HeaderSpec::table_slot(i)] is Some);
            }
        }
        if spec.ready() {
            assert forall|i: int| 0 <= i < self.frame.num_components implies {
                &&& (#[trigger] self.tables.huff_dc[HeaderSpec::table_slot(i)]) is Some
                &&& self.tables.huff_ac[HeaderSpec::table_slot(i)] is Some
                &&& self.tables.qtables[self.frame.qtable_ids[i] as int] is Some
            } by {
                assert(spec.tables.dc[HeaderSpec::table_slot(i)] is Some);
            }
        }
    }

    /// A header before any segment.
    pub fn new() -> (header: Self)
        ensures
            header.frame@ == FrameSpec::empty(),
            forall|bytes: Seq<u8>| #[trigger] header.spec_in(bytes) == HeaderSpec::empty(),
            forall|bytes: Seq<u8>, used: int| used <= bytes.len() ==> #[trigger] header.wf(bytes, used),
    {
        Header { frame: FrameInfo::new(), tables: TableSet::new() }
    }

    /// Checks the start-of-scan segment `seg` against the frame and the
    /// tables.
    pub fn parse_sos(&self, seg: &[u8]) -> (r: Result<(), Error>)
        requires
            self.frame@.wf(),
        ensures
            r == if seg@.len() == 0 || seg@[0] != self.frame.num_components || !self.ready() {
                Err::<(), Error>(Error::FormatError)
            } else {
                Ok::<(), Error>(())
            },
    {
        if seg.len() == 0 {
            return Err(Error::FormatError);
        }
        if seg[0] != self.frame.num_components {
            return Err(Error::FormatError);
        }
        let mut i: usize = 0;
        while i < self.frame.num_components as usize
            invariant
                i <= self.frame.num_components,
                self.frame@.wf(),
                forall|k: int|
                    0 <= k < i ==> {
                        &&& (#[trigger] self.tables.huff_dc[HeaderSpec::table_slot(k)]) is Some
                        &&& self.tables.huff_ac[HeaderSpec::table_slot(k)] is Some
                        &&& self.tables.qtables[self.frame.qtable_ids[k] as int] is Some
                    },
            decreases self.frame.num_components - i,
        {
            let slot: usize = if i == 0 {
                0
            } else {
                1
            };
            assert(slot == HeaderSpec::table_slot(i as int));
            assert(self.frame@.quant_ids[i as int] <= 3);
            let quant: usize = self.frame.qtable_ids[i] as usize;
            if self.tables.huff_dc[slot].is_none() || self.tables.huff_ac[slot].is_none()
                || self.tables.qtables[quant].is_none() {
                assert(!((self.tables.huff_dc[HeaderSpec::table_slot(i as int)]) is Some
                    && self.tables.huff_ac[HeaderSpec::table_slot(i as int)] is Some
                    && self.tables.qtables[self.frame.qtable_ids[i as int] as int] is Some));
                return Err(Error::FormatError);
            }
            i += 1;
        }
        Ok(())
    }

    /// Walks the headers of the stream `data` up to the start of scan, takes
    /// in what they say about the frame, and builds their tables in the
    /// pool.
    pub fn parse(&mut self, data: &[u8], pool: &mut MemoryPool) -> (r: Result<(), Error>)
        requires
            old(pool).wf(),
            old(self).wf(old(pool)@, old(pool).spec_used() as int),
        ensures
            final(pool).wf(),
            final(pool)@.len() == old(pool)@.len(),
            old(pool).spec_used() <= final(pool).spec_used(),
            same_bytes(old(pool)@, final(pool)@, 0, old(pool).spec_used() as int),
            final(self).wf(final(pool)@, final(pool).spec_used() as int),
            match old(self).spec_in(old(pool)@).parse(
                data@,
                old(pool).spec_used() as int,
                old(pool)@.len() as int,
            ) {
                Ok((header, used)) => r is Ok && final(self).spec_in(final(pool)@) == header
                    && final(pool).spec_used() == used && final(self).ready(),
                Err(e) => r == Err::<(), Error>(e),
            },
    {
        let ghost orig = pool@;
        let ghost orig_used = pool.spec_used() as int;
        let ghost capacity = pool@.len() as int;
        let ghost goal = self.spec_in(pool@).parse(data@, orig_used, capacity);
        if data.len() < 2 {
            return Err(Error::Input);
        }
        if data[0] != 0xFF || data[1] != SOI {
            return Err(Error::FormatError);
        }
        let mut pos: usize = 2;
        loop
            invariant
                2 <= pos <= data@.len(),
                orig == old(pool)@,
                orig_used == old(pool).spec_used(),
                capacity == orig.len(),
                pool.wf(),
                pool@.len() == capacity,
                orig_used <= pool.spec_used(),
                same_bytes(orig, pool@, 0, orig_used),
                self.wf(pool@, pool.spec_used() as int),
                goal == old(self).spec_in(old(pool)@).parse(data@, orig_used, capacity),
                goal == self.spec_in(pool@).segments(
                    data@,
                    pos as int,
                    pool.spec_used() as int,
                    capacity,
                ),
            decreases data@.len() - pos,
        {
            let ghost before = pool@;
            let ghost before_used = pool.spec_used() as int;
            if data.len() - pos < 4 {
                return Err(Error::Input);
            }
            let kind: u8 = data[pos + 1];
            let length: usize = read_be16(data[pos + 2], data[pos + 3]) as usize;
            if length < 2 || data[pos] != 0xFF {
                return Err(Error::FormatError);
            }
            if data.len() - pos - 2 < length {
                return Err(Error::Input);
            }
            let segment: &[u8] = slice_subrange(data, pos + 4, pos + 2 + length);
            if kind == SOF0 {
                match self.frame.parse_sof(segment) {
                    Ok(()) => {},
                    Err(e) => {
                        return Err(e);
                    },
                }
            } else if kind == DHT {
                match self.tables.parse_dht(segment, pool) {
                    Ok(()) => {},
                    Err(e) => {
                        return Err(e);
                    },
                }
            } else if kind == DQT {
                match self.tables.parse_dqt(segment, pool) {
                    Ok(()) => {},
                    Err(e) => {
                        return Err(e);
                    },
                }
            } else if kind == DRI {
                match self.frame.parse_dri(segment) {
                    Ok(()) => {},
                    Err(e) => {
                        return Err(e);
                    },
                }
            } else if kind == SOS {
                proof {
                    self.lemma_ready(pool@);
                }
                match self.parse_sos(segment) {
                    Ok(()) => {},
                    Err(e) => {
                        return Err(e);
                    },
                }
                self.frame.sos_position = pos;
                return Ok(());
            } else if kind == EOI {
                return Err(Error::FormatError);
            } else if kind >= 0xC0 && kind <= 0xCF {
                return Err(Error::UnsupportedStandard);
            }
            pos = pos + 2 + length;
        }
    }

    /// The entropy-coded data of the stream `data`: what follows the
    /// start-of-scan segment.
    pub fn find_scan_data<'b>(&self, data: &'b [u8]) -> (r: Result<&'b [u8], Error>)
        ensures
            match self.frame@.scan_start(data@) {
                Ok(start) => r is Ok && r->Ok_0@ == data@.subrange(start, data@.len() as int),
                Err(e) => r is Err && r->Err_0 == e,
            },
    {
        let i: usize = self.frame.sos_position;
        if data.len() < 4 || i > data.len() - 4 {
            return Err(Error::Input);
        }
        if data[i] != 0xFF || data[i + 1] != SOS {
            return Err(Error::FormatError);
        }
        let length: usize = read_be16(data[i + 2], data[i + 3]) as usize;
        if data.len() - i - 2 > length {
            Ok(slice_subrange(data, i + 2 + length, data.len()))
        } else {
            Err(Error::Input)
        }
    }
}

} // verus!
