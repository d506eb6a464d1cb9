//! Decoding the entropy-coded data: the coefficients of a block, the blocks
//! of an MCU, and the MCUs of a scan with its restart intervals.

use crate::bitstream::{BitState, BitStream};
use crate::header::{FrameSpec, HeaderSpec, TableSet, TablesSpec};
use crate::huffman::{HuffSpec, HuffmanTable};
use crate::idct::{block_idct, idct};
use crate::pool::{I32Region, MemoryPool};
use crate::tables::{lemma_zigzag_entry, ZIGZAG};
use crate::types::Error;
use vstd::prelude::*;

verus! {

/// The value that the `t` bits `v` stand for, `1 <= t <= 16`: `v` itself
/// where its first bit is set, else `v` less the greatest number of `t`
/// bits.
pub open spec fn extend(v: u16, t: u32) -> int {
    if (v as u32) < (1u32 << ((t - 1) as u32)) {
        v - ((1u32 << t) - 1)
    } else {
        v as int
    }
}

/// The sum `s` of a predictor and a difference, taken modulo 2^16 into the
/// range of `i16`.
pub open spec fn wrap16(s: int) -> i16 {
    if s > 32767 {
        (s - 65536) as i16
    } else if s < -32768 {
        (s + 65536) as i16
    } else {
        s as i16
    }
}

/// A coefficient times the entry of the quantization table, in 32-bit
/// arithmetic that wraps, less the 8 fractional bits of the table.
pub open spec fn dequantize(value: i32, q: i32) -> i32 {
    value.wrapping_mul(q) >> 8
}

/// The difference that follows a DC symbol `len`: `len` bits, extended. No
/// bits are the difference 0; more than 16 are refused.
pub open spec fn difference(st: BitState, len: u8) -> Result<(int, BitState), Error> {
    if len == 0 {
        Ok((0, st))
    } else if len > 16 {
        Err(Error::Parameter)
    } else {
        match st.read(len as nat) {
            Err(e) => Err(e),
            Ok((v, s)) => Ok((extend(v, len as u32), s)),
        }
    }
}

/// The block with the coefficient at zigzag position `z` set to the
/// extended and dequantized value of the bits `v`.
pub open spec fn with_coefficient(block: Seq<i32>, quant: Seq<i32>, z: int, v: u16, len: u8) -> Seq<
    i32,
> {
    let k = ZIGZAG[z] as int;
    block.update(k, dequantize(extend(v, len as u32) as i32, quant[k]))
}

/// The AC coefficients of a block from zigzag position `z` on. Each symbol
/// holds a run of zero coefficients in its high half and the number of bits
/// of the coefficient after them in its low half; the symbol 0 ends the
/// block. A run that leaves the block is a format error.
pub open spec fn ac_run(ac: HuffSpec, quant: Seq<i32>, st: BitState, z: int, block: Seq<i32>) -> Result<
    (Seq<i32>, BitState),
    Error,
>
    decreases 64 - z,
{
    match ac.decode(st) {
        Err(e) => Err(e),
        Ok((symbol, s1)) => {
            let at = z + symbol / 16;
            let len = symbol % 16;
            if symbol == 0 {
                Ok((block, s1))
            } else if at >= 64 {
                Err(Error::FormatError)
            } else if len == 0 {
                if at + 1 >= 64 {
                    Ok((block, s1))
                } else {
                    ac_run(ac, quant, s1, at + 1, block)
                }
            } else {
                match s1.read(len as nat) {
                    Err(e) => Err(e),
                    Ok((v, s2)) => if at + 1 >= 64 {
                        Ok((with_coefficient(block, quant, at, v, len), s2))
                    } else {
                        ac_run(ac, quant, s2, at + 1, with_coefficient(block, quant, at, v, len))
                    },
                }
            }
        },
    }
}

/// The block that holds only the DC coefficient `dc`.
pub open spec fn dc_block(dc: i32) -> Seq<i32> {
    Seq::new(
        64,
        |k: int|
            if k == 0 {
                dc
            } else {
                0i32
            },
    )
}

/// One block of the component `component`, which has the quantization table
/// `quant_id`: its dequantized coefficients in raster order, the stream
/// after it, and the DC predictor after it. The DC symbol gives the number
/// of bits of the difference to the predictor `pred`. A table that is not
/// there is a format error.
#[verifier::opaque]
pub open spec fn block(
    tables: TablesSpec,
    st: BitState,
    pred: i16,
    quant_id: int,
    component: int,
) -> Result<(Seq<i32>, BitState, i16), Error> {
    let slot = HeaderSpec::table_slot(component);
    if tables.quant[quant_id] is None || tables.dc[slot] is None {
        Err(Error::FormatError)
    } else {
        let quant = tables.quant[quant_id]->0;
        match tables.dc[slot]->0.decode(st) {
            Err(e) => Err(e),
            Ok((len, s1)) => match difference(s1, len) {
                Err(e) => Err(e),
                Ok((diff, s2)) => {
                    let next = wrap16(pred + diff);
                    if tables.ac[slot] is None {
                        Err(Error::FormatError)
                    } else {
                        match ac_run(
                            tables.ac[slot]->0,
                            quant,
                            s2,
                            1,
                            dc_block(dequantize(next as i32, quant[0])),
                        ) {
                            Err(e) => Err(e),
                            Ok((coefficients, s3)) => Ok((coefficients, s3, next)),
                        }
                    }
                },
            },
        }
    }
}

/// Extends the `t` bits `v` to the value that they stand for.
pub fn extend_bits(v: u16, t: usize) -> (r: i32)
    requires
        1 <= t <= 16,
    ensures
        r == extend(v, t as u32),
        -65535 <= r <= 65535,
{
    let t32: u32 = t as u32;
    let half: u32 = 1u32 << (t32 - 1);
    let full: u32 = 1u32 << t32;
    assert(1 <= (1u32 << t32) <= 65536) by (bit_vector)
        requires
            1 <= t32 <= 16,
    ;
    if (v as u32) < half {
        (v as i32) - ((full - 1) as i32)
    } else {
        v as i32
    }
}

/// Adds the difference `diff` to the predictor `pred`, modulo 2^16.
pub fn add_difference(pred: i16, diff: i32) -> (r: i16)
    requires
        -65535 <= diff <= 65535,
    ensures
        r == wrap16(pred + diff),
{
    let sum: i32 = pred as i32 + diff;
    if sum > 32767 {
        (sum - 65536) as i16
    } else if sum < -32768 {
        (sum + 65536) as i16
    } else {
        sum as i16
    }
}

/// Decodes one block of the component `component` into `tmp` and returns
/// the DC predictor after it.
#[verifier::loop_isolation(false)]
pub fn decode_and_dequantize_block(
    tables: &TableSet,
    pool: &MemoryPool,
    bitstream: &mut BitStream,
    tmp: &mut [i32; 64],
    pred: i16,
    qtable_id: u8,
    component: usize,
) -> (r: Result<i16, Error>)
    requires
        pool.wf(),
        tables.wf(pool@, pool.spec_used() as int),
        old(bitstream)@.wf(),
        qtable_id <= 3,
    ensures
        final(bitstream)@.wf(),
        final(bitstream)@.data == old(bitstream)@.data,
        match block(
            tables.spec_in(pool@),
            old(bitstream)@,
            pred,
            qtable_id as int,
            component as int,
        ) {
            Ok((coefficients, s, next)) => r == Ok::<i16, Error>(next) && final(tmp)@ == coefficients
                && final(bitstream)@ == s,
            Err(e) => r == Err::<i16, Error>(e),
        },
{
    reveal(block);
    let ghost spec = tables.spec_in(pool@);
    let ghost slot_index = HeaderSpec::table_slot(component as int);
    let slot: usize = if component == 0 {
        0
    } else {
        1
    };
    let qtable: I32Region = match tables.qtables[qtable_id as usize] {
        Some(region) => region,
        None => {
            return Err(Error::FormatError);
        },
    };
    let dc_table: HuffmanTable = match tables.huff_dc[slot] {
        Some(table) => table,
        None => {
            return Err(Error::FormatError);
        },
    };
    proof {
        assert(crate::header::huffman_slot_wf(tables.huff_dc[slot as int], pool@, pool.spec_used() as int));
        assert(crate::header::huffman_slot_wf(tables.huff_ac[slot as int], pool@, pool.spec_used() as int));
        assert(crate::header::quant_slot_wf(tables.qtables[qtable_id as int], pool.spec_used() as int));
    }
    let ghost quant = qtable.read(pool@);
    let dc_len: u8 = match dc_table.decode(pool, bitstream) {
        Ok(len) => len,
        Err(e) => {
            return Err(e);
        },
    };
    let diff: i32 = if dc_len > 0 {
        match bitstream.read_bits(dc_len as usize) {
            Ok(bits) => extend_bits(bits, dc_len as usize),
            Err(e) => {
                return Err(e);
            },
        }
    } else {
        0
    };
    let next: i16 = add_difference(pred, diff);
    let dc: i32 = (next as i32).wrapping_mul(pool.get_i32(&qtable, 0)) >> 8;
    let mut k: usize = 0;
    while k < 64
        invariant
            k <= 64,
            forall|j: int| 0 <= j < k ==> tmp@[j] == 0,
        decreases 64 - k,
    {
        tmp[k] = 0;
        k += 1;
    }
    tmp[0] = dc;
    assert(tmp@ =~= dc_block(dc));
    let ac_table: HuffmanTable = match tables.huff_ac[slot] {
        Some(table) => table,
        None => {
            return Err(Error::FormatError);
        },
    };
    let ghost ac = ac_table.spec_in(pool@);
    let ghost after_dc = bitstream@;
    let mut z: usize = 1;
    loop
        invariant
            1 <= z < 64,
            bitstream@.wf(),
            bitstream@.data == old(bitstream)@.data,
            ac_run(ac, quant, after_dc, 1, dc_block(dc)) == ac_run(ac, quant, bitstream@, z as int, tmp@),
        decreases 64 - z,
    {
        let symbol: u8 = match ac_table.decode(pool, bitstream) {
            Ok(symbol) => symbol,
            Err(e) => {
                return Err(e);
            },
        };
        if symbol == 0 {
            break ;
        }
        let len: usize = (symbol % 16) as usize;
        z += (symbol / 16) as usize;
        if z >= 64 {
            return Err(Error::FormatError);
        }
        if len > 0 {
            let bits: u16 = match bitstream.read_bits(len) {
                Ok(bits) => bits,
                Err(e) => {
                    return Err(e);
                },
            };
            let value: i32 = extend_bits(bits, len);
            proof {
                lemma_zigzag_entry(z as int);
            }
            let i: usize = ZIGZAG[z] as usize;
            tmp[i] = value.wrapping_mul(pool.get_i32(&qtable, i)) >> 8;
        }
        z += 1;
        if z >= 64 {
            break ;
        }
    }
    Ok(next)
}

/// The number of luma blocks of one MCU.
pub open spec fn luma_count(frame: FrameSpec) -> int {
    frame.sampling.spec_mcu_width() * frame.sampling.spec_mcu_height()
}

/// The samples `samples` with the block number `i` replaced by `b`.
pub open spec fn with_block(samples: Seq<i16>, i: int, b: Seq<i16>) -> Seq<i16> {
    Seq::new(
        samples.len(),
        |k: int|
            if 64 * i <= k < 64 * i + 64 {
                b[k - 64 * i]
            } else {
                samples[k]
            },
    )
}

/// The luma blocks `i .. n` of an MCU: each is decoded, transformed and put
/// at its place among the samples.
pub open spec fn luma_blocks(
    header: HeaderSpec,
    st: BitState,
    pred: i16,
    i: int,
    n: int,
    samples: Seq<i16>,
) -> Result<(Seq<i16>, BitState, i16), Error>
    decreases n - i,
{
    if i >= n {
        Ok((samples, st, pred))
    } else {
        match block(header.tables, st, pred, header.frame.quant_ids[0] as int, 0) {
            Err(e) => Err(e),
            Ok((coefficients, s, next)) => luma_blocks(
                header,
                s,
                next,
                i + 1,
                n,
                with_block(samples, i, idct(coefficients)),
            ),
        }
    }
}

/// One MCU: its luma blocks and, for a colour image, one Cb and one Cr
/// block behind them. Gives the samples, the stream and the three DC
/// predictors after it.
#[verifier::opaque]
pub open spec fn mcu(header: HeaderSpec, st: BitState, preds: Seq<i16>, samples: Seq<i16>) -> Result<
    (Seq<i16>, BitState, Seq<i16>),
    Error,
> {
    let n = luma_count(header.frame);
    match luma_blocks(header, st, preds[0], 0, n, samples) {
        Err(e) => Err(e),
        Ok((luma, after_luma, luma_pred)) => if header.frame.components != 3 {
            Ok((luma, after_luma, preds.update(0, luma_pred)))
        } else {
            match block(header.tables, after_luma, preds[1], header.frame.quant_ids[1] as int, 1) {
                Err(e) => Err(e),
                Ok((cb, after_cb, cb_pred)) => match block(
                    header.tables,
                    after_cb,
                    preds[2],
                    header.frame.quant_ids[2] as int,
                    2,
                ) {
                    Err(e) => Err(e),
                    Ok((cr, after_cr, cr_pred)) => Ok(
                        (
                            with_block(with_block(luma, n, idct(cb)), n + 1, idct(cr)),
                            after_cr,
                            seq![luma_pred, cb_pred, cr_pred],
                        ),
                    ),
                },
            }
        },
    }
}

/// Where a scan stands between two MCUs.
pub struct ScanSpec {
    /// The bit stream.
    pub bits: BitState,
    /// The DC predictor of each component.
    pub preds: Seq<i16>,
    /// Number of MCUs since the last restart, counted where the stream has
    /// a restart interval.
    pub counter: int,
    /// The samples of the MCU decoded last.
    pub samples: Seq<i16>,
}

/// DC predictors at the start of a scan and after a restart.
pub open spec fn no_prediction() -> Seq<i16> {
    seq![0i16, 0i16, 0i16]
}

impl ScanSpec {
    /// The scan at the start of the entropy-coded data `data`.
    pub open spec fn start(data: Seq<u8>, samples: Seq<i16>) -> ScanSpec {
        ScanSpec { bits: BitState::start(data), preds: no_prediction(), counter: 0, samples }
    }

    /// The scan after one more MCU. Where the restart interval is used up,
    /// the stream and the predictors are reset first. After the MCU a pending
    /// marker is taken from the stream; a restart marker resets the stream
    /// and the predictors.
    pub open spec fn step(self, header: HeaderSpec) -> Result<ScanSpec, Error> {
        let interval = header.frame.restart_interval;
        let due = interval > 0 && self.counter >= interval;
        let bits = if due {
            self.bits.restart()
        } else {
            self.bits
        };
        let preds = if due {
            no_prediction()
        } else {
            self.preds
        };
        let counter = if due {
            0
        } else {
            self.counter
        };
        match mcu(header, bits, preds, self.samples) {
            Err(e) => Err(e),
            Ok((samples, after, next)) => {
                let restart = after.marker matches Some(m) && 0xD0 <= m <= 0xD7;
                Ok(
                    ScanSpec {
                        bits: if restart {
                            after.restart()
                        } else {
                            BitState { marker: None, ..after }
                        },
                        preds: if restart {
                            no_prediction()
                        } else {
                            next
                        },
                        counter: if interval > 0 {
                            counter + 1
                        } else {
                            0
                        },
                        samples,
                    },
                )
            },
        }
    }

    /// The scan after `k` more MCUs.
    pub open spec fn after(self, header: HeaderSpec, k: nat) -> Result<ScanSpec, Error>
        decreases k,
    {
        if k == 0 {
            Ok(self)
        } else {
            match self.after(header, (k - 1) as nat) {
                Err(e) => Err(e),
                Ok(s) => s.step(header),
            }
        }
    }
}

/// Two sample buffers of one length that hold the same samples below
/// `limit`.
pub open spec fn same_samples(a: Seq<i16>, b: Seq<i16>, limit: int) -> bool {
    &&& a.len() == b.len()
    &&& forall|k: int| 0 <= k < limit && k < a.len() ==> a[k] == b[k]
}

/// Number of samples that one MCU writes: its luma blocks and, for a colour
/// image, its two chroma blocks.
pub open spec fn written_samples(frame: FrameSpec) -> int {
    if frame.components == 3 {
        64 * (luma_count(frame) + 2)
    } else {
        64 * luma_count(frame)
    }
}

proof fn lemma_luma_blocks_cover(
    header: HeaderSpec,
    st: BitState,
    pred: i16,
    i: int,
    n: int,
    a: Seq<i16>,
    b: Seq<i16>,
)
    requires
        0 <= i <= n,
        same_samples(a, b, 64 * i),
    ensures
        match (luma_blocks(header, st, pred, i, n, a), luma_blocks(header, st, pred, i, n, b)) {
            (Ok((sa, ta, pa)), Ok((sb, tb, pb))) => ta == tb && pa == pb && same_samples(
                sa,
                sb,
                64 * n,
            ) && sa.len() == a.len(),
            (Err(ea), Err(eb)) => ea == eb,
            _ => false,
        },
    decreases n - i,
{
    if i < n {
        match block(header.tables, st, pred, header.frame.quant_ids[0] as int, 0) {
            Ok((coefficients, s, next)) => {
                lemma_luma_blocks_cover(
                    header,
                    s,
                    next,
                    i + 1,
                    n,
                    with_block(a, i, idct(coefficients)),
                    with_block(b, i, idct(coefficients)),
                );
            },
            Err(e) => {},
        }
    }
}

/// What an MCU leaves in the sample buffer, in the stream and in the
/// predictors does not depend on what the buffer held before, as far as the
/// MCU writes it.
pub proof fn lemma_mcu_covers(
    header: HeaderSpec,
    st: BitState,
    preds: Seq<i16>,
    a: Seq<i16>,
    b: Seq<i16>,
)
    requires
        a.len() == b.len(),
    ensures
        match (mcu(header, st, preds, a), mcu(header, st, preds, b)) {
            (Ok((sa, ta, pa)), Ok((sb, tb, pb))) => ta == tb && pa == pb && same_samples(
                sa,
                sb,
                written_samples(header.frame),
            ),
            (Err(ea), Err(eb)) => ea == eb,
            _ => false,
        },
{
    reveal(mcu);
    let n = luma_count(header.frame);
    assert(1 <= n <= 4) by {
        assert(1 <= header.frame.sampling.spec_mcu_width() <= 2);
        assert(1 <= header.frame.sampling.spec_mcu_height() <= 2);
        assert(n == header.frame.sampling.spec_mcu_width() * header.frame.sampling.spec_mcu_height());
    }
    lemma_luma_blocks_cover(header, st, preds[0], 0, n, a, b);
}

proof fn lemma_luma_blocks_keep_length(
    header: HeaderSpec,
    st: BitState,
    pred: i16,
    i: int,
    n: int,
    a: Seq<i16>,
)
    ensures
        luma_blocks(header, st, pred, i, n, a) matches Ok((sa, _, _)) ==> sa.len() == a.len(),
    decreases n - i,
{
    if i < n {
        match block(header.tables, st, pred, header.frame.quant_ids[0] as int, 0) {
            Ok((coefficients, s, next)) => {
                lemma_luma_blocks_keep_length(
                    header,
                    s,
                    next,
                    i + 1,
                    n,
                    with_block(a, i, idct(coefficients)),
                );
            },
            Err(e) => {},
        }
    }
}

/// One MCU keeps the length of the sample buffer.
pub proof fn lemma_step_keeps_length(header: HeaderSpec, a: ScanSpec)
    ensures
        a.step(header) matches Ok(s) ==> s.samples.len() == a.samples.len(),
{
    reveal(mcu);
    let interval = header.frame.restart_interval;
    let due = interval > 0 && a.counter >= interval;
    let bits = if due {
        a.bits.restart()
    } else {
        a.bits
    };
    let preds = if due {
        no_prediction()
    } else {
        a.preds
    };
    lemma_luma_blocks_keep_length(
        header,
        bits,
        preds[0],
        0,
        luma_count(header.frame),
        a.samples,
    );
}

/// Two scans that stand at the same place of the same stream.
pub open spec fn same_place(a: ScanSpec, b: ScanSpec) -> bool {
    &&& a.bits == b.bits
    &&& a.preds == b.preds
    &&& a.counter == b.counter
    &&& a.samples.len() == b.samples.len()
}

/// One MCU takes two scans at the same place to the same place, with the
/// same samples as far as the MCU writes them, or fails for both alike.
pub proof fn lemma_step_covers(header: HeaderSpec, a: ScanSpec, b: ScanSpec)
    requires
        same_place(a, b),
    ensures
        match (a.step(header), b.step(header)) {
            (Ok(sa), Ok(sb)) => same_place(sa, sb) && same_samples(
                sa.samples,
                sb.samples,
                written_samples(header.frame),
            ),
            (Err(ea), Err(eb)) => ea == eb,
            _ => false,
        },
{
    let interval = header.frame.restart_interval;
    let due = interval > 0 && a.counter >= interval;
    let bits = if due {
        a.bits.restart()
    } else {
        a.bits
    };
    let preds = if due {
        no_prediction()
    } else {
        a.preds
    };
    lemma_mcu_covers(header, bits, preds, a.samples, b.samples);
}

/// Nothing is carried across a restart. Where the restart interval is used
/// up, the MCU is decoded from the place of the stream in the data alone:
/// the register, a pending marker and the DC predictors of the scan before
/// it do not enter, and the MCU is the one that a scan with an empty
/// register and no prediction gives there.
pub proof fn lemma_restart_carries_nothing(header: HeaderSpec, scan: ScanSpec)
    requires
        header.frame.restart_interval > 0,
        scan.counter >= header.frame.restart_interval,
    ensures
        scan.step(header) == (ScanSpec {
            bits: scan.bits.restart(),
            preds: no_prediction(),
            counter: 0,
            samples: scan.samples,
        }).step(header),
{
}

/// A scan of `k` MCUs does not depend on what the sample buffer held before
/// it: from two buffers of one length it comes to the same place, with the
/// same samples of the last MCU, or fails for both alike.
pub proof fn lemma_scan_covers(
    header: HeaderSpec,
    data: Seq<u8>,
    first: Seq<i16>,
    second: Seq<i16>,
    k: nat,
)
    requires
        first.len() == second.len(),
    ensures
        match (
            ScanSpec::start(data, first).after(header, k),
            ScanSpec::start(data, second).after(header, k),
        ) {
            (Ok(a), Ok(b)) => same_place(a, b) && (k >= 1 ==> same_samples(
                a.samples,
                b.samples,
                written_samples(header.frame),
            )),
            (Err(ea), Err(eb)) => ea == eb,
            _ => false,
        },
    decreases k,
{
    if k > 0 {
        lemma_scan_covers(header, data, first, second, (k - 1) as nat);
        match (
            ScanSpec::start(data, first).after(header, (k - 1) as nat),
            ScanSpec::start(data, second).after(header, (k - 1) as nat),
        ) {
            (Ok(a), Ok(b)) => {
                lemma_step_covers(header, a, b);
            },
            _ => {},
        }
    }
}

/// Puts the 64 samples `block` at the place of block number `i`.
pub fn store_block(buffer: &mut [i16], i: usize, block: &[i16; 64])
    requires
        64 * i + 64 <= old(buffer)@.len(),
    ensures
        final(buffer)@ == with_block(old(buffer)@, i as int, block@),
{
    assert(buffer@.len() == vstd::slice::spec_slice_len(&*buffer));
    let mut k: usize = 0;
    while k < 64
        invariant
            k <= 64,
            64 * i + 64 <= buffer@.len() <= usize::MAX,
            buffer@.len() == old(buffer)@.len(),
            forall|j: int| 64 * i <= j < 64 * i + k ==> buffer@[j] == block@[j - 64 * i],
            forall|j: int|
                0 <= j < buffer@.len() && !(64 * i <= j < 64 * i + k) ==> buffer@[j] == old(
                    buffer,
                )@[j],
        decreases 64 - k,
    {
        buffer[64 * i + k] = block[k];
        k += 1;
    }
    assert(buffer@ =~= with_block(old(buffer)@, i as int, block@));
}

/// Decodes one MCU into `buffer`: the luma blocks first, then Cb and Cr for
/// a colour image.
pub fn decode_mcu(
    header: &crate::header::Header,
    pool: &MemoryPool,
    bitstream: &mut BitStream,
    dc_values: &mut [i16; 3],
    buffer: &mut [i16],
) -> (r: Result<(), Error>)
    requires
        pool.wf(),
        header.wf(pool@, pool.spec_used() as int),
        old(bitstream)@.wf(),
        old(buffer)@.len() >= (luma_count(header.frame@) + 2) * 64,
    ensures
        final(bitstream)@.wf(),
        final(bitstream)@.data == old(bitstream)@.data,
        final(buffer)@.len() == old(buffer)@.len(),
        match mcu(header.spec_in(pool@), old(bitstream)@, old(dc_values)@, old(buffer)@) {
            Ok((samples, s, preds)) => r is Ok && final(buffer)@ == samples && final(bitstream)@ == s
                && final(dc_values)@ == preds,
            Err(e) => r == Err::<(), Error>(e),
        },
{
    reveal(mcu);
    let ghost spec = header.spec_in(pool@);
    let count: usize = (header.frame.sampling.mcu_width() as usize) * (
    header.frame.sampling.mcu_height() as usize);
    assert(count == luma_count(header.frame@) && 1 <= count <= 4) by {
        assert(1 <= header.frame.sampling.spec_mcu_width() <= 2);
        assert(1 <= header.frame.sampling.spec_mcu_height() <= 2);
        assert(count == header.frame.sampling.spec_mcu_width() * header.frame.sampling.spec_mcu_height());
    }
    assert(header.frame@.quant_ids[0] <= 3 && header.frame@.quant_ids[1] <= 3
        && header.frame@.quant_ids[2] <= 3);
    let mut tmp: [i32; 64] = [0i32; 64];
    let mut samples: [i16; 64] = [0i16; 64];
    let mut pred: i16 = dc_values[0];
    let mut i: usize = 0;
    while i < count
        invariant
            i <= count,
            pool.wf(),
            header.wf(pool@, pool.spec_used() as int),
            spec == header.spec_in(pool@),
            header.frame@.quant_ids[0] <= 3,
            count == luma_count(header.frame@),
            buffer@.len() >= (count + 2) * 64,
            bitstream@.wf(),
            bitstream@.data == old(bitstream)@.data,
            buffer@.len() == old(buffer)@.len(),
            dc_values@ == old(dc_values)@,
            luma_blocks(spec, old(bitstream)@, old(dc_values)@[0], 0, count as int, old(buffer)@)
                == luma_blocks(spec, bitstream@, pred, i as int, count as int, buffer@),
        decreases count - i,
    {
        reveal(mcu);
        pred =
        match decode_and_dequantize_block(
            &header.tables,
            pool,
            bitstream,
            &mut tmp,
            pred,
            header.frame.qtable_ids[0],
            0,
        ) {
            Ok(next) => next,
            Err(e) => {
                return Err(e);
            },
        };
        block_idct(&mut tmp, &mut samples);
        store_block(buffer, i, &samples);
        i += 1;
    }
    dc_values[0] = pred;
    if header.frame.num_components == 3 {
        let cb_pred: i16 =
        match decode_and_dequantize_block(
            &header.tables,
            pool,
            bitstream,
            &mut tmp,
            dc_values[1],
            header.frame.qtable_ids[1],
            1,
        ) {
            Ok(next) => next,
            Err(e) => {
                return Err(e);
            },
        };
        block_idct(&mut tmp, &mut samples);
        store_block(buffer, count, &samples);
        let cr_pred: i16 =
        match decode_and_dequantize_block(
            &header.tables,
            pool,
            bitstream,
            &mut tmp,
            dc_values[2],
            header.frame.qtable_ids[2],
            2,
        ) {
            Ok(next) => next,
            Err(e) => {
                return Err(e);
            },
        };
        block_idct(&mut tmp, &mut samples);
        store_block(buffer, count + 1, &samples);
        dc_values[1] = cb_pred;
        dc_values[2] = cr_pred;
        assert(dc_values@ =~= seq![pred, cb_pred, cr_pred]);
    }
    Ok(())
}

/// Decodes the next MCU of a scan into `buffer`, with the restart handling
/// before and after it.
pub fn scan_mcu(
    header: &crate::header::Header,
    pool: &MemoryPool,
    bitstream: &mut BitStream,
    dc_values: &mut [i16; 3],
    restart_counter: &mut u16,
    buffer: &mut [i16],
) -> (r: Result<(), Error>)
    requires
        pool.wf(),
        header.wf(pool@, pool.spec_used() as int),
        old(bitstream)@.wf(),
        old(buffer)@.len() >= (luma_count(header.frame@) + 2) * 64,
        *old(restart_counter) <= header.frame.restart_interval,
    ensures
        final(bitstream)@.wf(),
        final(bitstream)@.data == old(bitstream)@.data,
        final(buffer)@.len() == old(buffer)@.len(),
        *final(restart_counter) <= header.frame.restart_interval,
        match (ScanSpec {
            bits: old(bitstream)@,
            preds: old(dc_values)@,
            counter: *old(restart_counter) as int,
            samples: old(buffer)@,
        }).step(header.spec_in(pool@)) {
            Ok(s) => r is Ok && s == (ScanSpec {
                bits: final(bitstream)@,
                preds: final(dc_values)@,
                counter: *final(restart_counter) as int,
                samples: final(buffer)@,
            }),
            Err(e) => r == Err::<(), Error>(e),
        },
{
    let interval: u16 = header.frame.restart_interval;
    if interval > 0 && *restart_counter >= interval {
        bitstream.reset_for_restart();
        *dc_values = [0i16; 3];
        *restart_counter = 0;
        assert(dc_values@ =~= no_prediction());
    }
    match decode_mcu(header, pool, bitstream, dc_values, buffer) {
        Ok(()) => {},
        Err(e) => {
            return Err(e);
        },
    }
    match bitstream.get_marker() {
        Some(marker) => {
            if marker >= 0xD0 && marker <= 0xD7 {
                bitstream.reset_for_restart();
                *dc_values = [0i16; 3];
                assert(dc_values@ =~= no_prediction());
            }
        },
        None => {},
    }
    if interval > 0 {
        *restart_counter = *restart_counter + 1;
    }
    Ok(())
}

} // verus!
