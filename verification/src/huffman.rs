//! Huffman tables and the decoding of one symbol.
//!
//! A table is given by the number of codes of each length from 1 to 16 bits
//! and by the symbols in code order. The codes are the canonical ones: they
//! start at 0, each code is one more than the code before it, and the value
//! is doubled at each step to the next length. The table keeps its codes and
//! symbols in the workspace pool.
//!
//! A symbol is decoded in one of three ways: bit by bit; through the 32-bit
//! register of the stream, length by length; or through a lookup table on
//! the next [`HUFF_BIT`] bits, which settles the short codes in one step.

use crate::bitstream::{lemma_top_fits, low_mask, mask_of, BitState, BitStream};
use crate::pool::{
    align8,
    lemma_read_bytes_local,
    lemma_read_u16_local,
    same_bytes,
    ByteRegion,
    MemoryPool,
    U16Region,
};
use crate::types::Error;
use vstd::prelude::*;

verus! {

/// Number of bits that index the lookup table.
pub const HUFF_BIT: usize = 10;

/// Number of entries of the lookup table.
pub const HUFF_LEN: usize = 1024;

/// The lookup table entry that stands for "no short code here".
pub const LUT_MISS: u16 = 0xFFFF;

/// The number of codes shorter than `l + 1` bits, where `bits[k]` is the
/// number of codes of `k + 1` bits.
pub open spec fn count_below(bits: Seq<u8>, l: nat) -> nat
    decreases l,
{
    if l == 0 {
        0
    } else {
        count_below(bits, (l - 1) as nat) + bits[l - 1] as nat
    }
}

/// The number of codes of a table.
pub open spec fn total_codes(bits: Seq<u8>) -> nat {
    count_below(bits, 16)
}

/// The first code of `l + 1` bits, in 16-bit arithmetic.
pub open spec fn first_code(bits: Seq<u8>, l: nat) -> nat
    decreases l,
{
    if l == 0 {
        0
    } else {
        (((first_code(bits, (l - 1) as nat) + bits[l - 1]) * 2) % 65536) as nat
    }
}

/// The length, less one, of the code with index `i`, searched from `l` on;
/// 16 where no length is left.
pub open spec fn length_index(bits: Seq<u8>, i: nat, l: nat) -> nat
    decreases 16 - l,
{
    if l >= 16 {
        16
    } else if i < count_below(bits, l + 1) {
        l
    } else {
        length_index(bits, i, l + 1)
    }
}

/// The length in bits of the code with index `i`.
pub open spec fn code_length(bits: Seq<u8>, i: nat) -> nat {
    length_index(bits, i, 0) + 1
}

/// The canonical code with index `i`.
pub open spec fn code_of(bits: Seq<u8>, i: nat) -> u16 {
    let l = length_index(bits, i, 0);
    ((first_code(bits, l) + i - count_below(bits, l)) % 65536) as u16
}

/// The canonical codes of a table, in index order.
pub open spec fn canonical_codes(bits: Seq<u8>) -> Seq<u16> {
    Seq::new(total_codes(bits), |i: int| code_of(bits, i as nat))
}

/// The number of codes below a length grows with the length.
pub proof fn lemma_count_below_monotone(bits: Seq<u8>, a: nat, b: nat)
    requires
        a <= b,
    ensures
        count_below(bits, a) <= count_below(bits, b),
        count_below(bits, b) <= count_below(bits, a) + 255 * (b - a),
    decreases b,
{
    if a < b {
        lemma_count_below_monotone(bits, a, (b - 1) as nat);
    }
}

proof fn lemma_length_index_from(bits: Seq<u8>, i: nat, l: nat, from: nat)
    requires
        from <= l < 16,
        count_below(bits, l) <= i < count_below(bits, l + 1),
    ensures
        length_index(bits, i, from) == l,
    decreases l - from,
{
    if from < l {
        lemma_count_below_monotone(bits, from + 1, l);
        lemma_length_index_from(bits, i, l, from + 1);
    }
}

proof fn lemma_length_index_found(bits: Seq<u8>, i: nat, from: nat)
    requires
        from <= 16,
        count_below(bits, from) <= i < total_codes(bits),
    ensures
        from <= length_index(bits, i, from) < 16,
        count_below(bits, length_index(bits, i, from)) <= i < count_below(
            bits,
            length_index(bits, i, from) + 1,
        ),
    decreases 16 - from,
{
    if from < 16 && i >= count_below(bits, from + 1) {
        lemma_length_index_found(bits, i, from + 1);
    }
}

/// The lengths of the codes match the histogram: the code with index `i` has
/// `l + 1` bits exactly where `i` lies behind the codes of fewer bits and
/// among the `bits[l]` codes that follow them.
pub proof fn lemma_code_lengths(bits: Seq<u8>, i: nat, l: nat)
    requires
        i < total_codes(bits),
        l < 16,
    ensures
        1 <= code_length(bits, i) <= 16,
        code_length(bits, i) == l + 1 <==> count_below(bits, l) <= i < count_below(bits, l)
            + bits[l as int],
{
    lemma_length_index_found(bits, i, 0);
    if count_below(bits, l) <= i < count_below(bits, l + 1) {
        lemma_length_index_from(bits, i, l, 0);
    }
}

/// The codes of a table are distinct: two codes of one length differ in
/// value.
pub proof fn lemma_codes_distinct(bits: Seq<u8>, i: nat, j: nat)
    requires
        i < total_codes(bits),
        j < total_codes(bits),
        i != j,
    ensures
        code_length(bits, i) != code_length(bits, j) || code_of(bits, i) != code_of(bits, j),
{
    let l = length_index(bits, i, 0);
    if length_index(bits, j, 0) == l {
        lemma_length_index_found(bits, i, 0);
        lemma_length_index_found(bits, j, 0);
        let base = first_code(bits, l) as int;
        let a = i - count_below(bits, l);
        let b = j - count_below(bits, l);
        assert(0 <= a < 256 && 0 <= b < 256 && a != b);
        assert((base + a) % 65536 != (base + b) % 65536);
    }
}

/// The first index in `from .. to` at which `codes` holds `d`.
pub open spec fn scan(codes: Seq<u16>, d: u16, from: int, to: int) -> Option<int>
    decreases to - from,
{
    if from >= to {
        None
    } else if codes[from] == d {
        Some(from)
    } else {
        scan(codes, d, from + 1, to)
    }
}

/// Searching the codes of `l + 1` and more bits, which start at index `idx`,
/// for the one that the window of `s` begins with: length by length, the
/// first code of that length equal to the leading bits. Gives the index of
/// the code and its length.
pub open spec fn lookup(bits: Seq<u8>, codes: Seq<u16>, s: BitState, l: nat, idx: nat) -> Option<
    (nat, nat),
>
    decreases 16 - l,
{
    if l >= 16 {
        None
    } else {
        match scan(codes, s.top(l + 1) as u16, idx as int, idx + bits[l as int]) {
            Some(i) => Some((i as nat, l + 1)),
            None => lookup(bits, codes, s, l + 1, idx + bits[l as int] as nat),
        }
    }
}

/// The first slot of the lookup table that a code of `len` bits fills: the
/// code moved up to [`HUFF_BIT`] bits.
pub open spec fn lut_base_of(code: u16, len: u32) -> u16 {
    (code << ((10 - len) as u32)) & 1023
}

/// The number of slots of the lookup table that a code of `len` bits fills.
pub open spec fn lut_span_of(len: u32) -> u32 {
    1u32 << ((10 - len) as u32)
}

/// The entry of the lookup table for a code of `len` bits: the length in the
/// high byte, the symbol in the low byte.
pub open spec fn lut_entry_of(symbol: u8, len: u32) -> u16 {
    (symbol as u16) | ((len as u16) << 8)
}

/// The code with index `i` fills the slot `slot` of the lookup table: the
/// slot begins with the code.
pub open spec fn covers(bits: Seq<u8>, codes: Seq<u16>, i: nat, slot: int) -> bool {
    let len = code_length(bits, i) as u32;
    let base = lut_base_of(codes[i as int], len);
    base <= slot < base + lut_span_of(len) && slot < HUFF_LEN
}

/// The slot `slot` of the lookup table after the first `k` codes have been
/// entered: the entry of the last of them that fills the slot, or
/// [`LUT_MISS`].
pub open spec fn lut_slot(
    bits: Seq<u8>,
    codes: Seq<u16>,
    symbols: Seq<u8>,
    slot: int,
    k: nat,
) -> u16
    decreases k,
{
    if k == 0 {
        LUT_MISS
    } else if covers(bits, codes, (k - 1) as nat, slot) {
        lut_entry_of(symbols[k - 1], code_length(bits, (k - 1) as nat) as u32)
    } else {
        lut_slot(bits, codes, symbols, slot, (k - 1) as nat)
    }
}

/// A Huffman table as plain values.
pub struct HuffSpec {
    /// The number of codes of each length: `bits[k]` codes of `k + 1` bits.
    pub bits: Seq<u8>,
    /// The codes in index order.
    pub codes: Seq<u16>,
    /// The symbol of each code.
    pub symbols: Seq<u8>,
    /// The lookup table, where the table has one.
    pub lut: Option<Seq<u16>>,
    /// The number of codes that the lookup table settles.
    pub long_offset: nat,
}

impl HuffSpec {
    /// The table that [`HuffmanTable::create_in_pool`] builds from a
    /// histogram and its symbols.
    pub open spec fn canonical(bits: Seq<u8>, symbols: Seq<u8>) -> HuffSpec {
        HuffSpec { bits, codes: canonical_codes(bits), symbols, lut: None, long_offset: 0 }
    }

    /// The table with the lookup table of its codes.
    pub open spec fn with_lut(self) -> HuffSpec {
        HuffSpec { lut: Some(self.lut_table()), long_offset: self.short_codes(), ..self }
    }

    /// Searching the codes of `l + 1` and more bits, which start at index
    /// `idx`, for the one that the window of `s` begins with: length by
    /// length, the first code of that length equal to the leading bits. Gives
    /// the index of the code and its length.
    pub open spec fn lookup(self, s: BitState, l: nat, idx: nat) -> Option<(nat, nat)> {
        lookup(self.bits, self.codes, s, l, idx)
    }

    /// Decoding one symbol through the register: the register is filled to
    /// 16 bits, the codes are searched from the shortest on, and the bits of
    /// the code that was found leave the register. No code is a format error.
    pub open spec fn decode_by_search(self, st: BitState) -> Result<(u8, BitState), Error> {
        match st.fill(16) {
            Err(e) => Err(e),
            Ok(s) => match self.lookup(s, 0, 0) {
                Some((i, len)) => Ok((self.symbols[i as int], s.drop_bits(len))),
                None => Err(Error::FormatError),
            },
        }
    }

    /// The number of codes of at most [`HUFF_BIT`] bits.
    pub open spec fn short_codes(self) -> nat {
        count_below(self.bits, HUFF_BIT as nat)
    }

    /// The code with index `i` fills the slot `slot` of the lookup table: the
    /// slot begins with the code.
    pub open spec fn covers(self, i: nat, slot: int) -> bool {
        covers(self.bits, self.codes, i, slot)
    }

    /// The slot `slot` of the lookup table after the first `k` codes have been
    /// entered.
    pub open spec fn lut_slot(self, slot: int, k: nat) -> u16 {
        lut_slot(self.bits, self.codes, self.symbols, slot, k)
    }

    /// The lookup table of the codes of at most [`HUFF_BIT`] bits.
    pub open spec fn lut_table(self) -> Seq<u16> {
        Seq::new(HUFF_LEN as nat, |slot: int| self.lut_slot(slot, self.short_codes()))
    }

    /// Decoding one symbol through the lookup table: the register is filled
    /// to 16 bits and its first [`HUFF_BIT`] bits pick a slot. An entry there
    /// gives the symbol and the number of bits that leave the register; a
    /// miss sends the search to the longer codes.
    pub open spec fn decode_by_table(self, st: BitState) -> Result<(u8, BitState), Error> {
        match st.fill(16) {
            Err(e) => Err(e),
            Ok(s) => {
                let entry = self.lut->0[s.top(HUFF_BIT as nat) as int];
                if entry != LUT_MISS {
                    Ok(((entry & 0xFF) as u8, s.drop_bits((entry >> 8) as nat)))
                } else {
                    match self.lookup(s, HUFF_BIT as nat, self.long_offset) {
                        Some((i, len)) => Ok((self.symbols[i as int], s.drop_bits(len))),
                        None => Err(Error::FormatError),
                    }
                }
            },
        }
    }

    /// Decoding one symbol: through the lookup table where the table has
    /// one, else through the register alone.
    pub open spec fn decode(self, st: BitState) -> Result<(u8, BitState), Error> {
        if self.lut is Some {
            self.decode_by_table(st)
        } else {
            self.decode_by_search(st)
        }
    }

    /// An entry of the lookup table is a miss or holds a length from 1 to
    /// [`HUFF_BIT`] in its high byte.
    pub proof fn lemma_lut_slot(self, slot: int, k: nat)
        requires
            k <= self.short_codes(),
            self.short_codes() <= total_codes(self.bits),
        ensures
            self.lut_slot(slot, k) == LUT_MISS || 1 <= self.lut_slot(slot, k) >> 8 <= HUFF_BIT,
        decreases k,
    {
        if k > 0 {
            let i = (k - 1) as nat;
            if self.covers(i, slot) {
                lemma_length_index_found(self.bits, i, 0);
                let l = length_index(self.bits, i, 0);
                if l >= 10 {
                    lemma_count_below_monotone(self.bits, 10, l);
                }
                let len = code_length(self.bits, i) as u32;
                let symbol = self.symbols[i as int];
                assert(1 <= lut_entry_of(symbol, len) >> 8 <= 10) by (bit_vector)
                    requires
                        1 <= len <= 10,
                ;
            } else {
                self.lemma_lut_slot(slot, i);
            }
        }
    }

    /// Searching bit by bit: `d` holds the `l` bits read so far, and the
    /// codes of `l + 1` bits start at index `idx`.
    pub open spec fn walk(self, s: BitState, l: nat, d: u16, idx: nat) -> Result<
        (u8, BitState),
        Error,
    >
        decreases 16 - l,
    {
        if l >= 16 {
            Err(Error::FormatError)
        } else {
            match s.bit() {
                Err(e) => Err(e),
                Ok((b, s2)) => {
                    let d2 = ((d * 2) % 65536 + b) as u16;
                    match scan(self.codes, d2, idx as int, idx + self.bits[l as int]) {
                        Some(i) => Ok((self.symbols[i], s2)),
                        None => self.walk(s2, l + 1, d2, idx + self.bits[l as int] as nat),
                    }
                },
            }
        }
    }

    /// Decoding one symbol bit by bit: after each bit the codes of that
    /// length are searched. Sixteen bits without a code are a format error.
    pub open spec fn decode_by_bits(self, st: BitState) -> Result<(u8, BitState), Error> {
        self.walk(st, 0, 0, 0)
    }
}

/// A Huffman table whose codes and symbols stand in the workspace pool.
#[derive(Debug, Clone, Copy)]
pub struct HuffmanTable {
    /// The number of codes of each length: `bits[k]` codes of `k + 1` bits.
    pub bits: [u8; 16],
    /// The codes in index order.
    pub codes: U16Region,
    /// The symbol of each code.
    pub data: ByteRegion,
    /// The number of codes.
    pub num_codes: usize,
    /// The lookup table, where the table has one.
    pub lut: Option<U16Region>,
    /// The number of codes that the lookup table settles.
    pub long_offset: usize,
}

impl HuffmanTable {
    /// The table as it reads from the pool bytes `bytes`.
    pub open spec fn spec_in(&self, bytes: Seq<u8>) -> HuffSpec {
        HuffSpec {
            bits: self.bits@,
            codes: self.codes.read(bytes),
            symbols: self.data.read(bytes),
            lut: match self.lut {
                Some(region) => Some(region.read(bytes)),
                None => None,
            },
            long_offset: self.long_offset as nat,
        }
    }

    /// Offset just past the last byte that the table holds in the pool.
    pub open spec fn extent(&self) -> int {
        let base = if self.codes.end() >= self.data.end() {
            self.codes.end()
        } else {
            self.data.end()
        };
        match self.lut {
            Some(region) => if region.end() >= base {
                region.end()
            } else {
                base
            },
            None => base,
        }
    }

    /// The regions of the table lie inside `bytes` and hold one code and one
    /// symbol for each entry of the histogram.
    pub open spec fn fits(&self, bytes: Seq<u8>) -> bool {
        &&& self.num_codes == total_codes(self.bits@)
        &&& self.codes.count == self.num_codes
        &&& self.data.count == self.num_codes
        &&& self.extent() <= bytes.len()
        &&& self.lut matches Some(region) ==> region.count == HUFF_LEN
    }

    /// What the pool must still hold for a table with the histogram `bits`:
    /// two bytes a code and one byte a symbol, each part rounded up to a
    /// multiple of 8.
    pub open spec fn space_for(bits: Seq<u8>) -> int {
        align8(2 * (total_codes(bits) as int)) + align8(total_codes(bits) as int)
    }

    /// A histogram of 16 lengths with at least one code, and one symbol for
    /// each code.
    pub open spec fn accepts(bits: Seq<u8>, values: Seq<u8>) -> bool {
        &&& bits.len() == 16
        &&& total_codes(bits) > 0
        &&& values.len() == total_codes(bits)
    }

    /// Builds the table with the histogram `bits` and the symbols `values`
    /// in the pool. A histogram that is not 16 long or is empty, or values
    /// that do not match it in number, are a format error; a pool with too
    /// little room is a memory error. After an error the pool is as it was.
    pub fn create_in_pool(pool: &mut MemoryPool, bits: &[u8], values: &[u8]) -> (r: Result<
        HuffmanTable,
        Error,
    >)
        requires
            old(pool).wf(),
        ensures
            final(pool).wf(),
            final(pool)@.len() == old(pool)@.len(),
            same_bytes(old(pool)@, final(pool)@, 0, old(pool).spec_used() as int),
            r == Err::<HuffmanTable, Error>(Error::FormatError) <==> !Self::accepts(bits@, values@),
            r == Err::<HuffmanTable, Error>(Error::InsufficientMemory) <==> Self::accepts(
                bits@,
                values@,
            ) && old(pool).spec_remaining() < Self::space_for(bits@),
            r is Err ==> (r == Err::<HuffmanTable, Error>(Error::FormatError) || r == Err::<
                HuffmanTable,
                Error,
            >(Error::InsufficientMemory)) && final(pool)@ == old(pool)@ && final(pool).spec_used()
                == old(pool).spec_used(),
            r matches Ok(table) ==> {
                &&& table.fits(final(pool)@)
                &&& table.spec_in(final(pool)@) == HuffSpec::canonical(bits@, values@)
                &&& table.codes.start >= old(pool).spec_used()
                &&& table.data.start >= old(pool).spec_used()
                &&& table.extent() <= final(pool).spec_used()
                &&& final(pool).spec_used() == old(pool).spec_used() + Self::space_for(bits@)
            },
    {
        if bits.len() != 16 {
            return Err(Error::FormatError);
        }
        let mut num_codes: usize = 0;
        let mut bits_arr: [u8; 16] = [0u8; 16];
        let mut l: usize = 0;
        while l < 16
            invariant
                l <= 16,
                bits@.len() == 16,
                num_codes == count_below(bits@, l as nat),
                num_codes <= 255 * l,
                forall|k: int| 0 <= k < l ==> bits_arr@[k] == bits@[k],
            decreases 16 - l,
        {
            num_codes += bits[l] as usize;
            bits_arr[l] = bits[l];
            l += 1;
        }
        assert(bits_arr@ =~= bits@);
        if num_codes == 0 || values.len() != num_codes {
            return Err(Error::FormatError);
        }
        let code_bytes: usize = (2 * num_codes + 7) / 8 * 8;
        let symbol_bytes: usize = (num_codes + 7) / 8 * 8;
        if pool.remaining() < code_bytes + symbol_bytes {
            return Err(Error::InsufficientMemory);
        }
        let ghost orig = pool@;
        let ghost orig_used = pool.spec_used();
        let codes: U16Region = match pool.alloc_u16(num_codes) {
            Some(region) => region,
            None => {
                return Err(Error::InsufficientMemory);
            },
        };
        let data: ByteRegion = match pool.alloc_u8(num_codes) {
            Some(region) => region,
            None => {
                return Err(Error::InsufficientMemory);
            },
        };
        let mut code: u16 = 0;
        let mut idx: usize = 0;
        let mut l: usize = 0;
        while l < 16
            invariant
                l <= 16,
                bits@.len() == 16,
                pool.wf(),
                pool@.len() == orig.len(),
                same_bytes(orig, pool@, 0, orig_used as int),
                pool.spec_used() == orig_used + Self::space_for(bits@),
                num_codes == total_codes(bits@),
                codes.count == num_codes,
                codes.start >= orig_used,
                codes.end() <= pool@.len(),
                idx == count_below(bits@, l as nat),
                code == first_code(bits@, l as nat),
                forall|j: int| 0 <= j < idx ==> codes.read(pool@)[j] == code_of(bits@, j as nat),
            decreases 16 - l,
        {
            let count: usize = bits[l] as usize;
            let mut k: usize = 0;
            proof {
                lemma_count_below_monotone(bits@, (l + 1) as nat, 16);
            }
            while k < count
                invariant
                    l < 16,
                    k <= count,
                    count == bits@[l as int],
                    bits@.len() == 16,
                    pool.wf(),
                    pool@.len() == orig.len(),
                    same_bytes(orig, pool@, 0, orig_used as int),
                    pool.spec_used() == orig_used + Self::space_for(bits@),
                    num_codes == total_codes(bits@),
                    count_below(bits@, (l + 1) as nat) <= num_codes,
                    codes.count == num_codes,
                    codes.start >= orig_used,
                    codes.end() <= pool@.len(),
                    idx == count_below(bits@, l as nat) + k,
                    code == (first_code(bits@, l as nat) + k) % 65536,
                    forall|j: int| 0 <= j < idx ==> codes.read(pool@)[j] == code_of(bits@, j as nat),
                decreases count - k,
            {
                proof {
                    lemma_length_index_from(bits@, idx as nat, l as nat, 0);
                }
                pool.set_u16(&codes, idx, code);
                idx += 1;
                code = code.wrapping_add(1);
                k += 1;
            }
            assert(code << 1u16 == (code * 2) % 65536) by (bit_vector);
            code = code << 1;
            l += 1;
        }
        assert(codes.read(pool@) =~= canonical_codes(bits@));
        let mut i: usize = 0;
        while i < num_codes
            invariant
                i <= num_codes,
                pool.wf(),
                pool@.len() == orig.len(),
                same_bytes(orig, pool@, 0, orig_used as int),
                pool.spec_used() == orig_used + Self::space_for(bits@),
                values@.len() == num_codes,
                codes.count == num_codes,
                data.count == num_codes,
                codes.start >= orig_used,
                codes.end() <= data.start,
                data.end() <= pool@.len(),
                codes.read(pool@) == canonical_codes(bits@),
                forall|j: int| 0 <= j < i ==> data.read(pool@)[j] == values@[j],
            decreases num_codes - i,
        {
            let ghost before = pool@;
            pool.set_u8(&data, i, values[i]);
            proof {
                lemma_read_u16_local(codes, before, pool@);
            }
            i += 1;
        }
        assert(data.read(pool@) =~= values@);
        Ok(HuffmanTable { bits: bits_arr, codes, data, num_codes, lut: None, long_offset: 0 })
    }

    /// The table fits in `bytes`, and its lookup table, where it has one, is
    /// the one that belongs to its codes.
    pub open spec fn wf_in(&self, bytes: Seq<u8>) -> bool {
        &&& self.fits(bytes)
        &&& self.lut is Some ==> {
            &&& self.spec_in(bytes).lut->0 == self.spec_in(bytes).lut_table()
            &&& self.long_offset == self.spec_in(bytes).short_codes()
        }
    }

    /// A table reads the same from two buffers that agree on the bytes below
    /// `limit`, where all of the table lies below `limit`.
    pub proof fn lemma_frame(&self, a: Seq<u8>, b: Seq<u8>, limit: int)
        requires
            self.fits(a),
            self.extent() <= limit,
            same_bytes(a, b, 0, limit),
        ensures
            self.fits(b),
            self.spec_in(b) == self.spec_in(a),
            self.wf_in(a) ==> self.wf_in(b),
    {
        lemma_read_u16_local(self.codes, a, b);
        lemma_read_bytes_local(self.data, a, b);
        match self.lut {
            Some(region) => {
                lemma_read_u16_local(region, a, b);
            },
            None => {},
        }
    }

    /// Builds the lookup table of the codes of at most [`HUFF_BIT`] bits in
    /// the pool and attaches it to the table. A pool with too little room is
    /// a memory error, and leaves table and pool as they were.
    pub fn build_fast_lut(&mut self, pool: &mut MemoryPool) -> (r: Result<(), Error>)
        requires
            old(pool).wf(),
            old(self).fits(old(pool)@),
            old(self).extent() <= old(pool).spec_used(),
        ensures
            final(pool).wf(),
            final(pool)@.len() == old(pool)@.len(),
            same_bytes(old(pool)@, final(pool)@, 0, old(pool).spec_used() as int),
            r is Err <==> old(pool).spec_remaining() < 2 * HUFF_LEN,
            r is Err ==> r == Err::<(), Error>(Error::InsufficientMemory) && final(pool)@ == old(
                pool,
            )@ && final(pool).spec_used() == old(pool).spec_used() && *final(self) == *old(self),
            r is Ok ==> {
                &&& final(self).wf_in(final(pool)@)
                &&& final(self).lut is Some
                &&& final(self).bits == old(self).bits
                &&& final(self).codes == old(self).codes
                &&& final(self).data == old(self).data
                &&& final(self).num_codes == old(self).num_codes
                &&& final(self).spec_in(final(pool)@) == old(self).spec_in(old(pool)@).with_lut()
                &&& final(self).extent() <= final(pool).spec_used()
                &&& final(pool).spec_used() == old(pool).spec_used() + 2 * HUFF_LEN
            },
    {
        let ghost orig = pool@;
        let ghost orig_used = pool.spec_used();
        let ghost table = self.spec_in(pool@);
        let lut: U16Region = match pool.alloc_u16(HUFF_LEN) {
            Some(region) => region,
            None => {
                return Err(Error::InsufficientMemory);
            },
        };
        proof {
            self.lemma_frame(orig, pool@, orig_used as int);
        }
        let mut slot: usize = 0;
        while slot < HUFF_LEN
            invariant
                slot <= HUFF_LEN,
                pool.wf(),
                pool@.len() == orig.len(),
                same_bytes(orig, pool@, 0, orig_used as int),
                pool.spec_used() == orig_used + 2 * HUFF_LEN,
                lut.count == HUFF_LEN,
                lut.start == orig_used,
                lut.end() <= pool@.len(),
                forall|j: int| 0 <= j < slot ==> lut.read(pool@)[j] == LUT_MISS,
            decreases HUFF_LEN - slot,
        {
            pool.set_u16(&lut, slot, LUT_MISS);
            slot += 1;
        }
        proof {
            self.lemma_frame(orig, pool@, orig_used as int);
        }
        let mut idx: usize = 0;
        let mut l: usize = 0;
        while l < HUFF_BIT
            invariant
                l <= HUFF_BIT,
                pool.wf(),
                pool@.len() == orig.len(),
                same_bytes(orig, pool@, 0, orig_used as int),
                pool.spec_used() == orig_used + 2 * HUFF_LEN,
                lut.count == HUFF_LEN,
                lut.start == orig_used,
                lut.end() <= pool@.len(),
                *self == *old(self),
                self.fits(pool@),
                self.extent() <= orig_used,
                self.spec_in(pool@) == table,
                idx == count_below(self.bits@, l as nat),
                forall|j: int| 0 <= j < HUFF_LEN ==> lut.read(pool@)[j] == table.lut_slot(j, idx as nat),
            decreases HUFF_BIT - l,
        {
            let count: usize = self.bits[l] as usize;
            let mut k: usize = 0;
            proof {
                lemma_count_below_monotone(self.bits@, (l + 1) as nat, 16);
            }
            while k < count
                invariant
                    l < HUFF_BIT,
                    k <= count,
                    count == self.bits@[l as int],
                    count_below(self.bits@, (l + 1) as nat) <= total_codes(self.bits@),
                    pool.wf(),
                    pool@.len() == orig.len(),
                    same_bytes(orig, pool@, 0, orig_used as int),
                    pool.spec_used() == orig_used + 2 * HUFF_LEN,
                    lut.count == HUFF_LEN,
                    lut.start == orig_used,
                    lut.end() <= pool@.len(),
                    *self == *old(self),
                    self.fits(pool@),
                    self.extent() <= orig_used,
                    self.spec_in(pool@) == table,
                    idx == count_below(self.bits@, l as nat) + k,
                    forall|j: int|
                        0 <= j < HUFF_LEN ==> lut.read(pool@)[j] == table.lut_slot(j, idx as nat),
                decreases count - k,
            {
                let code: u16 = pool.get_u16(&self.codes, idx);
                let symbol: u8 = pool.get_u8(&self.data, idx);
                let len: u32 = (l + 1) as u32;
                let shift: u32 = 10 - len;
                let base: usize = ((code << shift) & 1023) as usize;
                let entry: u16 = (symbol as u16) | ((len as u16) << 8);
                let span: usize = (1u32 << shift) as usize;
                proof {
                    lemma_length_index_from(self.bits@, idx as nat, l as nat, 0);
                    assert(1u32 << shift <= 512) by (bit_vector)
                        requires
                            shift <= 9,
                    ;
                    assert((code << shift) & 1023 < 1024) by (bit_vector);
                    assert(base == lut_base_of(code, len));
                    assert(span == lut_span_of(len));
                    assert(entry == lut_entry_of(symbol, len));
                }
                let mut i: usize = 0;
                while i < span
                    invariant
                        i <= span <= 512,
                        base < 1024,
                        pool.wf(),
                        pool@.len() == orig.len(),
                        same_bytes(orig, pool@, 0, orig_used as int),
                        pool.spec_used() == orig_used + 2 * HUFF_LEN,
                        lut.count == HUFF_LEN,
                        lut.start == orig_used,
                        lut.end() <= pool@.len(),
                        *self == *old(self),
                        self.fits(pool@),
                        self.extent() <= orig_used,
                        self.spec_in(pool@) == table,
                        forall|j: int|
                            0 <= j < HUFF_LEN ==> lut.read(pool@)[j] == if base <= j < base + i {
                                entry
                            } else {
                                table.lut_slot(j, idx as nat)
                            },
                    decreases span - i,
                {
                    if base + i < HUFF_LEN {
                        let ghost before = pool@;
                        pool.set_u16(&lut, base + i, entry);
                        proof {
                            self.lemma_frame(before, pool@, orig_used as int);
                        }
                    }
                    i += 1;
                }
                proof {
                    assert forall|j: int| 0 <= j < HUFF_LEN implies lut.read(pool@)[j]
                        == table.lut_slot(j, (idx + 1) as nat) by {
                        assert(table.covers(idx as nat, j) <==> base <= j < base + span);
                    }
                }
                idx += 1;
                k += 1;
            }
            l += 1;
        }
        assert(lut.read(pool@) =~= table.lut_table());
        self.long_offset = idx;
        self.lut = Some(lut);
        proof {
            let built = self.spec_in(pool@);
            assert(built.lut_table() =~= table.lut_table());
            assert(built.lut->0 =~= built.lut_table());
        }
        Ok(())
    }

    /// Decodes one symbol: through the lookup table where the table has one,
    /// else through the register.
    pub fn decode(&self, pool: &MemoryPool, bits: &mut BitStream) -> (r: Result<u8, Error>)
        requires
            pool.wf(),
            self.wf_in(pool@),
            old(bits)@.wf(),
        ensures
            final(bits)@.wf(),
            final(bits)@.data == old(bits)@.data,
            match self.spec_in(pool@).decode(old(bits)@) {
                Ok((symbol, s)) => r == Ok::<u8, Error>(symbol) && final(bits)@ == s,
                Err(e) => r == Err::<u8, Error>(e),
            },
    {
        if self.lut.is_some() {
            self.decode_fastdecode2(pool, bits)
        } else {
            self.decode_fastdecode1(pool, bits)
        }
    }

    /// Decodes one symbol through the lookup table.
    #[verifier::loop_isolation(false)]
    pub fn decode_fastdecode2(&self, pool: &MemoryPool, bits: &mut BitStream) -> (r: Result<
        u8,
        Error,
    >)
        requires
            pool.wf(),
            self.wf_in(pool@),
            self.lut is Some,
            old(bits)@.wf(),
        ensures
            final(bits)@.wf(),
            final(bits)@.data == old(bits)@.data,
            match self.spec_in(pool@).decode_by_table(old(bits)@) {
                Ok((symbol, s)) => r == Ok::<u8, Error>(symbol) && final(bits)@ == s,
                Err(e) => r == Err::<u8, Error>(e),
            },
    {
        let ghost table = self.spec_in(pool@);
        let lut: U16Region = match self.lut {
            Some(region) => region,
            None => {
                return Err(Error::FormatError);
            },
        };
        match bits.ensure_bits(16) {
            Ok(()) => {},
            Err(e) => {
                return Err(e);
            },
        }
        let ghost filled = bits@;
        let wbit: usize = bits.bits_in_buffer;
        let window: u32 = bits.bit_buffer & mask_of(wbit);
        let slot: u32 = (window >> ((wbit - HUFF_BIT) as u32)) & mask_of(HUFF_BIT);
        proof {
            let shifted = window >> ((wbit - HUFF_BIT) as u32);
            assert(shifted & low_mask(10) < 1024) by (bit_vector);
            lemma_count_below_monotone(self.bits@, 10, 16);
            table.lemma_lut_slot(slot as int, table.short_codes());
        }
        let entry: u16 = pool.get_u16(&lut, slot as usize);
        if entry != LUT_MISS {
            let code_len: usize = (entry >> 8) as usize;
            assert(entry & 0xFF <= 0xFF) by (bit_vector);
            let symbol: u8 = (entry & 0xFF) as u8;
            bits.bits_in_buffer = wbit - code_len;
            return Ok(symbol);
        }
        let mut idx: usize = self.long_offset;
        let mut l: usize = HUFF_BIT;
        while l < 16
            invariant
                HUFF_BIT <= l <= 16,
                bits@ == filled,
                idx == count_below(self.bits@, l as nat),
                table.lookup(filled, HUFF_BIT as nat, self.long_offset as nat) == table.lookup(
                    filled,
                    l as nat,
                    idx as nat,
                ),
            decreases 16 - l,
        {
            let count: usize = self.bits[l] as usize;
            proof {
                lemma_count_below_monotone(self.bits@, (l + 1) as nat, 16);
                lemma_top_fits(window, wbit as u32, (l + 1) as u32);
            }
            let d: u16 = ((window >> ((wbit - (l + 1)) as u32)) & mask_of(l + 1)) as u16;
            let end: usize = idx + count;
            let ghost first = idx;
            while idx < end
                invariant
                    first <= idx <= end,
                    bits@ == filled,
                    scan(table.codes, d, first as int, end as int) == scan(
                        table.codes,
                        d,
                        idx as int,
                        end as int,
                    ),
                decreases end - idx,
            {
                if pool.get_u16(&self.codes, idx) == d {
                    bits.bits_in_buffer = wbit - (l + 1);
                    return Ok(pool.get_u8(&self.data, idx));
                }
                idx += 1;
            }
            l += 1;
        }
        Err(Error::FormatError)
    }

    /// Decodes one symbol bit by bit.
    #[verifier::loop_isolation(false)]
    pub fn decode_fastdecode0(&self, pool: &MemoryPool, bits: &mut BitStream) -> (r: Result<
        u8,
        Error,
    >)
        requires
            pool.wf(),
            self.fits(pool@),
            old(bits)@.wf(),
        ensures
            final(bits)@.wf(),
            final(bits)@.data == old(bits)@.data,
            match self.spec_in(pool@).decode_by_bits(old(bits)@) {
                Ok((symbol, s)) => r == Ok::<u8, Error>(symbol) && final(bits)@ == s,
                Err(e) => r == Err::<u8, Error>(e),
            },
    {
        let ghost table = self.spec_in(pool@);
        let mut d: u16 = 0;
        let mut idx: usize = 0;
        let mut l: usize = 0;
        while l < 16
            invariant
                l <= 16,
                pool.wf(),
                self.fits(pool@),
                table == self.spec_in(pool@),
                bits@.wf(),
                bits@.data == old(bits)@.data,
                idx == count_below(self.bits@, l as nat),
                table.decode_by_bits(old(bits)@) == table.walk(bits@, l as nat, d, idx as nat),
            decreases 16 - l,
        {
            let bit: u8 = match bits.read_bit_level0() {
                Ok(b) => b,
                Err(e) => {
                    return Err(e);
                },
            };
            assert(bit <= 1);
            assert((d << 1) | (bit as u16) == ((d * 2) % 65536 + bit) as u16) by (bit_vector)
                requires
                    bit <= 1,
            ;
            d = (d << 1) | (bit as u16);
            let count: usize = self.bits[l] as usize;
            proof {
                lemma_count_below_monotone(self.bits@, (l + 1) as nat, 16);
            }
            let end: usize = idx + count;
            let ghost first = idx;
            while idx < end
                invariant
                    first <= idx <= end,
                    end <= self.num_codes,
                    pool.wf(),
                    self.fits(pool@),
                    table == self.spec_in(pool@),
                    scan(table.codes, d, first as int, end as int) == scan(
                        table.codes,
                        d,
                        idx as int,
                        end as int,
                    ),
                decreases end - idx,
            {
                if pool.get_u16(&self.codes, idx) == d {
                    return Ok(pool.get_u8(&self.data, idx));
                }
                idx += 1;
            }
            l += 1;
        }
        Err(Error::FormatError)
    }

    /// Decodes one symbol through the register of the stream.
    #[verifier::loop_isolation(false)]
    pub fn decode_fastdecode1(&self, pool: &MemoryPool, bits: &mut BitStream) -> (r: Result<
        u8,
        Error,
    >)
        requires
            pool.wf(),
            self.fits(pool@),
            old(bits)@.wf(),
        ensures
            final(bits)@.wf(),
            final(bits)@.data == old(bits)@.data,
            match self.spec_in(pool@).decode_by_search(old(bits)@) {
                Ok((symbol, s)) => r == Ok::<u8, Error>(symbol) && final(bits)@ == s,
                Err(e) => r == Err::<u8, Error>(e),
            },
    {
        let ghost table = self.spec_in(pool@);
        match bits.ensure_bits(16) {
            Ok(()) => {},
            Err(e) => {
                return Err(e);
            },
        }
        let ghost filled = bits@;
        let wbit: usize = bits.bits_in_buffer;
        let window: u32 = bits.bit_buffer & mask_of(wbit);
        let mut idx: usize = 0;
        let mut l: usize = 0;
        while l < 16
            invariant
                l <= 16,
                pool.wf(),
                self.fits(pool@),
                table == self.spec_in(pool@),
                bits@ == filled,
                filled.wf(),
                16 <= wbit <= 32,
                wbit == filled.count,
                window == filled.window(),
                idx == count_below(self.bits@, l as nat),
                table.lookup(filled, 0, 0) == table.lookup(filled, l as nat, idx as nat),
            decreases 16 - l,
        {
            let count: usize = self.bits[l] as usize;
            proof {
                lemma_count_below_monotone(self.bits@, (l + 1) as nat, 16);
                lemma_top_fits(window, wbit as u32, (l + 1) as u32);
            }
            let d: u16 = ((window >> ((wbit - (l + 1)) as u32)) & mask_of(l + 1)) as u16;
            let end: usize = idx + count;
            let ghost first = idx;
            while idx < end
                invariant
                    first <= idx <= end,
                    end <= self.num_codes,
                    l < 16,
                    l + 1 <= wbit <= 32,
                    bits@ == filled,
                    wbit == filled.count,
                    pool.wf(),
                    self.fits(pool@),
                    table == self.spec_in(pool@),
                    scan(table.codes, d, first as int, end as int) == scan(
                        table.codes,
                        d,
                        idx as int,
                        end as int,
                    ),
                decreases end - idx,
            {
                if pool.get_u16(&self.codes, idx) == d {
                    bits.bits_in_buffer = wbit - (l + 1);
                    return Ok(pool.get_u8(&self.data, idx));
                }
                idx += 1;
            }
            l += 1;
        }
        Err(Error::FormatError)
    }
}

/// The way of decoding that [`HuffmanTable::decode`] takes for a table
/// without a lookup table: 0 is bit by bit, 1 through the register, 2 through
/// the lookup table.
pub fn fastdecode_level() -> (level: u8)
    ensures
        level == 1,
{
    1
}

} // verus!
