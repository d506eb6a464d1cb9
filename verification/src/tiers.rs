//! The three ways of decoding a symbol agree.
//!
//! Reading bit by bit finds the code that the search through the register
//! finds, for every table, where the stream has taken no bit yet and has two
//! bytes ahead. The lookup table decodes what the search through the
//! register decodes.
//!
//! The latter holds for the tables of a prefix code: a histogram in which the
//! codes of every length fit in that many bits. In such a table no code
//! begins another one, so that at most one code begins the window of the
//! stream, and the lookup table has exactly that code in the slot that the
//! window picks.

use crate::bitstream::{lemma_top_fits, low_mask, BitState};
use crate::header::{canonical_slot, canonical_tables, with_lut_slot, HeaderSpec, TablesSpec};
use crate::idct::idct;
use crate::mcu::{
    ac_run,
    block,
    dc_block,
    dequantize,
    difference,
    luma_blocks,
    luma_count,
    mcu,
    no_prediction,
    with_block,
    with_coefficient,
    wrap16,
    ScanSpec,
};
use crate::huffman::{
    canonical_codes,
    code_length,
    code_of,
    count_below,
    covers,
    first_code,
    length_index,
    lemma_count_below_monotone,
    lookup,
    lut_base_of,
    lut_entry_of,
    lut_slot,
    lut_span_of,
    scan,
    total_codes,
    HuffSpec,
    HUFF_BIT,
    LUT_MISS,
};
use crate::types::Error;
use vstd::prelude::*;

verus! {

/// The first code of `l + 1` bits as a number that is not cut to 16 bits.
pub open spec fn exact_first(bits: Seq<u8>, l: nat) -> nat
    decreases l,
{
    if l == 0 {
        0
    } else {
        (exact_first(bits, (l - 1) as nat) + bits[l - 1] as nat) * 2
    }
}

/// The number of bit patterns of `l + 1` bits.
pub open spec fn patterns(l: nat) -> nat
    decreases l,
{
    if l == 0 {
        2
    } else {
        2 * patterns((l - 1) as nat)
    }
}

/// The histogram `bits` is that of a prefix code: the codes of every length
/// fit in that many bits.
pub open spec fn is_prefix_code(bits: Seq<u8>) -> bool {
    &&& bits.len() == 16
    &&& forall|l: nat| l < 16 ==> #[trigger] exact_first(bits, l) + bits[l as int] <= patterns(l)
}

/// The numbers of bit patterns up to 16 bits.
pub proof fn lemma_patterns(l: nat)
    requires
        l < 16,
    ensures
        patterns(l) == (1u32 << ((l + 1) as u32)),
        2 <= patterns(l) <= 65536,
        l < 15 ==> patterns(l) <= 32768,
{
    reveal_with_fuel(patterns, 17);
    assert(1u32 << 1u32 == 2 && 1u32 << 2u32 == 4 && 1u32 << 3u32 == 8 && 1u32 << 4u32 == 16 && 1u32
        << 5u32 == 32 && 1u32 << 6u32 == 64 && 1u32 << 7u32 == 128 && 1u32 << 8u32 == 256 && 1u32
        << 9u32 == 512 && 1u32 << 10u32 == 1024 && 1u32 << 11u32 == 2048 && 1u32 << 12u32 == 4096
        && 1u32 << 13u32 == 8192 && 1u32 << 14u32 == 16384 && 1u32 << 15u32 == 32768 && 1u32
        << 16u32 == 65536) by (bit_vector);
}

/// In a prefix code the 16-bit arithmetic of the codes does not wrap: the
/// first code of a length that has codes is the exact one.
pub proof fn lemma_first_code_exact(bits: Seq<u8>, l: nat)
    requires
        is_prefix_code(bits),
        l < 16,
    ensures
        first_code(bits, l) == exact_first(bits, l) % 65536,
        exact_first(bits, l) <= patterns(l),
        bits[l as int] > 0 ==> first_code(bits, l) == exact_first(bits, l),
    decreases l,
{
    lemma_patterns(l);
    assert(exact_first(bits, l) + bits[l as int] <= patterns(l));
    if l > 0 {
        let k = (l - 1) as nat;
        lemma_first_code_exact(bits, k);
        lemma_patterns(k);
        assert(exact_first(bits, k) + bits[k as int] <= patterns(k));
        assert(exact_first(bits, k) < 65536);
    }
}

/// In a prefix code the code with index `i` is the exact first code of its
/// length plus its place among the codes of that length, and fits in its
/// length.
pub proof fn lemma_code_exact(bits: Seq<u8>, i: nat)
    requires
        is_prefix_code(bits),
        i < total_codes(bits),
    ensures
        length_index(bits, i, 0) < 16,
        count_below(bits, length_index(bits, i, 0)) <= i < count_below(
            bits,
            length_index(bits, i, 0) + 1,
        ),
        code_of(bits, i) == exact_first(bits, length_index(bits, i, 0)) + i - count_below(
            bits,
            length_index(bits, i, 0),
        ),
        code_of(bits, i) < patterns(length_index(bits, i, 0)),
{
    crate::huffman::lemma_code_lengths(bits, i, 0);
    let l = length_index(bits, i, 0);
    lemma_length_bounds(bits, i);
    lemma_first_code_exact(bits, l);
    lemma_patterns(l);
    assert(exact_first(bits, l) + bits[l as int] <= patterns(l));
}

/// The code with index `i` stands among the codes of its length.
pub proof fn lemma_length_bounds(bits: Seq<u8>, i: nat)
    requires
        i < total_codes(bits),
    ensures
        length_index(bits, i, 0) < 16,
        count_below(bits, length_index(bits, i, 0)) <= i < count_below(
            bits,
            length_index(bits, i, 0) + 1,
        ),
        bits[length_index(bits, i, 0) as int] > 0,
{
    let l = (code_length(bits, i) - 1) as nat;
    crate::huffman::lemma_code_lengths(bits, i, 0);
    crate::huffman::lemma_code_lengths(bits, i, l);
}

/// Codes come in the order of their lengths.
pub proof fn lemma_lengths_ordered(bits: Seq<u8>, i: nat, j: nat)
    requires
        i <= j < total_codes(bits),
    ensures
        length_index(bits, i, 0) <= length_index(bits, j, 0),
{
    lemma_length_bounds(bits, i);
    lemma_length_bounds(bits, j);
    let li = length_index(bits, i, 0);
    let lj = length_index(bits, j, 0);
    if lj < li {
        lemma_count_below_monotone(bits, lj + 1, li);
    }
}

/// Every number from the first exact code of `high + 1` bits on, cut to
/// `low + 1` bits from the left, lies behind the codes of `low + 1` bits:
/// no code of more bits begins with one of fewer bits.
pub proof fn lemma_longer_codes_differ(bits: Seq<u8>, low: nat, high: nat, c: u32)
    requires
        low < high < 16,
        c >= exact_first(bits, high),
    ensures
        (c >> ((high - low) as u32)) >= exact_first(bits, low) + bits[low as int],
    decreases high - low,
{
    let d = (high - low) as u32;
    let half = c >> 1u32;
    assert(c >> 1u32 == c / 2) by (bit_vector);
    if high == low + 1 {
    } else {
        lemma_longer_codes_differ(bits, low, (high - 1) as nat, half);
        assert((c >> 1u32) >> ((d - 1) as u32) == c >> d) by (bit_vector)
            requires
                1 <= d <= 16,
        ;
    }
}

/// The first `n` bits of a window are the first `n` of its first `m` bits.
pub proof fn lemma_top_of_top(s: BitState, n: nat, m: nat)
    requires
        1 <= n <= m <= 16,
        m <= s.count <= 32,
    ensures
        s.top(n) == s.top(m) >> ((m - n) as u32),
        s.top(n) <= 0xFFFF,
        s.top(m) <= 0xFFFF,
{
    let w = s.window();
    let c = s.count as u32;
    let n32 = n as u32;
    let m32 = m as u32;
    assert(((w >> ((c - m32) as u32)) & low_mask(m32)) >> ((m32 - n32) as u32) == (w >> ((c
        - n32) as u32)) & low_mask(n32)) by (bit_vector)
        requires
            1 <= n32 <= m32 <= 16,
            m32 <= c <= 32,
    ;
    lemma_top_fits(w, c, n32);
    lemma_top_fits(w, c, m32);
}

/// The code with index `i` begins the window of `s`.
pub open spec fn begins(bits: Seq<u8>, codes: Seq<u16>, s: BitState, i: nat) -> bool {
    codes[i as int] == s.top(code_length(bits, i)) as u16
}

/// In a prefix code at most one code begins the window.
pub proof fn lemma_one_code_begins(bits: Seq<u8>, s: BitState, i: nat, j: nat)
    requires
        is_prefix_code(bits),
        16 <= s.count <= 32,
        i < j < total_codes(bits),
        begins(bits, canonical_codes(bits), s, i),
    ensures
        !begins(bits, canonical_codes(bits), s, j),
{
    let codes = canonical_codes(bits);
    lemma_code_exact(bits, i);
    lemma_code_exact(bits, j);
    lemma_lengths_ordered(bits, i, j);
    let li = length_index(bits, i, 0);
    let lj = length_index(bits, j, 0);
    lemma_top_of_top(s, li + 1, lj + 1);
    if begins(bits, codes, s, j) {
        if li == lj {
            assert(codes[i as int] != codes[j as int]);
        } else {
            let c = s.top(lj + 1);
            assert(c == codes[j as int]);
            lemma_longer_codes_differ(bits, li, lj, c);
            assert(exact_first(bits, li) + bits[li as int] > codes[i as int]);
        }
    }
}

/// What [`scan`] finds is the first place of `d` in the range, and it finds
/// nothing only where `d` has no place there.
pub proof fn lemma_scan(codes: Seq<u16>, d: u16, from: int, to: int)
    ensures
        match scan(codes, d, from, to) {
            Some(i) => from <= i < to && codes[i] == d && forall|k: int|
                from <= k < i ==> codes[k] != d,
            None => forall|k: int| from <= k < to ==> codes[k] != d,
        },
    decreases to - from,
{
    if from < to && codes[from] != d {
        lemma_scan(codes, d, from + 1, to);
    }
}

/// What [`lookup`] finds from the length `l + 1` on is the first code of
/// those lengths that begins the window, with its length; it finds nothing
/// only where none of them does.
pub proof fn lemma_lookup(bits: Seq<u8>, codes: Seq<u16>, s: BitState, l: nat)
    requires
        bits.len() == 16,
        l <= 16,
    ensures
        match lookup(bits, codes, s, l, count_below(bits, l)) {
            Some((i, len)) => {
                &&& count_below(bits, l) <= i < total_codes(bits)
                &&& len == code_length(bits, i)
                &&& begins(bits, codes, s, i)
                &&& forall|k: nat| count_below(bits, l) <= k < i ==> !begins(bits, codes, s, k)
            },
            None => forall|k: nat|
                count_below(bits, l) <= k < total_codes(bits) ==> !begins(bits, codes, s, k),
        },
    decreases 16 - l,
{
    if l < 16 {
        let from = count_below(bits, l);
        let to = count_below(bits, l + 1);
        let d = s.top(l + 1) as u16;
        lemma_scan(codes, d, from as int, to as int);
        lemma_count_below_monotone(bits, l + 1, 16);
        assert forall|k: nat| from <= k < to implies code_length(bits, k) == l + 1 by {
            crate::huffman::lemma_code_lengths(bits, k, l);
        }
        match scan(codes, d, from as int, to as int) {
            Some(i) => {
                assert forall|k: nat| from <= k < i implies !begins(bits, codes, s, k) by {
                    assert(codes[k as int] != d);
                }
            },
            None => {
                lemma_lookup(bits, codes, s, l + 1);
                assert forall|k: nat| from <= k < to implies !begins(bits, codes, s, k) by {
                    assert(codes[k as int] != d);
                }
            },
        }
    }
}

/// A code of at most [`HUFF_BIT`] bits fills the slot that the window picks
/// exactly where it begins the window.
pub proof fn lemma_covers_where_begins(bits: Seq<u8>, s: BitState, k: nat)
    requires
        is_prefix_code(bits),
        16 <= s.count <= 32,
        k < count_below(bits, HUFF_BIT as nat),
    ensures
        k < total_codes(bits),
        1 <= code_length(bits, k) <= HUFF_BIT,
        covers(bits, canonical_codes(bits), k, s.top(HUFF_BIT as nat) as int) == begins(
            bits,
            canonical_codes(bits),
            s,
            k,
        ),
{
    lemma_count_below_monotone(bits, 10, 16);
    lemma_code_exact(bits, k);
    let l = length_index(bits, k, 0);
    if l >= 10 {
        lemma_count_below_monotone(bits, 10, l);
    }
    lemma_patterns(l);
    lemma_top_of_top(s, l + 1, 10);
    let code: u16 = canonical_codes(bits)[k as int];
    let len: u32 = code_length(bits, k) as u32;
    let slot: u32 = s.top(10);
    let window = s.window() >> ((s.count - 10) as u32);
    assert(window & low_mask(10) < 1024) by (bit_vector);
    assert((lut_base_of(code, len) <= slot && slot < lut_base_of(code, len) + lut_span_of(len))
        == ((slot >> ((10 - len) as u32)) == code)) by (bit_vector)
        requires
            1 <= len <= 10,
            slot < 1024,
            code < (1u32 << len),
    ;
}

/// The entry of the lookup table for a code of at most [`HUFF_BIT`] bits
/// gives back the symbol and the length, and is no miss.
pub proof fn lemma_entry_reads(symbol: u8, len: u32)
    requires
        1 <= len <= 10,
    ensures
        lut_entry_of(symbol, len) != LUT_MISS,
        (lut_entry_of(symbol, len) & 0xFF) as u8 == symbol,
        lut_entry_of(symbol, len) >> 8 == len,
{
    let entry = lut_entry_of(symbol, len);
    assert(entry != 0xFFFF && entry & 0xFF == symbol && entry >> 8 == len) by (bit_vector)
        requires
            1 <= len <= 10,
            entry == (symbol as u16) | ((len as u16) << 8),
    ;
}

/// Where the code with index `i` begins the window, the slot that the
/// window picks holds the entry of that code, once the code is entered.
pub proof fn lemma_lut_hit(bits: Seq<u8>, symbols: Seq<u8>, s: BitState, i: nat, upto: nat)
    requires
        is_prefix_code(bits),
        16 <= s.count <= 32,
        i < upto <= count_below(bits, HUFF_BIT as nat),
        begins(bits, canonical_codes(bits), s, i),
    ensures
        lut_slot(bits, canonical_codes(bits), symbols, s.top(HUFF_BIT as nat) as int, upto)
            == lut_entry_of(symbols[i as int], code_length(bits, i) as u32),
    decreases upto,
{
    let last = (upto - 1) as nat;
    lemma_covers_where_begins(bits, s, last);
    if last != i {
        lemma_one_code_begins(bits, s, i, last);
        lemma_lut_hit(bits, symbols, s, i, last);
    }
}

/// Where none of the first `upto` codes begins the window, the slot that the
/// window picks is a miss after they are entered.
pub proof fn lemma_lut_miss(bits: Seq<u8>, symbols: Seq<u8>, s: BitState, upto: nat)
    requires
        is_prefix_code(bits),
        16 <= s.count <= 32,
        upto <= count_below(bits, HUFF_BIT as nat),
        forall|k: nat| k < upto ==> !begins(bits, canonical_codes(bits), s, k),
    ensures
        lut_slot(bits, canonical_codes(bits), symbols, s.top(HUFF_BIT as nat) as int, upto)
            == LUT_MISS,
    decreases upto,
{
    if upto > 0 {
        let last = (upto - 1) as nat;
        lemma_covers_where_begins(bits, s, last);
        lemma_lut_miss(bits, symbols, s, last);
    }
}

/// The ways of decoding agree: for the table of a prefix code, decoding
/// through the lookup table gives the symbol and leaves the stream as
/// decoding by the search through the register does, and fails where that
/// fails.
pub proof fn lemma_lookup_table_agrees(bits: Seq<u8>, symbols: Seq<u8>, st: BitState)
    requires
        is_prefix_code(bits),
        st.wf(),
    ensures
        HuffSpec::canonical(bits, symbols).with_lut().decode(st) == HuffSpec::canonical(
            bits,
            symbols,
        ).decode(st),
{
    let plain = HuffSpec::canonical(bits, symbols);
    let fast = plain.with_lut();
    let codes = canonical_codes(bits);
    let short = count_below(bits, HUFF_BIT as nat);
    st.lemma_fill(16);
    match st.fill(16) {
        Err(e) => {},
        Ok(s) => {
            let slot = s.top(HUFF_BIT as nat);
            let shifted = s.window() >> ((s.count - 10) as u32);
            assert(shifted & low_mask(10) < 1024) by (bit_vector);
            assert(fast.lut->0[slot as int] == lut_slot(bits, codes, symbols, slot as int, short));
            lemma_count_below_monotone(bits, 10, 16);
            lemma_lookup(bits, codes, s, 0);
            match lookup(bits, codes, s, 0, 0) {
                Some((i, len)) => {
                    if i < short {
                        lemma_covers_where_begins(bits, s, i);
                        lemma_lut_hit(bits, symbols, s, i, short);
                        lemma_entry_reads(symbols[i as int], len as u32);
                    } else {
                        lemma_lut_miss(bits, symbols, s, short);
                        lemma_lookup_skips(bits, codes, s, 0, 10);
                    }
                },
                None => {
                    lemma_lut_miss(bits, symbols, s, short);
                    lemma_lookup_skips(bits, codes, s, 0, 10);
                },
            }
        },
    }
}

/// Where no code of the lengths from `l + 1` to `upto` begins the window,
/// the search from `l + 1` on is the search from `upto + 1` on.
pub proof fn lemma_lookup_skips(bits: Seq<u8>, codes: Seq<u16>, s: BitState, l: nat, upto: nat)
    requires
        bits.len() == 16,
        l <= upto <= 16,
        forall|k: nat|
            count_below(bits, l) <= k < count_below(bits, upto) ==> !begins(bits, codes, s, k),
    ensures
        lookup(bits, codes, s, l, count_below(bits, l)) == lookup(
            bits,
            codes,
            s,
            upto,
            count_below(bits, upto),
        ),
    decreases upto - l,
{
    if l < upto {
        let from = count_below(bits, l);
        let to = count_below(bits, l + 1);
        let d = s.top(l + 1) as u16;
        lemma_scan(codes, d, from as int, to as int);
        lemma_count_below_monotone(bits, l + 1, upto);
        lemma_count_below_monotone(bits, upto, 16);
        match scan(codes, d, from as int, to as int) {
            Some(i) => {
                crate::huffman::lemma_code_lengths(bits, i as nat, l);
                assert(begins(bits, codes, s, i as nat));
            },
            None => {
                lemma_lookup_skips(bits, codes, s, l + 1, upto);
            },
        }
    }
}


/// Decoding through the register leaves a stream whose count lies inside the
/// register.
pub proof fn lemma_search_keeps_wf(table: HuffSpec, st: BitState)
    requires
        st.wf(),
        table.bits.len() == 16,
    ensures
        table.decode_by_search(st) matches Ok((_, s)) ==> s.wf() && s.data == st.data,
{
    st.lemma_fill(16);
    match st.fill(16) {
        Ok(s) => {
            lemma_lookup(table.bits, table.codes, s, 0);
            match lookup(table.bits, table.codes, s, 0, 0) {
                Some((i, len)) => {
                    crate::huffman::lemma_code_lengths(table.bits, i, 0);
                },
                None => {},
            }
        },
        Err(e) => {},
    }
}

/// Reading bits leaves a stream whose count lies inside the register.
pub proof fn lemma_read_keeps_wf(st: BitState, n: nat)
    requires
        st.wf(),
        1 <= n <= 16,
    ensures
        st.read(n) matches Ok((_, s)) ==> s.wf() && s.data == st.data,
{
    st.lemma_fill(n);
}

/// Every Huffman table is that of a prefix code.
pub open spec fn prefix_tables(tables: TablesSpec) -> bool {
    &&& forall|i: int| 0 <= i < 2 ==> (#[trigger] tables.dc[i] matches Some(t) ==> is_prefix_code(t.bits))
    &&& forall|i: int| 0 <= i < 2 ==> (#[trigger] tables.ac[i] matches Some(t) ==> is_prefix_code(t.bits))
}

/// A canonical table of a prefix code decodes alike with and without
/// its lookup table.
pub proof fn lemma_slot_agrees(slot: Option<HuffSpec>, st: BitState)
    requires
        canonical_slot(slot),
        slot matches Some(t) ==> is_prefix_code(t.bits),
        st.wf(),
    ensures
        slot matches Some(t) ==> {
            &&& with_lut_slot(slot)->0.decode(st) == t.decode(st)
            &&& t.decode(st) == HuffSpec::canonical(t.bits, t.symbols).decode(st)
            &&& t.decode(st) matches Ok((_, s)) ==> s.wf() && s.data == st.data
        },
{
    match slot {
        Some(t) => {
            lemma_lookup_table_agrees(t.bits, t.symbols, st);
            lemma_search_keeps_wf(HuffSpec::canonical(t.bits, t.symbols), st);
        },
        None => {},
    }
}

proof fn lemma_ac_run_agrees(
    slot: Option<HuffSpec>,
    quant: Seq<i32>,
    st: BitState,
    z: int,
    block: Seq<i32>,
)
    requires
        slot is Some,
        canonical_slot(slot),
        is_prefix_code(slot->0.bits),
        st.wf(),
    ensures
        ac_run(with_lut_slot(slot)->0, quant, st, z, block) == ac_run(slot->0, quant, st, z, block),
        ac_run(slot->0, quant, st, z, block) matches Ok((_, s)) ==> s.wf() && s.data == st.data,
    decreases 64 - z,
{
    let plain = slot->0;
    lemma_slot_agrees(slot, st);
    match plain.decode(st) {
        Err(e) => {},
        Ok((symbol, s1)) => {
            let at = z + symbol / 16;
            let len = symbol % 16;
            if symbol != 0 && at < 64 {
                if len == 0 {
                    if at + 1 < 64 {
                        lemma_ac_run_agrees(slot, quant, s1, at + 1, block);
                    }
                } else {
                    lemma_read_keeps_wf(s1, len as nat);
                    match s1.read(len as nat) {
                        Err(e) => {},
                        Ok((v, s2)) => {
                            if at + 1 < 64 {
                                lemma_ac_run_agrees(
                                    slot,
                                    quant,
                                    s2,
                                    at + 1,
                                    with_coefficient(block, quant, at, v, len),
                                );
                            }
                        },
                    }
                }
            }
        },
    }
}

/// A block decodes alike with and without the lookup tables, and leaves a
/// stream whose count lies inside the register.
pub proof fn lemma_block_agrees(
    tables: TablesSpec,
    st: BitState,
    pred: i16,
    quant_id: int,
    component: int,
)
    requires
        canonical_tables(tables),
        prefix_tables(tables),
        st.wf(),
    ensures
        block(tables.with_luts(), st, pred, quant_id, component) == block(
            tables,
            st,
            pred,
            quant_id,
            component,
        ),
        block(tables, st, pred, quant_id, component) matches Ok((_, s, _)) ==> s.wf() && s.data
            == st.data,
{
    reveal(block);
    let slot = HeaderSpec::table_slot(component);
    let fast = tables.with_luts();
    assert(fast.dc[slot] == with_lut_slot(tables.dc[slot]));
    assert(fast.ac[slot] == with_lut_slot(tables.ac[slot]));
    assert(canonical_slot(tables.dc[slot]) && canonical_slot(tables.ac[slot]));
    if tables.quant[quant_id] is Some && tables.dc[slot] is Some {
        let quant = tables.quant[quant_id]->0;
        lemma_slot_agrees(tables.dc[slot], st);
        match tables.dc[slot]->0.decode(st) {
            Err(e) => {},
            Ok((len, s1)) => {
                if 1 <= len <= 16 {
                    lemma_read_keeps_wf(s1, len as nat);
                }
                match difference(s1, len) {
                    Err(e) => {},
                    Ok((diff, s2)) => {
                        if tables.ac[slot] is Some {
                            lemma_ac_run_agrees(
                                tables.ac[slot],
                                quant,
                                s2,
                                1,
                                dc_block(dequantize(wrap16(pred + diff) as i32, quant[0])),
                            );
                        }
                    },
                }
            },
        }
    }
}

proof fn lemma_luma_blocks_agree(
    header: HeaderSpec,
    st: BitState,
    pred: i16,
    i: int,
    n: int,
    samples: Seq<i16>,
)
    requires
        canonical_tables(header.tables),
        prefix_tables(header.tables),
        st.wf(),
    ensures
        luma_blocks(with_luts(header), st, pred, i, n, samples) == luma_blocks(
            header,
            st,
            pred,
            i,
            n,
            samples,
        ),
        luma_blocks(header, st, pred, i, n, samples) matches Ok((_, s, _)) ==> s.wf() && s.data
            == st.data,
    decreases n - i,
{
    if i < n {
        lemma_block_agrees(header.tables, st, pred, header.frame.quant_ids[0] as int, 0);
        match block(header.tables, st, pred, header.frame.quant_ids[0] as int, 0) {
            Ok((coefficients, s, next)) => {
                lemma_luma_blocks_agree(
                    header,
                    s,
                    next,
                    i + 1,
                    n,
                    with_block(samples, i, idct(coefficients)),
                );
            },
            Err(e) => {},
        }
    }
}

/// The header with a lookup table for every Huffman table.
pub open spec fn with_luts(header: HeaderSpec) -> HeaderSpec {
    HeaderSpec { tables: header.tables.with_luts(), ..header }
}

/// An MCU decodes alike with and without the lookup tables.
pub proof fn lemma_mcu_agrees(header: HeaderSpec, st: BitState, preds: Seq<i16>, samples: Seq<i16>)
    requires
        canonical_tables(header.tables),
        prefix_tables(header.tables),
        st.wf(),
    ensures
        mcu(with_luts(header), st, preds, samples) == mcu(header, st, preds, samples),
        mcu(header, st, preds, samples) matches Ok((_, s, _)) ==> s.wf() && s.data == st.data,
{
    reveal(mcu);
    let n = luma_count(header.frame);
    lemma_luma_blocks_agree(header, st, preds[0], 0, n, samples);
    match luma_blocks(header, st, preds[0], 0, n, samples) {
        Ok((luma, after_luma, luma_pred)) => {
            if header.frame.components == 3 {
                lemma_block_agrees(
                    header.tables,
                    after_luma,
                    preds[1],
                    header.frame.quant_ids[1] as int,
                    1,
                );
                match block(
                    header.tables,
                    after_luma,
                    preds[1],
                    header.frame.quant_ids[1] as int,
                    1,
                ) {
                    Ok((cb, after_cb, cb_pred)) => {
                        lemma_block_agrees(
                            header.tables,
                            after_cb,
                            preds[2],
                            header.frame.quant_ids[2] as int,
                            2,
                        );
                    },
                    Err(e) => {},
                }
            }
        },
        Err(e) => {},
    }
}

/// The lookup tables do not change what is decoded: with tables of prefix
/// codes a scan comes through the same states, with the same samples, and
/// fails alike, whether the Huffman tables have lookup tables or not.
pub proof fn lemma_scan_agrees(header: HeaderSpec, begin: ScanSpec, k: nat)
    requires
        canonical_tables(header.tables),
        prefix_tables(header.tables),
        begin.bits.wf(),
    ensures
        begin.after(with_luts(header), k) == begin.after(header, k),
        begin.after(header, k) matches Ok(s) ==> s.bits.wf() && s.bits.data == begin.bits.data,
    decreases k,
{
    if k > 0 {
        lemma_scan_agrees(header, begin, (k - 1) as nat);
        match begin.after(header, (k - 1) as nat) {
            Ok(s) => {
                let interval = header.frame.restart_interval;
                let due = interval > 0 && s.counter >= interval;
                let bits = if due {
                    s.bits.restart()
                } else {
                    s.bits
                };
                let preds = if due {
                    no_prediction()
                } else {
                    s.preds
                };
                lemma_mcu_agrees(header, bits, preds, s.samples);
            },
            Err(e) => {},
        }
    }
}


/// Two bytes as the 16 bits that they put into the register.
pub open spec fn pair(first: u8, second: u8) -> u32 {
    ((first as u32) << 8) | (second as u32)
}

/// The stream `st`, which has taken no bit yet, after `l` bits were read bit
/// by bit, where the next two bytes for the register are `first`, after
/// which the stream stands at `at_first`, and `second`, after which it
/// stands at `at_second`.
pub open spec fn bit_state(st: BitState, first: u8, at_first: nat, second: u8, at_second: nat, l: nat) -> BitState {
    if l == 0 {
        st
    } else if l <= 8 {
        BitState { register: first as u32, mask: 0x80u8 >> (l as u8), pos: at_first, marker: None, ..st }
    } else {
        BitState {
            register: second as u32,
            mask: 0x80u8 >> ((l - 8) as u8),
            pos: at_second,
            marker: None,
            ..st
        }
    }
}

/// The first `l` of the 16 bits of two bytes, as a number.
pub open spec fn leading(first: u8, second: u8, l: nat) -> u16 {
    (pair(first, second) >> ((16 - l) as u32)) as u16
}

/// The stream has taken no bit yet and can give 16 bits without meeting a
/// marker: `first` and `second` are the two bytes that enter the register,
/// and `at_first` and `at_second` the places of the stream after each.
pub open spec fn two_bytes_ahead(st: BitState, first: u8, at_first: nat, second: u8, at_second: nat) -> bool {
    &&& st.wf()
    &&& st.count == 0
    &&& st.mask == 0
    &&& st.marker is None
    &&& st.next_byte() == Ok::<(u8, nat, Option<u8>), Error>((first, at_first, None))
    &&& st.push(first, at_first, None).next_byte() == Ok::<(u8, nat, Option<u8>), Error>(
        (second, at_second, None),
    )
}

/// With two bytes ahead the register fills to their 16 bits, and its first
/// `n` bits are the first `n` bits of the two bytes.
pub proof fn lemma_filled(st: BitState, first: u8, at_first: nat, second: u8, at_second: nat, n: nat)
    requires
        two_bytes_ahead(st, first, at_first, second, at_second),
        1 <= n <= 16,
    ensures
        st.fill(16) == Ok::<BitState, Error>(
            st.push(first, at_first, None).push(second, at_second, None),
        ),
        st.fill(16)->Ok_0.count == 16,
        st.fill(16)->Ok_0.top(n) as u16 == leading(first, second, n),
        st.fill(16)->Ok_0.top(n) == pair(first, second) >> ((16 - n) as u32),
{
    reveal_with_fuel(BitState::fill, 3);
    let s1 = st.push(first, at_first, None);
    let s = s1.push(second, at_second, None);
    let r = st.register;
    assert(r & low_mask(0) == 0) by (bit_vector);
    assert((((0u32 << 8) | (first as u32)) & low_mask(8)) == first as u32) by (bit_vector);
    assert(s1.window() == first as u32);
    assert(s.register == pair(first, second));
    let w = pair(first, second);
    let n32 = n as u32;
    assert(w & low_mask(16) == w && ((w >> ((16 - n32) as u32)) & low_mask(n32)) == w >> ((16
        - n32) as u32) && (w >> ((16 - n32) as u32)) <= 0xFFFF) by (bit_vector)
        requires
            w == ((first as u32) << 8) | (second as u32),
            1 <= n32 <= 16,
    ;
}

/// Reading bit by bit with two bytes ahead: the bit after the first `l` is
/// the next bit of the two bytes.
pub proof fn lemma_next_bit(st: BitState, first: u8, at_first: nat, second: u8, at_second: nat, l: nat)
    requires
        two_bytes_ahead(st, first, at_first, second, at_second),
        l < 16,
    ensures
        bit_state(st, first, at_first, second, at_second, l).bit() matches Ok((b, s)) && s == bit_state(
            st,
            first,
            at_first,
            second,
            at_second,
            l + 1,
        ) && b <= 1 && (((if l == 0 {
            0u16
        } else {
            leading(first, second, l)
        }) * 2) % 65536 + b) as u16 == leading(first, second, l + 1),
{
    let w = pair(first, second);
    let l32 = l as u32;
    let l8 = l as u8;
    let here = bit_state(st, first, at_first, second, at_second, l);
    let s1 = st.push(first, at_first, None);
    assert(0x80u8 >> 1u8 == 0x40u8 && 0x80u8 >> 8u8 == 0u8) by (bit_vector);
    assert(w >> 16u32 == 0 && first / 128 == ((w >> 15u32) & 1) && second / 128 == ((w >> 7u32)
        & 1)) by (bit_vector)
        requires
            w == ((first as u32) << 8) | (second as u32),
    ;
    assert((((w >> ((16 - l32) as u32)) * 2) % 65536 + ((w >> ((15 - l32) as u32)) & 1)) == w >> ((15
        - l32) as u32) && (w >> ((15 - l32) as u32)) <= 0xFFFF && ((w >> ((15 - l32) as u32)) & 1)
        <= 1 && (w >> ((16 - l32) as u32)) <= 0xFFFF) by (bit_vector)
        requires
            w == ((first as u32) << 8) | (second as u32),
            l32 < 16,
    ;
    if l == 0 {
    } else if l < 8 {
        let m = 0x80u8 >> l8;
        assert(m != 0 && m / 2 == 0x80u8 >> ((l8 + 1) as u8) && (((first as u32) & (m as u32)) != 0)
            == (((w >> ((15 - l32) as u32)) & 1) == 1)) by (bit_vector)
            requires
                w == ((first as u32) << 8) | (second as u32),
                1 <= l8 < 8,
                l32 == l8,
                m == 0x80u8 >> l8,
        ;
    } else if l == 8 {
        assert(here.next_byte() == s1.next_byte());
    } else {
        let k8 = (l - 8) as u8;
        let m = 0x80u8 >> k8;
        assert(m != 0 && m / 2 == 0x80u8 >> ((k8 + 1) as u8) && (((second as u32) & (m as u32))
            != 0) == (((w >> ((15 - l32) as u32)) & 1) == 1)) by (bit_vector)
            requires
                w == ((first as u32) << 8) | (second as u32),
                1 <= k8 < 8,
                l32 == k8 + 8,
                m == 0x80u8 >> k8,
        ;
    }
}

/// The bits read so far, as the search bit by bit keeps them.
pub open spec fn read_so_far(first: u8, second: u8, l: nat) -> u16 {
    if l == 0 {
        0
    } else {
        leading(first, second, l)
    }
}

/// With two bytes ahead, reading `n` more bits bit by bit behind the first
/// `l` gives the first `l + n` bits of the two bytes.
pub proof fn lemma_bits_read(st: BitState, first: u8, at_first: nat, second: u8, at_second: nat, l: nat, n: nat)
    requires
        two_bytes_ahead(st, first, at_first, second, at_second),
        l + n <= 16,
    ensures
        bit_state(st, first, at_first, second, at_second, l).bits(n, read_so_far(first, second, l)) == Ok::<
            (u16, BitState),
            Error,
        >((read_so_far(first, second, l + n), bit_state(st, first, at_first, second, at_second, l + n))),
    decreases n,
{
    if n > 0 {
        lemma_next_bit(st, first, at_first, second, at_second, l);
        lemma_bits_read(st, first, at_first, second, at_second, l + 1, (n - 1) as nat);
    }
}

proof fn lemma_walk_is_lookup(
    table: HuffSpec,
    st: BitState,
    first: u8,
    at_first: nat,
    second: u8,
    at_second: nat,
    l: nat,
    idx: nat,
)
    requires
        two_bytes_ahead(st, first, at_first, second, at_second),
        l <= 16,
    ensures
        match lookup(table.bits, table.codes, st.fill(16)->Ok_0, l, idx) {
            Some((i, len)) => l < len <= 16 && table.walk(
                bit_state(st, first, at_first, second, at_second, l),
                l,
                read_so_far(first, second, l),
                idx,
            ) == Ok::<(u8, BitState), Error>(
                (table.symbols[i as int], bit_state(st, first, at_first, second, at_second, len)),
            ),
            None => table.walk(
                bit_state(st, first, at_first, second, at_second, l),
                l,
                read_so_far(first, second, l),
                idx,
            ) == Err::<(u8, BitState), Error>(Error::FormatError),
        },
    decreases 16 - l,
{
    if l < 16 {
        lemma_next_bit(st, first, at_first, second, at_second, l);
        lemma_filled(st, first, at_first, second, at_second, l + 1);
        let here = bit_state(st, first, at_first, second, at_second, l);
        let s = st.fill(16)->Ok_0;
        let b = here.bit()->Ok_0.0;
        let d = ((read_so_far(first, second, l) * 2) % 65536 + b) as u16;
        assert(here.bit() == Ok::<(u8, BitState), Error>(
            (b, bit_state(st, first, at_first, second, at_second, l + 1)),
        ));
        assert(d == read_so_far(first, second, l + 1));
        assert(d == s.top(l + 1) as u16);
        let found = scan(table.codes, d, idx as int, idx + table.bits[l as int]);
        lemma_scan(table.codes, d, idx as int, idx + table.bits[l as int]);
        assert(lookup(table.bits, table.codes, s, l, idx) == match found {
            Some(i) => Some((i as nat, l + 1)),
            None => lookup(table.bits, table.codes, s, l + 1, idx + table.bits[l as int] as nat),
        });
        assert(table.walk(here, l, read_so_far(first, second, l), idx) == match found {
            Some(i) => Ok::<(u8, BitState), Error>(
                (table.symbols[i], bit_state(st, first, at_first, second, at_second, l + 1)),
            ),
            None => table.walk(
                bit_state(st, first, at_first, second, at_second, l + 1),
                l + 1,
                d,
                idx + table.bits[l as int] as nat,
            ),
        });
        lemma_walk_is_lookup(
            table,
            st,
            first,
            at_first,
            second,
            at_second,
            l + 1,
            idx + table.bits[l as int] as nat,
        );
    }
}

/// The ways of decoding agree: on a stream that has taken no bit yet and
/// has two bytes ahead without a marker, decoding bit by bit gives the
/// symbol that the search through the register gives, and has read exactly
/// the bits that left the register there; it fails where the search fails.
pub proof fn lemma_bit_by_bit_agrees(
    table: HuffSpec,
    st: BitState,
    first: u8,
    at_first: nat,
    second: u8,
    at_second: nat,
)
    requires
        two_bytes_ahead(st, first, at_first, second, at_second),
    ensures
        match table.decode_by_search(st) {
            Ok((symbol, after)) => {
                &&& after.count < 16
                &&& table.decode_by_bits(st) matches Ok((symbol_read, reached)) && symbol_read
                    == symbol && st.bits((16 - after.count) as nat, 0) == Ok::<
                    (u16, BitState),
                    Error,
                >(
                    (leading(first, second, (16 - after.count) as nat), reached),
                )
            },
            Err(e) => table.decode_by_bits(st) == Err::<(u8, BitState), Error>(e),
        },
{
    lemma_filled(st, first, at_first, second, at_second, 1);
    lemma_walk_is_lookup(table, st, first, at_first, second, at_second, 0, 0);
    let s = st.fill(16)->Ok_0;
    match lookup(table.bits, table.codes, s, 0, 0) {
        Some((i, len)) => {
            lemma_bits_read(st, first, at_first, second, at_second, 0, len);
        },
        None => {},
    }
}

} // verus!
