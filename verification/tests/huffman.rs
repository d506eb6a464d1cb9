use tjpgdec_rs::{fastdecode_level, BitStream, Error, HuffmanTable, MemoryPool};

/// The luminance DC table of the JPEG standard.
const DC_BITS: [u8; 16] = [0, 1, 5, 1, 1, 1, 1, 1, 1, 0, 0, 0, 0, 0, 0, 0];
const DC_VALUES: [u8; 12] = [0, 1, 2, 3, 4, 5, 6, 7, 8, 9, 10, 11];

/// A table with codes on both sides of the lookup table: lengths 1, 3, 11
/// and 12.
const LONG_BITS: [u8; 16] = [1, 0, 1, 0, 0, 0, 0, 0, 0, 0, 1, 2, 0, 0, 0, 0];
const LONG_VALUES: [u8; 5] = [0x10, 0x20, 0x30, 0x40, 0x50];

#[test]
fn test_canonical_codes() {
    let mut buffer = vec![0u8; 1024];
    let mut pool = MemoryPool::new(&mut buffer);
    let table = HuffmanTable::create_in_pool(&mut pool, &DC_BITS, &DC_VALUES).unwrap();
    assert_eq!(table.num_codes, 12);
    assert_eq!(table.bits, DC_BITS);
    assert!(table.lut.is_none());
    // 24 bytes of codes and 12 of symbols, each rounded up to 8
    assert_eq!(pool.used(), 24 + 16);
    let codes: Vec<u16> = (0..12).map(|i| pool.get_u16(&table.codes, i)).collect();
    assert_eq!(
        codes,
        vec![0b00, 0b010, 0b011, 0b100, 0b101, 0b110, 0b1110, 0b11110, 0b111110, 0b1111110, 0b11111110, 0b111111110]
    );
    let symbols: Vec<u8> = (0..12).map(|i| pool.get_u8(&table.data, i)).collect();
    assert_eq!(symbols, DC_VALUES.to_vec());

    let table = HuffmanTable::create_in_pool(&mut pool, &LONG_BITS, &LONG_VALUES).unwrap();
    let codes: Vec<u16> = (0..5).map(|i| pool.get_u16(&table.codes, i)).collect();
    assert_eq!(codes, vec![0b0, 0b100, 0b101_0000_0000, 0b1010_0000_0010, 0b1010_0000_0011]);
}

#[test]
fn test_create_errors() {
    let mut buffer = vec![0u8; 1024];
    let mut pool = MemoryPool::new(&mut buffer);
    assert_eq!(HuffmanTable::create_in_pool(&mut pool, &DC_BITS[..15], &DC_VALUES).unwrap_err(), Error::FormatError);
    assert_eq!(HuffmanTable::create_in_pool(&mut pool, &DC_BITS, &DC_VALUES[..11]).unwrap_err(), Error::FormatError);
    assert_eq!(HuffmanTable::create_in_pool(&mut pool, &[0u8; 16], &[]).unwrap_err(), Error::FormatError);
    assert_eq!(pool.used(), 0);

    let mut small = vec![0u8; 39];
    let mut pool = MemoryPool::new(&mut small);
    assert_eq!(HuffmanTable::create_in_pool(&mut pool, &DC_BITS, &DC_VALUES).unwrap_err(), Error::InsufficientMemory);
    assert_eq!(pool.used(), 0);
    let mut enough = vec![0u8; 40];
    let mut pool = MemoryPool::new(&mut enough);
    assert!(HuffmanTable::create_in_pool(&mut pool, &DC_BITS, &DC_VALUES).is_ok());
}

#[test]
fn test_decode_symbols() {
    let mut buffer = vec![0u8; 1024];
    let mut pool = MemoryPool::new(&mut buffer);
    let table = HuffmanTable::create_in_pool(&mut pool, &DC_BITS, &DC_VALUES).unwrap();
    // 00 | 010 | 1110 | 111111110 | 011 | padding
    let data = [0b0001_0111, 0b0111_1111, 0b1001_1111, 0xFF, 0xD9];
    let mut bits = BitStream::new(&data);
    let mut symbols = Vec::new();
    for _ in 0..5 {
        symbols.push(table.decode(&pool, &mut bits).unwrap());
    }
    assert_eq!(symbols, vec![0, 1, 6, 11, 2]);
    // what is left are ones, which are no code of this table
    assert_eq!(table.decode(&pool, &mut bits), Err(Error::FormatError));

    // fewer than 16 bits and no marker behind them
    let short = [0b0001_0111];
    let mut bits = BitStream::new(&short);
    assert_eq!(table.decode(&pool, &mut bits), Err(Error::Input));
    assert_eq!(fastdecode_level(), 1);
}

fn decode_all(table: &HuffmanTable, pool: &MemoryPool, data: &[u8], way: u8, count: usize) -> Vec<Result<u8, Error>> {
    let mut bits = BitStream::new(data);
    (0..count)
        .map(|_| match way {
            0 => table.decode_fastdecode0(pool, &mut bits),
            1 => table.decode_fastdecode1(pool, &mut bits),
            _ => table.decode_fastdecode2(pool, &mut bits),
        })
        .collect()
}

#[test]
fn test_three_ways_agree() {
    let mut buffer = vec![0u8; 8192];
    let mut pool = MemoryPool::new(&mut buffer);
    let mut table = HuffmanTable::create_in_pool(&mut pool, &LONG_BITS, &LONG_VALUES).unwrap();
    let used = pool.used();
    assert_eq!(table.build_fast_lut(&mut pool), Ok(()));
    assert_eq!(pool.used(), used + 2048);
    assert_eq!(table.long_offset, 2);
    assert!(table.lut.is_some());

    // 0 | 100 | 10100000000 | 101000000010 | 0 | 101000000011 | 100 | 0, then padding
    let data = [0x4A, 0x01, 0x40, 0x4A, 0x03, 0x8F, 0xFF, 0xD9, 0, 0, 0, 0];
    let expected: Vec<Result<u8, Error>> =
        vec![Ok(0x10), Ok(0x20), Ok(0x30), Ok(0x40), Ok(0x10), Ok(0x50), Ok(0x20), Ok(0x10)];
    for way in 0..3 {
        assert_eq!(decode_all(&table, &pool, &data, way, 8), expected);
    }
    // the default way takes the lookup table where there is one
    let mut bits = BitStream::new(&data);
    assert_eq!(table.decode(&pool, &mut bits), Ok(0x10));
    assert_eq!(bits.bits_in_buffer, 15);

    // every entry of the lookup table under 512 belongs to the code 0
    let lut = table.lut.unwrap();
    assert_eq!(pool.get_u16(&lut, 0), 0x0110);
    assert_eq!(pool.get_u16(&lut, 511), 0x0110);
    assert_eq!(pool.get_u16(&lut, 512), 0x0320);
    assert_eq!(pool.get_u16(&lut, 512 + 127), 0x0320);
    assert_eq!(pool.get_u16(&lut, 640), 0xFFFF);
    assert_eq!(pool.get_u16(&lut, 1023), 0xFFFF);
}

#[test]
fn test_lut_needs_room() {
    // five codes take 16 bytes and their symbols 8
    let mut buffer = vec![0u8; 24 + 2047];
    let mut pool = MemoryPool::new(&mut buffer);
    let mut table = HuffmanTable::create_in_pool(&mut pool, &LONG_BITS, &LONG_VALUES).unwrap();
    assert_eq!(pool.used(), 24);
    assert_eq!(table.build_fast_lut(&mut pool), Err(Error::InsufficientMemory));
    assert!(table.lut.is_none());
    assert_eq!(pool.used(), 24);
}
