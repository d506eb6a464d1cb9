use tjpgdec_rs::{BitStream, Error};

#[test]
fn test_read_bits() {
    let data = [0b1010_0110, 0b0101_1100, 0x12, 0x34];
    let mut bits = BitStream::new(&data);
    assert_eq!(bits.read_bits(0), Ok(0));
    assert_eq!(bits.pos, 0);
    assert_eq!(bits.read_bits(3), Ok(0b101));
    assert_eq!(bits.read_bits(1), Ok(0));
    assert_eq!(bits.read_bits(8), Ok(0b0110_0101));
    assert_eq!(bits.read_bits(4), Ok(0b1100));
    assert_eq!(bits.read_bits(16), Ok(0x1234));
    assert_eq!(bits.read_bits(1), Err(Error::Input));
    assert_eq!(bits.read_bits(17), Err(Error::Parameter));
}

#[test]
fn test_read_bit() {
    let data = [0b1001_0000];
    let mut bits = BitStream::new(&data);
    assert_eq!(bits.read_bit(), Ok(1));
    assert_eq!(bits.read_bit(), Ok(0));
    assert_eq!(bits.read_bit(), Ok(0));
    assert_eq!(bits.read_bit(), Ok(1));
    assert_eq!(bits.bits_in_buffer, 4);
    assert_eq!(bits.read_bits(4), Ok(0));
    assert_eq!(bits.read_bit(), Err(Error::Input));
}

#[test]
fn test_byte_stuffing() {
    let data = [0xFF, 0x00, 0xAB, 0xFF, 0x00, 0xFF];
    let mut bits = BitStream::new(&data);
    assert_eq!(bits.read_bits(16), Ok(0xFFAB));
    assert_eq!(bits.pos, 3);
    assert_eq!(bits.get_marker(), None);
    assert_eq!(bits.read_bits(8), Ok(0xFF));
    assert_eq!(bits.pos, 5);
    // an FF at the very end has nothing behind it
    assert_eq!(bits.read_bits(8), Err(Error::Input));
}

#[test]
fn test_marker_detection() {
    let data = [0x5A, 0xFF, 0xD3, 0x77];
    let mut bits = BitStream::new(&data);
    assert_eq!(bits.read_bits(8), Ok(0x5A));
    assert_eq!(bits.marker_found, None);
    // the marker gives an FF, and after it more of them, without reading on
    assert_eq!(bits.read_bits(12), Ok(0xFFF));
    assert_eq!(bits.marker_found, Some(0xD3));
    assert_eq!(bits.pos, 3);
    assert_eq!(bits.read_bits(16), Ok(0xFFFF));
    assert_eq!(bits.pos, 3);
    assert_eq!(bits.get_marker(), Some(0xD3));
    assert_eq!(bits.get_marker(), None);
    bits.reset_for_restart();
    assert_eq!(bits.bits_in_buffer, 0);
    assert_eq!(bits.bit_buffer, 0);
    assert_eq!(bits.read_bits(8), Ok(0x77));
    assert_eq!(bits.read_bits(1), Err(Error::Input));
}

#[test]
fn test_peek_skip_ensure() {
    let data = [0xC3, 0x5A, 0x0F, 0xF0, 0x81];
    let mut bits = BitStream::new(&data);
    assert_eq!(bits.peek(4), Ok(0xC));
    assert_eq!(bits.peek(4), Ok(0xC));
    assert_eq!(bits.bits_in_buffer, 8);
    assert_eq!(bits.peek(12), Ok(0xC35));
    assert_eq!(bits.peek(0), Ok(0));
    assert_eq!(bits.peek(17), Err(Error::Parameter));
    assert_eq!(bits.skip(4), Ok(()));
    assert_eq!(bits.peek(8), Ok(0x35));
    // skip what is in the register, one whole byte and two bits more
    assert_eq!(bits.skip(12 + 8 + 2), Ok(()));
    assert_eq!(bits.pos, 4);
    assert_eq!(bits.bits_in_buffer, 6);
    assert_eq!(bits.read_bits(6), Ok(0x30));
    assert_eq!(bits.ensure_bits(8), Ok(()));
    assert_eq!(bits.bits_in_buffer, 8);
    assert_eq!(bits.ensure_bits(3), Ok(()));
    assert_eq!(bits.bits_in_buffer, 8);
    assert_eq!(bits.ensure_bits(9), Err(Error::Input));
    assert_eq!(bits.ensure_bits(26), Err(Error::Parameter));
    assert_eq!(bits.skip(9), Err(Error::Input));

    let long = [1u8, 2, 3, 4, 5];
    let mut bits = BitStream::new(&long);
    assert_eq!(bits.ensure_bits(25), Ok(()));
    assert_eq!(bits.bits_in_buffer, 32);
    assert_eq!(bits.bit_buffer, 0x01020304);
    assert_eq!(bits.read_bits(16), Ok(0x0102));
    assert_eq!(bits.read_bits(16), Ok(0x0304));
    assert_eq!(bits.refill(), Ok(()));
    assert_eq!(bits.read_bits(8), Ok(5));
    assert_eq!(bits.refill(), Err(Error::Input));
}

#[test]
fn test_bit_by_bit() {
    let data = [0b1011_0001, 0xFF, 0x00, 0xFF, 0xD9, 0x55, 0x66];
    let mut bits = BitStream::new(&data);
    let mut first = Vec::new();
    for _ in 0..8 {
        first.push(bits.read_bit_level0().unwrap());
    }
    assert_eq!(first, vec![1, 0, 1, 1, 0, 0, 0, 1]);
    assert_eq!(bits.read_bits_level0(8), Ok(0xFF));
    assert_eq!(bits.pos, 3);
    assert_eq!(bits.read_bits_level0(3), Ok(0b111));
    assert_eq!(bits.marker_found, Some(0xD9));
    assert_eq!(bits.pos, 5);
    assert_eq!(bits.read_bits_level0(5), Ok(0b11111));
    // after the marker each new byte is passed over for an FF
    assert_eq!(bits.read_bits_level0(16), Ok(0xFFFF));
    assert_eq!(bits.pos, 7);
    assert_eq!(bits.read_bit_level0(), Err(Error::Input));
    assert_eq!(bits.read_bits_level0(0), Ok(0));

    // more than sixteen bits keep the last sixteen
    let data = [0x12, 0x34, 0x56];
    let mut bits = BitStream::new(&data);
    assert_eq!(bits.read_bits_level0(24), Ok(0x3456));
}
