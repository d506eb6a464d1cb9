use tjpgdec_rs::tables::{byte_clip, ZIGZAG};
use tjpgdec_rs::BUFFER_SIZE;

#[test]
fn test_basic() {
    assert_eq!(BUFFER_SIZE, 512);
}

#[test]
fn test_zigzag_table() {
    assert_eq!(ZIGZAG[0], 0);
    assert_eq!(ZIGZAG[63], 63);
    assert_eq!(ZIGZAG.len(), 64);
}

#[test]
fn test_byte_clip() {
    assert_eq!(byte_clip(-10), 0);
    assert_eq!(byte_clip(0), 0);
    assert_eq!(byte_clip(128), 128);
    assert_eq!(byte_clip(255), 255);
    assert_eq!(byte_clip(300), 255);
}
