use tjpgdec_rs::color::{rgb888_to_rgb565, ycbcr_to_rgb};
use tjpgdec_rs::idct::block_idct;

#[test]
fn test_idct_dc_only() {
    let mut src = [0i32; 64];
    src[0] = 0;

    let mut dst = [0i16; 64];
    block_idct(&mut src, &mut dst);

    for &val in &dst {
        assert!((val - 128).abs() < 5, "Expected ~128, got {}", val);
    }
}

#[test]
fn test_color_conversion() {
    let rgb = ycbcr_to_rgb(255, 0, 0);
    assert_eq!(rgb, [255, 255, 255]);

    let rgb565 = rgb888_to_rgb565(255, 255, 255);
    assert_eq!(rgb565, 0xFFFF);
}

#[test]
fn test_idct_flat_levels() {
    // A block with only a DC coefficient is flat: the coefficient loses
    // its 8 fractional bits and the level shift of 128 is added.
    for (dc, level) in [(2560i32, 138i16), (-5120, 108), (0, 128), (255, 128), (256, 129), (-1, 127)] {
        let mut src = [0i32; 64];
        src[0] = dc;
        let mut dst = [0i16; 64];
        block_idct(&mut src, &mut dst);
        assert_eq!(dst, [level; 64]);
        // the column pass spreads the coefficient down the first column
        for row in 0..8 {
            assert_eq!(src[8 * row], dc);
            assert_eq!(src[8 * row + 1], 0);
        }
    }
}

#[test]
fn test_idct_first_harmonic() {
    // One coefficient of 4096 in the first row. The column pass copies it to
    // every row. In the row pass the even half is the level shift, 32768,
    // and the odd half comes to 4096, 3472, 2321 and 814:
    //   7568 - 4096 = 3472, 5793 - 3472 = 2321, 7568 - 4433 - 2321 = 814.
    // The row is (32768 + odd) >> 8 from the left and (32768 - odd) >> 8
    // from the right.
    let mut src = [0i32; 64];
    src[1] = 4096;
    let mut dst = [0i16; 64];
    block_idct(&mut src, &mut dst);
    let row: Vec<i16> = dst[0..8].to_vec();
    assert_eq!(row, vec![144, 141, 137, 131, 124, 118, 114, 112]);
    for r in 1..8 {
        assert_eq!(&dst[8 * r..8 * r + 8], &row[..]);
    }
}

#[test]
fn test_idct_wraps() {
    // Coefficients at the ends of the range do not stop the transform.
    let mut src = [i32::MAX; 64];
    src[3] = i32::MIN;
    let mut dst = [0i16; 64];
    block_idct(&mut src, &mut dst);
    let mut again = [i32::MAX; 64];
    again[3] = i32::MIN;
    let mut same = [1i16; 64];
    block_idct(&mut again, &mut same);
    assert_eq!(dst, same);
}

#[test]
fn test_color_formulas() {
    // red = y + 1436 cr / 1024, green = y - (352 cb + 731 cr) / 1024,
    // blue = y + 1815 cb / 1024, each quotient rounded toward zero
    assert_eq!(ycbcr_to_rgb(128, -30, 50), [198, 103, 75]);
    assert_eq!(ycbcr_to_rgb(128, 0, 0), [128, 128, 128]);
    assert_eq!(ycbcr_to_rgb(100, 1, 1), [101, 99, 101]);
    assert_eq!(ycbcr_to_rgb(100, -1, -1), [99, 101, 99]);
    assert_eq!(ycbcr_to_rgb(0, -128, -128), [0, 135, 0]);
    assert_eq!(ycbcr_to_rgb(255, 127, 127), [255, 121, 255]);
    assert_eq!(ycbcr_to_rgb(-5, 0, 0), [0, 0, 0]);
    assert_eq!(ycbcr_to_rgb(i32::MAX, i32::MAX, i32::MAX), [255, 0, 255]);
    assert_eq!(ycbcr_to_rgb(i32::MIN, i32::MIN, i32::MIN), [0, 255, 0]);
}
