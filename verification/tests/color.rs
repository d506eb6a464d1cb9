use tjpgdec_rs::color::{mcu_to_grayscale, mcu_to_rgb, rgb888_to_rgb565, swap_rgb565, ycbcr_to_rgb};

#[test]
fn test_rgb565() {
    assert_eq!(rgb888_to_rgb565(0, 0, 0), 0);
    assert_eq!(rgb888_to_rgb565(255, 0, 0), 0xF800);
    assert_eq!(rgb888_to_rgb565(0, 255, 0), 0x07E0);
    assert_eq!(rgb888_to_rgb565(0, 0, 255), 0x001F);
    assert_eq!(rgb888_to_rgb565(7, 3, 7), 0);
    assert_eq!(rgb888_to_rgb565(8, 4, 8), 0x0821);
    assert_eq!(swap_rgb565(0x1234), 0x3412);
    assert_eq!(swap_rgb565(0xFF00), 0x00FF);
    assert_eq!(swap_rgb565(0), 0);
}

#[test]
fn test_mcu_to_grayscale() {
    // two blocks side by side: the samples of a block follow each other
    let mut samples = [0i16; 128];
    for (i, s) in samples.iter_mut().enumerate() {
        *s = i as i16;
    }
    samples[5] = -9;
    samples[70] = 300;
    let mut out = [1u8; 130];
    mcu_to_grayscale(&samples, &mut out, 2, 1);
    for row in 0..8 {
        for col in 0..16 {
            let from = (col / 8) * 64 + row * 8 + col % 8;
            let expected = match from {
                5 => 0,
                70 => 255,
                _ => from as u8,
            };
            assert_eq!(out[row * 16 + col], expected);
        }
    }
    assert_eq!(&out[128..], &[1, 1]);

    // no block, nothing written
    let mut out = [1u8; 4];
    mcu_to_grayscale(&samples, &mut out, 0, 3);
    assert_eq!(out, [1; 4]);
}

#[test]
fn test_mcu_to_rgb() {
    // an MCU of 2 by 2 blocks with chroma at half resolution
    let mut luma = [0i16; 256];
    for (i, s) in luma.iter_mut().enumerate() {
        *s = (i % 200) as i16;
    }
    let mut cb = [128i16; 64];
    let mut cr = [128i16; 64];
    for i in 0..64 {
        cb[i] = 100 + i as i16;
        cr[i] = 160 - i as i16;
    }
    let mut out = vec![9u8; 16 * 16 * 3 + 1];
    mcu_to_rgb(&luma, &cb, &cr, &mut out, 2, 2, 2, 2);
    for row in 0..16 {
        for col in 0..16 {
            let y = luma[((row / 8) * 2 + col / 8) * 64 + (row % 8) * 8 + col % 8] as i32;
            let c = (row / 2) * 8 + col / 2;
            let expected = ycbcr_to_rgb(y, cb[c] as i32 - 128, cr[c] as i32 - 128);
            let at = (row * 16 + col) * 3;
            assert_eq!(&out[at..at + 3], &expected);
        }
    }
    assert_eq!(out[16 * 16 * 3], 9);
    // pixel (1, 3): luma 11, chroma sample 1
    assert_eq!(&out[(16 + 3) * 3..(16 + 3) * 3 + 3], &ycbcr_to_rgb(11, 101 - 128, 159 - 128));
    assert_eq!(&out[(16 + 3) * 3..(16 + 3) * 3 + 3], &[54, 0, 0]);
}
