use tjpgdec_rs::header::FrameInfo;
use tjpgdec_rs::tile::{decimate, render_tile};
use tjpgdec_rs::{Rectangle, SamplingFactor};

fn frame(width: u16, height: u16, components: u8, sampling: SamplingFactor) -> FrameInfo {
    let mut frame = FrameInfo::new();
    frame.width = width;
    frame.height = height;
    frame.num_components = components;
    frame.sampling = sampling;
    frame
}

#[test]
fn test_decimate() {
    // a tile of 4 rows of 6 pixels, two bytes to a pixel
    let mut buffer: Vec<u8> = (0..48).collect();
    decimate(&mut buffer, 6, 4, 2, 3, 2, 2);
    // pixels (0,0) (0,2) (0,4) and (2,0) (2,2) (2,4)
    assert_eq!(&buffer[..12], &[0, 1, 4, 5, 8, 9, 24, 25, 28, 29, 32, 33]);
    assert_eq!(buffer[12..], (12..48).collect::<Vec<u8>>()[..]);

    // only the first columns of every row, no scaling
    let mut buffer: Vec<u8> = (0..16).collect();
    decimate(&mut buffer, 4, 4, 1, 2, 3, 1);
    assert_eq!(&buffer[..6], &[0, 1, 4, 5, 8, 9]);

    // the whole tile stays as it is
    let mut buffer: Vec<u8> = (0..16).collect();
    decimate(&mut buffer, 4, 4, 1, 4, 4, 1);
    assert_eq!(buffer, (0..16).collect::<Vec<u8>>());
}

#[test]
fn test_render_tile_gray() {
    let frame = frame(21, 8, 1, SamplingFactor::Yuv444);
    let mut samples = [0i16; 192];
    for (i, s) in samples.iter_mut().enumerate().take(64) {
        *s = i as i16;
    }
    let mut work = [0u8; 64];
    // the third MCU keeps five columns
    let rect = render_tile(&frame, 0, &samples, &mut work, 16, 0);
    assert_eq!(rect, Some(Rectangle::new(16, 20, 0, 7)));
    for row in 0..8 {
        for col in 0..5 {
            assert_eq!(work[row * 5 + col], (row * 8 + col) as u8);
        }
    }
    // scaled by 2: columns 0 and 2 of rows 0, 2, 4 and 6
    let rect = render_tile(&frame, 1, &samples, &mut work, 16, 0);
    assert_eq!(rect, Some(Rectangle::new(8, 9, 0, 3)));
    assert_eq!(&work[..8], &[0, 2, 16, 18, 32, 34, 48, 50]);
    // scaled by 8 nothing is left of five columns
    let before = work;
    assert_eq!(render_tile(&frame, 3, &samples, &mut work, 16, 0), None);
    assert_eq!(work, before);
    assert_eq!(render_tile(&frame, 3, &samples, &mut work, 8, 0), Some(Rectangle::new(1, 1, 0, 0)));
    assert_eq!(work[0], 0);
}

#[test]
fn test_render_tile_color() {
    let frame = frame(16, 8, 3, SamplingFactor::Yuv422);
    let mut samples = [128i16; 256];
    for i in 0..64 {
        samples[i] = 50;
        samples[64 + i] = 200;
    }
    let mut work = [0u8; 16 * 8 * 3];
    let rect = render_tile(&frame, 0, &samples, &mut work, 0, 0);
    assert_eq!(rect, Some(Rectangle::new(0, 15, 0, 7)));
    for row in 0..8 {
        for col in 0..16 {
            let level = if col < 8 { 50 } else { 200 };
            let at = (row * 16 + col) * 3;
            assert_eq!(&work[at..at + 3], &[level, level, level]);
        }
    }
    let rect = render_tile(&frame, 2, &samples, &mut work, 0, 0);
    assert_eq!(rect, Some(Rectangle::new(0, 3, 0, 1)));
    assert_eq!(&work[..24], &[50, 50, 50, 50, 50, 50, 200, 200, 200, 200, 200, 200, 50, 50, 50, 50, 50, 50, 200, 200, 200, 200, 200, 200]);
}
