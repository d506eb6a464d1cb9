use tjpgdec_rs::color::ycbcr_to_rgb;
use tjpgdec_rs::idct::block_idct;
use tjpgdec_rs::{
    calculate_pool_size, Error, JpegDecoder, MemoryPool, OutputCallback, Recorder, Rectangle,
    RECOMMENDED_POOL_SIZE,
};

/// Writes the entropy-coded data of a test stream, most significant bit
/// first, with byte stuffing.
struct BitWriter {
    bytes: Vec<u8>,
    acc: u32,
    count: u32,
}

impl BitWriter {
    fn new() -> Self {
        BitWriter { bytes: Vec::new(), acc: 0, count: 0 }
    }

    fn put(&mut self, value: u32, len: u32) {
        for i in (0..len).rev() {
            self.acc = (self.acc << 1) | ((value >> i) & 1);
            self.count += 1;
            if self.count == 8 {
                self.flush_byte();
            }
        }
    }

    fn flush_byte(&mut self) {
        let byte = self.acc as u8;
        self.bytes.push(byte);
        if byte == 0xFF {
            self.bytes.push(0x00);
        }
        self.acc = 0;
        self.count = 0;
    }

    /// Fills the last byte with one bits.
    fn pad(&mut self) {
        while self.count != 0 {
            self.put(1, 1);
        }
    }

    fn marker(&mut self, kind: u8) {
        self.pad();
        self.bytes.push(0xFF);
        self.bytes.push(kind);
    }

    /// A DC difference with the test table: the symbols 0, 4, 5 and 6 have
    /// the codes 0, 10, 110 and 1110.
    fn dc(&mut self, diff: i32) {
        if diff == 0 {
            self.put(0, 1);
            return;
        }
        let magnitude = diff.unsigned_abs();
        let (category, code, code_len) = if magnitude < 16 {
            assert!(magnitude >= 8);
            (4u32, 0b10u32, 2u32)
        } else if magnitude < 32 {
            (5, 0b110, 3)
        } else {
            assert!(magnitude < 64);
            (6, 0b1110, 4)
        };
        self.put(code, code_len);
        let bits = if diff > 0 { diff as u32 } else { (diff + (1 << category) - 1) as u32 };
        self.put(bits, category);
    }

    /// The end of a block with the test table.
    fn eob(&mut self) {
        self.put(0, 1);
    }

    /// An AC coefficient of +1 or -1 that follows the one before it.
    fn ac_one(&mut self, positive: bool) {
        self.put(0b10, 2);
        self.put(if positive { 1 } else { 0 }, 1);
    }

    /// A block that holds only a DC difference.
    fn flat(&mut self, diff: i32) {
        self.dc(diff);
        self.eob();
    }

    /// A block that holds only a DC difference and spends three runs of
    /// sixteen zeros on it. The stream looks 16 bits ahead: a last block of
    /// this length keeps the block before it from running into the marker
    /// behind the data.
    fn flat_long(&mut self, diff: i32) {
        self.dc(diff);
        for _ in 0..3 {
            self.put(0b110, 3);
        }
        self.eob();
    }
}

fn segment(out: &mut Vec<u8>, kind: u8, payload: &[u8]) {
    out.push(0xFF);
    out.push(kind);
    let length = payload.len() + 2;
    out.push((length >> 8) as u8);
    out.push(length as u8);
    out.extend_from_slice(payload);
}

fn quant_segment(out: &mut Vec<u8>, id: u8, value: u8) {
    let mut payload = vec![id];
    payload.extend(std::iter::repeat(value).take(64));
    segment(out, 0xDB, &payload);
}

fn huffman_segment(out: &mut Vec<u8>, class: u8, id: u8, counts: &[u8], symbols: &[u8]) {
    let mut payload = vec![(class << 4) | id];
    let mut bits = [0u8; 16];
    bits[..counts.len()].copy_from_slice(counts);
    payload.extend_from_slice(&bits);
    payload.extend_from_slice(symbols);
    segment(out, 0xC4, &payload);
}

fn frame_segment(out: &mut Vec<u8>, kind: u8, width: u16, height: u16, components: u8, sampling: u8) {
    let mut payload = vec![8, (height >> 8) as u8, height as u8, (width >> 8) as u8, width as u8];
    payload.push(components);
    for i in 0..components {
        payload.push(i + 1);
        payload.push(if i == 0 { sampling } else { 0x11 });
        payload.push(if i == 0 { 0 } else { 1 });
    }
    segment(out, kind, &payload);
}

fn scan_segment(out: &mut Vec<u8>, components: u8) {
    let mut payload = vec![components];
    for i in 0..components {
        payload.push(i + 1);
        payload.push(if i == 0 { 0x00 } else { 0x11 });
    }
    payload.extend_from_slice(&[0, 63, 0]);
    segment(out, 0xDA, &payload);
}

/// The headers of a test stream up to the entropy-coded data. Every
/// quantization coefficient is 8, so that a DC value of `p` gives the sample
/// `128 + p`.
fn headers(width: u16, height: u16, components: u8, sampling: u8, interval: Option<u16>) -> Vec<u8> {
    let mut out = vec![0xFF, 0xD8];
    quant_segment(&mut out, 0, 8);
    if components == 3 {
        quant_segment(&mut out, 1, 8);
    }
    frame_segment(&mut out, 0xC0, width, height, components, sampling);
    huffman_segment(&mut out, 0, 0, &[1, 1, 1, 1], &[0, 4, 5, 6]);
    huffman_segment(&mut out, 1, 0, &[1, 1, 1], &[0x00, 0x01, 0xF0]);
    if components == 3 {
        huffman_segment(&mut out, 0, 1, &[1, 1, 1, 1], &[0, 4, 5, 6]);
        huffman_segment(&mut out, 1, 1, &[1, 1, 1], &[0x00, 0x01, 0xF0]);
    }
    if let Some(interval) = interval {
        segment(&mut out, 0xDD, &[(interval >> 8) as u8, interval as u8]);
    }
    scan_segment(&mut out, components);
    out
}

fn finish(mut out: Vec<u8>, mut bits: BitWriter) -> Vec<u8> {
    bits.marker(0xD9);
    out.extend_from_slice(&bits.bytes);
    out
}

/// A grayscale image of `blocks` blocks side by side; block `i` has the
/// sample value `128 + levels[i]` everywhere.
fn gray_strip(levels: &[i32]) -> Vec<u8> {
    let out = headers(8 * levels.len() as u16, 8, 1, 0x11, None);
    let mut bits = BitWriter::new();
    let mut pred = 0;
    for (i, &level) in levels.iter().enumerate() {
        if i + 1 == levels.len() {
            bits.flat_long(level - pred);
        } else {
            bits.flat(level - pred);
        }
        pred = level;
    }
    finish(out, bits)
}

/// A colour image of 16 by 16 pixels with 4:2:0 sampling: one MCU with four
/// flat luma blocks and flat chroma blocks.
fn color_square(luma: [i32; 4], cb: i32, cr: i32) -> Vec<u8> {
    let out = headers(16, 16, 3, 0x22, None);
    let mut bits = BitWriter::new();
    let mut pred = 0;
    for level in luma {
        bits.flat(level - pred);
        pred = level;
    }
    bits.flat(cb);
    bits.flat_long(cr);
    finish(out, bits)
}

struct Tile {
    rect: Rectangle,
    pixels: Vec<u8>,
    width: u16,
    height: u16,
}

struct Collector {
    bytes_per_pixel: usize,
    tiles: Vec<Tile>,
    stop_at: Option<usize>,
    fail_at: Option<usize>,
}

impl Collector {
    fn new(bytes_per_pixel: usize) -> Self {
        Collector { bytes_per_pixel, tiles: Vec::new(), stop_at: None, fail_at: None }
    }
}

impl OutputCallback for Collector {
    fn output(&mut self, decoder: &JpegDecoder, bitmap: &[u8], rect: &Rectangle) -> Result<bool, Error> {
        let count = rect.width() as usize * rect.height() as usize * self.bytes_per_pixel;
        let index = self.tiles.len();
        self.tiles.push(Tile {
            rect: *rect,
            pixels: bitmap[..count].to_vec(),
            width: decoder.width(),
            height: decoder.height(),
        });
        if self.fail_at == Some(index) {
            return Err(Error::InsufficientBuffer);
        }
        Ok(self.stop_at != Some(index))
    }
}

fn decode(data: &[u8], scale: u8, sink: &mut Collector) -> Result<(), Error> {
    let mut workspace = vec![0u8; RECOMMENDED_POOL_SIZE];
    let mut pool = MemoryPool::new(&mut workspace);
    let mut decoder = JpegDecoder::new();
    decoder.prepare(data, &mut pool)?;
    let mut mcu_buffer = vec![0i16; decoder.mcu_buffer_size()];
    let mut work_buffer = vec![0u8; decoder.work_buffer_size()];
    decoder.decompress(&pool, data, scale, &mut mcu_buffer, &mut work_buffer, &mut Recorder::new(sink))
}

fn prepare_error(data: &[u8]) -> Error {
    let mut workspace = vec![0u8; RECOMMENDED_POOL_SIZE];
    let mut pool = MemoryPool::new(&mut workspace);
    let mut decoder = JpegDecoder::new();
    decoder.prepare(data, &mut pool).unwrap_err()
}

#[test]
fn test_create_without_prepare() {
    let decoder = JpegDecoder::new();
    assert_eq!(decoder.width(), 0);
    assert_eq!(decoder.height(), 0);
    assert_eq!(decoder.components(), 0);
    assert_eq!(decoder.raw_width(), 0);
    assert_eq!(decoder.raw_height(), 0);
    let other = JpegDecoder::default();
    assert_eq!(other.components(), 0);
}

#[test]
fn test_invalid_magic() {
    assert_eq!(prepare_error(&[0xFF, 0x00, 0x01, 0x02]), Error::FormatError);
}

#[test]
fn test_empty_input() {
    assert_eq!(prepare_error(&[]), Error::Input);
    assert_eq!(prepare_error(&[0xFF]), Error::Input);
}

#[test]
fn test_prepare_reports_frame() {
    let data = color_square([10, 10, 10, 10], 0, 0);
    let mut workspace = vec![0u8; RECOMMENDED_POOL_SIZE];
    let mut pool = MemoryPool::new(&mut workspace);
    let mut decoder = JpegDecoder::new();
    assert_eq!(decoder.prepare(&data, &mut pool), Ok(()));
    assert_eq!(decoder.raw_width(), 16);
    assert_eq!(decoder.raw_height(), 16);
    assert_eq!(decoder.components(), 3);
    assert_eq!(decoder.mcu_buffer_size(), (4 + 2) * 64);
    assert_eq!(decoder.work_buffer_size(), 16 * 16 * 3);
    // two quantization tables, two DC tables of four codes, two AC tables
    // of three codes
    assert_eq!(pool.used(), 2 * 256 + 2 * (8 + 8) + 2 * (8 + 8));

    let gray = gray_strip(&[10]);
    let mut workspace = vec![0u8; RECOMMENDED_POOL_SIZE];
    let mut pool = MemoryPool::new(&mut workspace);
    let mut decoder = JpegDecoder::new();
    assert_eq!(decoder.prepare(&gray, &mut pool), Ok(()));
    assert_eq!(decoder.raw_width(), 8);
    assert_eq!(decoder.raw_height(), 8);
    assert_eq!(decoder.components(), 1);
    assert_eq!(decoder.mcu_buffer_size(), (1 + 2) * 64);
    assert_eq!(decoder.work_buffer_size(), 64);
}

#[test]
fn test_undersized_buffers() {
    let data = color_square([10, 10, 10, 10], 0, 0);
    let mut workspace = vec![0u8; RECOMMENDED_POOL_SIZE];
    let mut pool = MemoryPool::new(&mut workspace);
    let mut decoder = JpegDecoder::new();
    decoder.prepare(&data, &mut pool).unwrap();
    let mut sink = Collector::new(3);

    let mut mcu_buffer = vec![0i16; 10];
    let mut work_buffer = vec![0u8; decoder.work_buffer_size()];
    let r = decoder.decompress(&pool, &data, 0, &mut mcu_buffer, &mut work_buffer, &mut Recorder::new(&mut sink));
    assert_eq!(r, Err(Error::InsufficientMemory));

    let mut mcu_buffer = vec![0i16; decoder.mcu_buffer_size()];
    let mut work_buffer = vec![0u8; decoder.work_buffer_size() - 1];
    let r = decoder.decompress(&pool, &data, 0, &mut mcu_buffer, &mut work_buffer, &mut Recorder::new(&mut sink));
    assert_eq!(r, Err(Error::InsufficientMemory));
    assert!(sink.tiles.is_empty());
}

#[test]
fn test_scale_out_of_range() {
    let data = gray_strip(&[10]);
    let mut sink = Collector::new(1);
    assert_eq!(decode(&data, 4, &mut sink), Err(Error::Parameter));
    assert!(sink.tiles.is_empty());
}

#[test]
fn test_full_decode() {
    // 40 by 24 pixels in MCUs of 16 by 16: three columns and two rows.
    let out = headers(40, 24, 3, 0x22, None);
    let mut bits = BitWriter::new();
    for mcu in 0..6 {
        for block in 0..6 {
            let diff = if mcu == 0 && block == 0 { 10 } else { 0 };
            if mcu == 5 && block == 5 {
                bits.flat_long(diff);
            } else {
                bits.flat(diff);
            }
        }
    }
    let data = finish(out, bits);
    let mut sink = Collector::new(3);
    assert_eq!(decode(&data, 0, &mut sink), Ok(()));
    assert_eq!(sink.tiles.len(), 3 * 2);
    assert_eq!(sink.tiles[0].rect, Rectangle::new(0, 15, 0, 15));
    assert_eq!(sink.tiles[2].rect, Rectangle::new(32, 39, 0, 15));
    assert_eq!(sink.tiles[5].rect, Rectangle::new(32, 39, 16, 23));
    for tile in &sink.tiles {
        assert_eq!(tile.width, 40);
        assert_eq!(tile.height, 24);
        assert!(tile.pixels.iter().all(|&p| p == 138));
    }
}

#[test]
fn test_color_pixels() {
    let data = color_square([10, 20, -12, 40], -30, 50);
    let mut sink = Collector::new(3);
    assert_eq!(decode(&data, 0, &mut sink), Ok(()));
    assert_eq!(sink.tiles.len(), 1);
    let tile = &sink.tiles[0];
    assert_eq!(tile.rect, Rectangle::new(0, 15, 0, 15));
    let luma = [138, 148, 116, 168];
    for row in 0..16 {
        for col in 0..16 {
            let y = luma[(row / 8) * 2 + col / 8];
            let expected = ycbcr_to_rgb(y, -30, 50);
            let at = (row * 16 + col) * 3;
            assert_eq!(&tile.pixels[at..at + 3], &expected);
        }
    }
    // luma 138, Cb 98, Cr 178
    assert_eq!(&tile.pixels[0..3], &[208, 113, 85]);
}

#[test]
fn test_grayscale_pixels() {
    let data = gray_strip(&[10, -20, 40]);
    let mut sink = Collector::new(1);
    assert_eq!(decode(&data, 0, &mut sink), Ok(()));
    assert_eq!(sink.tiles.len(), 3);
    let expected = [138u8, 108, 168];
    for (i, tile) in sink.tiles.iter().enumerate() {
        assert_eq!(tile.rect, Rectangle::new(8 * i as u16, 8 * i as u16 + 7, 0, 7));
        assert_eq!(tile.pixels.len(), 64);
        assert!(tile.pixels.iter().all(|&p| p == expected[i]));
    }
}

#[test]
fn test_ac_coefficients() {
    let out = headers(8, 8, 1, 0x11, None);
    let mut bits = BitWriter::new();
    bits.dc(10);
    bits.ac_one(true);
    bits.ac_one(false);
    // a run of sixteen zeros, then one more coefficient
    bits.put(0b110, 3);
    bits.ac_one(true);
    bits.eob();
    let data = finish(out, bits);
    let mut sink = Collector::new(1);
    assert_eq!(decode(&data, 0, &mut sink), Ok(()));

    // every quantization coefficient is 8
    let arai = [8192i32, 11363, 10703, 9633, 8192, 6436, 4433, 2260];
    let mut block = [0i32; 64];
    block[0] = (10 * 8 * 8192) >> 8;
    block[1] = (8 * 11363) >> 8; // zigzag position 1
    block[8] = -(8 * 11363) >> 8; // zigzag position 2
    // zigzag position 19 is row 4, column 1
    block[33] = (8 * ((arai[4] * arai[1]) >> 13)) >> 8;
    assert_eq!(block[33], (8 * 11363) >> 8);
    let mut samples = [0i16; 64];
    block_idct(&mut block, &mut samples);
    let expected: Vec<u8> = samples.iter().map(|&s| s.clamp(0, 255) as u8).collect();
    assert_eq!(sink.tiles[0].pixels, expected);
    assert!(expected.iter().any(|&p| p != expected[0]));
}

#[test]
fn test_run_past_block_end() {
    let out = headers(8, 8, 1, 0x11, None);
    let mut bits = BitWriter::new();
    bits.dc(10);
    for _ in 0..4 {
        bits.put(0b110, 3);
    }
    bits.eob();
    let data = finish(out, bits);
    let mut sink = Collector::new(1);
    assert_eq!(decode(&data, 0, &mut sink), Err(Error::FormatError));
    assert!(sink.tiles.is_empty());
}

#[test]
fn test_scale_sweep() {
    let data = color_square([10, 20, -12, 40], 0, 0);
    let luma = [138u8, 148, 116, 168];
    for scale in 0..=3u8 {
        let mut sink = Collector::new(3);
        assert_eq!(decode(&data, scale, &mut sink), Ok(()));
        assert_eq!(sink.tiles.len(), 1);
        let tile = &sink.tiles[0];
        let side = 16u16 >> scale;
        assert_eq!(tile.width, side);
        assert_eq!(tile.height, side);
        assert_eq!(tile.rect, Rectangle::new(0, side - 1, 0, side - 1));
        assert_eq!(tile.pixels.len(), side as usize * side as usize * 3);
        for row in 0..side as usize {
            for col in 0..side as usize {
                let from_row = row << scale;
                let from_col = col << scale;
                let y = luma[(from_row / 8) * 2 + from_col / 8];
                let at = (row * side as usize + col) * 3;
                assert_eq!(&tile.pixels[at..at + 3], &[y, y, y]);
            }
        }
    }
}

#[test]
fn test_partial_tiles() {
    // 12 by 5 pixels: the second MCU keeps 4 columns, both keep 5 rows.
    let out = headers(12, 5, 1, 0x11, None);
    let mut bits = BitWriter::new();
    bits.flat(10);
    bits.flat_long(-30);
    let data = finish(out, bits);
    let mut sink = Collector::new(1);
    assert_eq!(decode(&data, 0, &mut sink), Ok(()));
    assert_eq!(sink.tiles.len(), 2);
    assert_eq!(sink.tiles[0].rect, Rectangle::new(0, 7, 0, 4));
    assert_eq!(sink.tiles[1].rect, Rectangle::new(8, 11, 0, 4));
    assert_eq!(sink.tiles[0].pixels, vec![138u8; 40]);
    assert_eq!(sink.tiles[1].pixels, vec![108u8; 20]);

    // Scaled by 4 the second MCU has one column left, and by 8 none.
    let mut sink = Collector::new(1);
    assert_eq!(decode(&data, 2, &mut sink), Ok(()));
    assert_eq!(sink.tiles.len(), 2);
    assert_eq!(sink.tiles[0].rect, Rectangle::new(0, 1, 0, 0));
    assert_eq!(sink.tiles[1].rect, Rectangle::new(2, 2, 0, 0));
    assert_eq!(sink.tiles[1].pixels, vec![108u8]);
    let mut sink = Collector::new(1);
    assert_eq!(decode(&data, 3, &mut sink), Ok(()));
    assert!(sink.tiles.is_empty());
}

#[test]
fn test_sink_abort() {
    let data = gray_strip(&[10, -20, 40]);
    let mut sink = Collector::new(1);
    sink.stop_at = Some(0);
    assert_eq!(decode(&data, 0, &mut sink), Err(Error::Interrupted));
    assert_eq!(sink.tiles.len(), 1);
}

#[test]
fn test_sink_error() {
    let data = gray_strip(&[10, -20, 40]);
    let mut sink = Collector::new(1);
    sink.fail_at = Some(1);
    assert_eq!(decode(&data, 0, &mut sink), Err(Error::InsufficientBuffer));
    assert_eq!(sink.tiles.len(), 2);
}

#[test]
fn test_restart_interval() {
    let out = headers(24, 8, 1, 0x11, Some(1));
    let mut bits = BitWriter::new();
    bits.flat(10);
    bits.marker(0xD0);
    bits.flat(10);
    bits.marker(0xD1);
    bits.flat(10);
    let data = finish(out, bits);
    let mut sink = Collector::new(1);
    assert_eq!(decode(&data, 0, &mut sink), Ok(()));
    assert_eq!(sink.tiles.len(), 3);
    for tile in &sink.tiles {
        assert_eq!(tile.pixels, vec![138u8; 64]);
    }

    // Without restarts the same differences add up.
    let out = headers(24, 8, 1, 0x11, None);
    let mut bits = BitWriter::new();
    bits.flat(10);
    bits.flat(10);
    bits.flat_long(10);
    let data = finish(out, bits);
    let mut sink = Collector::new(1);
    assert_eq!(decode(&data, 0, &mut sink), Ok(()));
    assert_eq!(sink.tiles[0].pixels, vec![138u8; 64]);
    assert_eq!(sink.tiles[1].pixels, vec![148u8; 64]);
    assert_eq!(sink.tiles[2].pixels, vec![158u8; 64]);
}

#[test]
fn test_stuffed_bytes() {
    // Two empty blocks take four bits. The difference 63 then gives the bits
    // 1110 111111, and the run that follows two more ones: the second byte
    // of the data is FF, which the stream stuffs.
    let out = headers(32, 8, 1, 0x11, None);
    let mut bits = BitWriter::new();
    bits.flat(0);
    bits.flat(0);
    bits.flat_long(63);
    bits.flat_long(-63);
    let data = finish(out, bits);
    let scan_at = data.len() - bits_len(&data);
    assert_eq!(&data[scan_at..scan_at + 3], &[0x0E, 0xFF, 0x00]);
    let mut sink = Collector::new(1);
    assert_eq!(decode(&data, 0, &mut sink), Ok(()));
    assert_eq!(sink.tiles.len(), 4);
    assert_eq!(sink.tiles[0].pixels, vec![128u8; 64]);
    assert_eq!(sink.tiles[2].pixels, vec![191u8; 64]);
    assert_eq!(sink.tiles[3].pixels, vec![128u8; 64]);
}

/// Number of bytes behind the start-of-scan segment of a test stream.
fn bits_len(data: &[u8]) -> usize {
    let mut at = 2;
    loop {
        let kind = data[at + 1];
        let length = ((data[at + 2] as usize) << 8) | data[at + 3] as usize;
        at += 2 + length;
        if kind == 0xDA {
            return data.len() - at;
        }
    }
}

#[test]
fn test_decompress_is_repeatable() {
    let data = color_square([10, 20, -12, 40], -30, 50);
    let mut workspace = vec![0u8; RECOMMENDED_POOL_SIZE];
    let mut pool = MemoryPool::new(&mut workspace);
    let mut decoder = JpegDecoder::new();
    decoder.prepare(&data, &mut pool).unwrap();
    let mut mcu_buffer = vec![0i16; decoder.mcu_buffer_size()];
    let mut work_buffer = vec![0u8; decoder.work_buffer_size()];
    let mut first = Collector::new(3);
    let mut second = Collector::new(3);
    let mut other = Collector::new(3);
    assert_eq!(decoder.decompress(&pool, &data, 1, &mut mcu_buffer, &mut work_buffer, &mut Recorder::new(&mut first)), Ok(()));
    assert_eq!(decoder.decompress(&pool, &data, 0, &mut mcu_buffer, &mut work_buffer, &mut Recorder::new(&mut other)), Ok(()));
    assert_eq!(decoder.decompress(&pool, &data, 1, &mut mcu_buffer, &mut work_buffer, &mut Recorder::new(&mut second)), Ok(()));
    assert_eq!(first.tiles.len(), second.tiles.len());
    for (a, b) in first.tiles.iter().zip(second.tiles.iter()) {
        assert_eq!(a.rect, b.rect);
        assert_eq!(a.pixels, b.pixels);
    }
    assert_eq!(decoder.width(), 8);
    assert_eq!(decoder.raw_width(), 16);
}

#[test]
fn test_truncated_scan() {
    let mut data = gray_strip(&[10, -20, 40]);
    // cut the entropy-coded data and the end marker off
    data.truncate(data.len() - 5);
    let mut sink = Collector::new(1);
    assert_eq!(decode(&data, 0, &mut sink), Err(Error::Input));
}

#[test]
fn test_header_errors() {
    // end of image before the scan
    let mut data = vec![0xFF, 0xD8];
    segment(&mut data, 0xD9, &[]);
    assert_eq!(prepare_error(&data), Error::FormatError);

    // a progressive frame
    let mut data = vec![0xFF, 0xD8];
    frame_segment(&mut data, 0xC2, 8, 8, 1, 0x11);
    assert_eq!(prepare_error(&data), Error::UnsupportedStandard);

    // twelve bits a sample
    let mut data = vec![0xFF, 0xD8];
    frame_segment(&mut data, 0xC0, 8, 8, 1, 0x11);
    data[6] = 12;
    assert_eq!(prepare_error(&data), Error::UnsupportedFormat);

    // 4:1:1 sampling
    let mut data = vec![0xFF, 0xD8];
    frame_segment(&mut data, 0xC0, 8, 8, 3, 0x41);
    assert_eq!(prepare_error(&data), Error::UnsupportedFormat);

    // two components
    let mut data = vec![0xFF, 0xD8];
    frame_segment(&mut data, 0xC0, 8, 8, 1, 0x11);
    data[11] = 2;
    assert_eq!(prepare_error(&data), Error::UnsupportedStandard);

    // a quantization table id over 3
    let mut data = vec![0xFF, 0xD8];
    quant_segment(&mut data, 4, 8);
    assert_eq!(prepare_error(&data), Error::FormatError);

    // a Huffman table in slot 2
    let mut data = vec![0xFF, 0xD8];
    huffman_segment(&mut data, 0, 2, &[1], &[0]);
    assert_eq!(prepare_error(&data), Error::FormatError);

    // a segment that runs past the end of the data
    let mut data = vec![0xFF, 0xD8];
    quant_segment(&mut data, 0, 8);
    data.truncate(30);
    assert_eq!(prepare_error(&data), Error::Input);

    // a length under 2
    assert_eq!(prepare_error(&[0xFF, 0xD8, 0xFF, 0xE0, 0x00, 0x01]), Error::FormatError);

    // a scan without tables
    let mut data = vec![0xFF, 0xD8];
    frame_segment(&mut data, 0xC0, 8, 8, 1, 0x11);
    scan_segment(&mut data, 1);
    assert_eq!(prepare_error(&data), Error::FormatError);

    // other segments are passed over
    let mut data = vec![0xFF, 0xD8];
    segment(&mut data, 0xE0, &[1, 2, 3, 4]);
    segment(&mut data, 0xD9, &[]);
    assert_eq!(prepare_error(&data), Error::FormatError);
}

#[test]
fn test_pool_too_small() {
    let data = color_square([10, 10, 10, 10], 0, 0);
    let mut workspace = vec![0u8; 300];
    let mut pool = MemoryPool::new(&mut workspace);
    let mut decoder = JpegDecoder::new();
    assert_eq!(decoder.prepare(&data, &mut pool), Err(Error::InsufficientMemory));

    let needed = 2 * 256 + 4 * 16;
    let mut workspace = vec![0u8; needed - 1];
    let mut pool = MemoryPool::new(&mut workspace);
    let mut decoder = JpegDecoder::new();
    assert_eq!(decoder.prepare(&data, &mut pool), Err(Error::InsufficientMemory));

    let mut workspace = vec![0u8; needed];
    let mut pool = MemoryPool::new(&mut workspace);
    let mut decoder = JpegDecoder::new();
    assert_eq!(decoder.prepare(&data, &mut pool), Ok(()));
    assert_eq!(pool.remaining(), 0);
}

#[test]
fn test_wide_quantization_table() {
    let mut data = vec![0xFF, 0xD8];
    let mut payload = vec![0x10];
    for _ in 0..64 {
        payload.extend_from_slice(&[0x00, 0x10]);
    }
    segment(&mut data, 0xDB, &payload);
    frame_segment(&mut data, 0xC0, 8, 8, 1, 0x11);
    huffman_segment(&mut data, 0, 0, &[1, 1, 1, 1], &[0, 4, 5, 6]);
    huffman_segment(&mut data, 1, 0, &[1, 1, 1], &[0x00, 0x01, 0xF0]);
    scan_segment(&mut data, 1);
    let mut bits = BitWriter::new();
    bits.flat(10);
    let data = finish(data, bits);
    let mut sink = Collector::new(1);
    assert_eq!(decode(&data, 0, &mut sink), Ok(()));
    // a coefficient of 16 doubles the step: 128 + 2 * 10
    assert_eq!(sink.tiles[0].pixels, vec![148u8; 64]);
}

#[test]
fn test_decompress_without_prepare() {
    let mut workspace = vec![0u8; 64];
    let pool = MemoryPool::new(&mut workspace);
    let mut decoder = JpegDecoder::new();
    let mut mcu_buffer = vec![0i16; decoder.mcu_buffer_size()];
    let mut work_buffer = vec![0u8; decoder.work_buffer_size()];
    let mut sink = Collector::new(3);
    let r = decoder.decompress(&pool, &[], 0, &mut mcu_buffer, &mut work_buffer, &mut Recorder::new(&mut sink));
    assert_eq!(r, Err(Error::Input));
    let r = decoder.decompress(&pool, &[1, 2, 3, 4, 5], 0, &mut mcu_buffer, &mut work_buffer, &mut Recorder::new(&mut sink));
    assert_eq!(r, Err(Error::FormatError));
}

#[test]
fn test_calculate_pool_size() {
    assert_eq!(calculate_pool_size(640, 480, false), 4928);
    assert_eq!(calculate_pool_size(640, 480, true), 13120);
    assert_eq!(calculate_pool_size(0, 0, false), 4928);
}

#[test]
fn test_lookup_tables_decode_alike() {
    let data = color_square([10, 20, -12, 40], -30, 50);
    let mut plain = Collector::new(3);
    assert_eq!(decode(&data, 0, &mut plain), Ok(()));

    let mut workspace = vec![0u8; calculate_pool_size(16, 16, true)];
    let mut pool = MemoryPool::new(&mut workspace);
    let mut decoder = JpegDecoder::new();
    decoder.prepare(&data, &mut pool).unwrap();
    let used = pool.used();
    assert_eq!(decoder.build_lookup_tables(&mut pool), Ok(()));
    assert_eq!(pool.used(), used + 4 * 2048);
    // nothing is left to build
    assert_eq!(decoder.build_lookup_tables(&mut pool), Ok(()));
    assert_eq!(pool.used(), used + 4 * 2048);
    let mut mcu_buffer = vec![0i16; decoder.mcu_buffer_size()];
    let mut work_buffer = vec![0u8; decoder.work_buffer_size()];
    let mut fast = Collector::new(3);
    assert_eq!(decoder.decompress(&pool, &data, 0, &mut mcu_buffer, &mut work_buffer, &mut Recorder::new(&mut fast)), Ok(()));
    assert_eq!(fast.tiles.len(), plain.tiles.len());
    assert_eq!(fast.tiles[0].rect, plain.tiles[0].rect);
    assert_eq!(fast.tiles[0].pixels, plain.tiles[0].pixels);

    // a pool with room for three of the four lookup tables stays as it is
    let mut workspace = vec![0u8; 2 * 256 + 4 * 16 + 3 * 2048 + 2047];
    let mut pool = MemoryPool::new(&mut workspace);
    let mut decoder = JpegDecoder::new();
    decoder.prepare(&data, &mut pool).unwrap();
    let used = pool.used();
    assert_eq!(decoder.build_lookup_tables(&mut pool), Err(Error::InsufficientMemory));
    assert_eq!(pool.used(), used);
    let mut slow = Collector::new(3);
    assert_eq!(decoder.decompress(&pool, &data, 0, &mut mcu_buffer, &mut work_buffer, &mut Recorder::new(&mut slow)), Ok(()));
    assert_eq!(slow.tiles[0].pixels, plain.tiles[0].pixels);
}

#[test]
fn test_no_tile_left() {
    // Scaled by 8 a picture of 7 by 7 pixels has no pixel: the sink is not
    // asked, and the scan decides alone.
    let out = headers(7, 7, 1, 0x11, None);
    let mut bits = BitWriter::new();
    bits.flat_long(10);
    let data = finish(out, bits);
    let mut sink = Collector::new(1);
    sink.stop_at = Some(0);
    assert_eq!(decode(&data, 3, &mut sink), Ok(()));
    assert!(sink.tiles.is_empty());

    let out = headers(7, 7, 1, 0x11, None);
    let mut bits = BitWriter::new();
    bits.put(0b1111, 4);
    let data = finish(out, bits);
    let mut sink = Collector::new(1);
    assert_eq!(decode(&data, 3, &mut sink), Err(Error::FormatError));
}

#[test]
fn test_half_width_chroma() {
    // 4:2:2: MCUs of 16 by 8 pixels, two luma blocks each. Each chroma
    // sample serves two pixels side by side.
    let out = headers(32, 8, 3, 0x21, None);
    let mut bits = BitWriter::new();
    bits.flat(10);
    bits.flat(10);
    bits.flat(-30);
    bits.flat(50);
    bits.flat(-10);
    bits.flat(-20);
    bits.flat(0);
    bits.flat_long(0);
    let data = finish(out, bits);
    let mut sink = Collector::new(3);
    assert_eq!(decode(&data, 0, &mut sink), Ok(()));
    assert_eq!(sink.tiles.len(), 2);
    assert_eq!(sink.tiles[0].rect, Rectangle::new(0, 15, 0, 7));
    assert_eq!(sink.tiles[1].rect, Rectangle::new(16, 31, 0, 7));
    let first_left = ycbcr_to_rgb(138, -30, 50);
    let first_right = ycbcr_to_rgb(148, -30, 50);
    let second_left = ycbcr_to_rgb(138, -30, 50);
    let second_right = ycbcr_to_rgb(118, -30, 50);
    for row in 0..8 {
        for col in 0..16 {
            let at = (row * 16 + col) * 3;
            let (a, b) = if col < 8 { (first_left, second_left) } else { (first_right, second_right) };
            assert_eq!(&sink.tiles[0].pixels[at..at + 3], &a);
            assert_eq!(&sink.tiles[1].pixels[at..at + 3], &b);
        }
    }
}

#[test]
fn test_prepare_twice_keeps_tables() {
    // A second stream without tables of its own decodes with the tables of
    // the first.
    let first = gray_strip(&[10]);
    let mut second = vec![0xFF, 0xD8];
    frame_segment(&mut second, 0xC0, 8, 8, 1, 0x11);
    scan_segment(&mut second, 1);
    let mut bits = BitWriter::new();
    bits.flat_long(-30);
    let second = finish(second, bits);

    let mut workspace = vec![0u8; RECOMMENDED_POOL_SIZE];
    let mut pool = MemoryPool::new(&mut workspace);
    let mut decoder = JpegDecoder::new();
    assert_eq!(decoder.prepare(&second, &mut pool), Err(Error::FormatError));
    assert_eq!(decoder.prepare(&first, &mut pool), Ok(()));
    let used = pool.used();
    assert_eq!(decoder.prepare(&second, &mut pool), Ok(()));
    assert_eq!(pool.used(), used);
    let mut mcu_buffer = vec![0i16; decoder.mcu_buffer_size()];
    let mut work_buffer = vec![0u8; decoder.work_buffer_size()];
    let mut sink = Collector::new(1);
    assert_eq!(decoder.decompress(&pool, &second, 0, &mut mcu_buffer, &mut work_buffer, &mut Recorder::new(&mut sink)), Ok(()));
    assert_eq!(sink.tiles[0].pixels, vec![98u8; 64]);
}
