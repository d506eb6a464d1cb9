use tjpgdec_rs::{Error, OutputFormat, Rectangle, SamplingFactor, MINIMUM_POOL_SIZE, MIN_WORKSPACE_SIZE, RECOMMENDED_POOL_SIZE};

#[test]
fn test_error_descriptions() {
    assert_eq!(Error::Success.as_str(), "Success");
    assert_eq!(Error::Interrupted.as_str(), "Interrupted by output function");
    assert_eq!(Error::Input.as_str(), "Input stream error");
    assert_eq!(Error::InsufficientMemory.as_str(), "Insufficient memory");
    assert_eq!(Error::InsufficientBuffer.as_str(), "Insufficient buffer");
    assert_eq!(Error::Parameter.as_str(), "Parameter error");
    assert_eq!(Error::FormatError.as_str(), "Format error");
    assert_eq!(Error::UnsupportedFormat.as_str(), "Unsupported format");
    assert_eq!(Error::UnsupportedStandard.as_str(), "Unsupported JPEG standard");
    assert_ne!(Error::Input, Error::FormatError);
}

#[test]
fn test_rectangle() {
    let r = Rectangle::new(8, 15, 16, 20);
    assert_eq!((r.left, r.right, r.top, r.bottom), (8, 15, 16, 20));
    assert_eq!(r.width(), 8);
    assert_eq!(r.height(), 5);
    let point = Rectangle::new(3, 3, 4, 4);
    assert_eq!(point.width(), 1);
    assert_eq!(point.height(), 1);
    // swapped edges count as one position, and the full range is held to u16
    let swapped = Rectangle::new(9, 2, 7, 0);
    assert_eq!(swapped.width(), 1);
    assert_eq!(swapped.height(), 1);
    let full = Rectangle::new(0, 65535, 0, 65534);
    assert_eq!(full.width(), 65535);
    assert_eq!(full.height(), 65535);
    assert_eq!(r, Rectangle { left: 8, right: 15, top: 16, bottom: 20 });
}

#[test]
fn test_sampling_factor() {
    assert_eq!(SamplingFactor::from_factor(1, 1), Some(SamplingFactor::Yuv444));
    assert_eq!(SamplingFactor::from_factor(2, 1), Some(SamplingFactor::Yuv422));
    assert_eq!(SamplingFactor::from_factor(2, 2), Some(SamplingFactor::Yuv420));
    assert_eq!(SamplingFactor::from_factor(1, 2), None);
    assert_eq!(SamplingFactor::from_factor(4, 1), None);
    assert_eq!(SamplingFactor::from_factor(0, 0), None);
    assert_eq!(SamplingFactor::Yuv444.mcu_width(), 1);
    assert_eq!(SamplingFactor::Yuv444.mcu_height(), 1);
    assert_eq!(SamplingFactor::Yuv422.mcu_width(), 2);
    assert_eq!(SamplingFactor::Yuv422.mcu_height(), 1);
    assert_eq!(SamplingFactor::Yuv420.mcu_width(), 2);
    assert_eq!(SamplingFactor::Yuv420.mcu_height(), 2);
}

#[test]
fn test_constants() {
    assert_eq!(RECOMMENDED_POOL_SIZE, 10240);
    assert_eq!(MINIMUM_POOL_SIZE, 4096);
    assert_eq!(MIN_WORKSPACE_SIZE, 3500);
    assert_ne!(OutputFormat::Rgb888, OutputFormat::Grayscale);
    assert_ne!(OutputFormat::Rgb565, OutputFormat::Rgb888);
}
