//! Basic types shared by every stage of the decoder: the error kinds, the
//! output rectangle, the pixel formats and the chroma subsampling patterns.

use vstd::prelude::*;

verus! {

/// Why an operation of the decoder did not complete.
#[derive(Debug, Clone, Copy, PartialEq, Eq, Structural)]
pub enum Error {
    /// No error.
    Success,
    /// The output sink asked to stop.
    Interrupted,
    /// The input ended too early.
    Input,
    /// The workspace pool or a caller buffer is too small.
    InsufficientMemory,
    /// The stream input buffer is too small.
    InsufficientBuffer,
    /// An argument is out of range.
    Parameter,
    /// The stream violates the format.
    FormatError,
    /// A valid stream outside the accepted baseline profile.
    UnsupportedFormat,
    /// A JPEG standard that is not supported.
    UnsupportedStandard,
}

impl Error {
    /// The text that describes each error kind.
    pub open spec fn description(self) -> Seq<char> {
        match self {
            Error::Success => "Success"@,
            Error::Interrupted => "Interrupted by output function"@,
            Error::Input => "Input stream error"@,
            Error::InsufficientMemory => "Insufficient memory"@,
            Error::InsufficientBuffer => "Insufficient buffer"@,
            Error::Parameter => "Parameter error"@,
            Error::FormatError => "Format error"@,
            Error::UnsupportedFormat => "Unsupported format"@,
            Error::UnsupportedStandard => "Unsupported JPEG standard"@,
        }
    }

    /// Human-readable description of the error.
    pub fn as_str(&self) -> (s: &'static str)
        ensures
            s@ == self.description(),
    {
        match self {
            Error::Success => "Success",
            Error::Interrupted => "Interrupted by output function",
            Error::Input => "Input stream error",
            Error::InsufficientMemory => "Insufficient memory",
            Error::InsufficientBuffer => "Insufficient buffer",
            Error::Parameter => "Parameter error",
            Error::FormatError => "Format error",
            Error::UnsupportedFormat => "Unsupported format",
            Error::UnsupportedStandard => "Unsupported JPEG standard",
        }
    }
}

/// A tile of the output image. All four edges are inclusive and are given in
/// output pixels, that is after scaling.
#[derive(Debug, Clone, Copy, PartialEq, Eq, Structural)]
pub struct Rectangle {
    /// X coordinate of the left edge.
    pub left: u16,
    /// X coordinate of the right edge.
    pub right: u16,
    /// Y coordinate of the top edge.
    pub top: u16,
    /// Y coordinate of the bottom edge.
    pub bottom: u16,
}

/// The number of positions in the closed interval `[low, high]`, held to the
/// range of `u16`. An interval whose ends are swapped counts as one position.
pub open spec fn span(low: u16, high: u16) -> int {
    let d: int = if high >= low { high - low } else { 0 };
    if d + 1 > u16::MAX { u16::MAX as int } else { d + 1 }
}

impl Rectangle {
    /// A rectangle with the given inclusive edges.
    pub fn new(left: u16, right: u16, top: u16, bottom: u16) -> (r: Self)
        ensures
            r == (Rectangle { left, right, top, bottom }),
    {
        Rectangle { left, right, top, bottom }
    }

    /// Number of pixel columns covered.
    pub open spec fn spec_width(&self) -> u16 {
        span(self.left, self.right) as u16
    }

    /// Number of pixel rows covered.
    pub open spec fn spec_height(&self) -> u16 {
        span(self.top, self.bottom) as u16
    }

    /// Number of pixel columns covered.
    #[verifier::when_used_as_spec(spec_width)]
    pub fn width(&self) -> (w: u16)
        ensures
            w == span(self.left, self.right),
            w == self.spec_width(),
    {
        let d: u16 = if self.right >= self.left { self.right - self.left } else { 0 };
        if d == u16::MAX { u16::MAX } else { d + 1 }
    }

    /// Number of pixel rows covered.
    #[verifier::when_used_as_spec(spec_height)]
    pub fn height(&self) -> (h: u16)
        ensures
            h == span(self.top, self.bottom),
            h == self.spec_height(),
    {
        let d: u16 = if self.bottom >= self.top { self.bottom - self.top } else { 0 };
        if d == u16::MAX { u16::MAX } else { d + 1 }
    }
}

/// Layout of the pixels handed to the output sink.
#[derive(Debug, Clone, Copy, PartialEq, Eq, Structural)]
pub enum OutputFormat {
    /// Three bytes per pixel: red, green, blue.
    Rgb888,
    /// Two bytes per pixel: 5 bits red, 6 bits green, 5 bits blue.
    Rgb565,
    /// One byte per pixel.
    Grayscale,
}

/// How the chroma planes are subsampled against luma.
#[derive(Debug, Clone, Copy, PartialEq, Eq, Structural)]
pub enum SamplingFactor {
    /// 4:4:4, chroma at full resolution.
    Yuv444,
    /// 4:2:2, chroma halved horizontally.
    Yuv422,
    /// 4:2:0, chroma halved in both directions.
    Yuv420,
}

impl SamplingFactor {
    /// The pattern with the given luma sampling factors, if it is one of the
    /// three accepted ones.
    pub open spec fn spec_from_factor(h: u8, v: u8) -> Option<SamplingFactor> {
        if h == 1 && v == 1 {
            Some(SamplingFactor::Yuv444)
        } else if h == 2 && v == 1 {
            Some(SamplingFactor::Yuv422)
        } else if h == 2 && v == 2 {
            Some(SamplingFactor::Yuv420)
        } else {
            None
        }
    }

    /// Width of one MCU, counted in 8x8 blocks.
    pub open spec fn spec_mcu_width(&self) -> u8 {
        match self {
            SamplingFactor::Yuv444 => 1,
            SamplingFactor::Yuv422 => 2,
            SamplingFactor::Yuv420 => 2,
        }
    }

    /// Height of one MCU, counted in 8x8 blocks.
    pub open spec fn spec_mcu_height(&self) -> u8 {
        match self {
            SamplingFactor::Yuv444 => 1,
            SamplingFactor::Yuv422 => 1,
            SamplingFactor::Yuv420 => 2,
        }
    }

    /// Builds the pattern from the horizontal and vertical luma factors.
    #[verifier::when_used_as_spec(spec_from_factor)]
    pub fn from_factor(h: u8, v: u8) -> (r: Option<Self>)
        ensures
            r == Self::spec_from_factor(h, v),
    {
        if h == 1 && v == 1 {
            Some(SamplingFactor::Yuv444)
        } else if h == 2 && v == 1 {
            Some(SamplingFactor::Yuv422)
        } else if h == 2 && v == 2 {
            Some(SamplingFactor::Yuv420)
        } else {
            None
        }
    }

    /// Width of one MCU, counted in 8x8 blocks.
    #[verifier::when_used_as_spec(spec_mcu_width)]
    pub fn mcu_width(&self) -> (w: u8)
        ensures
            w == self.spec_mcu_width(),
    {
        match self {
            SamplingFactor::Yuv444 => 1,
            SamplingFactor::Yuv422 => 2,
            SamplingFactor::Yuv420 => 2,
        }
    }

    /// Height of one MCU, counted in 8x8 blocks.
    #[verifier::when_used_as_spec(spec_mcu_height)]
    pub fn mcu_height(&self) -> (h: u8)
        ensures
            h == self.spec_mcu_height(),
    {
        match self {
            SamplingFactor::Yuv444 => 1,
            SamplingFactor::Yuv422 => 1,
            SamplingFactor::Yuv420 => 2,
        }
    }
}

} // verus!
