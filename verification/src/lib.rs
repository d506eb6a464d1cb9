//! A small baseline JPEG decompressor for memory-constrained targets.
//!
//! The decoder parses the headers of a baseline JPEG stream, keeps its tables
//! in a workspace pool that the caller supplies, and hands the decoded image
//! to a sink one MCU tile at a time.
//!
//! ```text
//! let mut workspace = vec![0u8; RECOMMENDED_POOL_SIZE];
//! let mut pool = MemoryPool::new(&mut workspace);
//! let mut decoder = JpegDecoder::new();
//! decoder.prepare(data, &mut pool)?;
//! let mut mcu_buffer = vec![0i16; decoder.mcu_buffer_size()];
//! let mut work_buffer = vec![0u8; decoder.work_buffer_size()];
//! let mut recorder = Recorder::new(&mut sink);
//! decoder.decompress(&pool, data, 0, &mut mcu_buffer, &mut work_buffer, &mut recorder)?;
//! ```

pub mod bitstream;
pub mod color;
pub mod decoder;
pub mod header;
pub mod huffman;
pub mod idct;
pub mod mcu;
pub mod pool;
pub mod sink;
pub mod tables;
pub mod tile;
pub mod tiers;
pub mod types;

pub use bitstream::BitStream;
pub use decoder::{calculate_pool_size, JpegDecoder};
pub use huffman::{fastdecode_level, HuffmanTable};
pub use pool::{MemoryPool, MINIMUM_POOL_SIZE, RECOMMENDED_POOL_SIZE};
pub use sink::{OutputCallback, Recorder};
pub use types::{Error, OutputFormat, Rectangle, SamplingFactor};

use vstd::prelude::*;

verus! {

/// Size of the stream input buffer.
pub const BUFFER_SIZE: usize = 512;

/// Smallest workspace that the decoder can work with.
pub const MIN_WORKSPACE_SIZE: usize = 3500;

} // verus!
