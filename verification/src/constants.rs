//! Codec constants shared by the encoder and the decoder.

use vstd::prelude::*;

verus! {

// ---- Video ----

/// Width of a frame in pixels.
pub const FRAME_WIDTH: usize = 1920;

/// Height of a frame in pixels.
pub const FRAME_HEIGHT: usize = 1080;

/// Frames per second.
pub const FRAME_RATE: usize = 30;

/// Side of one black or white block in pixels.
pub const BLOCK_SIZE: usize = 64;

/// Whole blocks across a frame.
pub const COLS: usize = 30;

/// Whole blocks down a frame; the 56 pixel rows below them stay unused.
pub const ROWS: usize = 16;

/// Blocks per frame, one bit each.
pub const TOTAL_BLOCKS: usize = 480;

// ---- Frame layout: [8 sync bits][frame index bits][data bits] ----

/// The bits every data frame starts with.
pub const SYNC_PATTERN: [u8; 8] = [1, 0, 1, 0, 1, 1, 0, 0];

/// Length of the sync pattern.
pub const SYNC_BITS: usize = 8;

/// Frame-index width used while the stream fits in 65,536 frames.
pub const DEFAULT_FRAME_INDEX_BITS: usize = 16;

/// Frame-index width used beyond that.
pub const EXTENDED_FRAME_INDEX_BITS: usize = 32;

/// Largest index a 32-bit wide field holds.
pub const MAX_FRAME_INDEX: u64 = 0xFFFF_FFFF;

/// Frames addressable by a 16-bit index: 65,536.
pub const MAX_FRAME_COUNT_DEFAULT: u64 = 0x1_0000;

/// Frames addressable by a 32-bit index.
pub const MAX_FRAME_COUNT_EXTENDED: u64 = MAX_FRAME_INDEX + 1;

// ---- Reed-Solomon ----

/// Parity bytes per Reed-Solomon block.
pub const RS_ECC_SYMBOLS: usize = 32;

/// Data bytes per full Reed-Solomon block.
pub const RS_DATA_BYTES: usize = 223;

/// Bytes of a full Reed-Solomon block, parity included.
pub const RS_BLOCK_SIZE: usize = 255;

// ---- Parallelism ----

/// Streams of at least this many blocks are coded in parallel.
pub const PARALLEL_RS_MIN_BLOCKS: usize = 4;

// ---- Metadata QR ----

/// Seconds of video that show the QR code.
pub const METADATA_DURATION_SEC: usize = 1;

/// Frames that show the QR code.
pub const METADATA_FRAMES: usize = 30;

/// Quiet zone around the QR code, in modules.
pub const QR_BORDER_MODULES: usize = 4;

/// Smallest acceptable side of a QR module, in pixels.
pub const QR_MIN_MODULE_PX: usize = 6;

// ---- Decode sampling ----

/// Pixels left out along each edge of a block when its centre is sampled.
pub const BLOCK_SAMPLE_MARGIN: usize = 16;

/// Mean sample from which a block counts as white.
pub const THRESHOLD: u64 = 128;

/// Version number written into the metadata.
pub const ENCODING_VERSION: u32 = 5;

} // verus!
