//! Errors reported when binary SAI2 data cannot be parsed safely.

use vstd::prelude::*;

verus! {

/// Error returned when binary SAI2 data cannot be parsed safely.
#[derive(Debug, Clone, PartialEq, Eq)]
pub enum ParseError {
    /// The input ended before a required number of bytes were available.
    Truncated { expected: usize, actual: usize },
    /// The fixed file signature did not identify a SAI2 document.
    InvalidSignature { found: [u8; 16] },
    /// The declared chunk count cannot describe a table on this platform.
    InvalidChunkCount { count: u32 },
    /// A chunk offset lies inside the header/table or beyond the input.
    InvalidChunkOffset { index: usize, offset: u64, table_end: usize, file_len: usize },
    /// A chunk offset is smaller than the offset of the entry before it.
    ChunkOffsetsOutOfOrder {
        previous_index: usize,
        previous_offset: u64,
        index: usize,
        offset: u64,
    },
    /// The canvas dimensions cannot describe a decodable image.
    InvalidImageDimensions { width: u32, height: u32 },
    /// The canvas has more pixels than the caller's limit allows.
    ImageTooLarge { pixels: u64, max_pixels: u64 },
    /// The document has no `intg` chunk.
    MissingIntegratedImage,
    /// The `intg` chunk does not begin with the `dpcm` encoding tag.
    UnsupportedIntegratedImage { found: [u8; 4] },
    /// The integrated image's tile framing or bitstream is malformed.
    MalformedDpcm { reason: &'static str },
    /// A layer descriptor or layer pixel stream is malformed.
    MalformedLayer { reason: &'static str },
}

} // verus!
