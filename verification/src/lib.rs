//! Byte-oriented reader for PaintTool SAI Ver.2 (`.sai2`) documents, with
//! PNG and layered PSD serialisers for the decoded images.

pub mod bytes;
pub mod chunk;
pub mod document;
pub mod dpcm;
pub mod error;
pub mod header;
pub mod image;
pub mod layer;
pub mod packbits;
pub mod png;
pub mod psd;
pub mod rle;
pub mod text;

pub use error::ParseError;
pub use header::{FourCc, HEADER_LEN, SAI2_MAGIC, Sai2Header};
pub use chunk::{Chunk, CHUNK_ENTRY_LEN};
pub use document::Sai2Document;
pub use image::{decode_integrated_image, DecodeLimits, RgbaImage};
pub use layer::{decode_layers, Sai2Layer};
