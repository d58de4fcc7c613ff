//! A PNG codec: decodes PNG byte streams into pixel buffers and encodes pixel
//! buffers into PNG byte streams.
pub mod bytes;
pub mod chunk;
mod clock;
pub mod crc;
pub mod decoding;
pub mod encoding;
pub mod filter;
pub mod helpers;
pub mod image;
pub mod laws;
pub mod pixels;
pub mod zlib;

pub use chunk::{get_chunk_type, parse_chunk, read_n, read_n_const, Chunk, ChunkType};
pub use crc::{compute_crc, compute_crc_table};
pub use decoding::{read_png, Error};
pub use encoding::{encode_png, encode_png_with_time, CompressionLevel, PngEncodingOptions, PngTime};
pub use filter::{paeth_exec, Filtered};
pub use helpers::{to_color_type, to_u16, validate_bit_depth, ColorType, Pallete, TrnsPallete};
pub use image::{Image, ImageType};
