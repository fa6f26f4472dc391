//! Decoder for PNG images: container framing with checksums, header
//! interpretation, and reversal of the per-scanline predictive filters.

pub mod chunk;
pub mod crc;
pub mod endian;
pub mod error;
pub mod filter;
pub mod header;
pub mod png;
pub mod zlib;
