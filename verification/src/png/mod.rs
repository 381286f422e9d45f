//! PNG writing: 8-bit RGB, no interlacing.
//!
//! The encoder is lossless: decoding what [`encode_rgb8`] returns gives back the image byte for
//! byte.

pub mod bits;
pub mod checksum;
pub mod deflate;
pub mod encode;
pub mod filter;

pub use checksum::{adler32, crc32};
pub use deflate::deflate_fixed;
pub use encode::{encode_rgb8, write_chunk};
pub use filter::{filter_rows, paeth};
