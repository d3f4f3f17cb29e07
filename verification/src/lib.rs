//! CRC-32 by folding: four 128-bit lanes take the input sixteen bytes at a time,
//! and a last reduction brings them down to the checksum.
pub mod register;
pub mod checksum;
pub mod clmul;
pub mod linear;
pub mod block;
pub mod lanes;
pub mod accumulator;
pub mod fold;
pub mod laws;

pub use accumulator::Accumulator;
pub use checksum::{crc32_braid, crc32_of};
pub use fold::{crc32, crc32_copy, try_crc32_copy, Crc32Fold};
