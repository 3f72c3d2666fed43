//! Integer core of GN-QIM, a watermarking scheme that hides one bit per
//! 8×8 DCT block of a grayscale image.
//!
//! This crate holds the parts of the scheme that work on plain integers:
//! the CRC-32 of the payload, the frame that carries the payload through the
//! image, the packing of bytes into bits and back, the cutting of an image
//! into 8×8 blocks and the putting back of blocks into an image, and the
//! error counts that the quality measures are built from.

pub mod bits;
pub mod blocks;
pub mod crc;
pub mod gnqim;
pub mod measure;
