//! Least-significant-bit steganography over uncompressed bitmap images,
//! with the integer parts of a few image-distance measures.
pub mod bitmap;
pub mod stego;
pub mod metrics;
