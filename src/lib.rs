//! A QR code encoder: Reed-Solomon error correction over GF(256), bit packing
//! of the message, layout of the symbol and mask selection.
pub mod bitmap;
pub mod bitstream;
pub mod encoding;
pub mod error;
pub mod matrix;
pub mod penalty;
pub mod qr;
pub mod rsec;
pub mod tables;
