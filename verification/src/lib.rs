//! Rewrites the dimensions that an encoded image declares.
//!
//! An encoded PNG, JPEG, GIF or BMP file states its width and height in a few
//! header bytes. This crate finds those bytes without decoding the image,
//! checks them, overwrites them with other values, and repairs the one checksum
//! (PNG's) that covers them, so that the file still reads as well formed while
//! it announces far more pixels than it holds. Such files serve to probe how an
//! image decoder behaves when a header promises more than the payload delivers.
//!
//! The crate is verified with Verus: the contracts say exactly which bytes are
//! read, which are written and when an error is returned. Two things are taken
//! from other crates and on trust: the CRC-32 of a byte string (`checksum`) and
//! the encoders that make a file of raw pixels (`encode`).

pub mod bmp;
pub mod checksum;
pub mod codec;
pub mod encode;
pub mod error;
pub mod gif;
pub mod jpeg;
pub mod pipeline;
pub mod pixels;
pub mod png;

pub use codec::{
    extract_u16, extract_u16_le, extract_u32, extract_u32_le, write_u16, write_u16_le, write_u32,
    write_u32_le,
};
pub use error::{Field, SpoofError};
pub use pipeline::{ImageFormat, HEIGHT, NEW_HEIGHT, NEW_WIDTH, WIDTH};
pub use pixels::PixelBuffer;
