//! The encoders that turn raw pixels into image files.
//!
//! Encoding is the work of the `image` crate. Nothing about its output is
//! proved here: each encoder's result is given a name, and the rest of the
//! crate is verified for whatever bytes that name stands for.

use vstd::prelude::*;

verus! {

/// `image::ImageError`: why an encoder refused. Nothing is read from it.
#[verifier::external_type_specification]
#[verifier::external_body]
pub struct ExImageError(image::ImageError);

/// The PNG file that the encoder makes of `samples`, read as `width` by
/// `height` RGB pixels; `None` where it refuses them.
pub uninterp spec fn png_encoding(samples: Seq<u8>, width: u32, height: u32) -> Option<Seq<u8>>;

/// The JPEG file that the encoder makes of `samples`, read as `width` by
/// `height` RGB pixels; `None` where it refuses them.
pub uninterp spec fn jpeg_encoding(samples: Seq<u8>, width: u32, height: u32) -> Option<Seq<u8>>;

/// The GIF file that the encoder makes of `samples`, read as `width` by
/// `height` RGB pixels; `None` where it refuses them.
pub uninterp spec fn gif_encoding(samples: Seq<u8>, width: u32, height: u32) -> Option<Seq<u8>>;

/// The BMP file that the encoder makes of `samples`, read as `width` by
/// `height` RGB pixels; `None` where it refuses them.
pub uninterp spec fn bmp_encoding(samples: Seq<u8>, width: u32, height: u32) -> Option<Seq<u8>>;

/// `image::codecs::png::PngEncoder::encode` with its default settings, on
/// 8-bit RGB, writing into memory. The encoder reads nothing but its
/// arguments; the contract names what it returns and claims nothing of the
/// bytes. It multiplies the dimensions to find the sample count that it
/// expects; the precondition keeps that product at the length of `samples`.
#[verifier::external_body]
pub(crate) fn encode_png(samples: &[u8], width: u32, height: u32) -> (r: Result<
    Vec<u8>,
    image::ImageError,
>)
    requires
        width >= 1,
        height >= 1,
        samples@.len() == 3 * (width as int * height as int),
    ensures
        match r {
            Ok(bytes) => png_encoding(samples@, width, height) == Some(bytes@),
            Err(_) => png_encoding(samples@, width, height).is_none(),
        },
{
    let mut output: Vec<u8> = Vec::new();
    let encoder = image::codecs::png::PngEncoder::new(&mut output);
    match encoder.encode(samples, width, height, image::ColorType::Rgb8) {
        Ok(()) => Ok(output),
        Err(e) => Err(e),
    }
}

/// `image::codecs::jpeg::JpegEncoder::encode` at its default quality, on
/// 8-bit RGB, writing into memory. The encoder reads nothing but its
/// arguments; the contract names what it returns and claims nothing of the
/// bytes. It panics on fewer samples than the dimensions ask for, which the
/// precondition excludes.
#[verifier::external_body]
pub(crate) fn encode_jpeg(samples: &[u8], width: u32, height: u32) -> (r: Result<
    Vec<u8>,
    image::ImageError,
>)
    requires
        width >= 1,
        height >= 1,
        samples@.len() == 3 * (width as int * height as int),
    ensures
        match r {
            Ok(bytes) => jpeg_encoding(samples@, width, height) == Some(bytes@),
            Err(_) => jpeg_encoding(samples@, width, height).is_none(),
        },
{
    let mut output: Vec<u8> = Vec::new();
    let mut encoder = image::codecs::jpeg::JpegEncoder::new(&mut output);
    match encoder.encode(samples, width, height, image::ColorType::Rgb8) {
        Ok(()) => Ok(output),
        Err(e) => Err(e),
    }
}

/// `image::codecs::gif::GifEncoder::encode` at its default speed, on 8-bit
/// RGB, writing into memory; the trailer is written when the encoder is
/// dropped. The encoder reads nothing but its arguments; the contract names
/// what it returns and claims nothing of the bytes. It panics on a sample
/// count that does not fit the dimensions, which the precondition excludes.
#[verifier::external_body]
pub(crate) fn encode_gif(samples: &[u8], width: u32, height: u32) -> (r: Result<
    Vec<u8>,
    image::ImageError,
>)
    requires
        width >= 1,
        height >= 1,
        samples@.len() == 3 * (width as int * height as int),
    ensures
        match r {
            Ok(bytes) => gif_encoding(samples@, width, height) == Some(bytes@),
            Err(_) => gif_encoding(samples@, width, height).is_none(),
        },
{
    let mut output: Vec<u8> = Vec::new();
    let mut encoder = image::codecs::gif::GifEncoder::new(&mut output);
    let done = encoder.encode(samples, width, height, image::ColorType::Rgb8);
    drop(encoder);
    match done {
        Ok(()) => Ok(output),
        Err(e) => Err(e),
    }
}

/// `image::codecs::bmp::BmpEncoder::encode` on 8-bit RGB, writing into
/// memory. The encoder reads nothing but its arguments; the contract names
/// what it returns and claims nothing of the bytes. Its size arithmetic is
/// done in 32 bits and it indexes the samples by the dimensions; the
/// precondition keeps the file size within 32 bits and the samples complete.
#[verifier::external_body]
pub(crate) fn encode_bmp(samples: &[u8], width: u32, height: u32) -> (r: Result<
    Vec<u8>,
    image::ImageError,
>)
    requires
        width >= 1,
        height >= 1,
        samples@.len() == 3 * (width as int * height as int),
        samples@.len() + 3 * height + 54 <= u32::MAX,
    ensures
        match r {
            Ok(bytes) => bmp_encoding(samples@, width, height) == Some(bytes@),
            Err(_) => bmp_encoding(samples@, width, height).is_none(),
        },
{
    let mut output: Vec<u8> = Vec::new();
    let mut encoder = image::codecs::bmp::BmpEncoder::new(&mut output);
    match encoder.encode(samples, width, height, image::ColorType::Rgb8) {
        Ok(()) => Ok(output),
        Err(e) => Err(e),
    }
}

} // verus!
