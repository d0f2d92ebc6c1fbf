//! The pipeline over all formats: encode, check, patch, check again.

use crate::bmp;
use crate::error::{agrees, SpoofError};
use crate::gif;
use crate::jpeg;
use crate::pixels::PixelBuffer;
use crate::png;
use vstd::prelude::*;

verus! {

/// Width of the image that is generated.
pub const WIDTH: u16 = 512;

/// Height of the image that is generated.
pub const HEIGHT: u16 = 512;

/// Width that the patched file declares: close to the most that sixteen bits
/// hold.
pub const NEW_WIDTH: u16 = 65_500;

/// Height that the patched file declares.
pub const NEW_HEIGHT: u16 = 65_500;

/// The formats whose headers this crate rewrites.
#[derive(Clone, Copy, Debug, PartialEq, Eq, Structural)]
pub enum ImageFormat {
    Png,
    Jpeg,
    Gif,
    Bmp,
}

/// The outcome of checking `s`, as a file of the given format, against
/// `width` and `height`.
pub open spec fn verdict(format: ImageFormat, s: Seq<u8>, width: u16, height: u16) -> Result<
    (),
    SpoofError,
> {
    match format {
        ImageFormat::Png => png::verdict(s, width as u32, height as u32),
        ImageFormat::Jpeg => jpeg::verdict(s, width, height),
        ImageFormat::Gif => gif::verdict(s, width, height),
        ImageFormat::Bmp => bmp::verdict(s, width as u32, height as u32),
    }
}

/// Whether the dimensions of `s`, as a file of the given format, can be
/// rewritten.
pub open spec fn patch_verdict(format: ImageFormat, s: Seq<u8>) -> Result<(), SpoofError> {
    match format {
        ImageFormat::Png => png::patch_verdict(s),
        ImageFormat::Jpeg => jpeg::patch_verdict(s),
        ImageFormat::Gif => gif::patch_verdict(s),
        ImageFormat::Bmp => bmp::patch_verdict(s),
    }
}

/// `s`, as a file of the given format, with `width` and `height` in every
/// field that declares a dimension.
pub open spec fn patched(format: ImageFormat, s: Seq<u8>, width: u16, height: u16) -> Seq<u8> {
    match format {
        ImageFormat::Png => png::patched(s, width as u32, height as u32),
        ImageFormat::Jpeg => jpeg::patched(s, width, height),
        ImageFormat::Gif => gif::patched(s, width, height),
        ImageFormat::Bmp => bmp::patched(s, width as u32, height as u32),
    }
}

/// What the pipeline makes of raw pixels in the given format.
pub open spec fn created(
    format: ImageFormat,
    samples: Seq<u8>,
    width: u32,
    height: u32,
    new_width: u16,
    new_height: u16,
) -> Result<Seq<u8>, SpoofError> {
    match format {
        ImageFormat::Png => png::created(
            samples,
            width,
            height,
            new_width as u32,
            new_height as u32,
        ),
        ImageFormat::Jpeg => jpeg::created(samples, width, height, new_width, new_height),
        ImageFormat::Gif => gif::created(samples, width, height, new_width, new_height),
        ImageFormat::Bmp => bmp::created(
            samples,
            width,
            height,
            new_width as u32,
            new_height as u32,
        ),
    }
}

/// In every format, a buffer that passed the check can be patched, and then
/// passes the check for the new dimensions.
pub proof fn lemma_patch_keeps_validity(
    format: ImageFormat,
    s: Seq<u8>,
    width: u16,
    height: u16,
    new_width: u16,
    new_height: u16,
)
    requires
        verdict(format, s, width, height) is Ok,
    ensures
        patch_verdict(format, s) is Ok,
        verdict(format, patched(format, s, new_width, new_height), new_width, new_height) is Ok,
{
    match format {
        ImageFormat::Png => png::lemma_patch_keeps_validity(
            s,
            width as u32,
            height as u32,
            new_width as u32,
            new_height as u32,
        ),
        ImageFormat::Jpeg => jpeg::lemma_patch_keeps_validity(
            s,
            width,
            height,
            new_width,
            new_height,
        ),
        ImageFormat::Gif => gif::lemma_patch_keeps_validity(
            s,
            width,
            height,
            new_width,
            new_height,
        ),
        ImageFormat::Bmp => bmp::lemma_patch_keeps_validity(
            s,
            width as u32,
            height as u32,
            new_width as u32,
            new_height as u32,
        ),
    }
}

/// Checks that `image`, as a file of the given format, declares `width` by
/// `height`.
pub fn verify(format: ImageFormat, image: &[u8], width: u16, height: u16) -> (r: Result<
    (),
    SpoofError,
>)
    ensures
        r == verdict(format, image@, width, height),
{
    match format {
        ImageFormat::Png => png::verify_image(image, width as u32, height as u32),
        ImageFormat::Jpeg => jpeg::verify_image(image, width, height),
        ImageFormat::Gif => gif::verify_image(image, width, height),
        ImageFormat::Bmp => bmp::verify_image(image, width as u32, height as u32),
    }
}

/// Overwrites the dimensions that `image`, as a file of the given format,
/// declares. A buffer that is rejected is left as it was.
pub fn patch(format: ImageFormat, image: &mut [u8], new_width: u16, new_height: u16) -> (r: Result<
    (),
    SpoofError,
>)
    ensures
        r == patch_verdict(format, old(image)@),
        r is Ok ==> final(image)@ == patched(format, old(image)@, new_width, new_height),
        r is Err ==> final(image)@ == old(image)@,
{
    match format {
        ImageFormat::Png => png::modify_width_and_height(
            image,
            new_width as u32,
            new_height as u32,
        ),
        ImageFormat::Jpeg => jpeg::modify_width_and_height(image, new_width, new_height),
        ImageFormat::Gif => gif::modify_width_and_height(image, new_width, new_height),
        ImageFormat::Bmp => bmp::modify_width_and_height(
            image,
            new_width as u32,
            new_height as u32,
        ),
    }
}

/// Encodes `image` in the given format and rewrites the dimensions that the
/// file declares to `new_width` by `new_height`. The bytes returned are those
/// to store.
pub fn create_image(
    format: ImageFormat,
    image: &PixelBuffer,
    new_width: u16,
    new_height: u16,
) -> (r: Result<Vec<u8>, SpoofError>)
    ensures
        agrees(
            r,
            created(
                format,
                image.samples(),
                image.spec_width(),
                image.spec_height(),
                new_width,
                new_height,
            ),
        ),
        r matches Ok(file) ==> verdict(format, file@, new_width, new_height) is Ok,
{
    match format {
        ImageFormat::Png => png::create_image(image, new_width as u32, new_height as u32),
        ImageFormat::Jpeg => jpeg::create_image(image, new_width, new_height),
        ImageFormat::Gif => gif::create_image(image, new_width, new_height),
        ImageFormat::Bmp => bmp::create_image(image, new_width as u32, new_height as u32),
    }
}

/// Name of the file in which the patched image of the given format is stored.
pub fn output_name(format: ImageFormat) -> (name: &'static str)
    ensures
        name@ == match format {
            ImageFormat::Png => "output.png"@,
            ImageFormat::Jpeg => "output.jpeg"@,
            ImageFormat::Gif => "output.gif"@,
            ImageFormat::Bmp => "output.bmp"@,
        },
{
    match format {
        ImageFormat::Png => "output.png",
        ImageFormat::Jpeg => "output.jpeg",
        ImageFormat::Gif => "output.gif",
        ImageFormat::Bmp => "output.bmp",
    }
}

} // verus!
