//! BMP: a header of fixed layout.
//!
//! ```text
//! offset  0  signature, "BM"
//!         2  size of the file, little endian
//!        18  width, little endian
//!        22  height, little endian
//! ```

use crate::codec::{
    extract_u32_le, find_mismatch, first_mismatch, le_bytes_u32, le_u32, lemma_first_mismatch,
    lemma_le_u32_written, overwrite, write_u32_le,
};
use crate::encode::{bmp_encoding, encode_bmp};
use crate::error::{agrees, Field, SpoofError};
use crate::pixels::PixelBuffer;
use vstd::prelude::*;

verus! {

/// Offset of the file size.
pub const SIZE_AT: usize = 2;

/// Offset of the declared width.
pub const WIDTH_AT: usize = 18;

/// Offset of the declared height.
pub const HEIGHT_AT: usize = 22;

/// Bytes that a buffer needs to hold the header up to the end of the height.
pub const HEADER_LENGTH: usize = 26;

/// The file size that a patch writes: the largest the field can hold.
pub const PATCHED_SIZE: u32 = 0xFFFF_FFFF;

/// Bytes of a file apart from the rows of pixels.
pub const HEADERS: u32 = 54;

/// The two bytes that open every BMP file.
pub open spec fn signature() -> Seq<u8> {
    seq![0x42u8, 0x4D]
}

/// `s` opens as a BMP file that declares `width` by `height`.
pub open spec fn declares(s: Seq<u8>, width: u32, height: u32) -> bool {
    &&& s.len() >= HEADER_LENGTH
    &&& s.subrange(0, 2) == signature()
    &&& le_u32(s, WIDTH_AT as int) == width
    &&& le_u32(s, HEIGHT_AT as int) == height
}

/// The outcome of checking `s` against `width` and `height`: the first of the
/// checks, in the order of the fields, that fails.
pub open spec fn verdict(s: Seq<u8>, width: u32, height: u32) -> Result<(), SpoofError> {
    if s.len() < 2 {
        Err(SpoofError::BoundsViolation)
    } else if let Some(i) = first_mismatch(s, 0, signature(), 0) {
        Err(
            SpoofError::StructuralMismatch {
                field: Field::Signature,
                offset: i as usize,
                expected: signature()[i] as u64,
                actual: s[i] as u64,
            },
        )
    } else if s.len() < HEADER_LENGTH {
        Err(SpoofError::BoundsViolation)
    } else if le_u32(s, WIDTH_AT as int) != width {
        Err(
            SpoofError::StructuralMismatch {
                field: Field::Width,
                offset: WIDTH_AT,
                expected: width as u64,
                actual: le_u32(s, WIDTH_AT as int) as u64,
            },
        )
    } else if le_u32(s, HEIGHT_AT as int) != height {
        Err(
            SpoofError::StructuralMismatch {
                field: Field::Height,
                offset: HEIGHT_AT,
                expected: height as u64,
                actual: le_u32(s, HEIGHT_AT as int) as u64,
            },
        )
    } else {
        Ok(())
    }
}

/// The check passes exactly on the buffers that `declares` describes.
pub proof fn lemma_verdict_ok(s: Seq<u8>, width: u32, height: u32)
    ensures
        verdict(s, width, height) is Ok <==> declares(s, width, height),
{
    if s.len() >= 2 {
        lemma_first_mismatch(s, 0, signature(), 0);
        if first_mismatch(s, 0, signature(), 0) is None {
            assert(s.subrange(0, 2) =~= signature());
        } else {
            let i = first_mismatch(s, 0, signature(), 0).unwrap();
            assert(s.subrange(0, 2)[i] == s[i]);
        }
    }
}

/// Checks that `image` opens as a BMP file that declares `width` by `height`.
pub fn verify_image(image: &[u8], width: u32, height: u32) -> (r: Result<(), SpoofError>)
    ensures
        r == verdict(image@, width, height),
{
    let magic: [u8; 2] = [0x42, 0x4D];
    assert(magic@ == signature());
    if image.len() < 2 {
        return Err(SpoofError::BoundsViolation);
    }
    if let Some(i) = find_mismatch(image, 0, &magic) {
        proof {
            lemma_first_mismatch(image@, 0, signature(), 0);
        }
        return Err(
            SpoofError::StructuralMismatch {
                field: Field::Signature,
                offset: i,
                expected: magic[i] as u64,
                actual: image[i] as u64,
            },
        );
    }
    if image.len() < HEADER_LENGTH {
        return Err(SpoofError::BoundsViolation);
    }
    let img_width = extract_u32_le(image, WIDTH_AT);
    let img_height = extract_u32_le(image, HEIGHT_AT);
    if img_width != width {
        return Err(
            SpoofError::StructuralMismatch {
                field: Field::Width,
                offset: WIDTH_AT,
                expected: width as u64,
                actual: img_width as u64,
            },
        );
    }
    if img_height != height {
        return Err(
            SpoofError::StructuralMismatch {
                field: Field::Height,
                offset: HEIGHT_AT,
                expected: height as u64,
                actual: img_height as u64,
            },
        );
    }
    Ok(())
}

/// Whether the dimensions of `s` can be rewritten: the buffer must hold the
/// header up to the end of the height.
pub open spec fn patch_verdict(s: Seq<u8>) -> Result<(), SpoofError> {
    if s.len() < HEADER_LENGTH {
        Err(SpoofError::BoundsViolation)
    } else {
        Ok(())
    }
}

/// `s` with the largest file size that the field holds, and with `width` and
/// `height` in the dimension fields.
pub open spec fn patched(s: Seq<u8>, width: u32, height: u32) -> Seq<u8> {
    overwrite(
        overwrite(
            overwrite(s, SIZE_AT as int, le_bytes_u32(PATCHED_SIZE)),
            WIDTH_AT as int,
            le_bytes_u32(width),
        ),
        HEIGHT_AT as int,
        le_bytes_u32(height),
    )
}

/// Overwrites the declared dimensions, and the file size with the largest
/// value of its field. A buffer that is rejected is left as it was.
pub fn modify_width_and_height(image: &mut [u8], new_width: u32, new_height: u32) -> (r: Result<
    (),
    SpoofError,
>)
    ensures
        r == patch_verdict(old(image)@),
        r is Ok ==> final(image)@ == patched(old(image)@, new_width, new_height),
        r is Err ==> final(image)@ == old(image)@,
{
    if image.len() < HEADER_LENGTH {
        return Err(SpoofError::BoundsViolation);
    }
    write_u32_le(image, SIZE_AT, PATCHED_SIZE);
    write_u32_le(image, WIDTH_AT, new_width);
    write_u32_le(image, HEIGHT_AT, new_height);
    Ok(())
}

/// After a patch the header declares the new dimensions and the largest file
/// size; nothing else in the buffer has changed.
pub proof fn lemma_patched_header(s: Seq<u8>, width: u32, height: u32)
    requires
        s.len() >= HEADER_LENGTH,
    ensures
        patched(s, width, height).len() == s.len(),
        le_u32(patched(s, width, height), SIZE_AT as int) == PATCHED_SIZE,
        le_u32(patched(s, width, height), WIDTH_AT as int) == width,
        le_u32(patched(s, width, height), HEIGHT_AT as int) == height,
        forall|i: int|
            0 <= i < s.len() && !(SIZE_AT <= i < 6) && !(WIDTH_AT <= i < HEADER_LENGTH)
                ==> patched(s, width, height)[i] == s[i],
{
    let with_size = overwrite(s, SIZE_AT as int, le_bytes_u32(PATCHED_SIZE));
    let with_width = overwrite(with_size, WIDTH_AT as int, le_bytes_u32(width));
    lemma_le_u32_written(s, SIZE_AT as int, PATCHED_SIZE);
    lemma_le_u32_written(with_size, WIDTH_AT as int, width);
    lemma_le_u32_written(with_width, HEIGHT_AT as int, height);
}

/// A buffer that passed the check can be patched, and then passes the check
/// for the new dimensions.
pub proof fn lemma_patch_keeps_validity(
    s: Seq<u8>,
    width: u32,
    height: u32,
    new_width: u32,
    new_height: u32,
)
    requires
        verdict(s, width, height) is Ok,
    ensures
        patch_verdict(s) is Ok,
        verdict(patched(s, new_width, new_height), new_width, new_height) is Ok,
{
    let done = patched(s, new_width, new_height);
    lemma_verdict_ok(s, width, height);
    lemma_verdict_ok(done, new_width, new_height);
    lemma_patched_header(s, new_width, new_height);
    assert(done.subrange(0, 2) =~= s.subrange(0, 2));
}

/// What the pipeline makes of the encoded file `s`: the patched file if `s`
/// passes the check for `width` by `height`, and else the error of that check.
pub open spec fn spoofed(s: Seq<u8>, width: u32, height: u32, new_width: u32, new_height: u32)
    -> Result<Seq<u8>, SpoofError> {
    match verdict(s, width, height) {
        Ok(()) => Ok(patched(s, new_width, new_height)),
        Err(e) => Err(e),
    }
}

/// The BMP file made of raw pixels: none for a grid whose file would not fit
/// the 32-bit size field, and else what the encoder returns.
pub open spec fn encoded(samples: Seq<u8>, width: u32, height: u32) -> Option<Seq<u8>> {
    if samples.len() + 3 * height + HEADERS > u32::MAX {
        None
    } else {
        bmp_encoding(samples, width, height)
    }
}

/// What the pipeline makes of raw pixels: `EncodingFailed` where no file is
/// made of them, and else what it makes of the encoded file.
pub open spec fn created(
    samples: Seq<u8>,
    width: u32,
    height: u32,
    new_width: u32,
    new_height: u32,
) -> Result<Seq<u8>, SpoofError> {
    match encoded(samples, width, height) {
        Some(bytes) => spoofed(bytes, width, height, new_width, new_height),
        None => Err(SpoofError::EncodingFailed),
    }
}

/// Encodes `image` as a BMP file.
pub fn create_png(image: &PixelBuffer) -> (r: Result<Vec<u8>, SpoofError>)
    ensures
        agrees(
            r,
            match encoded(image.samples(), image.spec_width(), image.spec_height()) {
                Some(bytes) => Ok(bytes),
                None => Err(SpoofError::EncodingFailed),
            },
        ),
{
    let samples = image.as_bytes();
    let count: usize = samples.len();
    if count > 0xFFFF_FFFF {
        return Err(SpoofError::EncodingFailed);
    }
    if count as u64 + 3 * (image.height() as u64) + HEADERS as u64 > 0xFFFF_FFFF {
        return Err(SpoofError::EncodingFailed);
    }
    match encode_bmp(samples, image.width(), image.height()) {
        Ok(bytes) => Ok(bytes),
        Err(_) => Err(SpoofError::EncodingFailed),
    }
}

/// Runs an encoded file through the pipeline: checks that it declares
/// `width` by `height`, patches it to `new_width` by `new_height`, and checks
/// the patched file again. The second check cannot fail: a file that is
/// returned declares the new dimensions.
pub fn spoof_dimensions(
    encoded: Vec<u8>,
    width: u32,
    height: u32,
    new_width: u32,
    new_height: u32,
) -> (r: Result<Vec<u8>, SpoofError>)
    ensures
        agrees(r, spoofed(encoded@, width, height, new_width, new_height)),
        r matches Ok(file) ==> verdict(file@, new_width, new_height) is Ok,
{
    let mut image = encoded;
    if let Err(e) = verify_image(image.as_slice(), width, height) {
        return Err(e);
    }
    proof {
        lemma_patch_keeps_validity(image@, width, height, new_width, new_height);
    }
    if let Err(e) = modify_width_and_height(image.as_mut_slice(), new_width, new_height) {
        return Err(e);
    }
    if let Err(e) = verify_image(image.as_slice(), new_width, new_height) {
        return Err(e);
    }
    Ok(image)
}

/// Encodes `image` and rewrites the dimensions that the file declares to
/// `new_width` by `new_height`.
pub fn create_image(image: &PixelBuffer, new_width: u32, new_height: u32) -> (r: Result<
    Vec<u8>,
    SpoofError,
>)
    ensures
        agrees(
            r,
            created(
                image.samples(),
                image.spec_width(),
                image.spec_height(),
                new_width,
                new_height,
            ),
        ),
        r matches Ok(file) ==> verdict(file@, new_width, new_height) is Ok,
{
    match create_png(image) {
        Ok(encoded) => spoof_dimensions(
            encoded,
            image.width(),
            image.height(),
            new_width,
            new_height,
        ),
        Err(e) => Err(e),
    }
}

} // verus!
