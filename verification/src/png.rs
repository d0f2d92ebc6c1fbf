//! PNG: the signature, the IHDR chunk that follows it, and its checksum.
//!
//! ```text
//! offset  0  signature, 8 bytes
//!         8  length of the first chunk's data, big endian: 13
//!        12  type of the first chunk: "IHDR"
//!        16  width, big endian
//!        20  height, big endian
//!        24  five more bytes of IHDR data
//!        29  CRC-32 of the bytes 12..29, big endian
//! ```

use crate::checksum::{compute_checksum, crc32_ieee};
use crate::codec::{
    be_bytes_u32, be_u32, extract_u32, find_mismatch, first_mismatch, lemma_be_u32_written,
    lemma_first_mismatch, overwrite, write_u32,
};
use crate::encode::{encode_png, png_encoding};
use crate::error::{agrees, Field, SpoofError};
use crate::pixels::PixelBuffer;
use vstd::prelude::*;

verus! {

/// Length of the data of an IHDR chunk.
pub const IHDR_LENGTH: u32 = 13;

/// The chunk type "IHDR" as a big-endian number.
pub const IHDR: u32 = 0x4948_4452;

/// Offset of the chunk length.
pub const LENGTH_AT: usize = 8;

/// Offset of the chunk type, where the checksummed region begins.
pub const TYPE_AT: usize = 12;

/// Offset of the declared width.
pub const WIDTH_AT: usize = 16;

/// Offset of the declared height.
pub const HEIGHT_AT: usize = 20;

/// Offset of the stored checksum, where the checksummed region ends.
pub const CRC_AT: usize = 29;

/// Bytes that a buffer needs to hold the signature and the whole IHDR chunk.
pub const HEADER_LENGTH: usize = 33;

/// The eight bytes that open every PNG file.
pub open spec fn signature() -> Seq<u8> {
    seq![137u8, 80, 78, 71, 13, 10, 26, 10]
}

/// The checksum that belongs in the CRC field of `s`: that of chunk type and
/// chunk data as they stand.
pub open spec fn header_checksum(s: Seq<u8>) -> u32 {
    crc32_ieee(s.subrange(TYPE_AT as int, CRC_AT as int))
}

/// `s` opens as a PNG file whose IHDR chunk declares `width` by `height` and
/// carries the checksum of its present contents.
pub open spec fn declares(s: Seq<u8>, width: u32, height: u32) -> bool {
    &&& s.len() >= HEADER_LENGTH
    &&& s.subrange(0, 8) == signature()
    &&& be_u32(s, LENGTH_AT as int) == IHDR_LENGTH
    &&& be_u32(s, TYPE_AT as int) == IHDR
    &&& be_u32(s, WIDTH_AT as int) == width
    &&& be_u32(s, HEIGHT_AT as int) == height
    &&& be_u32(s, CRC_AT as int) == header_checksum(s)
}

/// The outcome of checking `s` against `width` and `height`: the first of the
/// checks, in the order of the fields, that fails.
pub open spec fn verdict(s: Seq<u8>, width: u32, height: u32) -> Result<(), SpoofError> {
    if s.len() < 8 {
        Err(SpoofError::BoundsViolation)
    } else if let Some(i) = first_mismatch(s, 0, signature(), 0) {
        Err(
            SpoofError::StructuralMismatch {
                field: Field::Signature,
                offset: i as usize,
                expected: signature()[i] as u64,
                actual: s[i] as u64,
            },
        )
    } else if s.len() < 24 {
        Err(SpoofError::BoundsViolation)
    } else if be_u32(s, LENGTH_AT as int) != IHDR_LENGTH {
        Err(
            SpoofError::StructuralMismatch {
                field: Field::ChunkLength,
                offset: LENGTH_AT,
                expected: IHDR_LENGTH as u64,
                actual: be_u32(s, LENGTH_AT as int) as u64,
            },
        )
    } else if be_u32(s, TYPE_AT as int) != IHDR {
        Err(
            SpoofError::StructuralMismatch {
                field: Field::ChunkType,
                offset: TYPE_AT,
                expected: IHDR as u64,
                actual: be_u32(s, TYPE_AT as int) as u64,
            },
        )
    } else if be_u32(s, WIDTH_AT as int) != width {
        Err(
            SpoofError::StructuralMismatch {
                field: Field::Width,
                offset: WIDTH_AT,
                expected: width as u64,
                actual: be_u32(s, WIDTH_AT as int) as u64,
            },
        )
    } else if be_u32(s, HEIGHT_AT as int) != height {
        Err(
            SpoofError::StructuralMismatch {
                field: Field::Height,
                offset: HEIGHT_AT,
                expected: height as u64,
                actual: be_u32(s, HEIGHT_AT as int) as u64,
            },
        )
    } else if s.len() < HEADER_LENGTH {
        Err(SpoofError::BoundsViolation)
    } else if be_u32(s, CRC_AT as int) != header_checksum(s) {
        Err(
            SpoofError::StructuralMismatch {
                field: Field::Checksum,
                offset: CRC_AT,
                expected: header_checksum(s) as u64,
                actual: be_u32(s, CRC_AT as int) as u64,
            },
        )
    } else {
        Ok(())
    }
}

/// The check passes exactly on the buffers that `declares` describes.
pub proof fn lemma_verdict_ok(s: Seq<u8>, width: u32, height: u32)
    ensures
        verdict(s, width, height) is Ok <==> declares(s, width, height),
{
    if s.len() >= 8 {
        lemma_first_mismatch(s, 0, signature(), 0);
        if first_mismatch(s, 0, signature(), 0) is None {
            assert(s.subrange(0, 8) =~= signature());
        } else {
            let i = first_mismatch(s, 0, signature(), 0).unwrap();
            assert(s.subrange(0, 8)[i] == s[i]);
        }
    }
}

/// Checks that `image` opens as a PNG file that declares `width` by `height`
/// and that the checksum of its IHDR chunk is right.
pub fn verify_image(image: &[u8], width: u32, height: u32) -> (r: Result<(), SpoofError>)
    ensures
        r == verdict(image@, width, height),
{
    let magic: [u8; 8] = [137, 80, 78, 71, 13, 10, 26, 10];
    assert(magic@ == signature());
    if image.len() < 8 {
        return Err(SpoofError::BoundsViolation);
    }
    if let Some(i) = find_mismatch(image, 0, &magic) {
        proof {
            lemma_first_mismatch(image@, 0, signature(), 0);
        }
        return Err(
            SpoofError::StructuralMismatch {
                field: Field::Signature,
                offset: i,
                expected: magic[i] as u64,
                actual: image[i] as u64,
            },
        );
    }
    if image.len() < 24 {
        return Err(SpoofError::BoundsViolation);
    }
    let chunk_length = extract_u32(image, LENGTH_AT);
    let chunk_type = extract_u32(image, TYPE_AT);
    let img_width = extract_u32(image, WIDTH_AT);
    let img_height = extract_u32(image, HEIGHT_AT);
    if chunk_length != IHDR_LENGTH {
        return Err(
            SpoofError::StructuralMismatch {
                field: Field::ChunkLength,
                offset: LENGTH_AT,
                expected: IHDR_LENGTH as u64,
                actual: chunk_length as u64,
            },
        );
    }
    if chunk_type != IHDR {
        return Err(
            SpoofError::StructuralMismatch {
                field: Field::ChunkType,
                offset: TYPE_AT,
                expected: IHDR as u64,
                actual: chunk_type as u64,
            },
        );
    }
    if img_width != width {
        return Err(
            SpoofError::StructuralMismatch {
                field: Field::Width,
                offset: WIDTH_AT,
                expected: width as u64,
                actual: img_width as u64,
            },
        );
    }
    if img_height != height {
        return Err(
            SpoofError::StructuralMismatch {
                field: Field::Height,
                offset: HEIGHT_AT,
                expected: height as u64,
                actual: img_height as u64,
            },
        );
    }
    if image.len() < HEADER_LENGTH {
        return Err(SpoofError::BoundsViolation);
    }
    let data_crc = compute_checksum(image, TYPE_AT, chunk_length as usize + 4);
    let crc = extract_u32(image, CRC_AT);
    if data_crc != crc {
        return Err(
            SpoofError::StructuralMismatch {
                field: Field::Checksum,
                offset: CRC_AT,
                expected: data_crc as u64,
                actual: crc as u64,
            },
        );
    }
    Ok(())
}

/// Whether the dimensions of `s` can be rewritten: the buffer must hold the
/// whole IHDR chunk, and the chunk must have the length that puts the checksum
/// at its fixed offset.
pub open spec fn patch_verdict(s: Seq<u8>) -> Result<(), SpoofError> {
    if s.len() < HEADER_LENGTH {
        Err(SpoofError::BoundsViolation)
    } else if be_u32(s, LENGTH_AT as int) != IHDR_LENGTH {
        Err(
            SpoofError::StructuralMismatch {
                field: Field::ChunkLength,
                offset: LENGTH_AT,
                expected: IHDR_LENGTH as u64,
                actual: be_u32(s, LENGTH_AT as int) as u64,
            },
        )
    } else {
        Ok(())
    }
}

/// `s` with `width` and `height` in the dimension fields, checksum not yet
/// repaired.
pub open spec fn redimensioned(s: Seq<u8>, width: u32, height: u32) -> Seq<u8> {
    overwrite(
        overwrite(s, WIDTH_AT as int, be_bytes_u32(width)),
        HEIGHT_AT as int,
        be_bytes_u32(height),
    )
}

/// `s` with `width` and `height` in the dimension fields and, in the CRC
/// field, the checksum of the chunk as it then stands.
pub open spec fn patched(s: Seq<u8>, width: u32, height: u32) -> Seq<u8> {
    let body = redimensioned(s, width, height);
    overwrite(body, CRC_AT as int, be_bytes_u32(header_checksum(body)))
}

/// Overwrites the declared dimensions and recomputes the checksum of the IHDR
/// chunk. A buffer that is rejected is left as it was.
pub fn modify_width_and_height(image: &mut [u8], new_width: u32, new_height: u32) -> (r: Result<
    (),
    SpoofError,
>)
    ensures
        r == patch_verdict(old(image)@),
        r is Ok ==> final(image)@ == patched(old(image)@, new_width, new_height),
        r is Err ==> final(image)@ == old(image)@,
{
    if image.len() < HEADER_LENGTH {
        return Err(SpoofError::BoundsViolation);
    }
    let chunk_length = extract_u32(image, LENGTH_AT);
    if chunk_length != IHDR_LENGTH {
        return Err(
            SpoofError::StructuralMismatch {
                field: Field::ChunkLength,
                offset: LENGTH_AT,
                expected: IHDR_LENGTH as u64,
                actual: chunk_length as u64,
            },
        );
    }
    write_u32(image, WIDTH_AT, new_width);
    write_u32(image, HEIGHT_AT, new_height);
    let data_crc = compute_checksum(image, TYPE_AT, chunk_length as usize + 4);
    write_u32(image, CRC_AT, data_crc);
    Ok(())
}

/// What the pipeline makes of the encoded file `s`: the patched file if `s`
/// passes the check for `width` by `height`, and else the error of that check.
pub open spec fn spoofed(s: Seq<u8>, width: u32, height: u32, new_width: u32, new_height: u32)
    -> Result<Seq<u8>, SpoofError> {
    match verdict(s, width, height) {
        Ok(()) => Ok(patched(s, new_width, new_height)),
        Err(e) => Err(e),
    }
}

/// What the pipeline makes of raw pixels: `EncodingFailed` where the encoder
/// refuses them, and else what it makes of the encoded file.
pub open spec fn created(
    samples: Seq<u8>,
    width: u32,
    height: u32,
    new_width: u32,
    new_height: u32,
) -> Result<Seq<u8>, SpoofError> {
    match png_encoding(samples, width, height) {
        Some(bytes) => spoofed(bytes, width, height, new_width, new_height),
        None => Err(SpoofError::EncodingFailed),
    }
}

/// Encodes `image` as a PNG file.
pub fn create_png(image: &PixelBuffer) -> (r: Result<Vec<u8>, SpoofError>)
    ensures
        agrees(
            r,
            match png_encoding(image.samples(), image.spec_width(), image.spec_height()) {
                Some(bytes) => Ok(bytes),
                None => Err(SpoofError::EncodingFailed),
            },
        ),
{
    match encode_png(image.as_bytes(), image.width(), image.height()) {
        Ok(bytes) => Ok(bytes),
        Err(_) => Err(SpoofError::EncodingFailed),
    }
}

/// Runs an encoded file through the pipeline: checks that it declares
/// `width` by `height`, patches it to `new_width` by `new_height`, and checks
/// the patched file again. The second check cannot fail: a file that is
/// returned declares the new dimensions.
pub fn spoof_dimensions(
    encoded: Vec<u8>,
    width: u32,
    height: u32,
    new_width: u32,
    new_height: u32,
) -> (r: Result<Vec<u8>, SpoofError>)
    ensures
        agrees(r, spoofed(encoded@, width, height, new_width, new_height)),
        r matches Ok(file) ==> verdict(file@, new_width, new_height) is Ok,
{
    let mut image = encoded;
    if let Err(e) = verify_image(image.as_slice(), width, height) {
        return Err(e);
    }
    proof {
        lemma_patch_keeps_validity(image@, width, height, new_width, new_height);
    }
    if let Err(e) = modify_width_and_height(image.as_mut_slice(), new_width, new_height) {
        return Err(e);
    }
    if let Err(e) = verify_image(image.as_slice(), new_width, new_height) {
        return Err(e);
    }
    Ok(image)
}

/// Encodes `image` and rewrites the dimensions that the file declares to
/// `new_width` by `new_height`.
pub fn create_image(image: &PixelBuffer, new_width: u32, new_height: u32) -> (r: Result<
    Vec<u8>,
    SpoofError,
>)
    ensures
        agrees(
            r,
            created(
                image.samples(),
                image.spec_width(),
                image.spec_height(),
                new_width,
                new_height,
            ),
        ),
        r matches Ok(file) ==> verdict(file@, new_width, new_height) is Ok,
{
    match create_png(image) {
        Ok(encoded) => spoof_dimensions(
            encoded,
            image.width(),
            image.height(),
            new_width,
            new_height,
        ),
        Err(e) => Err(e),
    }
}

/// After a patch the header declares the new dimensions and carries the
/// checksum of the chunk as patched; nothing else in the buffer has changed.
pub proof fn lemma_patched_header(s: Seq<u8>, width: u32, height: u32)
    requires
        s.len() >= HEADER_LENGTH,
    ensures
        patched(s, width, height).len() == s.len(),
        be_u32(patched(s, width, height), WIDTH_AT as int) == width,
        be_u32(patched(s, width, height), HEIGHT_AT as int) == height,
        be_u32(patched(s, width, height), CRC_AT as int) == header_checksum(
            patched(s, width, height),
        ),
        forall|i: int|
            0 <= i < s.len() && !(WIDTH_AT <= i < 24) && !(CRC_AT <= i < HEADER_LENGTH)
                ==> patched(s, width, height)[i] == s[i],
{
    let with_width = overwrite(s, WIDTH_AT as int, be_bytes_u32(width));
    let body = redimensioned(s, width, height);
    let sum = header_checksum(body);
    let done = patched(s, width, height);
    lemma_be_u32_written(s, WIDTH_AT as int, width);
    lemma_be_u32_written(with_width, HEIGHT_AT as int, height);
    lemma_be_u32_written(body, CRC_AT as int, sum);
    assert(done.subrange(TYPE_AT as int, CRC_AT as int) =~= body.subrange(
        TYPE_AT as int,
        CRC_AT as int,
    ));
}

/// A buffer that passed the check can be patched, and then passes the check
/// for the new dimensions.
pub proof fn lemma_patch_keeps_validity(
    s: Seq<u8>,
    width: u32,
    height: u32,
    new_width: u32,
    new_height: u32,
)
    requires
        verdict(s, width, height) is Ok,
    ensures
        patch_verdict(s) is Ok,
        verdict(patched(s, new_width, new_height), new_width, new_height) is Ok,
{
    let done = patched(s, new_width, new_height);
    lemma_verdict_ok(s, width, height);
    lemma_verdict_ok(done, new_width, new_height);
    lemma_patched_header(s, new_width, new_height);
    assert(done.subrange(0, 8) =~= s.subrange(0, 8));
}

} // verus!
