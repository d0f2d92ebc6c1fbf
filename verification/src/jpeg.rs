//! JPEG: the start-of-image marker and the baseline frame header.
//!
//! After the two bytes of the start-of-image marker a file is a chain of
//! segments. Each opens with a two-byte marker and a big-endian length that
//! counts itself and the data, not the marker. The baseline frame header has
//! the marker `FF C0`:
//!
//! ```text
//! offset  0  marker, FF C0
//!         2  segment length
//!         4  sample precision
//!         5  height, big endian
//!         7  width, big endian
//! ```

use crate::codec::{
    be_bytes_u16, be_u16, bytes_left, extract_u16, find_mismatch, first_mismatch, lemma_be_u16_written,
    lemma_first_mismatch, overwrite, write_u16,
};
use crate::encode::{encode_jpeg, jpeg_encoding};
use crate::error::{agrees, Field, SpoofError};
use crate::pixels::PixelBuffer;
use vstd::prelude::*;

verus! {

/// Offset at which the chain of segments begins.
pub const FIRST_SEGMENT: usize = 2;

/// Offset of the height inside the frame header.
pub const HEIGHT_IN_FRAME: usize = 5;

/// Offset of the width inside the frame header.
pub const WIDTH_IN_FRAME: usize = 7;

/// Bytes of the frame header up to the end of the width.
pub const FRAME_PREFIX: usize = 9;

/// The start-of-image marker.
pub open spec fn signature() -> Seq<u8> {
    seq![0xFFu8, 0xD8]
}

/// Where the walk over the segments, begun at `pos`, meets the marker of a
/// baseline frame header. The walk takes `pos` for the start of a segment,
/// stops there if the marker is `FF C0`, and else steps over marker and
/// segment; it gives up when fewer than four bytes are left at `pos`.
pub open spec fn sof0_from(s: Seq<u8>, pos: int) -> Option<int>
    decreases bytes_left(s, pos),
{
    if pos < 0 || pos + 4 > s.len() {
        None
    } else if s[pos] == 0xFF && s[pos + 1] == 0xC0 {
        Some(pos)
    } else {
        sof0_from(s, pos + 2 + be_u16(s, pos + 2))
    }
}

/// The frame header that the walk finds lies at or after its start, shows the
/// marker, and has marker and length inside the buffer.
pub proof fn lemma_sof0_found(s: Seq<u8>, pos: int)
    ensures
        sof0_from(s, pos) matches Some(p) ==> {
            &&& 0 <= pos <= p
            &&& p + 4 <= s.len()
            &&& s[p] == 0xFF
            &&& s[p + 1] == 0xC0
        },
    decreases bytes_left(s, pos),
{
    if 0 <= pos && pos + 4 <= s.len() && !(s[pos] == 0xFF && s[pos + 1] == 0xC0) {
        lemma_sof0_found(s, pos + 2 + be_u16(s, pos + 2));
    }
}

/// The walk reads nothing behind marker and length of the header it finds: a
/// buffer of the same length that agrees with `s` up to there yields the same
/// header.
pub proof fn lemma_sof0_reads_prefix(s: Seq<u8>, t: Seq<u8>, pos: int)
    requires
        s.len() == t.len(),
        sof0_from(s, pos) matches Some(p) && forall|i: int| 0 <= i < p + 4 ==> s[i] == t[i],
    ensures
        sof0_from(t, pos) == sof0_from(s, pos),
    decreases bytes_left(s, pos),
{
    lemma_sof0_found(s, pos);
    if !(s[pos] == 0xFF && s[pos + 1] == 0xC0) {
        let next = pos + 2 + be_u16(s, pos + 2);
        lemma_sof0_found(s, next);
        lemma_sof0_reads_prefix(s, t, next);
    }
}

/// Finds the baseline frame header: the offset of its marker.
pub fn find_sof0(image: &[u8]) -> (r: Result<usize, SpoofError>)
    ensures
        match r {
            Ok(p) => sof0_from(image@, FIRST_SEGMENT as int) == Some(p as int),
            Err(e) => e == SpoofError::ScanExhausted && sof0_from(image@, FIRST_SEGMENT as int)
                is None,
        },
{
    let length: usize = image.len();
    let mut pos: usize = FIRST_SEGMENT;
    loop
        invariant
            length == image@.len(),
            sof0_from(image@, FIRST_SEGMENT as int) == sof0_from(image@, pos as int),
        decreases length - pos,
    {
        if length < 4 || pos > length - 4 {
            return Err(SpoofError::ScanExhausted);
        }
        if image[pos] == 0xFF && image[pos + 1] == 0xC0 {
            return Ok(pos);
        }
        let step: usize = extract_u16(image, pos + 2) as usize + 2;
        if step > length - 4 - pos {
            assert(sof0_from(image@, pos + step) is None);
            return Err(SpoofError::ScanExhausted);
        }
        pos = pos + step;
    }
}

/// `s` opens as a JPEG file whose baseline frame header declares `width` by
/// `height`.
pub open spec fn declares(s: Seq<u8>, width: u16, height: u16) -> bool {
    &&& s.len() >= 2
    &&& s.subrange(0, 2) == signature()
    &&& sof0_from(s, FIRST_SEGMENT as int) matches Some(p) && {
        &&& p + FRAME_PREFIX <= s.len()
        &&& be_u16(s, p + WIDTH_IN_FRAME) == width
        &&& be_u16(s, p + HEIGHT_IN_FRAME) == height
    }
}

/// The outcome of checking `s` against `width` and `height`: the first check
/// that fails, signature before frame header, width before height.
pub open spec fn verdict(s: Seq<u8>, width: u16, height: u16) -> Result<(), SpoofError> {
    if s.len() < 2 {
        Err(SpoofError::BoundsViolation)
    } else if let Some(i) = first_mismatch(s, 0, signature(), 0) {
        Err(
            SpoofError::StructuralMismatch {
                field: Field::Signature,
                offset: i as usize,
                expected: signature()[i] as u64,
                actual: s[i] as u64,
            },
        )
    } else if let Some(p) = sof0_from(s, FIRST_SEGMENT as int) {
        if p + FRAME_PREFIX > s.len() {
            Err(SpoofError::BoundsViolation)
        } else if be_u16(s, p + WIDTH_IN_FRAME) != width {
            Err(
                SpoofError::StructuralMismatch {
                    field: Field::Width,
                    offset: (p + WIDTH_IN_FRAME) as usize,
                    expected: width as u64,
                    actual: be_u16(s, p + WIDTH_IN_FRAME) as u64,
                },
            )
        } else if be_u16(s, p + HEIGHT_IN_FRAME) != height {
            Err(
                SpoofError::StructuralMismatch {
                    field: Field::Height,
                    offset: (p + HEIGHT_IN_FRAME) as usize,
                    expected: height as u64,
                    actual: be_u16(s, p + HEIGHT_IN_FRAME) as u64,
                },
            )
        } else {
            Ok(())
        }
    } else {
        Err(SpoofError::ScanExhausted)
    }
}

/// The check passes exactly on the buffers that `declares` describes.
pub proof fn lemma_verdict_ok(s: Seq<u8>, width: u16, height: u16)
    ensures
        verdict(s, width, height) is Ok <==> declares(s, width, height),
{
    if s.len() >= 2 {
        lemma_first_mismatch(s, 0, signature(), 0);
        if first_mismatch(s, 0, signature(), 0) is None {
            assert(s.subrange(0, 2) =~= signature());
        } else {
            let i = first_mismatch(s, 0, signature(), 0).unwrap();
            assert(s.subrange(0, 2)[i] == s[i]);
        }
    }
}

/// Checks that `image` opens as a JPEG file whose baseline frame header
/// declares `width` by `height`.
pub fn verify_image(image: &[u8], width: u16, height: u16) -> (r: Result<(), SpoofError>)
    ensures
        r == verdict(image@, width, height),
{
    let magic: [u8; 2] = [0xFF, 0xD8];
    assert(magic@ == signature());
    let length: usize = image.len();
    if length < 2 {
        return Err(SpoofError::BoundsViolation);
    }
    if let Some(i) = find_mismatch(image, 0, &magic) {
        proof {
            lemma_first_mismatch(image@, 0, signature(), 0);
        }
        return Err(
            SpoofError::StructuralMismatch {
                field: Field::Signature,
                offset: i,
                expected: magic[i] as u64,
                actual: image[i] as u64,
            },
        );
    }
    let pos: usize = match find_sof0(image) {
        Ok(pos) => pos,
        Err(e) => {
            return Err(e);
        },
    };
    proof {
        lemma_sof0_found(image@, FIRST_SEGMENT as int);
    }
    if length - pos < FRAME_PREFIX {
        return Err(SpoofError::BoundsViolation);
    }
    let img_width = extract_u16(image, pos + WIDTH_IN_FRAME);
    let img_height = extract_u16(image, pos + HEIGHT_IN_FRAME);
    if img_width != width {
        return Err(
            SpoofError::StructuralMismatch {
                field: Field::Width,
                offset: pos + WIDTH_IN_FRAME,
                expected: width as u64,
                actual: img_width as u64,
            },
        );
    }
    if img_height != height {
        return Err(
            SpoofError::StructuralMismatch {
                field: Field::Height,
                offset: pos + HEIGHT_IN_FRAME,
                expected: height as u64,
                actual: img_height as u64,
            },
        );
    }
    Ok(())
}

/// Whether the dimensions of `s` can be rewritten: the walk must find the
/// frame header, and the buffer must hold it up to the end of the width.
pub open spec fn patch_verdict(s: Seq<u8>) -> Result<(), SpoofError> {
    match sof0_from(s, FIRST_SEGMENT as int) {
        Some(p) => if p + FRAME_PREFIX > s.len() {
            Err(SpoofError::BoundsViolation)
        } else {
            Ok(())
        },
        None => Err(SpoofError::ScanExhausted),
    }
}

/// `s` with `width` and `height` in the frame header that the walk finds.
pub open spec fn patched(s: Seq<u8>, width: u16, height: u16) -> Seq<u8> {
    let p = sof0_from(s, FIRST_SEGMENT as int).unwrap();
    overwrite(
        overwrite(s, p + HEIGHT_IN_FRAME, be_bytes_u16(height)),
        p + WIDTH_IN_FRAME,
        be_bytes_u16(width),
    )
}

/// Overwrites the dimensions in the baseline frame header. A buffer that is
/// rejected is left as it was.
pub fn modify_width_and_height(image: &mut [u8], new_width: u16, new_height: u16) -> (r: Result<
    (),
    SpoofError,
>)
    ensures
        r == patch_verdict(old(image)@),
        r is Ok ==> final(image)@ == patched(old(image)@, new_width, new_height),
        r is Err ==> final(image)@ == old(image)@,
{
    let length: usize = image.len();
    let pos: usize = match find_sof0(image) {
        Ok(pos) => pos,
        Err(e) => {
            return Err(e);
        },
    };
    proof {
        lemma_sof0_found(image@, FIRST_SEGMENT as int);
    }
    if length - pos < FRAME_PREFIX {
        return Err(SpoofError::BoundsViolation);
    }
    write_u16(image, pos + HEIGHT_IN_FRAME, new_height);
    write_u16(image, pos + WIDTH_IN_FRAME, new_width);
    Ok(())
}

/// After a patch the walk finds the frame header where it was, the header
/// declares the new dimensions, and nothing else in the buffer has changed.
pub proof fn lemma_patched_header(s: Seq<u8>, width: u16, height: u16)
    requires
        patch_verdict(s) is Ok,
    ensures
        patched(s, width, height).len() == s.len(),
        sof0_from(patched(s, width, height), FIRST_SEGMENT as int) == sof0_from(
            s,
            FIRST_SEGMENT as int,
        ),
        sof0_from(s, FIRST_SEGMENT as int) matches Some(p) && {
            &&& be_u16(patched(s, width, height), p + WIDTH_IN_FRAME) == width
            &&& be_u16(patched(s, width, height), p + HEIGHT_IN_FRAME) == height
            &&& forall|i: int|
                0 <= i < s.len() && !(p + HEIGHT_IN_FRAME <= i < p + FRAME_PREFIX) ==> patched(
                    s,
                    width,
                    height,
                )[i] == s[i]
        },
{
    let p = sof0_from(s, FIRST_SEGMENT as int).unwrap();
    let with_height = overwrite(s, p + HEIGHT_IN_FRAME, be_bytes_u16(height));
    lemma_sof0_found(s, FIRST_SEGMENT as int);
    lemma_be_u16_written(s, p + HEIGHT_IN_FRAME, height);
    lemma_be_u16_written(with_height, p + WIDTH_IN_FRAME, width);
    lemma_sof0_reads_prefix(s, patched(s, width, height), FIRST_SEGMENT as int);
}

/// A buffer that passed the check can be patched, and then passes the check
/// for the new dimensions.
pub proof fn lemma_patch_keeps_validity(
    s: Seq<u8>,
    width: u16,
    height: u16,
    new_width: u16,
    new_height: u16,
)
    requires
        verdict(s, width, height) is Ok,
    ensures
        patch_verdict(s) is Ok,
        verdict(patched(s, new_width, new_height), new_width, new_height) is Ok,
{
    let done = patched(s, new_width, new_height);
    lemma_verdict_ok(s, width, height);
    lemma_verdict_ok(done, new_width, new_height);
    lemma_sof0_found(s, FIRST_SEGMENT as int);
    lemma_patched_header(s, new_width, new_height);
    assert(done.subrange(0, 2) =~= s.subrange(0, 2));
}

/// What the pipeline makes of the encoded file `s`: the patched file if `s`
/// passes the check for `width` by `height`, and else the error of that check.
pub open spec fn spoofed(s: Seq<u8>, width: u16, height: u16, new_width: u16, new_height: u16)
    -> Result<Seq<u8>, SpoofError> {
    match verdict(s, width, height) {
        Ok(()) => Ok(patched(s, new_width, new_height)),
        Err(e) => Err(e),
    }
}

/// The JPEG file made of raw pixels: none for a grid with a side that does
/// not fit the format's 16-bit fields, and else what the encoder returns.
pub open spec fn encoded(samples: Seq<u8>, width: u32, height: u32) -> Option<Seq<u8>> {
    if width > u16::MAX || height > u16::MAX {
        None
    } else {
        jpeg_encoding(samples, width, height)
    }
}

/// What the pipeline makes of raw pixels: `EncodingFailed` where no file is
/// made of them, and else what it makes of the encoded file.
pub open spec fn created(
    samples: Seq<u8>,
    width: u32,
    height: u32,
    new_width: u16,
    new_height: u16,
) -> Result<Seq<u8>, SpoofError> {
    match encoded(samples, width, height) {
        Some(bytes) => spoofed(bytes, width as u16, height as u16, new_width, new_height),
        None => Err(SpoofError::EncodingFailed),
    }
}

/// Encodes `image` as a JPEG file.
pub fn create_jpeg(image: &PixelBuffer) -> (r: Result<Vec<u8>, SpoofError>)
    ensures
        agrees(
            r,
            match encoded(image.samples(), image.spec_width(), image.spec_height()) {
                Some(bytes) => Ok(bytes),
                None => Err(SpoofError::EncodingFailed),
            },
        ),
{
    if image.width() > 0xFFFF || image.height() > 0xFFFF {
        return Err(SpoofError::EncodingFailed);
    }
    match encode_jpeg(image.as_bytes(), image.width(), image.height()) {
        Ok(bytes) => Ok(bytes),
        Err(_) => Err(SpoofError::EncodingFailed),
    }
}

/// Runs an encoded file through the pipeline: checks that it declares
/// `width` by `height`, patches it to `new_width` by `new_height`, and checks
/// the patched file again. The second check cannot fail: a file that is
/// returned declares the new dimensions.
pub fn spoof_dimensions(
    encoded: Vec<u8>,
    width: u16,
    height: u16,
    new_width: u16,
    new_height: u16,
) -> (r: Result<Vec<u8>, SpoofError>)
    ensures
        agrees(r, spoofed(encoded@, width, height, new_width, new_height)),
        r matches Ok(file) ==> verdict(file@, new_width, new_height) is Ok,
{
    let mut image = encoded;
    if let Err(e) = verify_image(image.as_slice(), width, height) {
        return Err(e);
    }
    proof {
        lemma_patch_keeps_validity(image@, width, height, new_width, new_height);
    }
    if let Err(e) = modify_width_and_height(image.as_mut_slice(), new_width, new_height) {
        return Err(e);
    }
    if let Err(e) = verify_image(image.as_slice(), new_width, new_height) {
        return Err(e);
    }
    Ok(image)
}

/// Encodes `image` and rewrites the dimensions that the file declares to
/// `new_width` by `new_height`.
pub fn create_image(image: &PixelBuffer, new_width: u16, new_height: u16) -> (r: Result<
    Vec<u8>,
    SpoofError,
>)
    ensures
        agrees(
            r,
            created(
                image.samples(),
                image.spec_width(),
                image.spec_height(),
                new_width,
                new_height,
            ),
        ),
        r matches Ok(file) ==> verdict(file@, new_width, new_height) is Ok,
{
    match create_jpeg(image) {
        Ok(encoded) => spoof_dimensions(
            encoded,
            image.width() as u16,
            image.height() as u16,
            new_width,
            new_height,
        ),
        Err(e) => Err(e),
    }
}

} // verus!
