//! GIF: the screen descriptor, and every image descriptor that follows it.
//!
//! ```text
//! offset  0  signature, "GIF"
//!         3  version, "87a" or "89a"
//!         6  width of the canvas, little endian
//!         8  height of the canvas, little endian
//!        13  colour table, three bytes an entry; then extension blocks,
//!            each opened by 21 and a label; then image descriptors
//! ```
//!
//! An image descriptor takes ten bytes:
//!
//! ```text
//! offset  0  introducer, 2C
//!         5  width of the frame, little endian
//!         7  height of the frame, little endian
//! ```
//!
//! The walk is the simple one: it takes an extension block to have the fixed
//! length that goes with its label, and the next image descriptor to follow
//! the last one directly. A file whose frames carry colour tables of their own
//! is read as having one frame, or is rejected.

use crate::codec::{
    bytes_left, extract_u16_le, find_mismatch, first_mismatch, le_bytes_u16, le_u16,
    lemma_first_mismatch, write_u16_le,
};
use crate::encode::{encode_gif, gif_encoding};
use crate::error::{agrees, Field, SpoofError};
use crate::pixels::PixelBuffer;
use vstd::prelude::*;

verus! {

/// Offset of the width of the canvas.
pub const WIDTH_AT: usize = 6;

/// Offset of the height of the canvas.
pub const HEIGHT_AT: usize = 8;

/// Bytes that a buffer needs to hold the header up to the end of the height.
pub const HEADER_LENGTH: usize = 10;

/// Offset at which the colour table begins.
pub const TABLE_AT: usize = 13;

/// The byte that opens an extension block.
pub const EXTENSION: u8 = 0x21;

/// The byte that opens an image descriptor.
pub const DESCRIPTOR: u8 = 0x2C;

/// Length of an image descriptor.
pub const DESCRIPTOR_LENGTH: usize = 10;

/// Offset of the width inside an image descriptor.
pub const WIDTH_IN_DESCRIPTOR: usize = 5;

/// Offset of the height inside an image descriptor.
pub const HEIGHT_IN_DESCRIPTOR: usize = 7;

/// The extension blocks that the walk knows how to step over.
#[derive(Clone, Copy, Debug, PartialEq, Eq, Structural)]
pub enum Extension {
    /// Plain text, label 01.
    PlainText,
    /// Graphics control, label F9.
    GraphicsControl,
    /// Comment, label FE.
    Comment,
    /// Application, label FF.
    Application,
}

impl Extension {
    /// The extension that `label` announces.
    pub open spec fn of_label(label: u8) -> Option<Extension> {
        if label == 0x01 {
            Some(Extension::PlainText)
        } else if label == 0xF9 {
            Some(Extension::GraphicsControl)
        } else if label == 0xFE {
            Some(Extension::Comment)
        } else if label == 0xFF {
            Some(Extension::Application)
        } else {
            None
        }
    }

    /// Bytes from the introducer of the block to the start of the next block.
    pub open spec fn span(self) -> int {
        match self {
            Extension::PlainText => 17,
            Extension::GraphicsControl => 8,
            Extension::Comment => 4,
            Extension::Application => 16,
        }
    }

    /// The extension that `label` announces, if the walk knows it.
    pub fn from_label(label: u8) -> (known: Option<Extension>)
        ensures
            known == Extension::of_label(label),
    {
        if label == 0x01 {
            Some(Extension::PlainText)
        } else if label == 0xF9 {
            Some(Extension::GraphicsControl)
        } else if label == 0xFE {
            Some(Extension::Comment)
        } else if label == 0xFF {
            Some(Extension::Application)
        } else {
            None
        }
    }

    /// Bytes from the introducer of the block to the start of the next block.
    pub fn length(self) -> (length: usize)
        ensures
            length == self.span(),
    {
        match self {
            Extension::PlainText => 17,
            Extension::GraphicsControl => 8,
            Extension::Comment => 4,
            Extension::Application => 16,
        }
    }
}

/// Offset of descriptor number `k`, counted from zero, in a run of
/// descriptors that begins at `first`.
pub open spec fn descriptor_at(first: int, k: int) -> int {
    first + DESCRIPTOR_LENGTH * k
}

/// Where the image descriptors of a buffer lie: `count` of them, ten bytes
/// each, one after the other from offset `first` on.
pub struct Layout {
    pub first: int,
    pub count: nat,
}

impl Layout {
    /// Offset of descriptor number `k`, counted from zero.
    pub open spec fn descriptor(self, k: int) -> int {
        descriptor_at(self.first, k)
    }

    /// Whether offset `i` lies inside one of the descriptors.
    pub open spec fn covers(self, i: int) -> bool {
        self.first <= i && (i - self.first) / (DESCRIPTOR_LENGTH as int) < self.count
    }
}

/// Where the image descriptors of a buffer lie, as `locate` returns it.
#[derive(Clone, Copy, Debug, PartialEq, Eq, Structural)]
pub struct Frames {
    /// Offset of the first descriptor.
    pub first: usize,
    /// Number of descriptors.
    pub count: usize,
}

impl View for Frames {
    type V = Layout;

    open spec fn view(&self) -> Layout {
        Layout { first: self.first as int, count: self.count as nat }
    }
}

/// The three bytes that open every GIF file.
pub open spec fn signature() -> Seq<u8> {
    seq![0x47u8, 0x49, 0x46]
}

/// The older of the two versions, "87a".
pub open spec fn version_87a() -> Seq<u8> {
    seq![0x38u8, 0x37, 0x61]
}

/// The newer of the two versions, "89a".
pub open spec fn version_89a() -> Seq<u8> {
    seq![0x38u8, 0x39, 0x61]
}

/// Where the colour table that begins at `pos` ends: the first offset, in
/// steps of three from `pos`, whose byte opens an extension block or an image
/// descriptor.
pub open spec fn block_start(s: Seq<u8>, pos: int) -> Option<int>
    decreases bytes_left(s, pos),
{
    if pos < 0 || pos >= s.len() {
        None
    } else if s[pos] == EXTENSION || s[pos] == DESCRIPTOR {
        Some(pos)
    } else {
        block_start(s, pos + 3)
    }
}

/// Where the chain of extension blocks that begins at `pos` ends in an image
/// descriptor.
pub open spec fn first_descriptor(s: Seq<u8>, pos: int) -> Result<int, SpoofError>
    decreases bytes_left(s, pos),
{
    if pos < 0 || pos >= s.len() {
        Err(SpoofError::ScanExhausted)
    } else if s[pos] == DESCRIPTOR {
        Ok(pos)
    } else if s[pos] != EXTENSION {
        Err(SpoofError::InvalidSegment { offset: pos as usize })
    } else if pos + 1 >= s.len() {
        Err(SpoofError::ScanExhausted)
    } else {
        match Extension::of_label(s[pos + 1]) {
            Some(extension) => first_descriptor(s, pos + extension.span()),
            None => Err(SpoofError::InvalidSegment { offset: (pos + 1) as usize }),
        }
    }
}

/// How many image descriptors follow one another from `pos` on. The byte
/// behind the last of them has to lie inside the buffer, since it is read to
/// see that the chain ends.
pub open spec fn descriptor_count(s: Seq<u8>, pos: int) -> Result<nat, SpoofError>
    decreases bytes_left(s, pos),
{
    if pos < 0 || pos >= s.len() {
        Err(SpoofError::BoundsViolation)
    } else if s[pos] != DESCRIPTOR {
        Ok(0)
    } else if pos + DESCRIPTOR_LENGTH > s.len() {
        Err(SpoofError::BoundsViolation)
    } else {
        match descriptor_count(s, pos + DESCRIPTOR_LENGTH) {
            Ok(n) => Ok(n + 1),
            Err(e) => Err(e),
        }
    }
}

/// The image descriptors of `s`, or why the walk did not reach them.
pub open spec fn layout(s: Seq<u8>) -> Result<Layout, SpoofError> {
    match block_start(s, TABLE_AT as int) {
        None => Err(SpoofError::ScanExhausted),
        Some(block) => match first_descriptor(s, block) {
            Err(e) => Err(e),
            Ok(first) => match descriptor_count(s, first) {
                Err(e) => Err(e),
                Ok(count) => Ok(Layout { first, count }),
            },
        },
    }
}

/// Steps over the colour table that begins at `pos`: returns the offset of the
/// block that follows it.
pub fn skip_global_color_table(image: &[u8], start: usize) -> (r: Result<usize, SpoofError>)
    ensures
        match r {
            Ok(block) => block_start(image@, start as int) == Some(block as int),
            Err(e) => e == SpoofError::ScanExhausted && block_start(image@, start as int) is None,
        },
{
    let length: usize = image.len();
    let mut pos: usize = start;
    loop
        invariant
            length == image@.len(),
            block_start(image@, start as int) == block_start(image@, pos as int),
        decreases length - pos,
    {
        if pos >= length {
            return Err(SpoofError::ScanExhausted);
        }
        if image[pos] == EXTENSION || image[pos] == DESCRIPTOR {
            return Ok(pos);
        }
        if length - pos <= 3 {
            assert(block_start(image@, pos + 3) is None);
            return Err(SpoofError::ScanExhausted);
        }
        pos = pos + 3;
    }
}

/// Steps over the extension blocks that begin at `pos`: returns the offset of
/// the image descriptor that follows them.
pub fn skip_extensions(image: &[u8], start: usize) -> (r: Result<usize, SpoofError>)
    ensures
        match r {
            Ok(first) => first_descriptor(image@, start as int) == Ok::<int, SpoofError>(
                first as int,
            ),
            Err(e) => first_descriptor(image@, start as int) == Err::<int, SpoofError>(e),
        },
{
    let length: usize = image.len();
    let mut pos: usize = start;
    loop
        invariant
            length == image@.len(),
            first_descriptor(image@, start as int) == first_descriptor(image@, pos as int),
        decreases length - pos,
    {
        if pos >= length {
            return Err(SpoofError::ScanExhausted);
        }
        let introducer: u8 = image[pos];
        if introducer == DESCRIPTOR {
            return Ok(pos);
        }
        if introducer != EXTENSION {
            return Err(SpoofError::InvalidSegment { offset: pos });
        }
        if length - pos < 2 {
            return Err(SpoofError::ScanExhausted);
        }
        let step: usize = match Extension::from_label(image[pos + 1]) {
            Some(extension) => extension.length(),
            None => {
                return Err(SpoofError::InvalidSegment { offset: pos + 1 });
            },
        };
        if length - pos <= step {
            assert(first_descriptor(image@, pos + step) == Err::<int, SpoofError>(
                SpoofError::ScanExhausted,
            ));
            return Err(SpoofError::ScanExhausted);
        }
        pos = pos + step;
    }
}

/// Counts the image descriptors that follow one another from `first` on.
fn count_descriptors(image: &[u8], first: usize) -> (r: Result<usize, SpoofError>)
    ensures
        match r {
            Ok(count) => descriptor_count(image@, first as int) == Ok::<nat, SpoofError>(
                count as nat,
            ),
            Err(e) => descriptor_count(image@, first as int) == Err::<nat, SpoofError>(e),
        },
{
    let length: usize = image.len();
    let mut pos: usize = first;
    let mut count: usize = 0;
    loop
        invariant
            length == image@.len(),
            pos == first + DESCRIPTOR_LENGTH * count,
            descriptor_count(image@, first as int) == match descriptor_count(image@, pos as int) {
                Ok(n) => Ok::<nat, SpoofError>(n + count as nat),
                Err(e) => Err(e),
            },
        decreases length - pos,
    {
        if pos >= length {
            return Err(SpoofError::BoundsViolation);
        }
        if image[pos] != DESCRIPTOR {
            return Ok(count);
        }
        if length - pos <= DESCRIPTOR_LENGTH {
            assert(descriptor_count(image@, pos + DESCRIPTOR_LENGTH) is Err);
            return Err(SpoofError::BoundsViolation);
        }
        pos = pos + DESCRIPTOR_LENGTH;
        count = count + 1;
    }
}

/// Finds the image descriptors of `image`.
pub fn locate(image: &[u8]) -> (r: Result<Frames, SpoofError>)
    ensures
        match r {
            Ok(frames) => layout(image@) == Ok::<Layout, SpoofError>(frames@),
            Err(e) => layout(image@) == Err::<Layout, SpoofError>(e),
        },
{
    let block: usize = match skip_global_color_table(image, TABLE_AT) {
        Ok(block) => block,
        Err(e) => {
            return Err(e);
        },
    };
    let first: usize = match skip_extensions(image, block) {
        Ok(first) => first,
        Err(e) => {
            return Err(e);
        },
    };
    match count_descriptors(image, first) {
        Ok(count) => Ok(Frames { first, count }),
        Err(e) => Err(e),
    }
}

/// The descriptors that the walk counts are the run of introducers from its
/// start on, and the byte that ends the run lies inside the buffer.
pub proof fn lemma_descriptor_count(s: Seq<u8>, pos: int)
    ensures
        descriptor_count(s, pos) matches Ok(n) ==> {
            &&& 0 <= pos
            &&& descriptor_at(pos, n as int) < s.len()
            &&& s[descriptor_at(pos, n as int)] != DESCRIPTOR
            &&& forall|k: int| 0 <= k < n ==> s[#[trigger] descriptor_at(pos, k)] == DESCRIPTOR
        },
    decreases bytes_left(s, pos),
{
    if 0 <= pos < s.len() && s[pos] == DESCRIPTOR && pos + DESCRIPTOR_LENGTH <= s.len() {
        let next = pos + DESCRIPTOR_LENGTH;
        lemma_descriptor_count(s, next);
        if let Ok(m) = descriptor_count(s, next) {
            assert forall|k: int| 0 <= k < m + 1 implies s[#[trigger] descriptor_at(pos, k)]
                == DESCRIPTOR by {
                if k > 0 {
                    assert(descriptor_at(next, k - 1) == descriptor_at(pos, k));
                }
            }
        }
    }
}

/// The colour table ends at or after its start, inside the buffer, a whole
/// number of entries behind its start, at the first entry whose first byte
/// opens a block.
pub proof fn lemma_block_start(s: Seq<u8>, pos: int)
    ensures
        block_start(s, pos) matches Some(block) ==> {
            &&& 0 <= pos <= block < s.len()
            &&& (block - pos) % 3 == 0
            &&& s[block] == EXTENSION || s[block] == DESCRIPTOR
            &&& forall|i: int|
                pos <= i < block && (i - pos) % 3 == 0 ==> s[i] != EXTENSION && s[i] != DESCRIPTOR
        },
    decreases bytes_left(s, pos),
{
    if 0 <= pos < s.len() && !(s[pos] == EXTENSION || s[pos] == DESCRIPTOR) {
        lemma_block_start(s, pos + 3);
        if let Some(block) = block_start(s, pos + 3) {
            assert forall|i: int| pos <= i < block && (i - pos) % 3 == 0 implies s[i]
                != EXTENSION && s[i] != DESCRIPTOR by {
                if i != pos {
                    assert((i - (pos + 3)) % 3 == 0);
                }
            }
        }
    }
}

/// The first image descriptor lies at or after the start of the walk, inside
/// the buffer, and shows the introducer.
pub proof fn lemma_first_descriptor(s: Seq<u8>, pos: int)
    ensures
        first_descriptor(s, pos) matches Ok(first) ==> 0 <= pos <= first < s.len() && s[first]
            == DESCRIPTOR,
    decreases bytes_left(s, pos),
{
    if 0 <= pos < s.len() && s[pos] == EXTENSION && pos + 1 < s.len() {
        if let Some(extension) = Extension::of_label(s[pos + 1]) {
            lemma_first_descriptor(s, pos + extension.span());
        }
    }
}

/// The walk to the end of the colour table reads nothing behind that end.
pub proof fn lemma_block_start_reads_prefix(s: Seq<u8>, t: Seq<u8>, pos: int)
    requires
        s.len() == t.len(),
        block_start(s, pos) matches Some(block) && forall|i: int|
            pos <= i <= block ==> s[i] == t[i],
    ensures
        block_start(t, pos) == block_start(s, pos),
    decreases bytes_left(s, pos),
{
    lemma_block_start(s, pos);
    if !(s[pos] == EXTENSION || s[pos] == DESCRIPTOR) {
        lemma_block_start(s, pos + 3);
        lemma_block_start_reads_prefix(s, t, pos + 3);
    }
}

/// The walk over the extension blocks reads nothing behind the introducer of
/// the descriptor that it finds.
pub proof fn lemma_first_descriptor_reads_prefix(s: Seq<u8>, t: Seq<u8>, pos: int)
    requires
        s.len() == t.len(),
        first_descriptor(s, pos) matches Ok(first) && forall|i: int|
            pos <= i <= first ==> s[i] == t[i],
    ensures
        first_descriptor(t, pos) == first_descriptor(s, pos),
    decreases bytes_left(s, pos),
{
    lemma_first_descriptor(s, pos);
    if s[pos] != DESCRIPTOR {
        let extension = Extension::of_label(s[pos + 1]).unwrap();
        lemma_first_descriptor(s, pos + extension.span());
        lemma_first_descriptor_reads_prefix(s, t, pos + extension.span());
    }
}

/// The count of the descriptors reads only the bytes at multiples of the
/// descriptor length from its start.
pub proof fn lemma_descriptor_count_reads_introducers(s: Seq<u8>, t: Seq<u8>, pos: int)
    requires
        s.len() == t.len(),
        forall|i: int|
            pos <= i < s.len() && (i - pos) % (DESCRIPTOR_LENGTH as int) == 0 ==> s[i] == t[i],
    ensures
        descriptor_count(t, pos) == descriptor_count(s, pos),
    decreases bytes_left(s, pos),
{
    if 0 <= pos < s.len() {
        assert((pos - pos) % (DESCRIPTOR_LENGTH as int) == 0);
        if s[pos] == DESCRIPTOR && pos + DESCRIPTOR_LENGTH <= s.len() {
            let next = pos + DESCRIPTOR_LENGTH;
            assert forall|i: int|
                next <= i < s.len() && (i - next) % (DESCRIPTOR_LENGTH as int) == 0 implies s[i]
                == t[i] by {
                assert((i - pos) % (DESCRIPTOR_LENGTH as int) == 0);
            }
            lemma_descriptor_count_reads_introducers(s, t, next);
        }
    }
}

/// What `layout` finds: descriptors behind the screen descriptor, each inside
/// the buffer with its introducer, and a byte behind the last that is none.
pub proof fn lemma_layout(s: Seq<u8>)
    ensures
        layout(s) matches Ok(l) ==> {
            &&& TABLE_AT <= l.first
            &&& l.descriptor(l.count as int) < s.len()
            &&& s[l.descriptor(l.count as int)] != DESCRIPTOR
            &&& forall|k: int| 0 <= k < l.count ==> s[#[trigger] l.descriptor(k)] == DESCRIPTOR
        },
{
    lemma_block_start(s, TABLE_AT as int);
    if let Some(block) = block_start(s, TABLE_AT as int) {
        lemma_first_descriptor(s, block);
        if let Ok(first) = first_descriptor(s, block) {
            lemma_descriptor_count(s, first);
        }
    }
}

/// The outcome of comparing the descriptors of `l`, from number `from` on,
/// with `width` and `height`: the first field that differs, width before
/// height.
pub open spec fn frames_verdict(s: Seq<u8>, l: Layout, from: int, width: u16, height: u16)
    -> Result<(), SpoofError>
    decreases l.count - from,
{
    if from < 0 || from >= l.count {
        Ok(())
    } else if le_u16(s, l.descriptor(from) + WIDTH_IN_DESCRIPTOR) != width {
        Err(
            SpoofError::StructuralMismatch {
                field: Field::Width,
                offset: (l.descriptor(from) + WIDTH_IN_DESCRIPTOR) as usize,
                expected: width as u64,
                actual: le_u16(s, l.descriptor(from) + WIDTH_IN_DESCRIPTOR) as u64,
            },
        )
    } else if le_u16(s, l.descriptor(from) + HEIGHT_IN_DESCRIPTOR) != height {
        Err(
            SpoofError::StructuralMismatch {
                field: Field::Height,
                offset: (l.descriptor(from) + HEIGHT_IN_DESCRIPTOR) as usize,
                expected: height as u64,
                actual: le_u16(s, l.descriptor(from) + HEIGHT_IN_DESCRIPTOR) as u64,
            },
        )
    } else {
        frames_verdict(s, l, from + 1, width, height)
    }
}

/// Every descriptor of `l` declares `width` by `height`.
pub open spec fn frames_declare(s: Seq<u8>, l: Layout, width: u16, height: u16) -> bool {
    forall|k: int|
        0 <= k < l.count ==> {
            &&& le_u16(s, #[trigger] l.descriptor(k) + WIDTH_IN_DESCRIPTOR) == width
            &&& le_u16(s, l.descriptor(k) + HEIGHT_IN_DESCRIPTOR) == height
        }
}

/// The comparison from `from` on passes exactly when every descriptor from
/// there on declares the dimensions.
pub proof fn lemma_frames_verdict(s: Seq<u8>, l: Layout, from: int, width: u16, height: u16)
    requires
        0 <= from,
    ensures
        frames_verdict(s, l, from, width, height) is Ok <==> forall|k: int|
            from <= k < l.count ==> {
                &&& le_u16(s, #[trigger] l.descriptor(k) + WIDTH_IN_DESCRIPTOR) == width
                &&& le_u16(s, l.descriptor(k) + HEIGHT_IN_DESCRIPTOR) == height
            },
    decreases l.count - from,
{
    if from < l.count {
        lemma_frames_verdict(s, l, from + 1, width, height);
        if le_u16(s, l.descriptor(from) + WIDTH_IN_DESCRIPTOR) == width && le_u16(
            s,
            l.descriptor(from) + HEIGHT_IN_DESCRIPTOR,
        ) == height {
            if frames_verdict(s, l, from + 1, width, height) is Ok {
                assert forall|k: int| from <= k < l.count implies {
                    &&& le_u16(s, #[trigger] l.descriptor(k) + WIDTH_IN_DESCRIPTOR) == width
                    &&& le_u16(s, l.descriptor(k) + HEIGHT_IN_DESCRIPTOR) == height
                } by {
                    if k > from {
                        assert(from + 1 <= k);
                    }
                }
            }
        }
    }
}

/// Where the version of `s` departs from both versions: the first byte that
/// differs from "89a", unless the version is "87a".
pub open spec fn version_mismatch(s: Seq<u8>) -> Option<int> {
    if first_mismatch(s, 3, version_87a(), 0) is None {
        None
    } else {
        first_mismatch(s, 3, version_89a(), 0)
    }
}

/// `s` opens as a GIF file whose canvas and whose every image descriptor
/// declare `width` by `height`.
pub open spec fn declares(s: Seq<u8>, width: u16, height: u16) -> bool {
    &&& s.len() >= HEADER_LENGTH
    &&& s.subrange(0, 3) == signature()
    &&& (s.subrange(3, 6) == version_87a() || s.subrange(3, 6) == version_89a())
    &&& le_u16(s, WIDTH_AT as int) == width
    &&& le_u16(s, HEIGHT_AT as int) == height
    &&& layout(s) matches Ok(l) && frames_declare(s, l, width, height)
}

/// The outcome of checking `s` against `width` and `height`: the first check
/// that fails. Signature, version and canvas come first, then the walk to the
/// image descriptors, then the descriptors in their order.
pub open spec fn verdict(s: Seq<u8>, width: u16, height: u16) -> Result<(), SpoofError> {
    if s.len() < 3 {
        Err(SpoofError::BoundsViolation)
    } else if let Some(i) = first_mismatch(s, 0, signature(), 0) {
        Err(
            SpoofError::StructuralMismatch {
                field: Field::Signature,
                offset: i as usize,
                expected: signature()[i] as u64,
                actual: s[i] as u64,
            },
        )
    } else if s.len() < 6 {
        Err(SpoofError::BoundsViolation)
    } else if let Some(i) = version_mismatch(s) {
        Err(
            SpoofError::StructuralMismatch {
                field: Field::Version,
                offset: (3 + i) as usize,
                expected: version_89a()[i] as u64,
                actual: s[3 + i] as u64,
            },
        )
    } else if s.len() < HEADER_LENGTH {
        Err(SpoofError::BoundsViolation)
    } else if le_u16(s, WIDTH_AT as int) != width {
        Err(
            SpoofError::StructuralMismatch {
                field: Field::Width,
                offset: WIDTH_AT,
                expected: width as u64,
                actual: le_u16(s, WIDTH_AT as int) as u64,
            },
        )
    } else if le_u16(s, HEIGHT_AT as int) != height {
        Err(
            SpoofError::StructuralMismatch {
                field: Field::Height,
                offset: HEIGHT_AT,
                expected: height as u64,
                actual: le_u16(s, HEIGHT_AT as int) as u64,
            },
        )
    } else {
        match layout(s) {
            Err(e) => Err(e),
            Ok(l) => frames_verdict(s, l, 0, width, height),
        }
    }
}

/// The check passes exactly on the buffers that `declares` describes.
pub proof fn lemma_verdict_ok(s: Seq<u8>, width: u16, height: u16)
    ensures
        verdict(s, width, height) is Ok <==> declares(s, width, height),
{
    if s.len() >= 3 {
        lemma_first_mismatch(s, 0, signature(), 0);
        if first_mismatch(s, 0, signature(), 0) is None {
            assert(s.subrange(0, 3) =~= signature());
        } else {
            let i = first_mismatch(s, 0, signature(), 0).unwrap();
            assert(s.subrange(0, 3)[i] == s[i]);
        }
    }
    if s.len() >= 6 {
        lemma_first_mismatch(s, 3, version_87a(), 0);
        lemma_first_mismatch(s, 3, version_89a(), 0);
        if first_mismatch(s, 3, version_87a(), 0) is None {
            assert(s.subrange(3, 6) =~= version_87a());
        } else {
            let i = first_mismatch(s, 3, version_87a(), 0).unwrap();
            assert(s.subrange(3, 6)[i] == s[3 + i]);
        }
        if first_mismatch(s, 3, version_89a(), 0) is None {
            assert(s.subrange(3, 6) =~= version_89a());
        } else {
            let i = first_mismatch(s, 3, version_89a(), 0).unwrap();
            assert(s.subrange(3, 6)[i] == s[3 + i]);
        }
        if let Ok(l) = layout(s) {
            lemma_frames_verdict(s, l, 0, width, height);
        }
    }
}

/// Checks that `image` opens as a GIF file whose canvas and whose every image
/// descriptor declare `width` by `height`.
pub fn verify_image(image: &[u8], width: u16, height: u16) -> (r: Result<(), SpoofError>)
    ensures
        r == verdict(image@, width, height),
{
    let magic: [u8; 3] = [0x47, 0x49, 0x46];
    let older: [u8; 3] = [0x38, 0x37, 0x61];
    let newer: [u8; 3] = [0x38, 0x39, 0x61];
    assert(magic@ == signature());
    assert(older@ == version_87a());
    assert(newer@ == version_89a());
    let length: usize = image.len();
    if length < 3 {
        return Err(SpoofError::BoundsViolation);
    }
    if let Some(i) = find_mismatch(image, 0, &magic) {
        proof {
            lemma_first_mismatch(image@, 0, signature(), 0);
        }
        return Err(
            SpoofError::StructuralMismatch {
                field: Field::Signature,
                offset: i,
                expected: magic[i] as u64,
                actual: image[i] as u64,
            },
        );
    }
    if length < 6 {
        return Err(SpoofError::BoundsViolation);
    }
    if find_mismatch(image, 3, &older).is_some() {
        if let Some(i) = find_mismatch(image, 3, &newer) {
            proof {
                lemma_first_mismatch(image@, 3, version_89a(), 0);
            }
            return Err(
                SpoofError::StructuralMismatch {
                    field: Field::Version,
                    offset: 3 + i,
                    expected: newer[i] as u64,
                    actual: image[3 + i] as u64,
                },
            );
        }
    }
    if length < HEADER_LENGTH {
        return Err(SpoofError::BoundsViolation);
    }
    let img_width = extract_u16_le(image, WIDTH_AT);
    let img_height = extract_u16_le(image, HEIGHT_AT);
    if img_width != width {
        return Err(
            SpoofError::StructuralMismatch {
                field: Field::Width,
                offset: WIDTH_AT,
                expected: width as u64,
                actual: img_width as u64,
            },
        );
    }
    if img_height != height {
        return Err(
            SpoofError::StructuralMismatch {
                field: Field::Height,
                offset: HEIGHT_AT,
                expected: height as u64,
                actual: img_height as u64,
            },
        );
    }
    let frames: Frames = match locate(image) {
        Ok(frames) => frames,
        Err(e) => {
            return Err(e);
        },
    };
    proof {
        lemma_layout(image@);
    }
    let mut pos: usize = frames.first;
    let mut k: usize = 0;
    while k < frames.count
        invariant
            length == image@.len(),
            k <= frames.count,
            pos == frames@.descriptor(k as int),
            frames@.descriptor(frames.count as int) < length,
            verdict(image@, width, height) == frames_verdict(
                image@,
                frames@,
                k as int,
                width,
                height,
            ),
        decreases frames.count - k,
    {
        let img_width = extract_u16_le(image, pos + WIDTH_IN_DESCRIPTOR);
        let img_height = extract_u16_le(image, pos + HEIGHT_IN_DESCRIPTOR);
        if img_width != width {
            return Err(
                SpoofError::StructuralMismatch {
                    field: Field::Width,
                    offset: pos + WIDTH_IN_DESCRIPTOR,
                    expected: width as u64,
                    actual: img_width as u64,
                },
            );
        }
        if img_height != height {
            return Err(
                SpoofError::StructuralMismatch {
                    field: Field::Height,
                    offset: pos + HEIGHT_IN_DESCRIPTOR,
                    expected: height as u64,
                    actual: img_height as u64,
                },
            );
        }
        pos = pos + DESCRIPTOR_LENGTH;
        k = k + 1;
    }
    Ok(())
}

/// Whether the dimensions of `s` can be rewritten: the buffer must hold the
/// header, and the walk must reach the image descriptors.
pub open spec fn patch_verdict(s: Seq<u8>) -> Result<(), SpoofError> {
    if s.len() < HEADER_LENGTH {
        Err(SpoofError::BoundsViolation)
    } else {
        match layout(s) {
            Err(e) => Err(e),
            Ok(_) => Ok(()),
        }
    }
}

/// The byte at offset `i` once `width` and `height` stand in the canvas
/// fields and in the fields of every descriptor of `l`.
pub open spec fn rewritten_byte(s: Seq<u8>, l: Layout, width: u16, height: u16, i: int) -> u8 {
    let within = (i - l.first) % (DESCRIPTOR_LENGTH as int);
    if WIDTH_AT <= i < HEIGHT_AT {
        le_bytes_u16(width)[i - WIDTH_AT]
    } else if HEIGHT_AT <= i < HEADER_LENGTH {
        le_bytes_u16(height)[i - HEIGHT_AT]
    } else if l.covers(i) && WIDTH_IN_DESCRIPTOR <= within < HEIGHT_IN_DESCRIPTOR {
        le_bytes_u16(width)[within - WIDTH_IN_DESCRIPTOR]
    } else if l.covers(i) && HEIGHT_IN_DESCRIPTOR <= within < HEIGHT_IN_DESCRIPTOR + 2 {
        le_bytes_u16(height)[within - HEIGHT_IN_DESCRIPTOR]
    } else {
        s[i]
    }
}

/// `s` with `width` and `height` in the canvas fields and in the fields of
/// every descriptor of `l`.
pub open spec fn rewritten(s: Seq<u8>, l: Layout, width: u16, height: u16) -> Seq<u8> {
    Seq::new(s.len(), |i: int| rewritten_byte(s, l, width, height, i))
}

/// `s` with `width` and `height` in the canvas fields and in the fields of
/// every image descriptor that the walk finds.
pub open spec fn patched(s: Seq<u8>, width: u16, height: u16) -> Seq<u8> {
    rewritten(s, layout(s).unwrap(), width, height)
}

/// Overwrites the dimensions of the canvas and of every image descriptor. A
/// buffer that is rejected is left as it was.
pub fn modify_width_and_height(image: &mut [u8], new_width: u16, new_height: u16) -> (r: Result<
    (),
    SpoofError,
>)
    ensures
        r == patch_verdict(old(image)@),
        r is Ok ==> final(image)@ == patched(old(image)@, new_width, new_height),
        r is Err ==> final(image)@ == old(image)@,
{
    let length: usize = image.len();
    if length < HEADER_LENGTH {
        return Err(SpoofError::BoundsViolation);
    }
    let frames: Frames = match locate(image) {
        Ok(frames) => frames,
        Err(e) => {
            return Err(e);
        },
    };
    proof {
        lemma_layout(image@);
    }
    write_u16_le(image, WIDTH_AT, new_width);
    write_u16_le(image, HEIGHT_AT, new_height);
    let mut pos: usize = frames.first;
    let mut k: usize = 0;
    assert(image@ =~= rewritten(
        old(image)@,
        Layout { first: frames.first as int, count: 0 },
        new_width,
        new_height,
    ));
    while k < frames.count
        invariant
            length == image@.len(),
            length == old(image)@.len(),
            k <= frames.count,
            TABLE_AT <= frames.first,
            pos == descriptor_at(frames.first as int, k as int),
            descriptor_at(frames.first as int, frames.count as int) < length,
            image@ == rewritten(
                old(image)@,
                Layout { first: frames.first as int, count: k as nat },
                new_width,
                new_height,
            ),
        decreases frames.count - k,
    {
        let ghost before = image@;
        write_u16_le(image, pos + WIDTH_IN_DESCRIPTOR, new_width);
        write_u16_le(image, pos + HEIGHT_IN_DESCRIPTOR, new_height);
        proof {
            let done = Layout { first: frames.first as int, count: k as nat };
            let next = Layout { first: frames.first as int, count: (k + 1) as nat };
            assert forall|i: int| 0 <= i < length implies image@[i] == rewritten_byte(
                old(image)@,
                next,
                new_width,
                new_height,
                i,
            ) by {
                assert(before[i] == rewritten_byte(old(image)@, done, new_width, new_height, i));
                lemma_descriptor_of(frames.first as int, k as int, i);
            }
            assert(image@ =~= rewritten(old(image)@, next, new_width, new_height));
        }
        pos = pos + DESCRIPTOR_LENGTH;
        k = k + 1;
    }
    Ok(())
}

/// An offset lies in descriptor number `k` of a run exactly when quotient and
/// remainder of its distance from the start of the run say so.
pub proof fn lemma_descriptor_of(first: int, k: int, i: int)
    requires
        0 <= k,
    ensures
        first <= i && (i - first) / (DESCRIPTOR_LENGTH as int) == k <==> descriptor_at(first, k)
            <= i < descriptor_at(first, k + 1),
        descriptor_at(first, k) <= i < descriptor_at(first, k + 1) ==> (i - first) % (
        DESCRIPTOR_LENGTH as int) == i - descriptor_at(first, k),
{
}

/// After a patch the walk finds the descriptors where they were, canvas and
/// descriptors all declare the new dimensions, and no other byte has changed.
pub proof fn lemma_patched_header(s: Seq<u8>, width: u16, height: u16)
    requires
        patch_verdict(s) is Ok,
    ensures
        patched(s, width, height).len() == s.len(),
        layout(patched(s, width, height)) == layout(s),
        le_u16(patched(s, width, height), WIDTH_AT as int) == width,
        le_u16(patched(s, width, height), HEIGHT_AT as int) == height,
        layout(s) matches Ok(l) && {
            &&& frames_declare(patched(s, width, height), l, width, height)
            &&& forall|i: int|
                0 <= i < s.len() && !(WIDTH_AT <= i < HEADER_LENGTH) && !(l.covers(i)
                    && WIDTH_IN_DESCRIPTOR <= (i - l.first) % (DESCRIPTOR_LENGTH as int)
                    < HEIGHT_IN_DESCRIPTOR + 2) ==> patched(s, width, height)[i] == s[i]
        },
{
    let l = layout(s).unwrap();
    let t = patched(s, width, height);
    lemma_layout(s);
    let block = block_start(s, TABLE_AT as int).unwrap();
    lemma_block_start(s, TABLE_AT as int);
    lemma_first_descriptor(s, block);
    assert forall|i: int| TABLE_AT <= i <= l.first implies s[i] == t[i] by {
        assert(!l.covers(i) || (i - l.first) % (DESCRIPTOR_LENGTH as int) == 0);
    }
    lemma_block_start_reads_prefix(s, t, TABLE_AT as int);
    lemma_first_descriptor_reads_prefix(s, t, block);
    lemma_descriptor_count_reads_introducers(s, t, l.first);
    assert forall|k: int| 0 <= k < l.count implies {
        &&& le_u16(t, #[trigger] l.descriptor(k) + WIDTH_IN_DESCRIPTOR) == width
        &&& le_u16(t, l.descriptor(k) + HEIGHT_IN_DESCRIPTOR) == height
    } by {
        let p = l.descriptor(k);
        assert(descriptor_at(l.first, k + 1) <= descriptor_at(l.first, l.count as int));
        lemma_descriptor_of(l.first, k, p + 5);
        lemma_descriptor_of(l.first, k, p + 6);
        lemma_descriptor_of(l.first, k, p + 7);
        lemma_descriptor_of(l.first, k, p + 8);
    }
}

/// A buffer that passed the check can be patched, and then passes the check
/// for the new dimensions.
pub proof fn lemma_patch_keeps_validity(
    s: Seq<u8>,
    width: u16,
    height: u16,
    new_width: u16,
    new_height: u16,
)
    requires
        verdict(s, width, height) is Ok,
    ensures
        patch_verdict(s) is Ok,
        verdict(patched(s, new_width, new_height), new_width, new_height) is Ok,
{
    let done = patched(s, new_width, new_height);
    lemma_verdict_ok(s, width, height);
    lemma_verdict_ok(done, new_width, new_height);
    lemma_patched_header(s, new_width, new_height);
    assert(done.subrange(0, 3) =~= s.subrange(0, 3));
    assert(done.subrange(3, 6) =~= s.subrange(3, 6));
}

/// A buffer that holds no introducer of an image descriptor behind its header
/// is rejected for that, by the walk: the walk runs off the end or stops at a
/// block that it does not know, and reads no dimension.
pub proof fn lemma_no_descriptor(s: Seq<u8>)
    requires
        forall|i: int| TABLE_AT <= i < s.len() ==> s[i] != DESCRIPTOR,
    ensures
        layout(s) matches Err(e) && (e == SpoofError::ScanExhausted
            || e is InvalidSegment),
{
    lemma_block_start(s, TABLE_AT as int);
    if let Some(block) = block_start(s, TABLE_AT as int) {
        lemma_first_descriptor(s, block);
        lemma_walk_fails(s, block);
    }
}

/// The walk over the extension blocks fails in one of two ways only.
proof fn lemma_walk_fails(s: Seq<u8>, pos: int)
    ensures
        first_descriptor(s, pos) matches Err(e) ==> e == SpoofError::ScanExhausted
            || e is InvalidSegment,
    decreases bytes_left(s, pos),
{
    if 0 <= pos < s.len() && s[pos] == EXTENSION && pos + 1 < s.len() {
        if let Some(extension) = Extension::of_label(s[pos + 1]) {
            lemma_walk_fails(s, pos + extension.span());
        }
    }
}

/// Cut off at or before the end of its colour table, a buffer has no block
/// start left; cut off behind it, it keeps the one it had.
proof fn lemma_block_start_truncated(s: Seq<u8>, pos: int, n: int)
    requires
        0 <= n <= s.len(),
        block_start(s, pos) is Some,
    ensures
        block_start(s.subrange(0, n), pos) == if n <= block_start(s, pos).unwrap() {
            None
        } else {
            block_start(s, pos)
        },
    decreases bytes_left(s, pos),
{
    lemma_block_start(s, pos);
    if pos < n && !(s[pos] == EXTENSION || s[pos] == DESCRIPTOR) {
        lemma_block_start_truncated(s, pos + 3, n);
    }
}

/// Cut off at or before its first image descriptor, a buffer lets the walk
/// over the extension blocks run off its end.
proof fn lemma_first_descriptor_truncated(s: Seq<u8>, pos: int, n: int)
    requires
        first_descriptor(s, pos) matches Ok(first) && 0 <= n <= first,
    ensures
        first_descriptor(s.subrange(0, n), pos) == Err::<int, SpoofError>(
            SpoofError::ScanExhausted,
        ),
    decreases bytes_left(s, pos),
{
    lemma_first_descriptor(s, pos);
    if pos + 1 < n {
        let extension = Extension::of_label(s[pos + 1]).unwrap();
        lemma_first_descriptor_truncated(s, pos + extension.span(), n);
    }
}

/// A file that passes the check, cut off behind its header and at or before
/// its first image descriptor, is rejected because the scan runs off the end.
pub proof fn lemma_truncated_scan(s: Seq<u8>, width: u16, height: u16, n: int)
    requires
        verdict(s, width, height) is Ok,
        HEADER_LENGTH <= n,
        layout(s) matches Ok(l) && n <= l.first,
    ensures
        layout(s.subrange(0, n)) == Err::<Layout, SpoofError>(SpoofError::ScanExhausted),
        verdict(s.subrange(0, n), width, height) == Err::<(), SpoofError>(
            SpoofError::ScanExhausted,
        ),
{
    let t = s.subrange(0, n);
    let block = block_start(s, TABLE_AT as int).unwrap();
    lemma_layout(s);
    lemma_block_start(s, TABLE_AT as int);
    lemma_first_descriptor(s, block);
    lemma_block_start_truncated(s, TABLE_AT as int, n);
    if block < n {
        lemma_first_descriptor_truncated(s, block, n);
    }
    lemma_verdict_ok(s, width, height);
    lemma_first_mismatch(s, 0, signature(), 0);
    lemma_first_mismatch(s, 3, version_87a(), 0);
    lemma_first_mismatch(s, 3, version_89a(), 0);
    lemma_first_mismatch(t, 0, signature(), 0);
    lemma_first_mismatch(t, 3, version_87a(), 0);
    lemma_first_mismatch(t, 3, version_89a(), 0);
}

/// What the pipeline makes of the encoded file `s`: the patched file if `s`
/// passes the check for `width` by `height`, and else the error of that check.
pub open spec fn spoofed(s: Seq<u8>, width: u16, height: u16, new_width: u16, new_height: u16)
    -> Result<Seq<u8>, SpoofError> {
    match verdict(s, width, height) {
        Ok(()) => Ok(patched(s, new_width, new_height)),
        Err(e) => Err(e),
    }
}

/// The GIF file made of raw pixels: none for a grid with a side that does not
/// fit the format's 16-bit fields, and else what the encoder returns.
pub open spec fn encoded(samples: Seq<u8>, width: u32, height: u32) -> Option<Seq<u8>> {
    if width > u16::MAX || height > u16::MAX {
        None
    } else {
        gif_encoding(samples, width, height)
    }
}

/// What the pipeline makes of raw pixels: `EncodingFailed` where no file is
/// made of them, and else what it makes of the encoded file.
pub open spec fn created(
    samples: Seq<u8>,
    width: u32,
    height: u32,
    new_width: u16,
    new_height: u16,
) -> Result<Seq<u8>, SpoofError> {
    match encoded(samples, width, height) {
        Some(bytes) => spoofed(bytes, width as u16, height as u16, new_width, new_height),
        None => Err(SpoofError::EncodingFailed),
    }
}

/// Encodes `image` as a GIF file of one frame.
pub fn create_gif(image: &PixelBuffer) -> (r: Result<Vec<u8>, SpoofError>)
    ensures
        agrees(
            r,
            match encoded(image.samples(), image.spec_width(), image.spec_height()) {
                Some(bytes) => Ok(bytes),
                None => Err(SpoofError::EncodingFailed),
            },
        ),
{
    if image.width() > 0xFFFF || image.height() > 0xFFFF {
        return Err(SpoofError::EncodingFailed);
    }
    match encode_gif(image.as_bytes(), image.width(), image.height()) {
        Ok(bytes) => Ok(bytes),
        Err(_) => Err(SpoofError::EncodingFailed),
    }
}

/// Runs an encoded file through the pipeline: checks that it declares
/// `width` by `height`, patches it to `new_width` by `new_height`, and checks
/// the patched file again. The second check cannot fail: a file that is
/// returned declares the new dimensions.
pub fn spoof_dimensions(
    encoded: Vec<u8>,
    width: u16,
    height: u16,
    new_width: u16,
    new_height: u16,
) -> (r: Result<Vec<u8>, SpoofError>)
    ensures
        agrees(r, spoofed(encoded@, width, height, new_width, new_height)),
        r matches Ok(file) ==> verdict(file@, new_width, new_height) is Ok,
{
    let mut image = encoded;
    if let Err(e) = verify_image(image.as_slice(), width, height) {
        return Err(e);
    }
    proof {
        lemma_patch_keeps_validity(image@, width, height, new_width, new_height);
    }
    if let Err(e) = modify_width_and_height(image.as_mut_slice(), new_width, new_height) {
        return Err(e);
    }
    if let Err(e) = verify_image(image.as_slice(), new_width, new_height) {
        return Err(e);
    }
    Ok(image)
}

/// Encodes `image` and rewrites the dimensions that the file declares to
/// `new_width` by `new_height`.
pub fn create_image(image: &PixelBuffer, new_width: u16, new_height: u16) -> (r: Result<
    Vec<u8>,
    SpoofError,
>)
    ensures
        agrees(
            r,
            created(
                image.samples(),
                image.spec_width(),
                image.spec_height(),
                new_width,
                new_height,
            ),
        ),
        r matches Ok(file) ==> verdict(file@, new_width, new_height) is Ok,
{
    match create_gif(image) {
        Ok(encoded) => spoof_dimensions(
            encoded,
            image.width() as u16,
            image.height() as u16,
            new_width,
            new_height,
        ),
        Err(e) => Err(e),
    }
}

} // verus!
