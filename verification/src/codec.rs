//! Fixed-width unsigned integers inside a byte buffer, big or little endian.

use vstd::prelude::*;

verus! {

/// The 16-bit value whose big-endian bytes are `s[at]`, `s[at + 1]`.
pub open spec fn be_u16(s: Seq<u8>, at: int) -> u16 {
    (s[at] as int * 0x100 + s[at + 1] as int) as u16
}

/// The 16-bit value whose little-endian bytes are `s[at]`, `s[at + 1]`.
pub open spec fn le_u16(s: Seq<u8>, at: int) -> u16 {
    (s[at] as int + s[at + 1] as int * 0x100) as u16
}

/// The 32-bit value whose big-endian bytes are `s[at]` to `s[at + 3]`.
pub open spec fn be_u32(s: Seq<u8>, at: int) -> u32 {
    (s[at] as int * 0x100_0000 + s[at + 1] as int * 0x1_0000 + s[at + 2] as int * 0x100 + s[at
        + 3] as int) as u32
}

/// The 32-bit value whose little-endian bytes are `s[at]` to `s[at + 3]`.
pub open spec fn le_u32(s: Seq<u8>, at: int) -> u32 {
    (s[at] as int + s[at + 1] as int * 0x100 + s[at + 2] as int * 0x1_0000 + s[at + 3] as int
        * 0x100_0000) as u32
}

/// The two bytes of `val`, most significant first.
pub open spec fn be_bytes_u16(val: u16) -> Seq<u8> {
    seq![(val / 0x100) as u8, (val % 0x100) as u8]
}

/// The two bytes of `val`, least significant first.
pub open spec fn le_bytes_u16(val: u16) -> Seq<u8> {
    seq![(val % 0x100) as u8, (val / 0x100) as u8]
}

/// The four bytes of `val`, most significant first.
pub open spec fn be_bytes_u32(val: u32) -> Seq<u8> {
    seq![
        (val / 0x100_0000) as u8,
        (val / 0x1_0000 % 0x100) as u8,
        (val / 0x100 % 0x100) as u8,
        (val % 0x100) as u8,
    ]
}

/// The four bytes of `val`, least significant first.
pub open spec fn le_bytes_u32(val: u32) -> Seq<u8> {
    seq![
        (val % 0x100) as u8,
        (val / 0x100 % 0x100) as u8,
        (val / 0x1_0000 % 0x100) as u8,
        (val / 0x100_0000) as u8,
    ]
}

/// The buffer `s` with `bytes` laid over it from offset `at` on. Every other
/// position keeps its byte, and the length does not change.
pub open spec fn overwrite(s: Seq<u8>, at: int, bytes: Seq<u8>) -> Seq<u8> {
    Seq::new(
        s.len(),
        |i: int|
            if at <= i < at + bytes.len() {
                bytes[i - at]
            } else {
                s[i]
            },
    )
}

/// Number of bytes of `s` from `pos` on; none if `pos` lies behind the end.
pub open spec fn bytes_left(s: Seq<u8>, pos: int) -> nat {
    if pos <= s.len() {
        (s.len() - pos) as nat
    } else {
        0
    }
}

/// A big-endian `u16` that was written is read back unchanged.
pub proof fn lemma_be_u16_written(s: Seq<u8>, at: int, val: u16)
    requires
        0 <= at,
        at + 2 <= s.len(),
    ensures
        be_u16(overwrite(s, at, be_bytes_u16(val)), at) == val,
{
}

/// A little-endian `u16` that was written is read back unchanged.
pub proof fn lemma_le_u16_written(s: Seq<u8>, at: int, val: u16)
    requires
        0 <= at,
        at + 2 <= s.len(),
    ensures
        le_u16(overwrite(s, at, le_bytes_u16(val)), at) == val,
{
}

/// A big-endian `u32` that was written is read back unchanged.
pub proof fn lemma_be_u32_written(s: Seq<u8>, at: int, val: u32)
    requires
        0 <= at,
        at + 4 <= s.len(),
    ensures
        be_u32(overwrite(s, at, be_bytes_u32(val)), at) == val,
{
}

/// A little-endian `u32` that was written is read back unchanged.
pub proof fn lemma_le_u32_written(s: Seq<u8>, at: int, val: u32)
    requires
        0 <= at,
        at + 4 <= s.len(),
    ensures
        le_u32(overwrite(s, at, le_bytes_u32(val)), at) == val,
{
}

/// Writing changes no byte outside the span it covers, nor the length.
pub proof fn lemma_overwrite_elsewhere(s: Seq<u8>, at: int, bytes: Seq<u8>)
    ensures
        overwrite(s, at, bytes).len() == s.len(),
        forall|i: int|
            0 <= i < s.len() && !(at <= i < at + bytes.len()) ==> #[trigger] overwrite(
                s,
                at,
                bytes,
            )[i] == s[i],
{
}

/// The least `i >= from` at which `s[at + i]` differs from `expected[i]`, if
/// there is one.
pub open spec fn first_mismatch(s: Seq<u8>, at: int, expected: Seq<u8>, from: int) -> Option<int>
    decreases expected.len() - from,
{
    if from >= expected.len() {
        None
    } else if s[at + from] != expected[from] {
        Some(from)
    } else {
        first_mismatch(s, at, expected, from + 1)
    }
}

/// `first_mismatch` finds the first differing position, and none exactly when
/// the two byte strings agree from `from` on.
pub proof fn lemma_first_mismatch(s: Seq<u8>, at: int, expected: Seq<u8>, from: int)
    requires
        0 <= from <= expected.len(),
    ensures
        match first_mismatch(s, at, expected, from) {
            None => forall|j: int| from <= j < expected.len() ==> s[at + j] == expected[j],
            Some(i) => {
                &&& from <= i < expected.len()
                &&& s[at + i] != expected[i]
                &&& forall|j: int| from <= j < i ==> s[at + j] == expected[j]
            },
        },
    decreases expected.len() - from,
{
    if from < expected.len() && s[at + from] == expected[from] {
        lemma_first_mismatch(s, at, expected, from + 1);
    }
}

/// Compares the bytes of `data` from `start` on with `expected` and returns
/// the index of the first that differs.
pub fn find_mismatch(data: &[u8], start: usize, expected: &[u8]) -> (found: Option<usize>)
    requires
        start + expected@.len() <= data@.len(),
    ensures
        match found {
            None => first_mismatch(data@, start as int, expected@, 0).is_none(),
            Some(i) => first_mismatch(data@, start as int, expected@, 0) == Some(i as int),
        },
{
    assert(data@.len() == data.len());
    let mut i: usize = 0;
    while i < expected.len()
        invariant
            i <= expected@.len(),
            start + expected@.len() <= data@.len() <= usize::MAX,
            first_mismatch(data@, start as int, expected@, 0) == first_mismatch(
                data@,
                start as int,
                expected@,
                i as int,
            ),
        decreases expected@.len() - i,
    {
        if data[start + i] != expected[i] {
            return Some(i);
        }
        i += 1;
    }
    None
}

/// Reads the big-endian `u32` at `start`.
pub fn extract_u32(data: &[u8], start: usize) -> (val: u32)
    requires
        start + 4 <= data@.len(),
    ensures
        val == be_u32(data@, start as int),
{
    let b0: u32 = data[start] as u32;
    let b1: u32 = data[start + 1] as u32;
    let b2: u32 = data[start + 2] as u32;
    let b3: u32 = data[start + 3] as u32;
    b0 * 0x100_0000 + b1 * 0x1_0000 + b2 * 0x100 + b3
}

/// Reads the little-endian `u32` at `start`.
pub fn extract_u32_le(data: &[u8], start: usize) -> (val: u32)
    requires
        start + 4 <= data@.len(),
    ensures
        val == le_u32(data@, start as int),
{
    let b0: u32 = data[start] as u32;
    let b1: u32 = data[start + 1] as u32;
    let b2: u32 = data[start + 2] as u32;
    let b3: u32 = data[start + 3] as u32;
    b0 + b1 * 0x100 + b2 * 0x1_0000 + b3 * 0x100_0000
}

/// Reads the big-endian `u16` at `start`.
pub fn extract_u16(data: &[u8], start: usize) -> (val: u16)
    requires
        start + 2 <= data@.len(),
    ensures
        val == be_u16(data@, start as int),
{
    let b0: u16 = data[start] as u16;
    let b1: u16 = data[start + 1] as u16;
    b0 * 0x100 + b1
}

/// Reads the little-endian `u16` at `start`.
pub fn extract_u16_le(data: &[u8], start: usize) -> (val: u16)
    requires
        start + 2 <= data@.len(),
    ensures
        val == le_u16(data@, start as int),
{
    let b0: u16 = data[start] as u16;
    let b1: u16 = data[start + 1] as u16;
    b0 + b1 * 0x100
}

/// Writes `val` at `start`, most significant byte first.
pub fn write_u32(data: &mut [u8], start: usize, val: u32)
    requires
        start + 4 <= old(data)@.len(),
    ensures
        final(data)@ == overwrite(old(data)@, start as int, be_bytes_u32(val)),
{
    data[start] = (val / 0x100_0000) as u8;
    data[start + 1] = (val / 0x1_0000 % 0x100) as u8;
    data[start + 2] = (val / 0x100 % 0x100) as u8;
    data[start + 3] = (val % 0x100) as u8;
    assert(data@ =~= overwrite(old(data)@, start as int, be_bytes_u32(val)));
}

/// Writes `val` at `start`, least significant byte first.
pub fn write_u32_le(data: &mut [u8], start: usize, val: u32)
    requires
        start + 4 <= old(data)@.len(),
    ensures
        final(data)@ == overwrite(old(data)@, start as int, le_bytes_u32(val)),
{
    data[start] = (val % 0x100) as u8;
    data[start + 1] = (val / 0x100 % 0x100) as u8;
    data[start + 2] = (val / 0x1_0000 % 0x100) as u8;
    data[start + 3] = (val / 0x100_0000) as u8;
    assert(data@ =~= overwrite(old(data)@, start as int, le_bytes_u32(val)));
}

/// Writes `val` at `start`, most significant byte first.
pub fn write_u16(data: &mut [u8], start: usize, val: u16)
    requires
        start + 2 <= old(data)@.len(),
    ensures
        final(data)@ == overwrite(old(data)@, start as int, be_bytes_u16(val)),
{
    data[start] = (val / 0x100) as u8;
    data[start + 1] = (val % 0x100) as u8;
    assert(data@ =~= overwrite(old(data)@, start as int, be_bytes_u16(val)));
}

/// Writes `val` at `start`, least significant byte first.
pub fn write_u16_le(data: &mut [u8], start: usize, val: u16)
    requires
        start + 2 <= old(data)@.len(),
    ensures
        final(data)@ == overwrite(old(data)@, start as int, le_bytes_u16(val)),
{
    data[start] = (val % 0x100) as u8;
    data[start + 1] = (val / 0x100) as u8;
    assert(data@ =~= overwrite(old(data)@, start as int, le_bytes_u16(val)));
}

} // verus!
