//! CRC-32 as PNG uses it.

use vstd::prelude::*;

verus! {

/// The CRC-32 (IEEE 802.3 polynomial, reflected, initial value and final
/// complement of all ones) of `bytes`.
pub uninterp spec fn crc32_ieee(bytes: Seq<u8>) -> u32;

/// `crc::crc32::checksum_ieee`. The crate computes the checksum from the bytes
/// alone, through a table fixed at build time, so the result is the same
/// wherever it runs; the contract gives that result its name and claims
/// nothing else of it.
#[verifier::external_body]
fn checksum_ieee(bytes: &[u8]) -> (sum: u32)
    ensures
        sum == crc32_ieee(bytes@),
{
    crc::crc32::checksum_ieee(bytes)
}

/// The CRC-32 of the `length` bytes of `data` that begin at `start`.
pub fn compute_checksum(data: &[u8], start: usize, length: usize) -> (sum: u32)
    requires
        start + length <= data@.len(),
    ensures
        sum == crc32_ieee(data@.subrange(start as int, start + length)),
{
    assert(data@.len() == data.len());
    checksum_ieee(vstd::slice::slice_subrange(data, start, start + length))
}

} // verus!
