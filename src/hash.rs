use vstd::prelude::*;

verus! {

/// The 32-bit xxHash, with seed zero, of a byte sequence.
pub uninterp spec fn xxh32(data: Seq<u8>) -> u32;

/// Relies on `twox_hash::XxHash32::oneshot` with seed zero: the 32-bit
/// xxHash of the bytes, which depends on the bytes alone.
#[verifier::external_body]
pub(crate) fn checksum(data: &[u8]) -> (r: u32)
    ensures
        r == xxh32(data@),
{
    twox_hash::XxHash32::oneshot(0, data)
}

} // verus!
