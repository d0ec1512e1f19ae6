//! The integrity-code module: a 32-bit CRC over a byte payload, computed by
//! the `crc32fast` crate, and a verified validation predicate over it.

use vstd::prelude::*;

verus! {

/// The CRC-32 (IEEE) code of a byte sequence, as `crc32fast` computes it: a
/// pure function of the bytes alone.
pub uninterp spec fn crc32_of(data: Seq<u8>) -> u32;

/// Whether a stored code matches a payload's own checksum.
pub open spec fn checksum_matches(data: Seq<u8>, code: u32) -> bool {
    crc32_of(data) == code
}

/// Relies on `crc32fast::hash`: the CRC-32 (IEEE) code of the input bytes.
#[verifier::external_body]
pub fn calculate(data: &[u8]) -> (r: u32)
    ensures
        r == crc32_of(data@),
{
    crc32fast::hash(data)
}

/// Whether `expected` is the checksum of `data`.
pub fn validate(data: &[u8], expected: u32) -> (r: bool)
    ensures
        r == checksum_matches(data@, expected),
{
    calculate(data) == expected
}

/// A payload always validates against its own freshly computed code.
pub proof fn lemma_validate_own_code(data: Seq<u8>)
    ensures
        checksum_matches(data, crc32_of(data)),
{
}

} // verus!
