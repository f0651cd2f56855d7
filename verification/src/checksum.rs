//! The record checksum. The algorithm itself lives in the `crc` crate; this
//! module only gives its result a name that contracts can speak of.

use vstd::prelude::*;

verus! {

/// The CRC-32 (iSCSI polynomial) checksum of a byte sequence, as computed by
/// the `crc` crate. The result depends on the input bytes alone.
pub uninterp spec fn crc32_of(data: Seq<u8>) -> u32;

/// Relies on `crc::Crc::<u32>::checksum` with the `CRC_32_ISCSI` algorithm:
/// the checksum is a pure function of the input bytes.
#[verifier::external_body]
pub(crate) fn crc32(data: &[u8]) -> (r: u32)
    ensures
        r == crc32_of(data@),
{
    crc::Crc::<u32>::new(&crc::CRC_32_ISCSI).checksum(data)
}

} // verus!
