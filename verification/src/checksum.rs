use crate::error::BamErrorKind;
use vstd::prelude::*;

verus! {

/// The CRC-32 checksum of a run of bytes, as `crc32fast::hash` computes it.
pub uninterp spec fn crc32_of(bytes: Seq<u8>) -> u32;

/// `crc32fast::hash`: the CRC-32 checksum of all of `buffer`.
#[verifier::external_body]
pub(crate) fn calculate_crc32(buffer: &Vec<u8>) -> (crc: u32)
    ensures
        crc == crc32_of(buffer@),
{
    crc32fast::hash(buffer)
}

/// What a block's trailer says of a payload of `len` bytes whose checksum is
/// `crc`: a wrong checksum is reported before a wrong size.
pub open spec fn trailer_verdict(len: int, crc: int, crc_declared: int, isize_declared: int)
    -> Result<(), BamErrorKind> {
    if crc != crc_declared {
        Err(BamErrorKind::InconsistentChecksum)
    } else if len != isize_declared {
        Err(BamErrorKind::InconsistentBlockSize)
    } else {
        Ok(())
    }
}

/// Holds the checksum and the length of an inflated payload against the two
/// numbers of the block's trailer.
pub fn check_trailer(len: usize, crc: u32, crc_declared: u32, isize_declared: u32) -> (verdict:
    Result<(), BamErrorKind>)
    ensures
        verdict == trailer_verdict(
            len as int,
            crc as int,
            crc_declared as int,
            isize_declared as int,
        ),
{
    if crc != crc_declared {
        Err(BamErrorKind::InconsistentChecksum)
    } else if len as u64 != isize_declared as u64 {
        Err(BamErrorKind::InconsistentBlockSize)
    } else {
        Ok(())
    }
}

} // verus!
