use byteorder::ByteOrder;
use vstd::prelude::*;

verus! {

/// The number whose two little-endian bytes open `bytes`.
pub open spec fn le_u16(bytes: Seq<u8>) -> int {
    bytes[0] as int + 256 * bytes[1] as int
}

/// The number whose four little-endian bytes open `bytes`.
pub open spec fn le_u32(bytes: Seq<u8>) -> int {
    bytes[0] as int + 256 * bytes[1] as int + 65536 * bytes[2] as int + 16777216
        * bytes[3] as int
}

/// `byteorder::LittleEndian::read_u16`: the unsigned number held, low byte
/// first, in the first two bytes of `buf`. It panics on a shorter slice,
/// which `requires` leaves out.
#[verifier::external_body]
pub(crate) fn read_u16(buf: &[u8]) -> (value: u16)
    requires
        buf@.len() >= 2,
    ensures
        value as int == le_u16(buf@),
{
    byteorder::LittleEndian::read_u16(buf)
}

/// `byteorder::LittleEndian::read_u32`: the unsigned number held, low byte
/// first, in the first four bytes of `buf`. It panics on a shorter slice,
/// which `requires` leaves out.
#[verifier::external_body]
pub(crate) fn read_u32(buf: &[u8]) -> (value: u32)
    requires
        buf@.len() >= 4,
    ensures
        value as int == le_u32(buf@),
{
    byteorder::LittleEndian::read_u32(buf)
}

/// The 16-bit little-endian number at index `at` of `bytes`.
pub open spec fn le_u16_at(bytes: Seq<u8>, at: int) -> int {
    le_u16(bytes.subrange(at, at + 2))
}

/// The 32-bit little-endian number at index `at` of `bytes`.
pub open spec fn le_u32_at(bytes: Seq<u8>, at: int) -> int {
    le_u32(bytes.subrange(at, at + 4))
}

/// Reads the 16-bit little-endian number at index `at` of `bytes`.
pub fn u16_at(bytes: &Vec<u8>, at: usize) -> (value: u16)
    requires
        at + 2 <= bytes@.len(),
    ensures
        value as int == le_u16_at(bytes@, at as int),
{
    let total: usize = bytes.len();
    assert(at + 2 <= total);
    read_u16(vstd::slice::slice_subrange(bytes.as_slice(), at, at + 2))
}

/// Reads the 32-bit little-endian number at index `at` of `bytes`.
pub fn u32_at(bytes: &Vec<u8>, at: usize) -> (value: u32)
    requires
        at + 4 <= bytes@.len(),
    ensures
        value as int == le_u32_at(bytes@, at as int),
{
    let total: usize = bytes.len();
    assert(at + 4 <= total);
    read_u32(vstd::slice::slice_subrange(bytes.as_slice(), at, at + 4))
}

} // verus!
