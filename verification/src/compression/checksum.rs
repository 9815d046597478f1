//! The checksum that follows a block in Avro's Snappy codec.

use vstd::prelude::*;

verus! {

/// One bit of a division by the reversed CRC-32 polynomial.
pub open spec fn crc32_bit(register: u32) -> u32 {
    if register & 1 == 1 {
        (register >> 1) ^ 0xedb88320
    } else {
        register >> 1
    }
}

/// `n` bits of a division by the reversed CRC-32 polynomial.
pub open spec fn crc32_bits(register: u32, n: nat) -> u32
    decreases n,
{
    if n == 0 {
        register
    } else {
        crc32_bit(crc32_bits(register, (n - 1) as nat))
    }
}

/// The register of the division after `bytes`.
pub open spec fn crc32_register(bytes: Seq<u8>) -> u32
    decreases bytes.len(),
{
    if bytes.len() == 0 {
        0xffffffff
    } else {
        crc32_bits(crc32_register(bytes.drop_last()) ^ bytes.last() as u32, 8)
    }
}

/// The CRC-32 checksum of ISO/HDLC.
pub open spec fn crc32(bytes: Seq<u8>) -> u32 {
    crc32_register(bytes) ^ 0xffffffff
}

/// `crc::Crc::<u32>::checksum` for `crc::CRC_32_ISO_HDLC`.
///
/// Taken on trust: it is the reflected CRC of polynomial 0x04c11db7, with all
/// bits set at the start and inverted at the end.
#[verifier::external_body]
pub(crate) fn checksum(bytes: &[u8]) -> (sum: u32)
    ensures
        sum == crc32(bytes@),
{
    crc::Crc::<u32>::new(&crc::CRC_32_ISO_HDLC).checksum(bytes)
}

/// The bytes of an integer, the most significant one first.
pub open spec fn be_bytes(value: u32) -> Seq<u8> {
    seq![
        (value / 0x1000000) as u8,
        (value / 0x10000 % 0x100) as u8,
        (value / 0x100 % 0x100) as u8,
        (value % 0x100) as u8,
    ]
}

/// Appends the checksum of `data` to a compressed block.
pub fn append_checksum(block: Vec<u8>, data: &[u8]) -> (framed: Vec<u8>)
    ensures
        framed@ == block@ + be_bytes(crc32(data@)),
{
    let mut framed: Vec<u8> = block;
    let sum: u32 = checksum(data);
    framed.push((sum / 0x1000000) as u8);
    framed.push((sum / 0x10000 % 0x100) as u8);
    framed.push((sum / 0x100 % 0x100) as u8);
    framed.push((sum % 0x100) as u8);
    assert(framed@ =~= block@ + be_bytes(crc32(data@)));
    framed
}

/// Whether the four bytes in `trailer` are the checksum of `data`.
pub fn checksum_matches(data: &[u8], trailer: &[u8]) -> (same: bool)
    requires
        trailer@.len() == 4,
    ensures
        same == (trailer@ == be_bytes(crc32(data@))),
{
    let sum: u32 = checksum(data);
    let same: bool = trailer[0] == (sum / 0x1000000) as u8 && trailer[1] == (sum / 0x10000
        % 0x100) as u8 && trailer[2] == (sum / 0x100 % 0x100) as u8 && trailer[3] == (sum
        % 0x100) as u8;
    proof {
        if same {
            assert(trailer@ =~= be_bytes(sum));
        }
    }
    same
}

} // verus!
