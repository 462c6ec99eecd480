use crate::vec_extension::{be_value, VecExtU8};
use vstd::prelude::*;

verus! {

/// Reflected form of the CRC-32 generator polynomial.
pub const CRC32_POLYNOMIAL: u32 = 0xEDB88320;

/// One bit step of the reflected CRC-32 register.
pub open spec fn crc32_bit_step(crc: u32) -> u32 {
    if crc & 1 != 0 {
        (crc >> 1u32) ^ CRC32_POLYNOMIAL
    } else {
        crc >> 1u32
    }
}

/// The register after shifting in one byte, least significant bit first.
pub open spec fn crc32_byte_step(crc: u32, byte: u8) -> u32 {
    crc32_bits(crc ^ (byte as u32), 8)
}

/// The register after `n` bit steps.
pub open spec fn crc32_bits(crc: u32, n: nat) -> u32
    decreases n,
{
    if n == 0 {
        crc
    } else {
        crc32_bits(crc32_bit_step(crc), (n - 1) as nat)
    }
}

/// The register after feeding every byte of `data` into `init`.
pub open spec fn crc32_register(init: u32, data: Seq<u8>) -> u32
    decreases data.len(),
{
    if data.len() == 0 {
        init
    } else {
        crc32_byte_step(crc32_register(init, data.drop_last()), data.last())
    }
}

/// Standard CRC-32 (initial value and final XOR both all ones).
pub open spec fn crc32(data: Seq<u8>) -> u32 {
    crc32_register(0xFFFF_FFFFu32, data) ^ 0xFFFF_FFFFu32
}

/// Computes the CRC-32 checksum of `data`.
pub fn calculate_crc_32(data: &Vec<u8>) -> (r: u32)
    ensures
        r == crc32(data@),
{
    let mut crc: u32 = 0xFFFF_FFFF;
    let mut i: usize = 0;
    while i < data.len()
        invariant
            i <= data@.len(),
            crc == crc32_register(0xFFFF_FFFFu32, data@.subrange(0, i as int)),
        decreases data@.len() - i,
    {
        let byte = data[i];
        crc = crc ^ (byte as u32);
        let ghost start = crc;
        let mut k: u32 = 0;
        while k < 8
            invariant
                k <= 8,
                crc32_bits(crc, (8 - k) as nat) == crc32_bits(start, 8),
            decreases 8 - k,
        {
            if (crc & 1) != 0 {
                crc = (crc >> 1) ^ CRC32_POLYNOMIAL;
            } else {
                crc = crc >> 1;
            }
            k = k + 1;
        }
        proof {
            let s = data@.subrange(0, i as int + 1);
            assert(s.drop_last() =~= data@.subrange(0, i as int));
        }
        i = i + 1;
    }
    proof {
        assert(data@.subrange(0, i as int) =~= data@);
    }
    crc ^ 0xFFFF_FFFF
}


/// Whether `supplied_crc`, four bytes most significant first, is the CRC-32
/// of `chunk_data`.
pub fn validate_crc_32(chunk_data: &Vec<u8>, supplied_crc: Vec<u8>) -> (r: bool)
    requires
        supplied_crc@.len() == 4,
    ensures
        r == (crc32(chunk_data@) as nat == be_value(supplied_crc@)),
{
    let correct_crc = calculate_crc_32(chunk_data);
    correct_crc == supplied_crc.to_u32()
}

} // verus!
