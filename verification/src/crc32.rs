//! CRC-32 (IEEE 802.3, reflected polynomial `0xEDB88320`), the checksum of
//! the write-ahead log frames.

use vstd::prelude::*;

verus! {

/// The reflected generator polynomial.
pub const POLY: u32 = 0xEDB8_8320;

/// One shift of the CRC register.
pub open spec fn crc_bit(c: u32) -> u32 {
    if c & 1 == 1 {
        (c >> 1u32) ^ POLY
    } else {
        c >> 1u32
    }
}

/// `k` shifts of the CRC register.
pub open spec fn crc_bits(c: u32, k: nat) -> u32
    decreases k,
{
    if k == 0 {
        c
    } else {
        crc_bit(crc_bits(c, (k - 1) as nat))
    }
}

/// The register after feeding one byte.
pub open spec fn crc_byte(c: u32, b: u8) -> u32 {
    crc_bits(c ^ (b as u32), 8)
}

/// The register after feeding `s`, starting from all ones.
pub open spec fn crc_state(s: Seq<u8>) -> u32
    decreases s.len(),
{
    if s.len() == 0 {
        0xFFFF_FFFFu32
    } else {
        crc_byte(crc_state(s.drop_last()), s.last())
    }
}

/// The CRC-32 of a byte string: the final register, inverted.
pub open spec fn crc32_of(s: Seq<u8>) -> u32 {
    crc_state(s) ^ 0xFFFF_FFFFu32
}

fn crc_feed(c: u32, b: u8) -> (r: u32)
    ensures
        r == crc_byte(c, b),
{
    let start = c ^ (b as u32);
    let mut x = start;
    let mut k: u32 = 0;
    while k < 8
        invariant
            k <= 8,
            x == crc_bits(start, k as nat),
        decreases 8 - k,
    {
        x = if x & 1 == 1 {
            (x >> 1u32) ^ POLY
        } else {
            x >> 1u32
        };
        k = k + 1;
    }
    x
}

/// The CRC-32 of `data`.
pub fn crc32(data: &[u8]) -> (r: u32)
    ensures
        r == crc32_of(data@),
{
    let mut c: u32 = 0xFFFF_FFFF;
    let mut i: usize = 0;
    while i < data.len()
        invariant
            i <= data@.len(),
            c == crc_state(data@.take(i as int)),
        decreases data@.len() - i,
    {
        proof {
            assert(data@.take(i + 1).drop_last() =~= data@.take(i as int));
        }
        c = crc_feed(c, data[i]);
        i = i + 1;
    }
    assert(data@.take(data@.len() as int) =~= data@);
    c ^ 0xFFFF_FFFF
}

} // verus!
