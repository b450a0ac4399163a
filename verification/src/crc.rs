//! CRC-32/MPEG-2, the checksum of PSI sections.

use vstd::prelude::*;

verus! {

/// The generator polynomial, without its leading term.
pub const POLYNOMIAL: u32 = 0x04C1_1DB7;

/// The register before the first byte.
pub const INITIAL: u32 = 0xFFFF_FFFF;

/// The register after one shift: the top bit leaves, and where it was set
/// the polynomial is added.
pub open spec fn shift_once(crc: u32) -> u32 {
    if crc & 0x8000_0000 != 0 {
        (crc << 1) ^ POLYNOMIAL
    } else {
        crc << 1
    }
}

/// The register after `n` shifts.
pub open spec fn shift(crc: u32, n: nat) -> u32
    decreases n,
{
    if n == 0 {
        crc
    } else {
        shift_once(shift(crc, (n - 1) as nat))
    }
}

/// The register after one more byte of the message: the byte is added to the
/// top eight bits, most significant bit first, and the register is shifted
/// eight times.
pub open spec fn update(crc: u32, byte: u8) -> u32 {
    shift(crc ^ ((byte as u32) << 24), 8)
}

/// CRC-32/MPEG-2 of a message: no reflection, no final inversion.
pub open spec fn crc32_mpeg2(data: Seq<u8>) -> u32
    decreases data.len(),
{
    if data.len() == 0 {
        INITIAL
    } else {
        update(crc32_mpeg2(data.drop_last()), data.last())
    }
}

/// Computes CRC-32/MPEG-2 of `data`.
pub fn mpeg2(data: &[u8]) -> (crc: u32)
    ensures
        crc == crc32_mpeg2(data@),
{
    let mut crc: u32 = INITIAL;
    let mut i: usize = 0;
    while i < data.len()
        invariant
            i <= data.len(),
            crc == crc32_mpeg2(data@.take(i as int)),
        decreases data.len() - i,
    {
        let start: u32 = crc ^ ((data[i] as u32) << 24);
        crc = start;
        let mut k: u8 = 0;
        while k < 8
            invariant
                k <= 8,
                crc == shift(start, k as nat),
            decreases 8 - k,
        {
            crc = if crc & 0x8000_0000 != 0 {
                (crc << 1) ^ POLYNOMIAL
            } else {
                crc << 1
            };
            k += 1;
        }
        proof {
            let next = data@.take(i + 1);
            assert(next.drop_last() =~= data@.take(i as int));
            assert(next.last() == data@[i as int]);
        }
        i += 1;
    }
    assert(data@.take(i as int) =~= data@);
    crc
}

} // verus!
