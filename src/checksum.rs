//! The frame checksum: CRC-16 with polynomial `0x8005`, most significant bit first.
use vstd::prelude::*;

verus! {

/// One bit of the CRC register update.
pub open spec fn crc_bit(c: u16) -> u16 {
    if c & 0x8000u16 != 0 {
        ((c << 1u16) ^ 0x8005u16) as u16
    } else {
        (c << 1u16) as u16
    }
}

/// `n` bits of the register update.
pub open spec fn crc_bits(c: u16, n: nat) -> u16
    decreases n,
{
    if n == 0 {
        c
    } else {
        crc_bits(crc_bit(c), (n - 1) as nat)
    }
}

/// The register after one more byte.
pub open spec fn crc_byte(c: u16, b: u8) -> u16 {
    crc_bits(c ^ ((b as u16) << 8u16), 8)
}

/// The checksum of `s`, starting from `seed`.
pub open spec fn crc16(seed: u16, s: Seq<u8>) -> u16
    decreases s.len(),
{
    if s.len() == 0 {
        seed
    } else {
        crc_byte(crc16(seed, s.drop_last()), s.last())
    }
}

/// Computes the checksum of `data`, starting from `seed` (0 for a fresh frame).
pub fn calculate_checksum(seed: u16, data: &[u8]) -> (r: u16)
    ensures
        r == crc16(seed, data@),
{
    let mut crc: u16 = seed;
    let mut i: usize = 0;
    while i < data.len()
        invariant
            i <= data@.len(),
            crc == crc16(seed, data@.take(i as int)),
        decreases data@.len() - i,
    {
        let b = data[i];
        let mut c: u16 = crc ^ ((b as u16) << 8u16);
        let ghost c0 = c;
        let mut k: u16 = 0;
        while k < 8
            invariant
                k <= 8,
                crc_bits(c0, 8) == crc_bits(c, (8 - k) as nat),
            decreases 8 - k,
        {
            c = if c & 0x8000u16 != 0 { (c << 1u16) ^ 0x8005u16 } else { c << 1u16 };
            k = k + 1;
        }
        proof {
            assert(data@.take(i + 1).drop_last() == data@.take(i as int));
        }
        crc = c;
        i = i + 1;
    }
    proof {
        assert(data@.take(data@.len() as int) == data@);
    }
    crc
}

} // verus!
