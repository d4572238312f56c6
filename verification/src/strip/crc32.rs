//! The checksum of PNG chunks.
use vstd::prelude::*;

verus! {

/// One step of the division by the polynomial, lowest bit first.
pub open spec fn crc_bit(c: u32) -> u32 {
    if c & 1 == 1 {
        (c >> 1) ^ 0xEDB8_8320
    } else {
        c >> 1
    }
}

pub open spec fn crc_bits(c: u32, n: nat) -> u32
    decreases n,
{
    if n == 0 {
        c
    } else {
        crc_bit(crc_bits(c, (n - 1) as nat))
    }
}

/// The remainder after the bytes of `b`, from the remainder `c` on.
pub open spec fn crc_bytes(c: u32, b: Seq<u8>) -> u32
    decreases b.len(),
{
    if b.len() == 0 {
        c
    } else {
        crc_bits(crc_bytes(c, b.drop_last()) ^ (b.last() as u32), 8)
    }
}

/// The IEEE CRC-32 of `b`.
pub open spec fn crc(b: Seq<u8>) -> u32 {
    !crc_bytes(0xFFFF_FFFF, b)
}

pub fn crc32(data: &[u8]) -> (r: u32)
    ensures
        r == crc(data@),
{
    let mut c: u32 = 0xFFFF_FFFF;
    let mut i: usize = 0;
    while i < data.len()
        invariant
            i <= data@.len(),
            c == crc_bytes(0xFFFF_FFFF, data@.take(i as int)),
        decreases data@.len() - i,
    {
        assert(data@.take(i + 1).drop_last() =~= data@.take(i as int));
        let start: u32 = c ^ (data[i] as u32);
        c = start;
        let mut n: u32 = 0;
        while n < 8
            invariant
                n <= 8,
                c == crc_bits(start, n as nat),
            decreases 8 - n,
        {
            c = if c & 1 == 1 {
                (c >> 1) ^ 0xEDB8_8320
            } else {
                c >> 1
            };
            n += 1;
        }
        i += 1;
    }
    assert(data@.take(data@.len() as int) =~= data@);
    !c
}

} // verus!
