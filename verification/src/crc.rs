//! The CRC-8 engine: a bit-serial LFSR-style recurrence over a byte stream,
//! started from [`CRC_INIT`]. This is not a standard table-driven CRC; the
//! recurrence below is the definition of the checksum, bit for bit.

use vstd::prelude::*;

use crate::types::CRC_INIT;

verus! {

/// One bit step of the recurrence: consume the lowest bit of `b`.
pub open spec fn crc8_bit(crc: u8, b: u8) -> u8 {
    if (b ^ crc) & 1 == 1 {
        ((crc ^ 0x18) >> 1) | 0x80
    } else {
        (crc >> 1) & !0x80
    }
}

/// `k` bit steps, shifting `b` right by one between steps.
pub open spec fn crc8_bits(crc: u8, b: u8, k: nat) -> u8
    decreases k,
{
    if k == 0 {
        crc
    } else {
        crc8_bits(crc8_bit(crc, b), b >> 1, (k - 1) as nat)
    }
}

/// Folding one whole input byte into the accumulator: eight bit steps,
/// least significant bit first.
pub open spec fn crc8_byte(crc: u8, b: u8) -> u8 {
    crc8_bits(crc, b, 8)
}

/// Folding a byte sequence into the accumulator, front to back.
pub open spec fn crc_over(crc: u8, s: Seq<u8>) -> u8
    decreases s.len(),
{
    if s.len() == 0 {
        crc
    } else {
        crc_over(crc8_byte(crc, s[0]), s.skip(1))
    }
}

/// The checksum of a byte sequence: the fold started from [`CRC_INIT`].
/// Defined for the empty sequence, where it returns the initial constant.
pub open spec fn crc_of(s: Seq<u8>) -> u8 {
    crc_over(CRC_INIT, s)
}

/// Update a preinitialized CRC accumulator with one more data byte.
pub fn do_crc8(crc: &mut u8, data: u8)
    ensures
        *final(crc) == crc8_byte(*old(crc), data),
{
    let ghost c0: u8 = *crc;
    let mut b = data;
    let mut k: usize = 0;
    while k < 8
        invariant
            k <= 8,
            crc8_bits(*crc, b, (8 - k) as nat) == crc8_byte(c0, data),
        decreases 8 - k,
    {
        *crc = if (b ^ *crc) & 1 == 1 {
            ((*crc ^ 0x18) >> 1) | 0x80
        } else {
            (*crc >> 1) & !0x80
        };
        b = b >> 1;
        k = k + 1;
    }
}

/// The checksum of a byte slice.
pub fn do_crc_array(arr: &[u8]) -> (r: u8)
    ensures
        r == crc_of(arr@),
{
    let mut crc: u8 = CRC_INIT;
    let mut i: usize = 0;
    proof {
        assert(arr@.skip(0) =~= arr@);
    }
    while i < arr.len()
        invariant
            i <= arr@.len(),
            crc_over(crc, arr@.skip(i as int)) == crc_of(arr@),
        decreases arr@.len() - i,
    {
        proof {
            assert(arr@.skip(i as int)[0] == arr@[i as int]);
            assert(arr@.skip(i as int).skip(1) =~= arr@.skip(i as int + 1));
        }
        do_crc8(&mut crc, arr[i]);
        i = i + 1;
    }
    proof {
        assert(arr@.skip(arr@.len() as int) =~= Seq::<u8>::empty());
    }
    crc
}

/// The checksum of a byte vector.
pub fn do_crc_vec(arr: &Vec<u8>) -> (r: u8)
    ensures
        r == crc_of(arr@),
{
    do_crc_array(arr.as_slice())
}

} // verus!
