//! The cyclic redundancy check carried by the trailing four bytes of most
//! frames.
//!
//! The polynomial is the reflected Ethernet polynomial; the register starts
//! all-ones and the final value is complemented.

use vstd::prelude::*;

verus! {

/// One bit step of the reflected checksum register.
pub open spec fn crc_bit_step(c: u32) -> u32 {
    if c & 1 == 1 {
        (c >> 1) ^ 0xEDB88320
    } else {
        c >> 1
    }
}

/// `k` bit steps of the checksum register.
pub open spec fn crc_bits(c: u32, k: nat) -> u32
    decreases k,
{
    if k == 0 {
        c
    } else {
        crc_bit_step(crc_bits(c, (k - 1) as nat))
    }
}

/// The register after absorbing every byte of `bytes`, starting from `c`.
pub open spec fn crc_accum(c: u32, bytes: Seq<u8>) -> u32
    decreases bytes.len(),
{
    if bytes.len() == 0 {
        c
    } else {
        crc_accum(crc_bits(c ^ bytes.first() as u32, 8), bytes.drop_first())
    }
}

/// The checksum of a byte sequence.
pub open spec fn spec_crc32(bytes: Seq<u8>) -> u32 {
    !crc_accum(0xFFFFFFFFu32, bytes)
}

proof fn lemma_crc_accum_push(c: u32, s: Seq<u8>, x: u8)
    ensures
        crc_accum(c, s.push(x)) == crc_bits(crc_accum(c, s) ^ x as u32, 8),
    decreases s.len(),
{
    if s.len() == 0 {
        assert(s.push(x).first() == x);
        assert(s.push(x).drop_first() =~= Seq::<u8>::empty());
        assert(crc_accum(c, s.push(x)) == crc_accum(crc_bits(c ^ x as u32, 8), Seq::<u8>::empty()));
    } else {
        assert(s.push(x).drop_first() =~= s.drop_first().push(x));
        assert(s.push(x).first() == s.first());
        lemma_crc_accum_push(crc_bits(c ^ s.first() as u32, 8), s.drop_first(), x);
    }
}

/// The checksum of `b[start..end]`.
pub fn crc32_range(b: &Vec<u8>, start: usize, end: usize) -> (r: u32)
    requires
        start <= end <= b@.len(),
    ensures
        r == spec_crc32(b@.subrange(start as int, end as int)),
{
    let mut c: u32 = 0xFFFF_FFFF;
    let mut i: usize = start;
    proof {
        assert(b@.subrange(start as int, start as int) =~= Seq::<u8>::empty());
    }
    while i < end
        invariant
            start <= i <= end <= b@.len(),
            c == crc_accum(0xFFFFFFFFu32, b@.subrange(start as int, i as int)),
        decreases end - i,
    {
        let ghost pre = b@.subrange(start as int, i as int);
        let x = b[i];
        c = c ^ (x as u32);
        let ghost c0 = c;
        let mut k: usize = 0;
        while k < 8
            invariant
                0 <= k <= 8,
                c == crc_bits(c0, k as nat),
            decreases 8 - k,
        {
            if c & 1 == 1 {
                c = (c >> 1) ^ 0xEDB8_8320;
            } else {
                c = c >> 1;
            }
            k = k + 1;
        }
        proof {
            assert(b@.subrange(start as int, i + 1) =~= pre.push(b@[i as int]));
            lemma_crc_accum_push(0xFFFFFFFFu32, pre, b@[i as int]);
        }
        i = i + 1;
    }
    !c
}

} // verus!
