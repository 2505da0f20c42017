//! The standard CRC-32 (IEEE 802.3 / zlib, reflected polynomial
//! `0xEDB88320`), computed bit by bit. A running value is seeded with
//! `0xFFFFFFFF`, fed with bytes, and finalised by XOR with `0xFFFFFFFF`.

use vstd::prelude::*;

verus! {

/// The reflected CRC-32 generator polynomial.
pub const CRC32_POLY: u32 = 0xEDB8_8320;

/// Seed of a running CRC-32, and the mask that finalises it.
pub const CRC32_INIT: u32 = 0xFFFF_FFFF;

/// One bit of polynomial division: shift right, and fold in the polynomial
/// when the bit shifted out was set.
pub open spec fn crc_shift(c: u32) -> u32 {
    if c & 1 == 1 {
        (c >> 1) ^ CRC32_POLY
    } else {
        c >> 1
    }
}

/// `n` bits of polynomial division.
pub open spec fn crc_shifts(c: u32, n: nat) -> u32
    decreases n,
{
    if n == 0 {
        c
    } else {
        crc_shift(crc_shifts(c, (n - 1) as nat))
    }
}

/// Feeding one byte into a running CRC.
pub open spec fn crc_byte(c: u32, b: u8) -> u32 {
    crc_shifts(c ^ (b as u32), 8)
}

/// Feeding the bytes `data`, first to last, into the running CRC `c`.
pub open spec fn crc_feed(c: u32, data: Seq<u8>) -> u32
    decreases data.len(),
{
    if data.len() == 0 {
        c
    } else {
        crc_byte(crc_feed(c, data.drop_last()), data.last())
    }
}

/// The CRC-32 of `data`: seeded, fed with every byte, finalised.
pub open spec fn crc32(data: Seq<u8>) -> u32 {
    crc_feed(CRC32_INIT, data) ^ CRC32_INIT
}

/// A running CRC can be fed in pieces: feeding `a` and then `b` gives the
/// same value as feeding `a + b` at once. So a checksum kept over an image
/// that arrives block by block is the checksum of the whole image.
pub proof fn lemma_crc_feed_concat(c: u32, a: Seq<u8>, b: Seq<u8>)
    ensures
        crc_feed(crc_feed(c, a), b) == crc_feed(c, a + b),
    decreases b.len(),
{
    if b.len() == 0 {
        assert(a + b =~= a);
    } else {
        lemma_crc_feed_concat(c, a, b.drop_last());
        assert((a + b).drop_last() =~= a + b.drop_last());
        assert((a + b).last() == b.last());
    }
}

/// Eight bits of polynomial division, spelled out.
pub open spec fn crc_shift8(x: u32) -> u32 {
    crc_shift(crc_shift(crc_shift(crc_shift(crc_shift(crc_shift(crc_shift(crc_shift(x))))))))
}

proof fn lemma_crc_byte_unfold(c: u32, b: u8)
    ensures
        crc_byte(c, b) == crc_shift8(c ^ (b as u32)),
{
    reveal_with_fuel(crc_shifts, 9);
}

/// A byte enters the running value through its eight bits only: feeding `b`
/// is the same as folding `b` into the low byte of the value and feeding a
/// zero byte.
pub proof fn lemma_crc_byte_is_eight_bits(c: u32, b: u8)
    ensures
        crc_byte(c, b) == crc_byte(c ^ (b as u32), 0),
{
    lemma_crc_byte_unfold(c, b);
    lemma_crc_byte_unfold(c ^ (b as u32), 0);
    assert((c ^ (b as u32)) ^ (0u8 as u32) == c ^ (b as u32)) by (bit_vector);
}

/// The byte step is the table-driven CRC-32 step: the running value moves
/// down eight bits and is XORed with the table entry of the byte that left
/// it, where the table entry of `i` is the CRC step of `i` from zero.
pub proof fn lemma_crc_byte_table(c: u32, b: u8)
    ensures
        crc_byte(c, b) == (c >> 8) ^ crc_byte(0, ((c & 0xFF) as u8) ^ b),
{
    let i: u8 = ((c & 0xFF) as u8) ^ b;
    lemma_crc_byte_unfold(c, b);
    lemma_crc_byte_unfold(0, i);
    assert(crc_shift8(c ^ (b as u32)) == (c >> 8) ^ crc_shift8(0u32 ^ (i as u32))) by (bit_vector)
        requires
            i == ((c & 0xFF) as u8) ^ b,
    ;
}

/// Check values of the standard CRC-32, bytes with the top bit set included:
/// `\x80` gives `0x3FBA6CAD`, `\xE9` gives `0x0BD4B551`, `\xFF` gives
/// `0xFF000000`, `a` gives `0xE8B7BE43`.
pub proof fn lemma_crc32_check_values()
    ensures
        crc32(seq![0x80u8]) == 0x3FBA_6CADu32,
        crc32(seq![0xE9u8]) == 0x0BD4_B551u32,
        crc32(seq![0xFFu8]) == 0xFF00_0000u32,
        crc32(seq![0x61u8]) == 0xE8B7_BE43u32,
{
    assert forall|b: u8| #[trigger] crc32(seq![b]) == crc_shift8(0xFFFF_FFFFu32 ^ (b as u32))
        ^ 0xFFFF_FFFFu32 by {
        assert(seq![b].drop_last() =~= Seq::<u8>::empty());
        assert(seq![b].last() == b);
        assert(crc_feed(CRC32_INIT, seq![b].drop_last()) == CRC32_INIT);
        lemma_crc_byte_unfold(CRC32_INIT, b);
    }
    assert(crc_shift8(0xFFFF_FFFFu32 ^ 0x80u32) ^ 0xFFFF_FFFFu32 == 0x3FBA_6CADu32) by (bit_vector);
    assert(crc_shift8(0xFFFF_FFFFu32 ^ 0xE9u32) ^ 0xFFFF_FFFFu32 == 0x0BD4_B551u32) by (bit_vector);
    assert(crc_shift8(0xFFFF_FFFFu32 ^ 0xFFu32) ^ 0xFFFF_FFFFu32 == 0xFF00_0000u32) by (bit_vector);
    assert(crc_shift8(0xFFFF_FFFFu32 ^ 0x61u32) ^ 0xFFFF_FFFFu32 == 0xE8B7_BE43u32) by (bit_vector);
    assert(crc32(seq![0x80u8]) == crc_shift8(0xFFFF_FFFFu32 ^ (0x80u8 as u32)) ^ 0xFFFF_FFFFu32);
    assert(crc32(seq![0xE9u8]) == crc_shift8(0xFFFF_FFFFu32 ^ (0xE9u8 as u32)) ^ 0xFFFF_FFFFu32);
    assert(crc32(seq![0xFFu8]) == crc_shift8(0xFFFF_FFFFu32 ^ (0xFFu8 as u32)) ^ 0xFFFF_FFFFu32);
    assert(crc32(seq![0x61u8]) == crc_shift8(0xFFFF_FFFFu32 ^ (0x61u8 as u32)) ^ 0xFFFF_FFFFu32);
}

/// Feeds the bytes of `data` into the running CRC `crc` and returns the new
/// running value. Seed with `0xFFFFFFFF` and XOR the result with
/// `0xFFFFFFFF` to get the CRC-32 of the data.
pub fn crc32_update(crc: u32, data: &[u8]) -> (r: u32)
    ensures
        r == crc_feed(crc, data@),
{
    let mut crc = crc;
    let ghost start = crc;
    let mut i: usize = 0;
    while i < data.len()
        invariant
            0 <= i <= data.len(),
            crc == crc_feed(start, data@.take(i as int)),
        decreases data.len() - i,
    {
        let byte = data[i];
        assert(data@.take(i as int + 1).drop_last() =~= data@.take(i as int));
        crc = crc ^ (byte as u32);
        let ghost fed = crc;
        let mut k: u32 = 0;
        while k < 8
            invariant
                0 <= k <= 8,
                crc == crc_shifts(fed, k as nat),
            decreases 8 - k,
        {
            let low = crc & 1;
            assert(low <= 1) by (bit_vector)
                requires
                    low == crc & 1,
            ;
            let mask = 0u32.wrapping_sub(low);
            assert(mask == if low == 1 { 0xFFFF_FFFFu32 } else { 0u32 });
            let next = (crc >> 1) ^ (CRC32_POLY & mask);
            assert(next == crc_shift(crc)) by (bit_vector)
                requires
                    low == crc & 1,
                    mask == if low == 1 { 0xFFFF_FFFFu32 } else { 0u32 },
                    next == (crc >> 1) ^ (0xEDB8_8320u32 & mask),
            ;
            crc = next;
            k = k + 1;
        }
        i = i + 1;
    }
    assert(data@.take(data.len() as int) =~= data@);
    crc
}

} // verus!
