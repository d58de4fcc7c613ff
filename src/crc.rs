//! CRC-32 as PNG uses it: polynomial 0xEDB88320 (bit-reversed), initial value
//! and final XOR 0xFFFFFFFF. It is defined bit by bit (each byte is XORed into
//! the register, which then takes eight bit steps) and computed with a table,
//! one lookup per byte.
use vstd::prelude::*;

verus! {

/// One bit step of the CRC register.
pub open spec fn crc_bit_step(c: u32) -> u32 {
    if c & 1u32 == 1u32 {
        0xedb8_8320u32 ^ (c >> 1u32)
    } else {
        c >> 1u32
    }
}

/// `c` after `k` bit steps.
pub open spec fn crc_bit_steps(c: u32, k: nat) -> u32
    decreases k,
{
    if k == 0 {
        c
    } else {
        crc_bit_step(crc_bit_steps(c, (k - 1) as nat))
    }
}

/// Entry `n` of the byte table: `n` after eight bit steps.
pub open spec fn crc_table_entry(n: u32) -> u32 {
    crc_bit_steps(n, 8)
}

/// The register `c` after feeding it the byte `b`: `b` is XORed into the low
/// bits, then the register takes eight bit steps.
pub open spec fn crc_byte(c: u32, b: u8) -> u32 {
    crc_bit_steps(c ^ (b as u32), 8)
}

/// The CRC register after feeding `data`, byte by byte, into a register holding `c`.
pub open spec fn crc_register(c: u32, data: Seq<u8>) -> u32
    decreases data.len(),
{
    if data.len() == 0 {
        c
    } else {
        crc_byte(crc_register(c, data.drop_last()), data.last())
    }
}

/// The register after feeding `data` with one table lookup per byte.
pub open spec fn crc_update(c: u32, data: Seq<u8>) -> u32
    decreases data.len(),
{
    if data.len() == 0 {
        c
    } else {
        let prev = crc_update(c, data.drop_last());
        crc_table_entry((prev ^ (data.last() as u32)) & 0xffu32) ^ (prev >> 8u32)
    }
}

/// The CRC-32 of `data`.
#[verifier::opaque]
pub open spec fn crc32(data: Seq<u8>) -> u32 {
    crc_register(0xffff_ffffu32, data) ^ 0xffff_ffffu32
}

/// A bit step distributes over XOR.
proof fn lemma_bit_step_xor(x: u32, y: u32)
    ensures
        crc_bit_step(x ^ y) == crc_bit_step(x) ^ crc_bit_step(y),
{
    let z = x ^ y;
    assert((if z & 1u32 == 1u32 { 0xedb8_8320u32 ^ (z >> 1u32) } else { z >> 1u32 }) == (if x & 1u32
        == 1u32 {
        0xedb8_8320u32 ^ (x >> 1u32)
    } else {
        x >> 1u32
    }) ^ (if y & 1u32 == 1u32 { 0xedb8_8320u32 ^ (y >> 1u32) } else { y >> 1u32 })) by (bit_vector)
        requires
            z == x ^ y,
    ;
}

/// Any number of bit steps distributes over XOR.
proof fn lemma_bit_steps_xor(x: u32, y: u32, k: nat)
    ensures
        crc_bit_steps(x ^ y, k) == crc_bit_steps(x, k) ^ crc_bit_steps(y, k),
    decreases k,
{
    if k > 0 {
        lemma_bit_steps_xor(x, y, (k - 1) as nat);
        lemma_bit_step_xor(crc_bit_steps(x, (k - 1) as nat), crc_bit_steps(y, (k - 1) as nat));
    }
}

/// A register whose low eight bits are clear only shifts during the first eight steps.
proof fn lemma_bit_steps_high(h: u32, k: nat)
    requires
        h & 0xffu32 == 0,
        k <= 8,
    ensures
        crc_bit_steps(h, k) == h >> (k as u32),
    decreases k,
{
    if k == 0 {
        assert(h >> 0u32 == h) by (bit_vector);
    } else {
        lemma_bit_steps_high(h, (k - 1) as nat);
        let j = (k - 1) as u32;
        assert(((h >> j) & 1u32) == 0u32 && (h >> j) >> 1u32 == h >> (j + 1)) by (bit_vector)
            requires
                h & 0xffu32 == 0,
                j < 8,
        ;
    }
}

/// One table lookup does what eight bit steps do.
pub proof fn lemma_table_step(c: u32, b: u8)
    ensures
        crc_table_entry((c ^ (b as u32)) & 0xffu32) ^ (c >> 8u32) == crc_byte(c, b),
{
    let bb = b as u32;
    let low = (c ^ bb) & 0xffu32;
    let high = c & 0xffff_ff00u32;
    assert(c ^ bb == low ^ high && high & 0xffu32 == 0 && high >> 8u32 == c >> 8u32) by (bit_vector)
        requires
            bb <= 255,
            low == (c ^ bb) & 0xffu32,
            high == c & 0xffff_ff00u32,
    ;
    lemma_bit_steps_xor(low, high, 8);
    lemma_bit_steps_high(high, 8);
}

/// Feeding bytes through the table gives the bit-by-bit register.
pub proof fn lemma_table_update(c: u32, data: Seq<u8>)
    ensures
        crc_update(c, data) == crc_register(c, data),
    decreases data.len(),
{
    if data.len() > 0 {
        lemma_table_update(c, data.drop_last());
        lemma_table_step(crc_register(c, data.drop_last()), data.last());
    }
}

///Table for fast CRC computation: entry `n` is the register `n` after eight bit steps
pub fn compute_crc_table() -> (r: [u32; 256])
    ensures
        forall|n: int| 0 <= n < 256 ==> #[trigger] r[n] == crc_table_entry(n as u32),
{
    let mut output = [0u32; 256];
    let mut n: u32 = 0;
    while n < 256
        invariant
            0 <= n <= 256,
            forall|m: int| 0 <= m < n ==> #[trigger] output[m] == crc_table_entry(m as u32),
        decreases 256 - n,
    {
        let mut c = n;
        let mut k: u32 = 0;
        while k < 8
            invariant
                0 <= k <= 8,
                c == crc_bit_steps(n, k as nat),
            decreases 8 - k,
        {
            if c & 1 == 1 {
                c = 0xedb8_8320 ^ (c >> 1);
            } else {
                c = c >> 1;
            }
            k = k + 1;
        }
        output[n as usize] = c;
        n = n + 1;
    }
    output
}

///Calculates 32bit CRC
pub fn compute_crc(data: &[u8]) -> (r: u32)
    ensures
        r == crc32(data@),
{
    let mut c = u32::MAX;
    let table = compute_crc_table();
    let mut i: usize = 0;
    while i < data.len()
        invariant
            0 <= i <= data@.len(),
            c == crc_update(0xffff_ffffu32, data@.take(i as int)),
            forall|n: int| 0 <= n < 256 ==> #[trigger] table[n] == crc_table_entry(n as u32),
        decreases data@.len() - i,
    {
        let b = data[i] as u32;
        let idx = (c ^ b) & 0xff;
        assert(idx < 256) by (bit_vector)
            requires
                idx == (c ^ b) & 0xff,
        ;
        proof {
            assert(data@.take(i as int + 1).drop_last() =~= data@.take(i as int));
        }
        c = table[idx as usize] ^ (c >> 8);
        i = i + 1;
    }
    proof {
        assert(data@.take(i as int) =~= data@);
        reveal(crc32);
        lemma_table_update(0xffff_ffffu32, data@);
    }
    c ^ u32::MAX
}

/// The CRC-32 of the empty sequence is 0.
pub proof fn lemma_crc_of_empty()
    ensures
        crc32(Seq::empty()) == 0,
{
    reveal(crc32);
    assert(0xffff_ffffu32 ^ 0xffff_ffffu32 == 0u32) by (bit_vector);
}

} // verus!
