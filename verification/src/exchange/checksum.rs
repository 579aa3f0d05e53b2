//! The CRC-32 of the exchange's journal: remainder of a division by a polynomial, bit
//! by bit, with the lowest bit first.
use vstd::prelude::*;

verus! {

/// One bit of the division.
pub open spec fn bit_step(c: u32) -> u32 {
    if c & 1 == 1 {
        (c >> 1) ^ 0xEDB8_8320
    } else {
        c >> 1
    }
}

/// Some bits of the division.
pub open spec fn bit_steps(c: u32, n: nat) -> u32
    decreases n,
{
    if n == 0 {
        c
    } else {
        bit_step(bit_steps(c, (n - 1) as nat))
    }
}

/// One byte of the division.
pub open spec fn byte_step(c: u32, b: u8) -> u32 {
    bit_steps(c ^ (b as u32), 8)
}

/// The division of some bytes.
pub open spec fn divided(data: Seq<u8>) -> u32
    decreases data.len(),
{
    if data.len() == 0 {
        0xFFFF_FFFF
    } else {
        byte_step(divided(data.drop_last()), data.last())
    }
}

/// The checksum of some bytes.
#[verifier::opaque]
pub open spec fn crc32_of(data: Seq<u8>) -> u32 {
    !divided(data)
}

/// The entry of the lookup table for a byte.
fn table_entry(i: u32) -> (r: u32)
    requires
        i < 256,
    ensures
        r == bit_steps(i, 8),
{
    let mut crc: u32 = i;
    let mut j: usize = 0;
    while j < 8
        invariant
            j <= 8,
            crc == bit_steps(i, j as nat),
        decreases 8 - j,
    {
        crc = if crc & 1 == 1 {
            (crc >> 1) ^ 0xEDB8_8320
        } else {
            crc >> 1
        };
        j = j + 1;
    }
    crc
}

/// The lookup table: what each byte comes to.
fn table() -> (r: Vec<u32>)
    ensures
        r@.len() == 256,
        forall|i: int| 0 <= i < 256 ==> (#[trigger] r@[i]) == bit_steps(i as u32, 8),
{
    let mut r: Vec<u32> = Vec::new();
    let mut i: u32 = 0;
    while i < 256
        invariant
            i <= 256,
            r@.len() == i,
            forall|k: int| 0 <= k < i ==> (#[trigger] r@[k]) == bit_steps(k as u32, 8),
        decreases 256 - i,
    {
        r.push(table_entry(i));
        i = i + 1;
    }
    r
}

/// The highest bits only move down while the lowest eight are divided.
proof fn lemma_bits_apart(c: u32)
    ensures
        bit_steps(c, 8) == (c >> 8) ^ bit_steps(c & 0xff, 8),
{
    reveal_with_fuel(bit_steps, 9);
    lemma_bits_of_both(c);
}

/// One bit of the division, where the part above the lowest eight bits is kept apart.
proof fn lemma_bits_of_both(c: u32)
    ensures
        bit_step(
            bit_step(bit_step(bit_step(bit_step(bit_step(bit_step(bit_step(c))))))),
        ) == (c >> 8) ^ bit_step(
            bit_step(
                bit_step(bit_step(bit_step(bit_step(bit_step(bit_step(c & 0xff)))))),
            ),
        ),
{
    assert(bit_step(
        bit_step(bit_step(bit_step(bit_step(bit_step(bit_step(bit_step(c))))))),
    ) == (c >> 8) ^ bit_step(
        bit_step(bit_step(bit_step(bit_step(bit_step(bit_step(bit_step(c & 0xff)))))),
        ),
    )) by (bit_vector);
}

/// Computes the checksum of some bytes.
pub fn crc32(data: &[u8]) -> (r: u32)
    ensures
        r == crc32_of(data@),
{
    let t = table();
    let mut crc: u32 = 0xFFFF_FFFF;
    let mut i: usize = 0;
    while i < data.len()
        invariant
            i <= data@.len(),
            t@.len() == 256,
            forall|k: int| 0 <= k < 256 ==> (#[trigger] t@[k]) == bit_steps(k as u32, 8),
            crc == divided(data@.take(i as int)),
        decreases data@.len() - i,
    {
        let b: u32 = data[i] as u32;
        let low: u32 = (crc ^ b) & 0xFF;
        proof {
            assert(data@.take(i + 1).drop_last() =~= data@.take(i as int));
            let x = crc ^ b;
            assert(x & 0xff < 256) by (bit_vector);
            assert(b < 256 ==> (crc ^ b) >> 8 == crc >> 8) by (bit_vector);
            lemma_bits_apart(x);
            assert(t@[low as int] == bit_steps(low, 8));
        }
        crc = (crc >> 8) ^ t[low as usize];
        i = i + 1;
    }
    proof {
        assert(data@.take(i as int) =~= data@);
        reveal(crc32_of);
    }
    !crc
}

} // verus!
