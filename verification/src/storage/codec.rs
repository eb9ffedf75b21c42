//! Fixed-width little-endian encoding of 32-bit unsigned integers.

use vstd::prelude::*;

verus! {

/// The value of four bytes read least significant byte first.
pub open spec fn le_u32(b0: u8, b1: u8, b2: u8, b3: u8) -> u32 {
    (b0 as int + 256 * (b1 as int) + 65536 * (b2 as int) + 16777216 * (b3 as int)) as u32
}

/// The integer that `data` holds in the four bytes from `pos` on.
pub open spec fn le_u32_at(data: Seq<u8>, pos: int) -> u32 {
    le_u32(data[pos], data[pos + 1], data[pos + 2], data[pos + 3])
}

/// The four bytes of `x`, least significant first.
pub open spec fn le_bytes(x: u32) -> Seq<u8> {
    seq![
        (x % 256) as u8,
        ((x / 256) % 256) as u8,
        ((x / 65536) % 256) as u8,
        ((x / 16777216) % 256) as u8,
    ]
}

/// Reading back the bytes of `x` gives `x`.
pub proof fn lemma_le_bytes_decode(x: u32)
    ensures
        le_bytes(x).len() == 4,
        le_u32_at(le_bytes(x), 0) == x,
{
}

/// Decodes four bytes as a little-endian `u32`.
pub fn decode_u32(b0: u8, b1: u8, b2: u8, b3: u8) -> (x: u32)
    ensures
        x == le_u32(b0, b1, b2, b3),
{
    let lo: u32 = b0 as u32 + 256 * (b1 as u32);
    let hi: u32 = b2 as u32 + 256 * (b3 as u32);
    lo + 65536 * hi
}

/// Reads the little-endian `u32` that starts at `pos`.
pub fn read_u32(data: &[u8], pos: usize) -> (x: u32)
    requires
        pos + 4 <= data@.len(),
    ensures
        x == le_u32_at(data@, pos as int),
{
    decode_u32(data[pos], data[pos + 1], data[pos + 2], data[pos + 3])
}

/// Appends the four little-endian bytes of `x` to `out`.
pub fn write_u32(out: &mut Vec<u8>, x: u32)
    ensures
        final(out)@ == old(out)@ + le_bytes(x),
{
    out.push((x % 256) as u8);
    out.push(((x / 256) % 256) as u8);
    out.push(((x / 65536) % 256) as u8);
    out.push(((x / 16777216) % 256) as u8);
    assert(out@ =~= old(out)@ + le_bytes(x));
}

} // verus!
