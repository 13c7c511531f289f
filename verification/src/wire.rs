//! Little-endian 32-bit integers, the only number format on the wire.

use vstd::prelude::*;

verus! {

/// The value of four bytes read as a little-endian unsigned integer.
pub open spec fn le_u32(b: Seq<u8>) -> nat
    recommends
        b.len() >= 4,
{
    (b[0] as nat) + 256 * (b[1] as nat) + 65536 * (b[2] as nat) + 16777216 * (b[3] as nat)
}

/// The four bytes that stand for `x`, least significant first.
pub open spec fn le_bytes(x: nat) -> Seq<u8> {
    seq![
        (x % 256) as u8,
        ((x / 256) % 256) as u8,
        ((x / 65536) % 256) as u8,
        ((x / 16777216) % 256) as u8,
    ]
}

/// Decoding undoes encoding for every value that fits in 32 bits.
pub proof fn lemma_le_round_trip(x: nat)
    requires
        x <= u32::MAX,
    ensures
        le_bytes(x).len() == 4,
        le_u32(le_bytes(x)) == x,
{
}

/// Reads the little-endian integer that starts at `pos`.
pub fn read_u32_le(buf: &[u8], pos: usize) -> (x: u32)
    requires
        pos + 4 <= buf.len(),
    ensures
        x == le_u32(buf@.skip(pos as int)),
{
    let b0: u32 = buf[pos] as u32;
    let b1: u32 = buf[pos + 1] as u32;
    let b2: u32 = buf[pos + 2] as u32;
    let b3: u32 = buf[pos + 3] as u32;
    b0 + 256 * b1 + 65536 * b2 + 16777216 * b3
}

/// Appends the four little-endian bytes of `x` to `out`.
pub fn push_u32_le(out: &mut Vec<u8>, x: u32)
    ensures
        final(out)@ == old(out)@ + le_bytes(x as nat),
{
    out.push((x % 256) as u8);
    out.push(((x / 256) % 256) as u8);
    out.push(((x / 65536) % 256) as u8);
    out.push(((x / 16777216) % 256) as u8);
    assert(out@ =~= old(out)@ + le_bytes(x as nat));
}

} // verus!
