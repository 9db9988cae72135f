//! Big-endian readings and writings of 16-bit and 32-bit fields, the only
//! numeric layouts the DNS wire format uses.

use vstd::prelude::*;

verus! {

/// The 16-bit value that two bytes spell in network (big-endian) order.
pub open spec fn be16(b0: u8, b1: u8) -> u16 {
    (b0 * 256 + b1) as u16
}

/// The 32-bit value that four bytes spell in network (big-endian) order.
pub open spec fn be32(b0: u8, b1: u8, b2: u8, b3: u8) -> u32 {
    (b0 * 0x1000000 + b1 * 0x10000 + b2 * 256 + b3) as u32
}

/// The high byte of a 16-bit value in network order.
pub open spec fn u16_hi(x: u16) -> u8 {
    (x / 256) as u8
}

/// The low byte of a 16-bit value in network order.
pub open spec fn u16_lo(x: u16) -> u8 {
    (x % 256) as u8
}

/// The two bytes of a 16-bit value in network order.
pub open spec fn u16_bytes(x: u16) -> Seq<u8> {
    seq![u16_hi(x), u16_lo(x)]
}

/// Writing a 16-bit value and reading it back is the identity, and reading
/// two bytes and writing them back is too.
pub proof fn lemma_be16_round_trip(x: u16, b0: u8, b1: u8)
    ensures
        be16(u16_hi(x), u16_lo(x)) == x,
        u16_hi(be16(b0, b1)) == b0,
        u16_lo(be16(b0, b1)) == b1,
{
    assert(x / 256 * 256 + x % 256 == x) by (nonlinear_arith);
    assert((b0 * 256 + b1) / 256 == b0 && (b0 * 256 + b1) % 256 == b1) by (nonlinear_arith)
        requires
            b0 < 256 && b1 < 256,
    ;
}

/// Read the big-endian 16-bit field at `pos`.
pub fn read_u16_be(buf: &[u8], pos: usize) -> (r: u16)
    requires
        pos + 2 <= buf@.len(),
    ensures
        r == be16(buf@[pos as int], buf@[pos + 1]),
{
    let b0 = buf[pos];
    let b1 = buf[pos + 1];
    b0 as u16 * 256 + b1 as u16
}

/// Read the big-endian 32-bit field at `pos`.
pub fn read_u32_be(buf: &[u8], pos: usize) -> (r: u32)
    requires
        pos + 4 <= buf@.len(),
    ensures
        r == be32(buf@[pos as int], buf@[pos + 1], buf@[pos + 2], buf@[pos + 3]),
{
    let b0 = buf[pos];
    let b1 = buf[pos + 1];
    let b2 = buf[pos + 2];
    let b3 = buf[pos + 3];
    b0 as u32 * 0x1000000 + b1 as u32 * 0x10000 + b2 as u32 * 256 + b3 as u32
}

/// Append the two network-order bytes of a 16-bit value.
pub fn push_u16_be(out: &mut Vec<u8>, x: u16)
    ensures
        final(out)@ == old(out)@ + u16_bytes(x),
{
    out.push((x / 256) as u8);
    out.push((x % 256) as u8);
    assert(out@ =~= old(out)@ + u16_bytes(x));
}

} // verus!
