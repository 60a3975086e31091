//! Big-endian integer fields of the wire format.

use vstd::prelude::*;

verus! {

/// The two big-endian bytes of a 16-bit field.
pub open spec fn spec_be16(x: u16) -> Seq<u8> {
    seq![(x / 256) as u8, (x % 256) as u8]
}

/// The 16-bit value of two big-endian bytes.
pub open spec fn spec_be16_val(b0: u8, b1: u8) -> u16 {
    (b0 * 256 + b1) as u16
}

/// The four big-endian bytes of a 32-bit field.
pub open spec fn spec_be32(x: u32) -> Seq<u8> {
    seq![
        (x / 0x1000000) as u8,
        ((x / 0x10000) % 256) as u8,
        ((x / 256) % 256) as u8,
        (x % 256) as u8,
    ]
}

/// The 32-bit value of four big-endian bytes.
pub open spec fn spec_be32_val(b0: u8, b1: u8, b2: u8, b3: u8) -> u32 {
    (b0 * 0x1000000 + b1 * 0x10000 + b2 * 0x100 + b3) as u32
}

/// Reading back the two bytes of a 16-bit field gives the value written.
pub proof fn lemma_be16_round_trip(x: u16)
    ensures
        spec_be16_val(spec_be16(x)[0], spec_be16(x)[1]) == x,
{
    assert(x / 256 * 256 + x % 256 == x) by (nonlinear_arith);
}

/// Reading back the four bytes of a 32-bit field gives the value written.
pub proof fn lemma_be32_round_trip(x: u32)
    ensures
        spec_be32_val(spec_be32(x)[0], spec_be32(x)[1], spec_be32(x)[2], spec_be32(x)[3]) == x,
{
    assert(x / 0x1000000 * 0x1000000 + x / 0x10000 % 256 * 0x10000 + x / 256 % 256 * 256 + x % 256
        == x) by (nonlinear_arith);
}

/// The two bytes of a 16-bit field are exactly the encoding of the value
/// they spell: reading and re-encoding reproduces them.
pub proof fn lemma_be16_inverse(b0: u8, b1: u8)
    ensures
        spec_be16(spec_be16_val(b0, b1)) == seq![b0, b1],
{
    let x = spec_be16_val(b0, b1);
    assert((b0 * 256 + b1) / 256 == b0 && (b0 * 256 + b1) % 256 == b1) by (nonlinear_arith)
        requires
            b0 <= 255u8 && b1 <= 255u8,
    ;
    assert(spec_be16(x) =~= seq![b0, b1]);
}

/// Appends a 16-bit value in big-endian order.
pub fn push_be16(out: &mut Vec<u8>, x: u16)
    ensures
        final(out)@ == old(out)@ + spec_be16(x),
{
    out.push((x / 256) as u8);
    out.push((x % 256) as u8);
    assert(out@ =~= old(out)@ + spec_be16(x));
}

/// Appends a 32-bit value in big-endian order.
pub fn push_be32(out: &mut Vec<u8>, x: u32)
    ensures
        final(out)@ == old(out)@ + spec_be32(x),
{
    out.push((x / 0x1000000) as u8);
    out.push(((x / 0x10000) % 256) as u8);
    out.push(((x / 256) % 256) as u8);
    out.push((x % 256) as u8);
    assert(out@ =~= old(out)@ + spec_be32(x));
}

/// Reads a 16-bit value from two big-endian bytes.
pub fn be16_val(b0: u8, b1: u8) -> (x: u16)
    ensures
        x == spec_be16_val(b0, b1),
{
    (b0 as u16) * 256 + (b1 as u16)
}

/// Reads a 32-bit value from four big-endian bytes.
pub fn be32_val(b0: u8, b1: u8, b2: u8, b3: u8) -> (x: u32)
    ensures
        x == spec_be32_val(b0, b1, b2, b3),
{
    (b0 as u32) * 0x1000000 + (b1 as u32) * 0x10000 + (b2 as u32) * 0x100 + (b3 as u32)
}

} // verus!
