//! Big-endian encoding of 32-bit words.

use vstd::prelude::*;

verus! {

/// The four big-endian bytes of a 32-bit word.
pub open spec fn be32(x: u32) -> Seq<u8> {
    seq![
        (x >> 24u32) as u8,
        ((x >> 16u32) & 0xff) as u8,
        ((x >> 8u32) & 0xff) as u8,
        (x & 0xff) as u8,
    ]
}

/// The 32-bit word read from four big-endian bytes.
pub open spec fn be32_val(s: Seq<u8>) -> u32
    recommends
        s.len() == 4,
{
    (((s[0] as u32) << 24u32) | ((s[1] as u32) << 16u32) | ((s[2] as u32) << 8u32) | (s[3]
        as u32))
}

/// Decoding inverts encoding.
pub proof fn lemma_be32_roundtrip(x: u32)
    ensures
        be32_val(be32(x)) == x,
{
    assert(((((x >> 24u32) as u8) as u32) << 24u32) | (((((x >> 16u32) & 0xff) as u8) as u32)
        << 16u32) | (((((x >> 8u32) & 0xff) as u8) as u32) << 8u32) | (((x & 0xff) as u8) as u32)
        == x) by (bit_vector);
}

/// Emits the four big-endian bytes of `x`.
pub fn put_u32_be(x: u32) -> (r: Vec<u8>)
    ensures
        r@ == be32(x),
{
    let mut r: Vec<u8> = Vec::new();
    r.push((x >> 24u32) as u8);
    r.push(((x >> 16u32) & 0xff) as u8);
    r.push(((x >> 8u32) & 0xff) as u8);
    r.push((x & 0xff) as u8);
    proof {
        assert(r@ =~= be32(x));
    }
    r
}

/// Reads a 32-bit word from four big-endian bytes.
pub fn get_u32_be(b: &Vec<u8>) -> (r: u32)
    requires
        b@.len() == 4,
    ensures
        r == be32_val(b@),
{
    ((b[0] as u32) << 24u32) | ((b[1] as u32) << 16u32) | ((b[2] as u32) << 8u32) | (b[3] as u32)
}

} // verus!
