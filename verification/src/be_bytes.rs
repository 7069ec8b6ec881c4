//! Big-endian encodings of 16- and 32-bit integers.
use vstd::prelude::*;

verus! {

/// The four big-endian bytes of `x`.
pub open spec fn be_u32_bytes(x: u32) -> Seq<u8> {
    seq![(x >> 24u32) as u8, (x >> 16u32) as u8, (x >> 8u32) as u8, x as u8]
}

/// The integer whose big-endian bytes are `b0 b1 b2 b3`.
pub open spec fn be_u32_value(b0: u8, b1: u8, b2: u8, b3: u8) -> u32 {
    ((b0 as u32) << 24u32) | ((b1 as u32) << 16u32) | ((b2 as u32) << 8u32) | (b3 as u32)
}

/// The integer whose big-endian bytes are `b0 b1`.
pub open spec fn be_u16_value(b0: u8, b1: u8) -> u16 {
    ((b0 as u16) << 8u16) | (b1 as u16)
}


/// Reading back the bytes of `x` gives `x`; reading four bytes and writing the result
/// gives the same bytes.
pub proof fn lemma_be_u32_roundtrip(x: u32, b0: u8, b1: u8, b2: u8, b3: u8)
    ensures
        be_u32_value((x >> 24u32) as u8, (x >> 16u32) as u8, (x >> 8u32) as u8, x as u8) == x,
        ({
            let v = be_u32_value(b0, b1, b2, b3);
            &&& (v >> 24u32) as u8 == b0
            &&& (v >> 16u32) as u8 == b1
            &&& (v >> 8u32) as u8 == b2
            &&& v as u8 == b3
        }),
{
    assert(((((x >> 24u32) as u8) as u32) << 24u32) | ((((x >> 16u32) as u8) as u32) << 16u32)
        | ((((x >> 8u32) as u8) as u32) << 8u32) | (((x as u8) as u32)) == x) by (bit_vector);
    assert({
        let v = ((b0 as u32) << 24u32) | ((b1 as u32) << 16u32) | ((b2 as u32) << 8u32) | (b3 as u32);
        &&& (v >> 24u32) as u8 == b0
        &&& (v >> 16u32) as u8 == b1
        &&& (v >> 8u32) as u8 == b2
        &&& v as u8 == b3
    }) by (bit_vector);
}

/// The big-endian bytes of `x`.
pub fn u32_to_be(x: u32) -> (r: [u8; 4])
    ensures
        r@ == be_u32_bytes(x),
{
    let r = [(x >> 24u32) as u8, (x >> 16u32) as u8, (x >> 8u32) as u8, x as u8];
    assert(r@ =~= be_u32_bytes(x));
    r
}

/// The integer with big-endian bytes `b`.
pub fn u32_from_be(b: [u8; 4]) -> (r: u32)
    ensures
        r == be_u32_value(b@[0], b@[1], b@[2], b@[3]),
{
    ((b[0] as u32) << 24u32) | ((b[1] as u32) << 16u32) | ((b[2] as u32) << 8u32) | (b[3] as u32)
}

/// Two big-endian bytes are worth `b0 * 256 + b1`, and every `u16` reads back from its
/// high and low bytes.
pub proof fn lemma_be_u16_value(b0: u8, b1: u8, x: u16)
    ensures
        be_u16_value(b0, b1) as int == b0 as int * 256 + b1 as int,
        be_u16_value((x >> 8u16) as u8, x as u8) == x,
{
    assert((((b0 as u16) << 8u16) | (b1 as u16)) as int == b0 as int * 256 + b1 as int) by (bit_vector);
    assert((((((x >> 8u16) as u8) as u16) << 8u16) | (((x as u8) as u16))) == x) by (bit_vector);
}

/// Four big-endian bytes are worth `b0 * 2^24 + b1 * 2^16 + b2 * 2^8 + b3`.
pub proof fn lemma_be_u32_value(b0: u8, b1: u8, b2: u8, b3: u8)
    ensures
        be_u32_value(b0, b1, b2, b3) as int == b0 as int * 16777216 + b1 as int * 65536 + b2 as int * 256 + b3 as int,
{
    assert((((b0 as u32) << 24u32) | ((b1 as u32) << 16u32) | ((b2 as u32) << 8u32) | (b3 as u32)) as int
        == b0 as int * 16777216 + b1 as int * 65536 + b2 as int * 256 + b3 as int) by (bit_vector);
}

} // verus!
