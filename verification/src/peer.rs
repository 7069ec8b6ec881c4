//! The block request of the peer wire protocol.
use vstd::prelude::*;
use crate::be_bytes::{be_u32_bytes, be_u32_value, lemma_be_u32_roundtrip, u32_from_be, u32_to_be};

verus! {

/// A request for one block of a piece: piece index, byte offset inside the piece and
/// block length, each held as four big-endian bytes, as they go over the wire.
pub struct Request {
    index: [u8; 4],
    begin: [u8; 4],
    length: [u8; 4],
}

impl View for Request {
    type V = (u32, u32, u32);

    /// The index, begin and length that the request holds.
    closed spec fn view(&self) -> (u32, u32, u32) {
        (
            be_u32_value(self.index@[0], self.index@[1], self.index@[2], self.index@[3]),
            be_u32_value(self.begin@[0], self.begin@[1], self.begin@[2], self.begin@[3]),
            be_u32_value(self.length@[0], self.length@[1], self.length@[2], self.length@[3]),
        )
    }
}

impl Request {
    /// The bytes that the request puts on the wire: index, begin and length in
    /// big-endian order.
    pub closed spec fn spec_bytes(self) -> Seq<u8> {
        self.index@ + self.begin@ + self.length@
    }

    pub fn new(index: u32, begin: u32, length: u32) -> (r: Self)
        ensures
            r@ == (index, begin, length),
            r.spec_bytes() == be_u32_bytes(index) + be_u32_bytes(begin) + be_u32_bytes(length),
    {
        proof {
            lemma_be_u32_roundtrip(index, 0, 0, 0, 0);
            lemma_be_u32_roundtrip(begin, 0, 0, 0, 0);
            lemma_be_u32_roundtrip(length, 0, 0, 0, 0);
        }
        Self { index: u32_to_be(index), begin: u32_to_be(begin), length: u32_to_be(length) }
    }

    pub fn index(&self) -> (r: u32)
        ensures
            r == self@.0,
    {
        u32_from_be(self.index)
    }

    pub fn begin(&self) -> (r: u32)
        ensures
            r == self@.1,
    {
        u32_from_be(self.begin)
    }

    pub fn length(&self) -> (r: u32)
        ensures
            r == self@.2,
    {
        u32_from_be(self.length)
    }

    /// The twelve bytes of the request as they go over the wire.
    pub fn as_bytes(&self) -> (r: Vec<u8>)
        ensures
            r@ == self.spec_bytes(),
            r@ == be_u32_bytes(self@.0) + be_u32_bytes(self@.1) + be_u32_bytes(self@.2),
    {
        proof {
            lemma_be_u32_roundtrip(0, self.index@[0], self.index@[1], self.index@[2], self.index@[3]);
            lemma_be_u32_roundtrip(0, self.begin@[0], self.begin@[1], self.begin@[2], self.begin@[3]);
            lemma_be_u32_roundtrip(0, self.length@[0], self.length@[1], self.length@[2], self.length@[3]);
        }
        let mut r: Vec<u8> = Vec::with_capacity(12);
        r.push(self.index[0]);
        r.push(self.index[1]);
        r.push(self.index[2]);
        r.push(self.index[3]);
        r.push(self.begin[0]);
        r.push(self.begin[1]);
        r.push(self.begin[2]);
        r.push(self.begin[3]);
        r.push(self.length[0]);
        r.push(self.length[1]);
        r.push(self.length[2]);
        r.push(self.length[3]);
        assert(r@ =~= self.spec_bytes());
        assert(self.spec_bytes() =~= be_u32_bytes(self@.0) + be_u32_bytes(self@.1) + be_u32_bytes(self@.2));
        r
    }
}

} // verus!
