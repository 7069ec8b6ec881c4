//! Framing of peer wire messages: a four-byte big-endian length, a one-byte tag and
//! the payload. Frames are read from and written to a `bytes::BytesMut` buffer.
use vstd::prelude::*;
use bytes::{Buf, BufMut, BytesMut};
use crate::be_bytes::{be_u32_bytes, be_u32_value, lemma_be_u32_roundtrip, u32_to_be};

verus! {

#[verifier::external_type_specification]
#[verifier::external_body]
pub struct ExBytesMut(BytesMut);

/// The bytes that a `BytesMut` holds.
pub uninterp spec fn buffer_contents(b: BytesMut) -> Seq<u8>;

/// `BytesMut::len`: the number of bytes the buffer holds.
#[verifier::external_body]
fn buffer_len(b: &BytesMut) -> (n: usize)
    ensures
        n == buffer_contents(*b).len(),
{
    b.len()
}

/// `<BytesMut as Deref>::deref`: the bytes that the buffer holds, as a slice.
#[verifier::external_body]
fn buffer_bytes(b: &BytesMut) -> (r: &[u8])
    ensures
        r@ == buffer_contents(*b),
{
    b
}

/// `<BytesMut as Buf>::advance`: drops the first `cnt` bytes; it panics past the end.
#[verifier::external_body]
fn buffer_advance(b: &mut BytesMut, cnt: usize)
    requires
        cnt <= buffer_contents(*old(b)).len(),
    ensures
        buffer_contents(*final(b)) == buffer_contents(*old(b)).skip(cnt as int),
{
    b.advance(cnt)
}

/// `BytesMut::reserve`: makes room for `additional` more bytes and keeps the contents.
/// It panics where the capacity would overflow, which the bound on the size rules out.
#[verifier::external_body]
fn buffer_reserve(b: &mut BytesMut, additional: usize)
    requires
        buffer_contents(*old(b)).len() + additional <= isize::MAX,
    ensures
        buffer_contents(*final(b)) == buffer_contents(*old(b)),
{
    b.reserve(additional)
}

/// `BytesMut::extend_from_slice`: appends the bytes of `s`.
#[verifier::external_body]
fn buffer_extend(b: &mut BytesMut, s: &[u8])
    requires
        buffer_contents(*old(b)).len() + s@.len() <= isize::MAX,
    ensures
        buffer_contents(*final(b)) == buffer_contents(*old(b)) + s@,
{
    b.extend_from_slice(s)
}

/// `<BytesMut as BufMut>::put_u8`: appends one byte.
#[verifier::external_body]
fn buffer_put_u8(b: &mut BytesMut, n: u8)
    requires
        buffer_contents(*old(b)).len() + 1 <= isize::MAX,
    ensures
        buffer_contents(*final(b)) == buffer_contents(*old(b)).push(n),
{
    b.put_u8(n)
}

/// The number of bytes that `b` holds.
pub fn buffer_length(b: &BytesMut) -> (n: usize)
    ensures
        n == buffer_contents(*b).len(),
{
    buffer_len(b)
}

/// The largest frame length, tag included, that is sent or accepted.
pub const MAX: usize = 65536;

/// The kind of a peer message.
#[derive(Debug, PartialEq, Eq, Structural, Clone, Copy)]
pub enum MessageTag {
    Choke,
    Unchoke,
    Interested,
    NotInterested,
    Have,
    Bitfield,
    Request,
    Piece,
    Cancel,
}

/// The byte that stands for `t` on the wire.
pub open spec fn tag_byte(t: MessageTag) -> u8 {
    match t {
        MessageTag::Choke => 0,
        MessageTag::Unchoke => 1,
        MessageTag::Interested => 2,
        MessageTag::NotInterested => 3,
        MessageTag::Have => 4,
        MessageTag::Bitfield => 5,
        MessageTag::Request => 6,
        MessageTag::Piece => 7,
        MessageTag::Cancel => 8,
    }
}

/// The tag that byte `b` stands for, if any.
pub open spec fn tag_of_byte(b: u8) -> Option<MessageTag> {
    if b == 0 {
        Some(MessageTag::Choke)
    } else if b == 1 {
        Some(MessageTag::Unchoke)
    } else if b == 2 {
        Some(MessageTag::Interested)
    } else if b == 3 {
        Some(MessageTag::NotInterested)
    } else if b == 4 {
        Some(MessageTag::Have)
    } else if b == 5 {
        Some(MessageTag::Bitfield)
    } else if b == 6 {
        Some(MessageTag::Request)
    } else if b == 7 {
        Some(MessageTag::Piece)
    } else if b == 8 {
        Some(MessageTag::Cancel)
    } else {
        None
    }
}

impl MessageTag {
    pub fn as_byte(self) -> (b: u8)
        ensures
            b == tag_byte(self),
    {
        match self {
            MessageTag::Choke => 0,
            MessageTag::Unchoke => 1,
            MessageTag::Interested => 2,
            MessageTag::NotInterested => 3,
            MessageTag::Have => 4,
            MessageTag::Bitfield => 5,
            MessageTag::Request => 6,
            MessageTag::Piece => 7,
            MessageTag::Cancel => 8,
        }
    }

    pub fn from_byte(b: u8) -> (r: Option<MessageTag>)
        ensures
            r == tag_of_byte(b),
    {
        match b {
            0 => Some(MessageTag::Choke),
            1 => Some(MessageTag::Unchoke),
            2 => Some(MessageTag::Interested),
            3 => Some(MessageTag::NotInterested),
            4 => Some(MessageTag::Have),
            5 => Some(MessageTag::Bitfield),
            6 => Some(MessageTag::Request),
            7 => Some(MessageTag::Piece),
            8 => Some(MessageTag::Cancel),
            _ => None,
        }
    }
}

/// A tag reads back from its byte.
pub proof fn lemma_tag_byte_roundtrip(t: MessageTag)
    ensures
        tag_of_byte(tag_byte(t)) == Some(t),
{
}

/// The wire numbering of the message kinds: choke 0, unchoke 1, interested 2,
/// not interested 3, have 4, bitfield 5, request 6, piece 7, cancel 8; no other byte
/// stands for a message.
pub proof fn lemma_tag_wire_numbers(b: u8)
    ensures
        tag_byte(MessageTag::Choke) == 0,
        tag_byte(MessageTag::Unchoke) == 1,
        tag_byte(MessageTag::Interested) == 2,
        tag_byte(MessageTag::NotInterested) == 3,
        tag_byte(MessageTag::Have) == 4,
        tag_byte(MessageTag::Bitfield) == 5,
        tag_byte(MessageTag::Request) == 6,
        tag_byte(MessageTag::Piece) == 7,
        tag_byte(MessageTag::Cancel) == 8,
        b <= 8 <==> tag_of_byte(b) is Some,
        tag_of_byte(b) matches Some(t) ==> tag_byte(t) == b,
{
}

/// The frame of a message is its length (tag included) as four big-endian bytes, then
/// its tag byte, then its payload.
pub proof fn lemma_frame_layout(t: MessageTag, payload: Seq<u8>)
    requires
        1 + payload.len() <= MAX,
    ensures
        frame_bytes(t, payload).len() == 5 + payload.len(),
        frame_bytes(t, payload)[0] as int * 16777216 + frame_bytes(t, payload)[1] as int * 65536
            + frame_bytes(t, payload)[2] as int * 256 + frame_bytes(t, payload)[3] as int == 1 + payload.len(),
        frame_bytes(t, payload)[4] == tag_byte(t),
        frame_bytes(t, payload).skip(5) == payload,
{
    let f = frame_bytes(t, payload);
    let len = (1 + payload.len()) as u32;
    lemma_be_u32_roundtrip(len, 0, 0, 0, 0);
    crate::be_bytes::lemma_be_u32_value(f[0], f[1], f[2], f[3]);
    assert(f.skip(5) =~= payload);
}

/// A peer message: its tag and payload.
pub struct Message {
    pub tag: MessageTag,
    pub payload: Vec<u8>,
}

/// Why a frame cannot be read or written.
#[derive(Debug, PartialEq, Eq)]
pub enum FrameError {
    /// The frame's length is over `MAX`.
    TooLarge(usize),
    /// The frame's tag byte stands for no message.
    InvalidTag(u8),
}

/// What reading a frame from a buffer gives.
pub enum Decoded {
    /// The buffer does not yet hold a whole frame.
    NeedMore,
    /// A message with its tag and payload.
    Frame(MessageTag, Seq<u8>),
    /// A frame whose length is over `MAX`.
    TooLarge(int),
    /// A frame whose tag byte stands for no message.
    InvalidTag(u8),
}

/// The length that the first four bytes of `src` give.
pub open spec fn frame_length(src: Seq<u8>) -> int {
    be_u32_value(src[0], src[1], src[2], src[3]) as int
}

/// Reads one message from the front of `src`, skipping zero-length keep-alive frames:
/// the outcome and the number of bytes that are consumed.
pub open spec fn frame_decode(src: Seq<u8>) -> (Decoded, int)
    decreases src.len(),
{
    if src.len() < 4 {
        (Decoded::NeedMore, 0)
    } else {
        let length = frame_length(src);
        if length > MAX {
            (Decoded::TooLarge(length), 0)
        } else if src.len() < 4 + length {
            (Decoded::NeedMore, 0)
        } else if length == 0 {
            let (d, c) = frame_decode(src.skip(4));
            (d, c + 4)
        } else {
            match tag_of_byte(src[4]) {
                None => (Decoded::InvalidTag(src[4]), 0),
                Some(t) => (Decoded::Frame(t, src.subrange(5, 4 + length)), 4 + length),
            }
        }
    }
}

/// The bytes of the frame that carries a message with tag `t` and payload `payload`.
pub open spec fn frame_bytes(t: MessageTag, payload: Seq<u8>) -> Seq<u8> {
    be_u32_bytes((1 + payload.len()) as u32) + seq![tag_byte(t)] + payload
}

/// Whether `r` is the outcome `d` of reading a frame.
pub open spec fn decode_outcome(r: Result<Option<Message>, FrameError>, d: Decoded) -> bool {
    match d {
        Decoded::NeedMore => r == Ok::<Option<Message>, FrameError>(None),
        Decoded::Frame(t, p) => r matches Ok(Some(m)) && m.tag == t && m.payload@ == p,
        Decoded::TooLarge(n) => r matches Err(FrameError::TooLarge(k)) && k == n,
        Decoded::InvalidTag(b) => r == Err::<Option<Message>, FrameError>(FrameError::InvalidTag(b)),
    }
}

/// Reading back an encoded frame gives its message and consumes exactly its bytes,
/// whatever follows it in the buffer.
pub proof fn lemma_decode_encoded_frame(t: MessageTag, payload: Seq<u8>, rest: Seq<u8>)
    requires
        1 + payload.len() <= MAX,
    ensures
        frame_decode(frame_bytes(t, payload) + rest) == (
            Decoded::Frame(t, payload),
            5 + payload.len() as int,
        ),
{
    let len = (1 + payload.len()) as u32;
    let src = frame_bytes(t, payload) + rest;
    lemma_be_u32_roundtrip(len, 0, 0, 0, 0);
    assert(src[0] == (len >> 24u32) as u8);
    assert(src[1] == (len >> 16u32) as u8);
    assert(src[2] == (len >> 8u32) as u8);
    assert(src[3] == len as u8);
    assert(frame_length(src) == len);
    assert(src[4] == tag_byte(t));
    assert(src.subrange(5, 5 + payload.len() as int) =~= payload);
}

/// A zero-length keep-alive frame in front of a buffer is skipped: reading gives what
/// reading the rest gives, and consumes four bytes more.
pub proof fn lemma_keep_alive_skipped(src: Seq<u8>)
    ensures
        frame_decode(seq![0u8, 0u8, 0u8, 0u8] + src) == (frame_decode(src).0, frame_decode(src).1 + 4),
{
    let b = seq![0u8, 0u8, 0u8, 0u8] + src;
    assert(b[0] == 0u8 && b[1] == 0u8 && b[2] == 0u8 && b[3] == 0u8);
    crate::be_bytes::lemma_be_u32_value(0, 0, 0, 0);
    assert(frame_length(b) == 0);
    assert(b.skip(4) =~= src);
}

/// A buffer that holds only the front part of a frame yields nothing yet and consumes
/// nothing.
pub proof fn lemma_partial_frame_waits(t: MessageTag, payload: Seq<u8>, k: int)
    requires
        1 + payload.len() <= MAX,
        0 <= k < 5 + payload.len(),
    ensures
        frame_decode(frame_bytes(t, payload).take(k)) == (Decoded::NeedMore, 0int),
{
    let len = (1 + payload.len()) as u32;
    let src = frame_bytes(t, payload).take(k);
    if k >= 4 {
        lemma_be_u32_roundtrip(len, 0, 0, 0, 0);
        assert(src[0] == (len >> 24u32) as u8);
        assert(src[1] == (len >> 16u32) as u8);
        assert(src[2] == (len >> 8u32) as u8);
        assert(src[3] == len as u8);
        assert(frame_length(src) == len);
    }
}

/// Reads and writes peer messages as length-prefixed frames.
pub struct MessageFramer;

impl MessageFramer {
    /// Reads one message from the front of `src` and removes its frame from the buffer.
    /// Zero-length keep-alive frames before it are removed and skipped. Where the buffer
    /// does not yet hold a whole frame, gives `Ok(None)` and reserves room for the rest.
    pub fn decode(&mut self, src: &mut BytesMut) -> (r: Result<Option<Message>, FrameError>)
        ensures
            ({
                let (d, c) = frame_decode(buffer_contents(*old(src)));
                &&& decode_outcome(r, d)
                &&& buffer_contents(*final(src)) == buffer_contents(*old(src)).skip(c)
            }),
    {
        let ghost orig = buffer_contents(*src);
        let ghost mut consumed: int = 0;
        loop
            invariant
                0 <= consumed <= orig.len(),
                orig == buffer_contents(*old(src)),
                buffer_contents(*src) == orig.skip(consumed),
                ({
                    let (d, c) = frame_decode(orig);
                    let (d2, c2) = frame_decode(orig.skip(consumed));
                    d == d2 && c == c2 + consumed
                }),
            decreases buffer_contents(*src).len(),
        {
            let n = buffer_len(src);
            if n < 4 {
                return Ok(None);
            }
            let bytes = buffer_bytes(src);
            let length_bytes: [u8; 4] = [bytes[0], bytes[1], bytes[2], bytes[3]];
            let length32: u32 = crate::be_bytes::u32_from_be(length_bytes);
            let length: usize = length32 as usize;
            assert(length == frame_length(orig.skip(consumed)));
            if length > MAX {
                return Err(FrameError::TooLarge(length));
            }
            if n < 4 + length {
                buffer_reserve(src, 4 + length - n);
                return Ok(None);
            }
            if length == 0 {
                proof {
                    assert(orig.skip(consumed).skip(4) =~= orig.skip(consumed + 4));
                }
                buffer_advance(src, 4);
                proof {
                    consumed = consumed + 4;
                }
                assert(buffer_contents(*src) =~= orig.skip(consumed));
                continue;
            }
            let tag = match MessageTag::from_byte(bytes[4]) {
                Some(t) => t,
                None => {
                    return Err(FrameError::InvalidTag(bytes[4]));
                },
            };
            let mut data: Vec<u8> = Vec::with_capacity(length - 1);
            let mut i: usize = 5;
            while i < 4 + length
                invariant
                    length <= MAX,
                    5 <= i <= 4 + length <= bytes@.len(),
                    data@ == bytes@.subrange(5, i as int),
                decreases 4 + length - i,
            {
                data.push(bytes[i]);
                assert(data@ =~= bytes@.subrange(5, i + 1));
                i = i + 1;
            }
            buffer_advance(src, 4 + length);
            return Ok(Some(Message { tag, payload: data }));
        }
    }

    /// Writes `item` as a frame at the end of `dst`. A message whose frame length, tag
    /// included, is over `MAX` is refused and `dst` is left as it was.
    pub fn encode(&mut self, item: Message, dst: &mut BytesMut) -> (r: Result<(), FrameError>)
        requires
            buffer_contents(*old(dst)).len() + item.payload@.len() + 5 <= isize::MAX,
        ensures
            1 + item.payload@.len() > MAX ==> (r matches Err(FrameError::TooLarge(n)) && n == 1
                + item.payload@.len() && buffer_contents(*final(dst)) == buffer_contents(*old(dst))),
            1 + item.payload@.len() <= MAX ==> r is Ok && buffer_contents(*final(dst))
                == buffer_contents(*old(dst)) + frame_bytes(item.tag, item.payload@),
    {
        let length = 1 + item.payload.len();
        if length > MAX {
            return Err(FrameError::TooLarge(length));
        }
        let len_slice = u32_to_be(length as u32);
        buffer_reserve(dst, 4 + 1 + item.payload.len());
        buffer_extend(dst, &len_slice);
        buffer_put_u8(dst, item.tag.as_byte());
        buffer_extend(dst, item.payload.as_slice());
        assert(buffer_contents(*dst) =~= buffer_contents(*old(dst)) + frame_bytes(item.tag, item.payload@));
        Ok(())
    }
}

} // verus!
