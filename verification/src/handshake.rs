//! The handshake that opens a peer connection: 68 bytes that name the protocol, carry
//! eight reserved bytes, the torrent's info hash and the sender's peer id.
use vstd::prelude::*;
use crate::digits::ascii_bytes;

verus! {

/// The 19 bytes of `BitTorrent protocol`.
pub open spec fn protocol_name() -> Seq<u8> {
    seq![66u8, 105, 116, 84, 111, 114, 114, 101, 110, 116, 32, 112, 114, 111, 116, 111, 99, 111, 108]
}

/// `N` bytes of `src` from `start` on.
pub fn array_from<const N: usize>(src: &[u8], start: usize) -> (r: [u8; N])
    requires
        start + N <= src@.len(),
    ensures
        r@ == src@.subrange(start as int, start + N),
{
    let mut r: [u8; N] = [0u8; N];
    let n: usize = src.len();
    let mut i: usize = 0;
    while i < N
        invariant
            n == src@.len(),
            start + N <= src@.len(),
            i <= N,
            r@.len() == N,
            forall|j: int| 0 <= j < i ==> r@[j] == src@[start + j],
        decreases N - i,
    {
        r[i] = src[start + i];
        i = i + 1;
    }
    assert(r@ =~= src@.subrange(start as int, start + N));
    r
}

pub fn push_all(v: &mut Vec<u8>, s: &[u8])
    ensures
        final(v)@ == old(v)@ + s@,
{
    let mut i: usize = 0;
    while i < s.len()
        invariant
            i <= s@.len(),
            v@ == old(v)@ + s@.subrange(0, i as int),
        decreases s@.len() - i,
    {
        v.push(s[i]);
        i = i + 1;
        assert(v@ =~= old(v)@ + s@.subrange(0, i as int));
    }
    assert(s@.subrange(0, s@.len() as int) =~= s@);
}

/// The handshake message.
pub struct Handshake {
    /// length of the protocol string (BitTorrent protocol) which is 19 (1 byte)
    pub length: u8,
    /// the string BitTorrent protocol (19 bytes)
    pub bittorrent: [u8; 19],
    /// eight reserved bytes, which are all set to zero (8 bytes)
    pub reserved: [u8; 8],
    /// sha1 infohash (20 bytes) (NOT the hexadecimal representation, which is 40 bytes long)
    pub info_hash: [u8; 20],
    /// peer id (20 bytes)
    pub peer_id: [u8; 20],
}

/// Why a handshake reply is refused.
#[derive(Debug, PartialEq, Eq)]
pub enum HandshakeError {
    /// The protocol string is not `BitTorrent protocol`.
    WrongProtocol,
    /// The length byte is not 19.
    WrongLength,
}

impl Handshake {
    /// The 68 bytes of the handshake in wire order.
    pub open spec fn spec_bytes(self) -> Seq<u8> {
        seq![self.length] + self.bittorrent@ + self.reserved@ + self.info_hash@ + self.peer_id@
    }

    /// Whether the handshake names the BitTorrent protocol with the right length byte.
    pub open spec fn spec_is_valid(self) -> bool {
        self.bittorrent@ == protocol_name() && self.length == 19
    }

    pub fn new(info_hash: [u8; 20], peer_id: [u8; 20]) -> (h: Self)
        ensures
            h.length == 19,
            h.bittorrent@ == protocol_name(),
            h.reserved@ == seq![0u8, 0, 0, 0, 0, 0, 0, 0],
            h.info_hash == info_hash,
            h.peer_id == peer_id,
            h.spec_is_valid(),
    {
        let bittorrent: [u8; 19] = [66u8, 105, 116, 84, 111, 114, 114, 101, 110, 116, 32, 112, 114, 111, 116, 111, 99, 111, 108];
        let reserved: [u8; 8] = [0u8; 8];
        assert(bittorrent@ =~= protocol_name());
        assert(reserved@ =~= seq![0u8, 0, 0, 0, 0, 0, 0, 0]);
        Self { length: 19, bittorrent, reserved, info_hash, peer_id }
    }

    /// The 68 bytes that the handshake puts on the wire.
    pub fn to_bytes(&self) -> (r: Vec<u8>)
        ensures
            r@ == self.spec_bytes(),
            r@.len() == 68,
    {
        let mut r: Vec<u8> = Vec::with_capacity(68);
        r.push(self.length);
        push_all(&mut r, self.bittorrent.as_slice());
        push_all(&mut r, self.reserved.as_slice());
        push_all(&mut r, self.info_hash.as_slice());
        push_all(&mut r, self.peer_id.as_slice());
        assert(r@ =~= self.spec_bytes());
        r
    }

    /// The handshake that the 68 bytes `b` carry.
    pub fn from_bytes(b: &[u8; 68]) -> (h: Self)
        ensures
            h.spec_bytes() == b@,
    {
        let s = b.as_slice();
        let h = Self {
            length: s[0],
            bittorrent: array_from::<19>(s, 1),
            reserved: array_from::<8>(s, 20),
            info_hash: array_from::<20>(s, 28),
            peer_id: array_from::<20>(s, 48),
        };
        assert(h.spec_bytes() =~= b@);
        h
    }

    /// Checks a peer's reply the way the client does: first the protocol string, then
    /// the length byte.
    pub fn validate(&self) -> (r: Result<(), HandshakeError>)
        ensures
            self.bittorrent@ != protocol_name() ==> r == Err::<(), HandshakeError>(HandshakeError::WrongProtocol),
            self.bittorrent@ == protocol_name() && self.length != 19 ==> r == Err::<(), HandshakeError>(HandshakeError::WrongLength),
            r is Ok <==> self.spec_is_valid(),
    {
        let expected: [u8; 19] = [66u8, 105, 116, 84, 111, 114, 114, 101, 110, 116, 32, 112, 114, 111, 116, 111, 99, 111, 108];
        assert(expected@ =~= protocol_name());
        let mut i: usize = 0;
        while i < 19
            invariant
                i <= 19,
                expected@ == protocol_name(),
                forall|j: int| 0 <= j < i ==> self.bittorrent@[j] == expected@[j],
            decreases 19 - i,
        {
            if self.bittorrent[i] != expected[i] {
                return Err(HandshakeError::WrongProtocol);
            }
            i = i + 1;
        }
        assert(self.bittorrent@ =~= protocol_name());
        if self.length != 19 {
            return Err(HandshakeError::WrongLength);
        }
        Ok(())
    }
}

/// Two handshakes with the same bytes are the same handshake: reading back the bytes
/// that a handshake writes gives that handshake.
pub proof fn lemma_handshake_roundtrip(a: Handshake, b: Handshake)
    requires
        a.spec_bytes() == b.spec_bytes(),
    ensures
        a == b,
{
    let sa = a.spec_bytes();
    let sb = b.spec_bytes();
    assert(a.length == sa[0]);
    assert(a.bittorrent@ =~= sa.subrange(1, 20));
    assert(b.bittorrent@ =~= sb.subrange(1, 20));
    assert(a.reserved@ =~= sa.subrange(20, 28));
    assert(b.reserved@ =~= sb.subrange(20, 28));
    assert(a.info_hash@ =~= sa.subrange(28, 48));
    assert(b.info_hash@ =~= sb.subrange(28, 48));
    assert(a.peer_id@ =~= sa.subrange(48, 68));
    assert(b.peer_id@ =~= sb.subrange(48, 68));
    assert(a.bittorrent =~= b.bittorrent);
    assert(a.reserved =~= b.reserved);
    assert(a.info_hash =~= b.info_hash);
    assert(a.peer_id =~= b.peer_id);
}

/// The handshake's 68 bytes are, in order: the length byte, the 19 bytes of the
/// protocol string, the 8 reserved bytes, the 20 bytes of the info hash and the 20 bytes
/// of the peer id; the protocol string is the ASCII text `BitTorrent protocol`.
pub proof fn lemma_handshake_layout(h: Handshake)
    ensures
        h.spec_bytes().len() == 68,
        h.spec_bytes()[0] == h.length,
        h.spec_bytes().subrange(1, 20) == h.bittorrent@,
        h.spec_bytes().subrange(20, 28) == h.reserved@,
        h.spec_bytes().subrange(28, 48) == h.info_hash@,
        h.spec_bytes().subrange(48, 68) == h.peer_id@,
        protocol_name() == ascii_bytes("BitTorrent protocol"@),
{
    let b = h.spec_bytes();
    assert(b.subrange(1, 20) =~= h.bittorrent@);
    assert(b.subrange(20, 28) =~= h.reserved@);
    assert(b.subrange(28, 48) =~= h.info_hash@);
    assert(b.subrange(48, 68) =~= h.peer_id@);
    reveal_strlit("BitTorrent protocol");
    assert(protocol_name() =~= ascii_bytes("BitTorrent protocol"@));
}

} // verus!
