//! Talking to the tracker: the announce request, its URL, and the compact peer list
//! that the tracker sends back.
use vstd::prelude::*;
use crate::be_bytes::be_u16_value;
use crate::primitives::hex_digit;

verus! {

/// The query of an announce request.
pub struct TrackerRequest {
    /// a unique identifier for your client
    pub peer_id: String,
    ///  the port your client is listening on
    pub port: u16,
    /// the total amount uploaded so far
    pub uploaded: usize,
    /// the total amount downloaded so far
    pub downloaded: usize,
    /// the number of bytes left to download
    pub left: usize,
    /// whether the peer list should use the compact representation
    pub compact: u8,
}

impl TrackerRequest {
    /// A first announce: nothing uploaded or downloaded yet, port 6881, compact peers.
    pub fn new(peer_id: String, left: usize) -> (r: Self)
        ensures
            r.peer_id@ == peer_id@,
            r.port == 6881,
            r.uploaded == 0,
            r.downloaded == 0,
            r.left == left,
            r.compact == 1,
    {
        Self { peer_id, port: 6881, uploaded: 0, downloaded: 0, left, compact: 1 }
    }
}

/// `%xx` for each byte, lower-case hexadecimal.
pub open spec fn url_escape(bytes: Seq<u8>) -> Seq<char>
    decreases bytes.len(),
{
    if bytes.len() == 0 {
        Seq::empty()
    } else {
        url_escape(bytes.drop_last()) + seq!['%', hex_digit(bytes.last() / 16), hex_digit(bytes.last() % 16)]
    }
}

/// The escaped text of `bytes` has three characters for each byte, in the order of the
/// bytes: `%`, the digit of the byte's high nibble, then that of its low nibble.
pub proof fn lemma_url_escape_layout(bytes: Seq<u8>)
    ensures
        url_escape(bytes).len() == 3 * bytes.len(),
        forall|i: int| 0 <= i < bytes.len() ==> #[trigger] url_escape(bytes)[3 * i] == '%',
        forall|i: int| #![trigger bytes[i]] 0 <= i < bytes.len() ==> {
            &&& url_escape(bytes)[3 * i + 1] == hex_digit(bytes[i] / 16)
            &&& url_escape(bytes)[3 * i + 2] == hex_digit(bytes[i] % 16)
        },
    decreases bytes.len(),
{
    if bytes.len() > 0 {
        let init = bytes.drop_last();
        lemma_url_escape_layout(init);
        let e = url_escape(bytes);
        assert(e == url_escape(init) + seq!['%', hex_digit(bytes.last() / 16), hex_digit(bytes.last() % 16)]);
        assert forall|i: int| 0 <= i < bytes.len() implies #[trigger] e[3 * i] == '%' by {
            if i < init.len() {
                assert(e[3 * i] == url_escape(init)[3 * i]);
            }
        }
        assert forall|i: int| #![trigger bytes[i]] 0 <= i < bytes.len() implies {
            &&& e[3 * i + 1] == hex_digit(bytes[i] / 16)
            &&& e[3 * i + 2] == hex_digit(bytes[i] % 16)
        } by {
            if i < init.len() {
                assert(bytes[i] == init[i]);
            }
        }
    }
}

/// The text of one hexadecimal digit.
fn hex_digit_str(n: u8) -> (r: &'static str)
    requires
        n < 16,
    ensures
        r@ == seq![hex_digit(n)],
{
    proof {
        reveal_strlit("0"); reveal_strlit("1"); reveal_strlit("2"); reveal_strlit("3");
        reveal_strlit("4"); reveal_strlit("5"); reveal_strlit("6"); reveal_strlit("7");
        reveal_strlit("8"); reveal_strlit("9"); reveal_strlit("a"); reveal_strlit("b");
        reveal_strlit("c"); reveal_strlit("d"); reveal_strlit("e"); reveal_strlit("f");
    }
    let r = match n {
        0 => "0",
        1 => "1",
        2 => "2",
        3 => "3",
        4 => "4",
        5 => "5",
        6 => "6",
        7 => "7",
        8 => "8",
        9 => "9",
        10 => "a",
        11 => "b",
        12 => "c",
        13 => "d",
        14 => "e",
        _ => "f",
    };
    assert(r@ =~= seq![hex_digit(n)]);
    r
}

/// Percent-encodes every byte of `bytes` as `%xx`.
pub fn urlencode_bytes(bytes: &[u8]) -> (r: String)
    ensures
        r@ == url_escape(bytes@),
{
    let mut r = String::new();
    let n: usize = bytes.len();
    let mut i: usize = 0;
    proof { reveal_strlit("%"); }
    while i < n
        invariant
            n == bytes@.len(),
            i <= n,
            r@ == url_escape(bytes@.take(i as int)),
            "%"@ == seq!['%'],
        decreases n - i,
    {
        let b = bytes[i];
        r.append("%");
        r.append(hex_digit_str(b / 16));
        r.append(hex_digit_str(b % 16));
        assert(bytes@.take(i + 1).drop_last() =~= bytes@.take(i as int));
        assert(r@ =~= url_escape(bytes@.take(i + 1)));
        i = i + 1;
    }
    assert(bytes@.take(n as int) =~= bytes@);
    r
}

/// The announce URL: `<announce>?<query>&info_hash=<escaped info hash>`, where `query`
/// is the url-encoded request.
pub fn tracker_url(announce: &str, query: &str, info_hash: &[u8; 20]) -> (r: String)
    ensures
        r@ == announce@ + "?"@ + query@ + "&info_hash="@ + url_escape(info_hash@),
{
    let escaped = urlencode_bytes(info_hash);
    let mut r = announce.to_owned();
    r.append("?");
    r.append(query);
    r.append("&info_hash=");
    r.append(escaped.as_str());
    r
}

/// A peer's IPv4 address and port.
#[derive(Debug, Clone, Copy)]
pub struct PeerAddr {
    pub ip: [u8; 4],
    pub port: u16,
}

/// The peers that the tracker lists.
pub struct Peers(pub Vec<PeerAddr>);

/// Why a compact peer list is refused.
#[derive(Debug, PartialEq, Eq)]
pub enum PeersError {
    /// Its length is not a multiple of 6.
    NotMultipleOf6,
}

/// Whether `p` is the peer that the six bytes of `v` from `start` on describe: four
/// bytes of address and a big-endian port.
pub open spec fn peer_at(v: Seq<u8>, start: int, p: PeerAddr) -> bool {
    &&& p.ip@ == v.subrange(start, start + 4)
    &&& p.port == be_u16_value(v[start + 4], v[start + 5])
}

impl Peers {
    /// Reads a compact peer list: six bytes per peer, the IPv4 address and then the
    /// port in big-endian order; refused where its length is not a multiple of 6.
    pub fn from_bytes(v: &[u8]) -> (r: Result<Peers, PeersError>)
        ensures
            r is Ok <==> v@.len() % 6 == 0,
            r matches Ok(p) ==> p.0@.len() == v@.len() / 6 && forall|i: int|
                0 <= i < p.0@.len() ==> peer_at(v@, 6 * i, #[trigger] p.0@[i]),
            r matches Err(e) ==> e == PeersError::NotMultipleOf6,
    {
        let n: usize = v.len();
        if n % 6 != 0 {
            return Err(PeersError::NotMultipleOf6);
        }
        let mut out: Vec<PeerAddr> = Vec::new();
        let mut i: usize = 0;
        while i < n / 6
            invariant
                n == v@.len(),
                n % 6 == 0,
                i <= n / 6,
                out@.len() == i,
                forall|j: int| 0 <= j < i ==> peer_at(v@, 6 * j, #[trigger] out@[j]),
            decreases n / 6 - i,
        {
            let s = 6 * i;
            let ip = crate::handshake::array_from::<4>(v, s);
            let port: u16 = ((v[s + 4] as u16) << 8u16) | (v[s + 5] as u16);
            out.push(PeerAddr { ip, port });
            i = i + 1;
        }
        Ok(Peers(out))
    }
}

/// What the tracker answers an announce with.
pub struct TrackerResponse {
    /// The peers that your client can connect to.
    pub peers: Peers,
}

/// A listed peer's port is its fifth byte times 256 plus its sixth: every port, up to
/// 65535, is read in full.
pub proof fn lemma_peer_port(v: Seq<u8>, start: int, p: PeerAddr)
    requires
        0 <= start,
        start + 6 <= v.len(),
        peer_at(v, start, p),
    ensures
        p.port as int == v[start + 4] as int * 256 + v[start + 5] as int,
        p.ip@ == seq![v[start], v[start + 1], v[start + 2], v[start + 3]],
{
    crate::be_bytes::lemma_be_u16_value(v[start + 4], v[start + 5], 0);
    assert(p.ip@ =~= seq![v[start], v[start + 1], v[start + 2], v[start + 3]]);
}

} // verus!
