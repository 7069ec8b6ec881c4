//! SHA-1 digests, hexadecimal text, zlib streams and UTF-8 checks, as the `sha1`, `hex`
//! and `flate2` crates and the standard library compute them.
use vstd::prelude::*;
use vstd::utf8::valid_utf8;
use vstd::string::StringSliceAdditionalSpecFns;
use sha1::Digest;
use std::io::{BufRead, BufReader, Read, Write};
use crate::bencode::first_index_of;

verus! {

/// The SHA-1 digest of `data`.
pub uninterp spec fn sha1_hash(data: Seq<u8>) -> Seq<u8>;

/// `<sha1::Sha1 as Digest>::digest`: the 20-byte SHA-1 digest of `data`. The contract
/// names the digest; what SHA-1 computes is left to the `sha1` crate.
#[verifier::external_body]
pub(crate) fn sha1_digest(data: &[u8]) -> (r: [u8; 20])
    ensures
        r@ == sha1_hash(data@),
{
    sha1::Sha1::digest(data).into()
}

/// The lower-case hexadecimal digit for `n` (below 16).
pub open spec fn hex_digit(n: u8) -> char {
    if n < 10 {
        ((n + 48) as u8) as char
    } else {
        ((n + 87) as u8) as char
    }
}

/// Lower-case hexadecimal text for `bytes`: two digits per byte, high nibble first.
pub open spec fn hex_lower(bytes: Seq<u8>) -> Seq<char>
    decreases bytes.len(),
{
    if bytes.len() == 0 {
        Seq::empty()
    } else {
        hex_lower(bytes.drop_last()) + seq![hex_digit(bytes.last() / 16), hex_digit(bytes.last() % 16)]
    }
}

/// The hexadecimal digits are `0` to `9`, then the lower-case letters `a` to `f`.
pub proof fn lemma_hex_digit_table()
    ensures
        hex_digit(0) == '0',
        hex_digit(1) == '1',
        hex_digit(2) == '2',
        hex_digit(3) == '3',
        hex_digit(4) == '4',
        hex_digit(5) == '5',
        hex_digit(6) == '6',
        hex_digit(7) == '7',
        hex_digit(8) == '8',
        hex_digit(9) == '9',
        hex_digit(10) == 'a',
        hex_digit(11) == 'b',
        hex_digit(12) == 'c',
        hex_digit(13) == 'd',
        hex_digit(14) == 'e',
        hex_digit(15) == 'f',
{
}

/// The hexadecimal text of `bytes` has two characters for each byte, in the order of
/// the bytes: the digit of the byte's high nibble, then that of its low nibble.
pub proof fn lemma_hex_lower_layout(bytes: Seq<u8>)
    ensures
        hex_lower(bytes).len() == 2 * bytes.len(),
        forall|i: int| #![trigger bytes[i]] 0 <= i < bytes.len() ==> {
            &&& hex_lower(bytes)[2 * i] == hex_digit(bytes[i] / 16)
            &&& hex_lower(bytes)[2 * i + 1] == hex_digit(bytes[i] % 16)
        },
    decreases bytes.len(),
{
    if bytes.len() > 0 {
        let init = bytes.drop_last();
        lemma_hex_lower_layout(init);
        assert forall|i: int| #![trigger bytes[i]] 0 <= i < bytes.len() implies {
            &&& hex_lower(bytes)[2 * i] == hex_digit(bytes[i] / 16)
            &&& hex_lower(bytes)[2 * i + 1] == hex_digit(bytes[i] % 16)
        } by {
            if i < init.len() {
                assert(bytes[i] == init[i]);
            }
        }
    }
}

/// `hex::encode`: the lower-case hexadecimal text of `data`, two digits per byte, the
/// high nibble first (the crate's `BytesToHexChars` with its lower-case table).
#[verifier::external_body]
pub(crate) fn hex_encode(data: &[u8]) -> (r: String)
    ensures
        r@ == hex_lower(data@),
{
    hex::encode(data)
}

/// What a zlib compression of `data` at the default level gives.
pub uninterp spec fn zlib_deflate(data: Seq<u8>) -> Seq<u8>;

/// What reading the zlib stream `data` through a buffered reader up to and including
/// its first NUL byte gives (the whole stream where it has none), or `None` where
/// decompression fails first.
pub uninterp spec fn zlib_read_header(data: Seq<u8>) -> Option<Seq<u8>>;

/// What reading at most `n` more bytes of the zlib stream `data` after that header
/// gives: the bytes read, and whether decompression failed before `n` bytes or the end
/// of the stream were reached.
pub uninterp spec fn zlib_read_content(data: Seq<u8>, n: nat) -> (Seq<u8>, bool);

/// The bytes of `d` up to and including its first NUL (all of `d` where it has none).
pub open spec fn through_first_nul(d: Seq<u8>) -> Seq<u8> {
    match first_index_of(d, 0u8) {
        Some(k) => d.take(k + 1),
        None => d,
    }
}

/// The bytes of `d` after its first NUL (none where it has none).
pub open spec fn after_first_nul(d: Seq<u8>) -> Seq<u8> {
    match first_index_of(d, 0u8) {
        Some(k) => d.skip(k + 1),
        None => Seq::empty(),
    }
}

/// `flate2::write::ZlibEncoder` at `Compression::default()`, writing into a vector and
/// finished: the zlib stream of `data`. Writing into a vector does not fail. The
/// contract names the stream and states that reading it back, as `zlib_header` and
/// `zlib_content` do, gives the bytes of `data`; the stream's bytes are left to `flate2`.
#[verifier::external_body]
pub(crate) fn zlib_compress(data: &[u8]) -> (r: Vec<u8>)
    ensures
        r@ == zlib_deflate(data@),
        zlib_read_header(r@) == Some(through_first_nul(data@)),
        forall|n: nat| #[trigger] zlib_read_content(r@, n) == (
            after_first_nul(data@).take(if n <= after_first_nul(data@).len() { n as int } else { after_first_nul(data@).len() as int }),
            false,
        ),
{
    let mut e = flate2::write::ZlibEncoder::new(Vec::new(), flate2::Compression::default());
    e.write_all(data).unwrap();
    e.finish().unwrap()
}

/// `BufRead::read_until` with a NUL delimiter on a `BufReader` over
/// `flate2::read::ZlibDecoder`: the stream's bytes up to and including the first NUL,
/// or `None` where reading fails.
#[verifier::external_body]
pub(crate) fn zlib_header(data: &[u8]) -> (r: Option<Vec<u8>>)
    ensures
        match r {
            Some(v) => zlib_read_header(data@) == Some(v@),
            None => zlib_read_header(data@) is None,
        },
{
    let mut reader = BufReader::new(flate2::read::ZlibDecoder::new(data));
    let mut buf = Vec::new();
    match reader.read_until(0, &mut buf) {
        Ok(_) => Some(buf),
        Err(_) => None,
    }
}

/// The same reader after `read_until` with a NUL delimiter, then `Read::take(n)` and
/// `read_to_end`: at most `n` bytes (`take` reads no more), those read before any
/// failure, and whether reading failed.
#[verifier::external_body]
pub(crate) fn zlib_content(data: &[u8], n: u64) -> (r: (Vec<u8>, bool))
    ensures
        (r.0@, r.1) == zlib_read_content(data@, n as nat),
        r.0@.len() <= n,
{
    let mut reader = BufReader::new(flate2::read::ZlibDecoder::new(data));
    let mut header = Vec::new();
    if reader.read_until(0, &mut header).is_err() {
        return (Vec::new(), true);
    }
    let mut content = Vec::new();
    let failed = reader.take(n).read_to_end(&mut content).is_err();
    (content, failed)
}

/// `std::str::from_utf8`: the text that `v` encodes, or `None` where `v` is not UTF-8.
#[verifier::external_body]
pub(crate) fn utf8_str(v: &[u8]) -> (r: Option<&str>)
    ensures
        r is Some <==> valid_utf8(v@),
        r matches Some(s) ==> s.spec_bytes() == v@,
{
    std::str::from_utf8(v).ok()
}

/// The lower-case hexadecimal text of `bytes`, two digits per byte.
pub fn encode_hex(bytes: &[u8]) -> (r: String)
    ensures
        r@ == hex_lower(bytes@),
{
    hex_encode(bytes)
}

} // verus!
