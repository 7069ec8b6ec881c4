use bittorrent::message::{Message, MessageTag};
use bittorrent::piece::{DownloadError, PieceDownload, Stage, Step};
use bittorrent::torrent::{Info, Keys, Pieces, Torrent};
use sha1::Digest;

fn sha1(data: &[u8]) -> [u8; 20] {
    sha1::Sha1::digest(data).into()
}

fn torrent(total: usize, plength: usize, hashes: Vec<[u8; 20]>) -> Torrent {
    Torrent {
        announce: String::new(),
        info: Info { name: "f".to_string(), plength, pieces: Pieces(hashes), keys: Keys::SingleFile { length: total } },
    }
}

fn msg(tag: MessageTag, payload: Vec<u8>) -> Message {
    Message { tag, payload }
}

fn piece_msg(index: u32, begin: u32, data: &[u8]) -> Message {
    let mut p = index.to_be_bytes().to_vec();
    p.extend_from_slice(&begin.to_be_bytes());
    p.extend_from_slice(data);
    msg(MessageTag::Piece, p)
}

fn expect_send(step: Step, tag: MessageTag) -> Vec<u8> {
    match step {
        Step::Send(m) => {
            assert_eq!(m.tag, tag);
            m.payload
        }
        _ => panic!("expected a message to send"),
    }
}

fn request(index: u32, begin: u32, len: u32) -> Vec<u8> {
    [index.to_be_bytes(), begin.to_be_bytes(), len.to_be_bytes()].concat()
}

#[test]
fn downloads_a_two_block_last_piece() {
    // Total 60000 bytes in pieces of 40000: the last piece holds 20000 bytes, which is
    // one full block and a shorter one.
    let data: Vec<u8> = (0..20000u32).map(|i| (i % 251) as u8).collect();
    let t = torrent(60000, 40000, vec![[0u8; 20], sha1(&data)]);
    let mut d = PieceDownload::new(&t, 1);
    assert_eq!(d.stage, Stage::AwaitBitfield);
    assert!(expect_send(d.on_message(msg(MessageTag::Bitfield, vec![0xff])), MessageTag::Interested).is_empty());
    let r0 = expect_send(d.on_message(msg(MessageTag::Unchoke, vec![])), MessageTag::Request);
    assert_eq!(r0, request(1, 0, 16384));
    let r1 = expect_send(d.on_message(piece_msg(1, 0, &data[..16384])), MessageTag::Request);
    assert_eq!(r1, request(1, 16384, 20000 - 16384));
    match d.on_message(piece_msg(1, 16384, &data[16384..])) {
        Step::Done(buf) => assert_eq!(buf, data),
        _ => panic!("expected the piece"),
    }
    assert_eq!(d.stage, Stage::Finished);
}

#[test]
fn last_piece_that_divides_evenly_is_full() {
    let data = vec![7u8; 8];
    let t = torrent(16, 8, vec![[0u8; 20], sha1(&data)]);
    let mut d = PieceDownload::new(&t, 1);
    expect_send(d.on_message(msg(MessageTag::Bitfield, vec![])), MessageTag::Interested);
    let r = expect_send(d.on_message(msg(MessageTag::Unchoke, vec![])), MessageTag::Request);
    assert_eq!(r, request(1, 0, 8));
    assert!(matches!(d.on_message(piece_msg(1, 0, &data)), Step::Done(_)));
}

#[test]
fn hash_mismatch_is_refused() {
    let t = torrent(3, 8, vec![[5u8; 20]]);
    let mut d = PieceDownload::new(&t, 0);
    expect_send(d.on_message(msg(MessageTag::Bitfield, vec![])), MessageTag::Interested);
    assert_eq!(expect_send(d.on_message(msg(MessageTag::Unchoke, vec![])), MessageTag::Request), request(0, 0, 3));
    match d.on_message(piece_msg(0, 0, &[1, 2, 3])) {
        Step::Fail(DownloadError::HashMismatch(expected, actual)) => {
            assert_eq!(expected, [5u8; 20]);
            assert_eq!(actual, sha1(&[1, 2, 3]));
        }
        _ => panic!("expected a hash mismatch"),
    }
}

fn fail_of(step: Step) -> DownloadError {
    match step {
        Step::Fail(e) => e,
        _ => panic!("expected a failure"),
    }
}

#[test]
fn protocol_errors() {
    let t = torrent(100, 50, vec![[0u8; 20], [0u8; 20]]);
    let mut d = PieceDownload::new(&t, 0);
    assert_eq!(fail_of(d.on_message(msg(MessageTag::Have, vec![]))), DownloadError::ExpectedBitfield(MessageTag::Have));

    let mut d = PieceDownload::new(&t, 0);
    d.on_message(msg(MessageTag::Bitfield, vec![]));
    assert_eq!(fail_of(d.on_message(msg(MessageTag::Choke, vec![]))), DownloadError::ExpectedUnchoke(MessageTag::Choke));

    let mut d = PieceDownload::new(&t, 0);
    d.on_message(msg(MessageTag::Bitfield, vec![]));
    assert_eq!(fail_of(d.on_message(msg(MessageTag::Unchoke, vec![1]))), DownloadError::UnchokeHasPayload);

    let mut d = PieceDownload::new(&t, 2);
    d.on_message(msg(MessageTag::Bitfield, vec![]));
    assert_eq!(fail_of(d.on_message(msg(MessageTag::Unchoke, vec![]))), DownloadError::PieceIndexOutOfRange);

    let start = || {
        let mut d = PieceDownload::new(&t, 0);
        d.on_message(msg(MessageTag::Bitfield, vec![]));
        d.on_message(msg(MessageTag::Unchoke, vec![]));
        d
    };
    assert_eq!(fail_of(start().on_message(msg(MessageTag::Have, vec![]))), DownloadError::ExpectedPiece(MessageTag::Have));
    assert_eq!(fail_of(start().on_message(msg(MessageTag::Piece, vec![0; 7]))), DownloadError::PayloadTooShort(7));
    assert_eq!(fail_of(start().on_message(piece_msg(1, 0, &[0; 50]))), DownloadError::IndexMismatch);
    assert_eq!(fail_of(start().on_message(piece_msg(0, 1, &[0; 50]))), DownloadError::BeginMismatch);
    assert_eq!(fail_of(start().on_message(piece_msg(0, 0, &[0; 49]))), DownloadError::BlockLength(49, 50));
}

#[test]
fn empty_piece_is_checked_at_once() {
    let t = torrent(0, 0, vec![sha1(b""), [0u8; 20]]);
    let mut d = PieceDownload::new(&t, 0);
    expect_send(d.on_message(msg(MessageTag::Bitfield, vec![])), MessageTag::Interested);
    match d.on_message(msg(MessageTag::Unchoke, vec![])) {
        Step::Done(buf) => assert!(buf.is_empty()),
        _ => panic!("expected the empty piece"),
    }
    assert_eq!(fail_of(d.on_message(msg(MessageTag::Piece, vec![]))), DownloadError::AlreadyFinished);
}
