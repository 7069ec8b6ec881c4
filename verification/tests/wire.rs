use bittorrent::handshake::{Handshake, HandshakeError};
use bittorrent::message::{FrameError, Message, MessageFramer, MessageTag};
use bittorrent::peer::Request;
use bytes::BytesMut;

#[test]
fn handshake_bytes() {
    let h = Handshake::new([7u8; 20], *b"00112233445566778899");
    let b = h.to_bytes();
    assert_eq!(b.len(), 68);
    assert_eq!(b[0], 19);
    assert_eq!(&b[1..20], b"BitTorrent protocol");
    assert_eq!(&b[20..28], &[0u8; 8]);
    assert_eq!(&b[28..48], &[7u8; 20]);
    assert_eq!(&b[48..68], b"00112233445566778899");
    assert_eq!(h.validate(), Ok(()));
}

#[test]
fn handshake_reads_back() {
    let h = Handshake::new([9u8; 20], [3u8; 20]);
    let bytes: [u8; 68] = h.to_bytes().try_into().unwrap();
    let back = Handshake::from_bytes(&bytes);
    assert_eq!(back.length, 19);
    assert_eq!(back.bittorrent, h.bittorrent);
    assert_eq!(back.reserved, h.reserved);
    assert_eq!(back.info_hash, [9u8; 20]);
    assert_eq!(back.peer_id, [3u8; 20]);
    assert_eq!(back.to_bytes(), bytes.to_vec());
}

#[test]
fn handshake_reply_checks() {
    let mut bytes = [0u8; 68];
    bytes[0] = 19;
    bytes[1..20].copy_from_slice(b"BitTorrent protocoL");
    assert_eq!(Handshake::from_bytes(&bytes).validate(), Err(HandshakeError::WrongProtocol));
    bytes[1..20].copy_from_slice(b"BitTorrent protocol");
    bytes[0] = 18;
    assert_eq!(Handshake::from_bytes(&bytes).validate(), Err(HandshakeError::WrongLength));
    bytes[0] = 19;
    assert_eq!(Handshake::from_bytes(&bytes).validate(), Ok(()));
}

#[test]
fn request_fields_read_back() {
    let r = Request::new(3, 16384, 0x0102_0304);
    assert_eq!(r.index(), 3);
    assert_eq!(r.begin(), 16384);
    assert_eq!(r.length(), 0x0102_0304);
    assert_eq!(r.as_bytes(), vec![0, 0, 0, 3, 0, 0, 0x40, 0, 1, 2, 3, 4]);
}

#[test]
fn message_tag_bytes() {
    assert_eq!(MessageTag::Choke.as_byte(), 0);
    assert_eq!(MessageTag::Cancel.as_byte(), 8);
    assert_eq!(MessageTag::from_byte(5), Some(MessageTag::Bitfield));
    assert_eq!(MessageTag::from_byte(9), None);
}

#[test]
fn frame_roundtrip_with_trailing_bytes() {
    let mut framer = MessageFramer;
    let mut buf = BytesMut::new();
    framer.encode(Message { tag: MessageTag::Piece, payload: vec![9; 300] }, &mut buf).unwrap();
    buf.extend_from_slice(&[0, 0]);
    let m = framer.decode(&mut buf).unwrap().unwrap();
    assert_eq!(m.tag, MessageTag::Piece);
    assert_eq!(m.payload, vec![9; 300]);
    assert_eq!(&buf[..], &[0, 0]);
}

#[test]
fn decode_waits_for_a_whole_frame() {
    let mut framer = MessageFramer;
    let mut buf = BytesMut::from(&[0u8, 0, 0][..]);
    assert!(framer.decode(&mut buf).unwrap().is_none());
    assert_eq!(buf.len(), 3);
    let mut buf = BytesMut::from(&[0u8, 0, 0, 3, 1, 2][..]);
    assert!(framer.decode(&mut buf).unwrap().is_none());
    assert_eq!(&buf[..], &[0, 0, 0, 3, 1, 2]);
    assert!(buf.capacity() >= 7);
}

#[test]
fn decode_skips_keep_alives() {
    let mut framer = MessageFramer;
    let mut buf = BytesMut::from(&[0u8, 0, 0, 0, 0, 0, 0, 0, 0, 0, 0, 1, 1][..]);
    let m = framer.decode(&mut buf).unwrap().unwrap();
    assert_eq!(m.tag, MessageTag::Unchoke);
    assert!(m.payload.is_empty());
    assert!(buf.is_empty());
    let mut buf = BytesMut::from(&[0u8, 0, 0, 0][..]);
    assert!(framer.decode(&mut buf).unwrap().is_none());
    assert!(buf.is_empty());
}

#[test]
fn decode_refuses_bad_frames() {
    let mut framer = MessageFramer;
    let mut buf = BytesMut::from(&[0u8, 1, 0, 1, 7][..]);
    assert_eq!(framer.decode(&mut buf).err(), Some(FrameError::TooLarge(65537)));
    let mut buf = BytesMut::from(&[0u8, 0, 0, 1, 9][..]);
    assert_eq!(framer.decode(&mut buf).err(), Some(FrameError::InvalidTag(9)));
    assert_eq!(buf.len(), 5);
}

#[test]
fn encode_refuses_large_messages() {
    let mut framer = MessageFramer;
    let mut buf = BytesMut::new();
    let r = framer.encode(Message { tag: MessageTag::Piece, payload: vec![0; 65536] }, &mut buf);
    assert_eq!(r, Err(FrameError::TooLarge(65537)));
    assert!(buf.is_empty());
    let r = framer.encode(Message { tag: MessageTag::Piece, payload: vec![0; 65535] }, &mut buf);
    assert_eq!(r, Ok(()));
    assert_eq!(&buf[..5], &[0, 1, 0, 0, 7]);
}
