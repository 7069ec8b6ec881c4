use bittorrent::message::{FrameError, Message, MessageFramer, MessageTag};
use bytes::BytesMut;

#[test]
fn encode_then_decode_gives_message_back() {
    let mut framer = MessageFramer;
    let mut buf = BytesMut::new();
    framer
        .encode(Message { tag: MessageTag::Have, payload: vec![1, 2, 3] }, &mut buf)
        .unwrap();
    assert_eq!(&buf[..], &[0, 0, 0, 4, 4, 1, 2, 3]);
    let m = framer.decode(&mut buf).unwrap().unwrap();
    assert_eq!(m.tag, MessageTag::Have);
    assert_eq!(m.payload, vec![1, 2, 3]);
    assert!(buf.is_empty());
}
