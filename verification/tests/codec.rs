use bytes::{Bytes, BytesMut};
use kf_protocol_message::codec::SimpleCodec;

#[test]
fn decode_takes_every_buffered_byte() {
    let mut codec = SimpleCodec::default();
    let mut buf = BytesMut::from(&b"hello"[..]);
    let item = codec.decode(&mut buf).expect("decode never fails");
    let item = item.expect("bytes were buffered");
    assert_eq!(&item[..], b"hello");
    assert_eq!(buf.len(), 0);
}

#[test]
fn decode_with_nothing_buffered_gives_no_item() {
    let mut codec = SimpleCodec::default();
    let mut buf = BytesMut::new();
    let item = codec.decode(&mut buf).expect("decode never fails");
    assert!(item.is_none());
    assert_eq!(buf.len(), 0);
}

#[test]
fn decode_twice_second_gives_nothing() {
    let mut codec = SimpleCodec::default();
    let mut buf = BytesMut::from(&[0x05u8, 0x0a, 0x63][..]);
    let first = codec.decode(&mut buf).unwrap().unwrap();
    assert_eq!(&first[..], &[0x05u8, 0x0a, 0x63][..]);
    assert!(codec.decode(&mut buf).unwrap().is_none());
}

#[test]
fn encode_appends_after_buffered_bytes() {
    let mut codec = SimpleCodec::default();
    let mut buf = BytesMut::from(&b"ab"[..]);
    codec.encode(Bytes::from(&b"cde"[..]), &mut buf).expect("encode never fails");
    assert_eq!(&buf[..], b"abcde");
}

#[test]
fn encode_empty_data_leaves_buffer() {
    let mut codec = SimpleCodec::default();
    let mut buf = BytesMut::from(&b"xy"[..]);
    codec.encode(Bytes::new(), &mut buf).unwrap();
    assert_eq!(&buf[..], b"xy");
}

#[test]
fn decode_after_encode_gives_back_the_data() {
    let mut codec = SimpleCodec::default();
    let mut buf = BytesMut::new();
    codec.encode(Bytes::from(vec![0x20u8, 0x11]), &mut buf).unwrap();
    let item = codec.decode(&mut buf).unwrap().unwrap();
    assert_eq!(&item[..], &[0x20u8, 0x11][..]);
    assert_eq!(item.len(), 2);
    assert!(buf.is_empty());
}

#[test]
fn encode_then_decode_with_nothing_gives_no_item() {
    let mut codec = SimpleCodec::default();
    let mut buf = BytesMut::new();
    codec.encode(Bytes::new(), &mut buf).unwrap();
    assert!(codec.decode(&mut buf).unwrap().is_none());
}
