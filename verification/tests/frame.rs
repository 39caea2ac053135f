use bytes::Bytes;
use exchange_matcher::protocol::frame::{
    read_header, FrameHeader, BUFFER_CAPACITY, CHECKSUM_LEN, HEADER_LEN,
};
use exchange_matcher::protocol::{FrameDecoder, ProtocolDecoder};

/// Hands the frame's bytes back, and refuses frames whose body starts
/// with 0xFF.
struct Echo;

impl ProtocolDecoder for Echo {
    type Message = Vec<u8>;

    fn decode(&mut self, buf: &mut Bytes) -> Option<Vec<u8>> {
        if buf.len() > 16 && buf[16] == 0xFF {
            None
        } else {
            Some(buf.to_vec())
        }
    }
}

fn frame(msg_type: u32, seq: u64, body: &[u8], checksum: u32) -> Vec<u8> {
    let mut out = Vec::new();
    out.extend_from_slice(&msg_type.to_be_bytes());
    out.extend_from_slice(&seq.to_be_bytes());
    out.extend_from_slice(&(body.len() as u32).to_be_bytes());
    out.extend_from_slice(body);
    out.extend_from_slice(&checksum.to_be_bytes());
    out
}

#[test]
fn constants_of_the_frame_layout() {
    assert_eq!(HEADER_LEN, 16);
    assert_eq!(CHECKSUM_LEN, 4);
    assert_eq!(BUFFER_CAPACITY, 4096);
}

#[test]
fn header_is_read_big_endian() {
    let bytes = [
        0x00, 0x00, 0x00, 0x67, // type 103
        0x01, 0x02, 0x03, 0x04, 0x05, 0x06, 0x07, 0x08, // sequence
        0x00, 0x00, 0x01, 0x02, // body length 258
        0xAA, 0xBB,
    ];
    assert_eq!(
        read_header(&bytes),
        Some(FrameHeader {
            msg_type: 103,
            msg_seq_num: 0x0102030405060708,
            msg_body_len: 258,
        })
    );
    assert_eq!(
        read_header(&[0xFF; 16]),
        Some(FrameHeader {
            msg_type: u32::MAX,
            msg_seq_num: u64::MAX,
            msg_body_len: u32::MAX,
        })
    );
}

#[test]
fn header_needs_sixteen_bytes() {
    assert_eq!(read_header(&[]), None);
    assert_eq!(read_header(&[0u8; 15]), None);
    assert!(read_header(&[0u8; 16]).is_some());
}

#[test]
fn no_frame_without_bytes() {
    let mut framer = FrameDecoder::new(Echo);
    assert_eq!(framer.next_frame(), None);
    assert!(framer.take_frame().is_none());
}

#[test]
fn a_whole_frame_comes_out_once() {
    let mut framer = FrameDecoder::new(Echo);
    let bytes = frame(1, 9, b"hello", 0xDEADBEEF);
    framer.feed(&bytes);
    assert_eq!(framer.next_frame(), Some(bytes));
    assert_eq!(framer.next_frame(), None);
}

#[test]
fn a_frame_with_an_empty_body() {
    let mut framer = FrameDecoder::new(Echo);
    let bytes = frame(2, 1, b"", 7);
    assert_eq!(bytes.len(), 20);
    framer.feed(&bytes);
    assert_eq!(framer.next_frame(), Some(bytes));
}

#[test]
fn a_partial_header_waits() {
    let mut framer = FrameDecoder::new(Echo);
    let bytes = frame(1, 9, b"hello", 0);
    framer.feed(&bytes[..10]);
    assert_eq!(framer.next_frame(), None);
    framer.feed(&bytes[10..]);
    assert_eq!(framer.next_frame(), Some(bytes));
}

#[test]
fn a_partial_body_waits() {
    let mut framer = FrameDecoder::new(Echo);
    let bytes = frame(1, 9, b"hello", 0);
    framer.feed(&bytes[..18]);
    assert_eq!(framer.next_frame(), None);
    // the checksum is part of the frame
    framer.feed(&bytes[18..bytes.len() - 1]);
    assert_eq!(framer.next_frame(), None);
    framer.feed(&bytes[bytes.len() - 1..]);
    assert_eq!(framer.next_frame(), Some(bytes));
}

#[test]
fn repeated_calls_drain_the_buffer_in_order() {
    let mut framer = FrameDecoder::new(Echo);
    let first = frame(1, 1, b"one", 0);
    let second = frame(1, 2, b"second", 0);
    let third = frame(1, 3, b"3", 0);
    let mut all = first.clone();
    all.extend_from_slice(&second);
    all.extend_from_slice(&third[..5]);
    framer.feed(&all);
    assert_eq!(framer.next_frame(), Some(first));
    assert_eq!(framer.next_frame(), Some(second));
    assert_eq!(framer.next_frame(), None);
    framer.feed(&third[5..]);
    assert_eq!(framer.next_frame(), Some(third));
    assert_eq!(framer.next_frame(), None);
}

#[test]
fn a_refused_frame_is_consumed() {
    let mut framer = FrameDecoder::new(Echo);
    let bad = frame(1, 1, &[0xFF, 1, 2], 0);
    let good = frame(1, 2, b"ok", 0);
    framer.feed(&bad);
    framer.feed(&good);
    assert_eq!(framer.next_frame(), None);
    assert_eq!(framer.next_frame(), Some(good));
}

#[test]
fn take_frame_gives_the_raw_bytes() {
    let mut framer = FrameDecoder::new(Echo);
    let bytes = frame(5, 6, &[0xFF, 0xFE], 1);
    framer.feed(&bytes);
    framer.feed(&[1, 2, 3]);
    let raw = framer.take_frame().unwrap();
    assert_eq!(&raw[..], &bytes[..]);
    assert!(framer.take_frame().is_none());
}
