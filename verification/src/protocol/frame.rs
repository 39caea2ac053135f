//! Length-prefixed framing. A frame is a header of 16 bytes (message
//! type, sequence number and body length, all big-endian), the body, and
//! a checksum of 4 bytes that the framer passes on unread.

use vstd::prelude::*;
use bytes::{Buf, Bytes, BytesMut};

verus! {

/// `bytes::BytesMut`, a growable byte buffer. The verifier knows the type
/// by name only.
#[verifier::external_type_specification]
#[verifier::external_body]
pub struct ExBytesMut(BytesMut);

/// `bytes::Bytes`, a read-only run of bytes. The verifier knows the type
/// by name only.
#[verifier::external_type_specification]
#[verifier::external_body]
pub struct ExBytes(Bytes);

/// The bytes that a `bytes::BytesMut` holds.
pub uninterp spec fn buffered(buffer: BytesMut) -> Seq<u8>;

/// The bytes that a `bytes::Bytes` holds.
pub uninterp spec fn frozen(bytes: Bytes) -> Seq<u8>;

/// The number that a run of bytes spells, most significant byte first.
pub open spec fn be_value(bytes: Seq<u8>) -> nat
    decreases bytes.len(),
{
    if bytes.len() == 0 {
        0
    } else {
        be_value(bytes.drop_last()) * 256 + bytes.last() as nat
    }
}

/// Length of the frame header.
pub const HEADER_LEN: usize = 16;

/// Length of the checksum that closes a frame.
pub const CHECKSUM_LEN: usize = 4;

/// Initial capacity of a decoder's buffer.
pub const BUFFER_CAPACITY: usize = 4096;

/// `BytesMut::with_capacity`: the new buffer holds no bytes.
#[verifier::external_body]
fn buffer_with_capacity(capacity: usize) -> (buffer: BytesMut)
    ensures
        buffered(buffer) == Seq::<u8>::empty(),
{
    BytesMut::with_capacity(capacity)
}

/// `BytesMut::extend_from_slice`: the given bytes go to the end of the
/// buffer.
#[verifier::external_body]
fn buffer_extend(buffer: &mut BytesMut, data: &[u8])
    ensures
        buffered(*final(buffer)) == buffered(*old(buffer)) + data@,
{
    buffer.extend_from_slice(data)
}

/// `BytesMut::len`: the number of bytes in the buffer.
#[verifier::external_body]
fn buffer_len(buffer: &BytesMut) -> (len: usize)
    ensures
        len == buffered(*buffer).len(),
{
    buffer.len()
}

/// `Deref::deref` of `BytesMut`: the bytes of the buffer as a slice.
#[verifier::external_body]
fn buffer_bytes(buffer: &BytesMut) -> (bytes: &[u8])
    ensures
        bytes@ == buffered(*buffer),
{
    &buffer[..]
}

/// `BytesMut::split_to`, for a position within the buffer: the bytes
/// before the position come back as a buffer of their own, those from the
/// position on stay.
#[verifier::external_body]
fn buffer_split_to(buffer: &mut BytesMut, at: usize) -> (front: BytesMut)
    requires
        at <= buffered(*old(buffer)).len(),
    ensures
        buffered(front) == buffered(*old(buffer)).take(at as int),
        buffered(*final(buffer)) == buffered(*old(buffer)).skip(at as int),
{
    buffer.split_to(at)
}

/// `BytesMut::freeze`: the same bytes, read-only.
#[verifier::external_body]
fn buffer_freeze(buffer: BytesMut) -> (bytes: Bytes)
    ensures
        frozen(bytes) == buffered(buffer),
{
    buffer.freeze()
}

/// `Buf::get_u32` of a byte slice that holds at least 4 bytes: the number
/// that the first 4 bytes spell, most significant first; the slice moves
/// on past them.
#[verifier::external_body]
fn take_u32(cursor: &mut &[u8]) -> (value: u32)
    requires
        old(cursor)@.len() >= 4,
    ensures
        value == be_value(old(cursor)@.take(4)),
        final(cursor)@ == old(cursor)@.skip(4),
{
    cursor.get_u32()
}

/// `Buf::get_u64` of a byte slice that holds at least 8 bytes: the number
/// that the first 8 bytes spell, most significant first; the slice moves
/// on past them.
#[verifier::external_body]
fn take_u64(cursor: &mut &[u8]) -> (value: u64)
    requires
        old(cursor)@.len() >= 8,
    ensures
        value == be_value(old(cursor)@.take(8)),
        final(cursor)@ == old(cursor)@.skip(8),
{
    cursor.get_u64()
}

/// The fixed part that opens every frame.
#[derive(Debug, Clone, Copy, PartialEq, Eq)]
pub struct FrameHeader {
    pub msg_type: u32,
    pub msg_seq_num: u64,
    pub msg_body_len: u32,
}

/// The header that the first 16 bytes of `bytes` spell.
pub open spec fn header_of(bytes: Seq<u8>) -> FrameHeader {
    FrameHeader {
        msg_type: be_value(bytes.subrange(0, 4)) as u32,
        msg_seq_num: be_value(bytes.subrange(4, 12)) as u64,
        msg_body_len: be_value(bytes.subrange(12, 16)) as u32,
    }
}

/// The length of the frame that opens `bytes`: header, body and checksum.
/// `None` where `bytes` does not yet hold the whole of it.
pub open spec fn frame_len(bytes: Seq<u8>) -> Option<nat> {
    if bytes.len() < 16 {
        None
    } else {
        let total = (16 + header_of(bytes).msg_body_len + 4) as nat;
        if bytes.len() < total {
            None
        } else {
            Some(total)
        }
    }
}

/// Reads the header that opens `bytes`, if all of its 16 bytes are there.
pub fn read_header(bytes: &[u8]) -> (header: Option<FrameHeader>)
    ensures
        bytes@.len() < 16 ==> header is None,
        bytes@.len() >= 16 ==> header == Some(header_of(bytes@)),
{
    if bytes.len() < HEADER_LEN {
        return None;
    }
    let mut cursor = bytes;
    let msg_type = take_u32(&mut cursor);
    let msg_seq_num = take_u64(&mut cursor);
    let msg_body_len = take_u32(&mut cursor);
    proof {
        assert(bytes@.take(4) =~= bytes@.subrange(0, 4));
        assert(bytes@.skip(4).take(8) =~= bytes@.subrange(4, 12));
        assert(bytes@.skip(4).skip(8).take(4) =~= bytes@.subrange(12, 16));
    }
    Some(FrameHeader { msg_type, msg_seq_num, msg_body_len })
}

/// Turns the bytes of one frame into a message. The framer hands over
/// the whole frame: header, body and checksum.
pub trait ProtocolDecoder: Send + Sync {
    type Message;

    /// What this decoder can make of a frame: out of the bytes `frame` it
    /// makes `message` and is `after` from then on. A decoder that says
    /// nothing of itself can make anything of any frame.
    open spec fn decodes(
        &self,
        frame: Seq<u8>,
        after: &Self,
        message: Option<Self::Message>,
    ) -> bool {
        true
    }

    /// The message that the frame holds, or `None` where it is malformed.
    fn decode(&mut self, buf: &mut Bytes) -> (message: Option<Self::Message>)
        ensures
            old(self).decodes(frozen(*old(buf)), final(self), message),
    ;
}

/// Cuts a byte stream into frames and decodes them.
pub struct FrameDecoder<D: ProtocolDecoder> {
    buffer: BytesMut,
    decoder: D,
}

impl<D: ProtocolDecoder> FrameDecoder<D> {
    /// The bytes fed and not yet taken out as frames.
    pub closed spec fn pending(&self) -> Seq<u8> {
        buffered(self.buffer)
    }

    /// The message decoder.
    pub closed spec fn decoder(&self) -> D {
        self.decoder
    }

    pub fn new(decoder: D) -> (framer: Self)
        ensures
            framer.pending() == Seq::<u8>::empty(),
            framer.decoder() == decoder,
    {
        Self { buffer: buffer_with_capacity(BUFFER_CAPACITY), decoder }
    }

    /// Appends bytes read from the stream.
    pub fn feed(&mut self, data: &[u8])
        ensures
            final(self).pending() == old(self).pending() + data@,
            final(self).decoder() == old(self).decoder(),
    {
        buffer_extend(&mut self.buffer, data);
    }

    /// Takes the frame that opens the pending bytes out of them, if the
    /// whole of it is there; else nothing changes.
    pub fn take_frame(&mut self) -> (frame: Option<Bytes>)
        ensures
            match frame_len(old(self).pending()) {
                Some(total) => {
                    &&& frame matches Some(bytes)
                    &&& frozen(bytes) == old(self).pending().take(total as int)
                    &&& final(self).pending() == old(self).pending().skip(total as int)
                },
                None => frame is None && final(self).pending() == old(self).pending(),
            },
            final(self).decoder() == old(self).decoder(),
    {
        let header = match read_header(buffer_bytes(&self.buffer)) {
            Some(header) => header,
            None => {
                return None;
            },
        };
        let total_len: u64 = HEADER_LEN as u64 + header.msg_body_len as u64 + CHECKSUM_LEN as u64;
        let len = buffer_len(&self.buffer);
        if (len as u64) < total_len {
            return None;
        }
        let front = buffer_split_to(&mut self.buffer, total_len as usize);
        Some(buffer_freeze(front))
    }

    /// Takes the next frame out of the pending bytes and hands all of it
    /// to the decoder. Where no whole frame is pending there is no
    /// message and nothing changes. A frame that the decoder refuses is
    /// consumed all the same.
    pub fn next_frame(&mut self) -> (message: Option<D::Message>)
        ensures
            match frame_len(old(self).pending()) {
                Some(total) => {
                    &&& final(self).pending() == old(self).pending().skip(total as int)
                    &&& old(self).decoder().decodes(
                        old(self).pending().take(total as int),
                        &final(self).decoder(),
                        message,
                    )
                },
                None => {
                    &&& message is None
                    &&& final(self).pending() == old(self).pending()
                    &&& final(self).decoder() == old(self).decoder()
                },
            },
    {
        match self.take_frame() {
            Some(msg_bytes) => {
                let mut msg_buf = msg_bytes;
                self.decoder.decode(&mut msg_buf)
            },
            None => None,
        }
    }
}

} // verus!
