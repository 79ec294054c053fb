//! Messages of the peer wire protocol and the bitfield of available pieces.

use crate::bytes::{append_bytes, append_u32_be, be_bytes, be_value, read_u32_be};
use crate::bytes::{lemma_be_value_of_bytes, lemma_be_value_prefix};
use vstd::prelude::*;

verus! {

/// A message of the peer wire protocol, without its length prefix.
#[derive(Debug, Clone)]
pub enum Message {
    /// The choke message is fixed-length and has no payload.
    Choke,
    /// The unchoke message is fixed-length and has no payload.
    Unchoke,
    /// The interested message is fixed-length and has no payload.
    Interested,
    /// The not-interested message is fixed-length and has no payload.
    NotInterested,
    /// The zero-based index of a piece that has just been downloaded and verified.
    Have(u32),
    /// The pieces the sender has: the high bit in the first byte is piece 0.
    Bitfield(Vec<u8>),
    /// Requests `length` bytes at offset `begin` of piece `index`.
    Request { index: u32, begin: u32, length: u32 },
    /// A block of data at offset `begin` of piece `index`.
    Piece { index: u32, begin: u32, block: Vec<u8> },
    /// Cancels a request; the payload is that of the request.
    Cancel { index: u32, begin: u32, length: u32 },
}

/// What a [`Message`] holds, with its byte vectors as sequences.
pub enum MessageView {
    Choke,
    Unchoke,
    Interested,
    NotInterested,
    Have(u32),
    Bitfield(Seq<u8>),
    Request { index: u32, begin: u32, length: u32 },
    Piece { index: u32, begin: u32, block: Seq<u8> },
    Cancel { index: u32, begin: u32, length: u32 },
}

impl View for Message {
    type V = MessageView;

    open spec fn view(&self) -> MessageView {
        match self {
            Message::Choke => MessageView::Choke,
            Message::Unchoke => MessageView::Unchoke,
            Message::Interested => MessageView::Interested,
            Message::NotInterested => MessageView::NotInterested,
            Message::Have(i) => MessageView::Have(*i),
            Message::Bitfield(b) => MessageView::Bitfield(b@),
            Message::Request { index, begin, length } => MessageView::Request {
                index: *index,
                begin: *begin,
                length: *length,
            },
            Message::Piece { index, begin, block } => MessageView::Piece {
                index: *index,
                begin: *begin,
                block: block@,
            },
            Message::Cancel { index, begin, length } => MessageView::Cancel {
                index: *index,
                begin: *begin,
                length: *length,
            },
        }
    }
}

/// Why a payload does not decode to a message.
#[derive(Debug, Clone, Copy, PartialEq, Eq, Structural)]
pub enum MessageError {
    /// The message id is none of the protocol's.
    UnknownId(u8),
    /// The payload ends before a field that the message needs.
    UnexpectedEof,
}

/// The id byte of a message.
pub open spec fn message_id(m: MessageView) -> u8 {
    match m {
        MessageView::Choke => 0,
        MessageView::Unchoke => 1,
        MessageView::Interested => 2,
        MessageView::NotInterested => 3,
        MessageView::Have(_) => 4,
        MessageView::Bitfield(_) => 5,
        MessageView::Request { .. } => 6,
        MessageView::Piece { .. } => 7,
        MessageView::Cancel { .. } => 8,
    }
}

/// The payload of a message: what follows its id byte.
pub open spec fn message_payload(m: MessageView) -> Seq<u8> {
    match m {
        MessageView::Have(i) => be_bytes(i),
        MessageView::Bitfield(b) => b,
        MessageView::Request { index, begin, length } => be_bytes(index) + be_bytes(begin)
            + be_bytes(length),
        MessageView::Piece { index, begin, block } => be_bytes(index) + be_bytes(begin) + block,
        MessageView::Cancel { index, begin, length } => be_bytes(index) + be_bytes(begin)
            + be_bytes(length),
        _ => Seq::empty(),
    }
}

/// The bytes of a message on the wire: a four-byte big-endian length that
/// counts the id byte and the payload, the id, then the payload.
pub open spec fn message_frame(m: MessageView) -> Seq<u8> {
    be_bytes((1 + message_payload(m).len()) as u32) + seq![message_id(m)] + message_payload(m)
}

/// The message that `id` and `payload` decode to. Fixed-size fields are read
/// from the front of the payload and bytes after them are ignored.
pub open spec fn decode_message(id: u8, p: Seq<u8>) -> Result<MessageView, MessageError> {
    if id == 0 {
        Ok(MessageView::Choke)
    } else if id == 1 {
        Ok(MessageView::Unchoke)
    } else if id == 2 {
        Ok(MessageView::Interested)
    } else if id == 3 {
        Ok(MessageView::NotInterested)
    } else if id == 4 {
        if p.len() >= 4 {
            Ok(MessageView::Have(be_value(p)))
        } else {
            Err(MessageError::UnexpectedEof)
        }
    } else if id == 5 {
        Ok(MessageView::Bitfield(p))
    } else if id == 6 || id == 8 {
        if p.len() >= 12 {
            let (index, begin, length) = (be_value(p), be_value(p.skip(4)), be_value(p.skip(8)));
            if id == 6 {
                Ok(MessageView::Request { index, begin, length })
            } else {
                Ok(MessageView::Cancel { index, begin, length })
            }
        } else {
            Err(MessageError::UnexpectedEof)
        }
    } else if id == 7 {
        if p.len() >= 8 {
            Ok(MessageView::Piece { index: be_value(p), begin: be_value(p.skip(4)), block: p.skip(8) })
        } else {
            Err(MessageError::UnexpectedEof)
        }
    } else {
        Err(MessageError::UnknownId(id))
    }
}

/// What a length-prefixed frame at the front of `f` decodes to: `None`
/// for a keep-alive (length zero), otherwise the message that its id byte
/// and the rest of its body decode to. Bytes after the frame are ignored.
pub open spec fn decode_frame_spec(f: Seq<u8>) -> Result<Option<MessageView>, MessageError> {
    if f.len() < 4 {
        Err(MessageError::UnexpectedEof)
    } else if f.len() - 4 < be_value(f) {
        Err(MessageError::UnexpectedEof)
    } else if be_value(f) == 0 {
        Ok(None)
    } else {
        match decode_message(f[4], f.subrange(5, 4 + be_value(f))) {
            Ok(m) => Ok(Some(m)),
            Err(e) => Err(e),
        }
    }
}

/// The bytes of `src` from `start` on, in a vector of their own.
fn bytes_from(src: &[u8], start: usize) -> (r: Vec<u8>)
    requires
        start <= src@.len(),
    ensures
        r@ == src@.skip(start as int),
{
    let mut r: Vec<u8> = Vec::new();
    let mut i: usize = start;
    while i < src.len()
        invariant
            start <= i <= src@.len(),
            r@ == src@.subrange(start as int, i as int),
        decreases src@.len() - i,
    {
        r.push(src[i]);
        i = i + 1;
        assert(src@.subrange(start as int, i as int) == src@.subrange(start as int, i - 1).push(
            src@[i - 1],
        ));
    }
    r
}

impl Message {
    /// The message's bytes on the wire: length prefix, id and payload.
    pub fn serialize(&self) -> (r: Vec<u8>)
        requires
            message_payload(self@).len() < usize::MAX,
        ensures
            r@ == message_frame(self@),
    {
        let mut payload: Vec<u8> = Vec::new();
        let id: u8;
        match self {
            Message::Choke => id = 0,
            Message::Unchoke => id = 1,
            Message::Interested => id = 2,
            Message::NotInterested => id = 3,
            Message::Have(index) => {
                id = 4;
                append_u32_be(&mut payload, *index);
            },
            Message::Bitfield(bitfield) => {
                id = 5;
                append_bytes(&mut payload, bitfield.as_slice());
            },
            Message::Request { index, begin, length } => {
                id = 6;
                append_u32_be(&mut payload, *index);
                append_u32_be(&mut payload, *begin);
                append_u32_be(&mut payload, *length);
            },
            Message::Piece { index, begin, block } => {
                id = 7;
                append_u32_be(&mut payload, *index);
                append_u32_be(&mut payload, *begin);
                append_bytes(&mut payload, block.as_slice());
            },
            Message::Cancel { index, begin, length } => {
                id = 8;
                append_u32_be(&mut payload, *index);
                append_u32_be(&mut payload, *begin);
                append_u32_be(&mut payload, *length);
            },
        }
        assert(payload@ == message_payload(self@));
        assert(id == message_id(self@));
        let len = (1 + payload.len()) as u32;
        let mut msg: Vec<u8> = Vec::new();
        append_u32_be(&mut msg, len);
        msg.push(id);
        msg.append(&mut payload);
        msg
    }

    /// Decodes the payload of a message with the given id.
    pub fn deserialize(id: u8, payload: &[u8]) -> (r: Result<Message, MessageError>)
        ensures
            match r {
                Ok(m) => decode_message(id, payload@) == Ok::<MessageView, MessageError>(m@),
                Err(e) => decode_message(id, payload@) == Err::<MessageView, MessageError>(e),
            },
    {
        match id {
            0 => Ok(Message::Choke),
            1 => Ok(Message::Unchoke),
            2 => Ok(Message::Interested),
            3 => Ok(Message::NotInterested),
            4 => {
                match read_u32_be(payload, 0) {
                    Some(index) => {
                        assert(payload@.skip(0) == payload@);
                        Ok(Message::Have(index))
                    },
                    None => Err(MessageError::UnexpectedEof),
                }
            },
            5 => {
                let b = bytes_from(payload, 0);
                assert(payload@.skip(0) == payload@);
                Ok(Message::Bitfield(b))
            },
            6 | 8 => {
                if payload.len() < 12 {
                    return Err(MessageError::UnexpectedEof);
                }
                let index = read_u32_be(payload, 0).unwrap();
                let begin = read_u32_be(payload, 4).unwrap();
                let length = read_u32_be(payload, 8).unwrap();
                assert(payload@.skip(0) == payload@);
                if id == 6 {
                    Ok(Message::Request { index, begin, length })
                } else {
                    Ok(Message::Cancel { index, begin, length })
                }
            },
            7 => {
                if payload.len() < 8 {
                    return Err(MessageError::UnexpectedEof);
                }
                let index = read_u32_be(payload, 0).unwrap();
                let begin = read_u32_be(payload, 4).unwrap();
                let block = bytes_from(payload, 8);
                assert(payload@.skip(0) == payload@);
                Ok(Message::Piece { index, begin, block })
            },
            _ => Err(MessageError::UnknownId(id)),
        }
    }
}

/// The body length that a frame's four-byte length prefix announces.
pub fn body_length(header: &[u8; 4]) -> (r: u32)
    ensures
        r == be_value(header@),
{
    proof {
        assert(header@.skip(0) == header@);
    }
    read_u32_be(header.as_slice(), 0).unwrap()
}

/// Decodes the length-prefixed frame at the front of `frame`: `None` for a
/// keep-alive, otherwise the message its body holds.
pub fn decode_frame(frame: &[u8]) -> (r: Result<Option<Message>, MessageError>)
    ensures
        match r {
            Ok(Some(m)) => decode_frame_spec(frame@) == Ok::<Option<MessageView>, MessageError>(
                Some(m@),
            ),
            Ok(None) => decode_frame_spec(frame@) == Ok::<Option<MessageView>, MessageError>(
                None,
            ),
            Err(e) => decode_frame_spec(frame@) == Err::<Option<MessageView>, MessageError>(e),
        },
{
    let len = match read_u32_be(frame, 0) {
        Some(n) => n,
        None => {
            return Err(MessageError::UnexpectedEof);
        },
    };
    assert(frame@.skip(0) == frame@);
    if frame.len() - 4 < len as usize {
        return Err(MessageError::UnexpectedEof);
    }
    if len == 0 {
        return Ok(None);
    }
    let end = 4 + len as usize;
    let body = &frame[5..end];
    match Message::deserialize(frame[4], body) {
        Ok(m) => Ok(Some(m)),
        Err(e) => Err(e),
    }
}

/// A message's frame, when its length fits the prefix, decodes back to the
/// message, whatever bytes follow it: a frame is exactly its four length
/// bytes plus the length they announce, so the next frame's bytes never
/// become part of this one.
pub proof fn lemma_frame_roundtrip(m: MessageView, rest: Seq<u8>)
    requires
        1 + message_payload(m).len() <= u32::MAX,
    ensures
        decode_frame_spec(message_frame(m) + rest) == Ok::<Option<MessageView>, MessageError>(
            Some(m),
        ),
{
    let p = message_payload(m);
    let f = message_frame(m) + rest;
    let n = (1 + p.len()) as u32;
    lemma_be_value_of_bytes(n);
    assert(f.take(4) =~= be_bytes(n).take(4));
    lemma_be_value_prefix(f, be_bytes(n));
    assert(f[4] == message_id(m));
    assert(f.subrange(5, 4 + n) =~= p);
    lemma_decode_encoded(m);
}

/// A frame whose length prefix is zero is a keep-alive, whatever follows;
/// input shorter than four bytes, or than the length it announces, is
/// refused as truncated.
pub proof fn lemma_frame_refusals(f: Seq<u8>, rest: Seq<u8>)
    ensures
        decode_frame_spec(seq![0u8, 0u8, 0u8, 0u8] + rest) == Ok::<
            Option<MessageView>,
            MessageError,
        >(None),
        f.len() < 4 ==> decode_frame_spec(f) == Err::<Option<MessageView>, MessageError>(
            MessageError::UnexpectedEof,
        ),
        f.len() >= 4 && f.len() < 4 + be_value(f) ==> decode_frame_spec(f) == Err::<
            Option<MessageView>,
            MessageError,
        >(MessageError::UnexpectedEof),
{
    let k = seq![0u8, 0u8, 0u8, 0u8] + rest;
    assert(k[0] == 0 && k[1] == 0 && k[2] == 0 && k[3] == 0);
    crate::bytes::lemma_be_value_is_weighted_sum(k);
}

/// The frame of a message starts with its length as a big-endian number:
/// one for the id byte plus the payload's length; the id byte follows and
/// the payload fills the rest.
pub proof fn lemma_frame_layout(m: MessageView)
    requires
        1 + message_payload(m).len() <= u32::MAX,
    ensures
        message_frame(m).len() == 5 + message_payload(m).len(),
        be_value(message_frame(m)) == 1 + message_payload(m).len(),
        message_frame(m)[4] == message_id(m),
        message_frame(m).skip(5) == message_payload(m),
{
    let f = message_frame(m);
    let n = (1 + message_payload(m).len()) as u32;
    lemma_be_value_of_bytes(n);
    assert(f.take(4) =~= be_bytes(n).take(4));
    lemma_be_value_prefix(f, be_bytes(n));
    assert(f.skip(5) =~= message_payload(m));
}

/// The id byte of each kind of message, as the protocol numbers them.
pub proof fn lemma_message_ids(index: u32, begin: u32, length: u32, bytes: Seq<u8>)
    ensures
        message_id(MessageView::Choke) == 0,
        message_id(MessageView::Unchoke) == 1,
        message_id(MessageView::Interested) == 2,
        message_id(MessageView::NotInterested) == 3,
        message_id(MessageView::Have(index)) == 4,
        message_id(MessageView::Bitfield(bytes)) == 5,
        message_id(MessageView::Request { index, begin, length }) == 6,
        message_id(MessageView::Piece { index, begin, block: bytes }) == 7,
        message_id(MessageView::Cancel { index, begin, length }) == 8,
{
}

/// Where each field lies in a payload: the four-byte fields in the order
/// index, begin, then length or block, each most significant byte first;
/// a cancel's payload is identical to that of the request with the same
/// fields; a bitfield's payload is the bitfield; the others have none.
pub proof fn lemma_payload_layout(index: u32, begin: u32, length: u32, bytes: Seq<u8>)
    ensures
        message_payload(MessageView::Choke).len() == 0,
        message_payload(MessageView::Unchoke).len() == 0,
        message_payload(MessageView::Interested).len() == 0,
        message_payload(MessageView::NotInterested).len() == 0,
        message_payload(MessageView::Have(index)).len() == 4,
        be_value(message_payload(MessageView::Have(index))) == index,
        message_payload(MessageView::Bitfield(bytes)) == bytes,
        ({
            let p = message_payload(MessageView::Request { index, begin, length });
            &&& p.len() == 12
            &&& be_value(p) == index
            &&& be_value(p.skip(4)) == begin
            &&& be_value(p.skip(8)) == length
        }),
        message_payload(MessageView::Cancel { index, begin, length }) == message_payload(
            MessageView::Request { index, begin, length },
        ),
        ({
            let p = message_payload(MessageView::Piece { index, begin, block: bytes });
            &&& p.len() == 8 + bytes.len()
            &&& be_value(p) == index
            &&& be_value(p.skip(4)) == begin
            &&& p.skip(8) == bytes
        }),
{
    lemma_be_value_of_bytes(index);
    lemma_three_fields(index, begin, length);
    lemma_two_fields(index, begin, bytes);
}

/// Bytes after a message's fixed-size fields are ignored: a payload with
/// anything appended still decodes to the same choke, unchoke, interest,
/// have, request or cancel.
pub proof fn lemma_decode_ignores_trailing_bytes(m: MessageView, rest: Seq<u8>)
    requires
        !(m is Bitfield),
        !(m is Piece),
    ensures
        decode_message(message_id(m), message_payload(m) + rest) == Ok::<MessageView, MessageError>(
            m,
        ),
{
    let p = message_payload(m) + rest;
    match m {
        MessageView::Have(i) => {
            lemma_be_value_of_bytes(i);
            assert(p.take(4) =~= be_bytes(i).take(4));
            lemma_be_value_prefix(p, be_bytes(i));
        },
        MessageView::Request { index, begin, length } | MessageView::Cancel {
            index,
            begin,
            length,
        } => {
            let q = message_payload(m);
            lemma_three_fields(index, begin, length);
            assert(p.take(4) =~= q.take(4));
            lemma_be_value_prefix(p, q);
            assert(p.skip(4).take(4) =~= q.skip(4).take(4));
            lemma_be_value_prefix(p.skip(4), q.skip(4));
            assert(p.skip(8).take(4) =~= q.skip(8).take(4));
            lemma_be_value_prefix(p.skip(8), q.skip(8));
        },
        _ => {},
    }
}

/// Payloads too short for their fixed-size fields, and unknown ids, are
/// refused: a have needs 4 bytes, a piece 8, a request or cancel 12, and
/// ids past 8 name no message.
pub proof fn lemma_decode_refusals(id: u8, p: Seq<u8>)
    ensures
        id == 4 && p.len() < 4 ==> decode_message(id, p) == Err::<MessageView, MessageError>(
            MessageError::UnexpectedEof,
        ),
        id == 7 && p.len() < 8 ==> decode_message(id, p) == Err::<MessageView, MessageError>(
            MessageError::UnexpectedEof,
        ),
        (id == 6 || id == 8) && p.len() < 12 ==> decode_message(id, p) == Err::<
            MessageView,
            MessageError,
        >(MessageError::UnexpectedEof),
        id > 8 ==> decode_message(id, p) == Err::<MessageView, MessageError>(
            MessageError::UnknownId(id),
        ),
        id <= 8 && p.len() >= 12 ==> decode_message(id, p) is Ok,
{
}

/// Decoding the id and payload of any message gives that message back.
pub proof fn lemma_decode_encoded(m: MessageView)
    ensures
        decode_message(message_id(m), message_payload(m)) == Ok::<MessageView, MessageError>(m),
{
    let p = message_payload(m);
    match m {
        MessageView::Have(i) => {
            lemma_be_value_of_bytes(i);
        },
        MessageView::Request { index, begin, length } | MessageView::Cancel {
            index,
            begin,
            length,
        } => {
            lemma_three_fields(index, begin, length);
        },
        MessageView::Piece { index, begin, block } => {
            lemma_two_fields(index, begin, block);
        },
        _ => {},
    }
}

proof fn lemma_two_fields(a: u32, b: u32, rest: Seq<u8>)
    ensures
        ({
            let p = be_bytes(a) + be_bytes(b) + rest;
            &&& p.len() == 8 + rest.len()
            &&& be_value(p) == a
            &&& be_value(p.skip(4)) == b
            &&& p.skip(8) == rest
        }),
{
    let p = be_bytes(a) + be_bytes(b) + rest;
    lemma_be_value_of_bytes(a);
    lemma_be_value_of_bytes(b);
    assert(p.take(4) =~= be_bytes(a).take(4));
    lemma_be_value_prefix(p, be_bytes(a));
    assert(p.skip(4).take(4) =~= be_bytes(b).take(4));
    lemma_be_value_prefix(p.skip(4), be_bytes(b));
    assert(p.skip(8) =~= rest);
}

proof fn lemma_three_fields(a: u32, b: u32, c: u32)
    ensures
        ({
            let p = be_bytes(a) + be_bytes(b) + be_bytes(c);
            &&& p.len() == 12
            &&& be_value(p) == a
            &&& be_value(p.skip(4)) == b
            &&& be_value(p.skip(8)) == c
        }),
{
    let p = be_bytes(a) + be_bytes(b) + be_bytes(c);
    lemma_two_fields(a, b, be_bytes(c));
    lemma_be_value_of_bytes(c);
    assert(p.skip(8) == be_bytes(c));
}

/// The bytes a message is put on the wire as are its length prefix, its id
/// and a payload that decodes back to the message: what `serialize` writes,
/// `deserialize` reads back.
pub proof fn lemma_message_roundtrip(m: MessageView)
    ensures
        message_frame(m).len() == 5 + message_payload(m).len(),
        message_frame(m)[4] == message_id(m),
        message_frame(m).skip(5) == message_payload(m),
        decode_message(message_frame(m)[4], message_frame(m).skip(5)) == Ok::<
            MessageView,
            MessageError,
        >(m),
{
    let f = message_frame(m);
    assert(f.skip(5) =~= message_payload(m));
    lemma_decode_encoded(m);
}

/// The pieces that a peer has, one bit per piece.
pub struct Bitfield {
    payload: Vec<u8>,
}

/// Whether `bits` marks piece `index`: the bit of byte `index / 8` at
/// position `index % 8`, counted from the high bit.
pub open spec fn bit_set(bits: Seq<u8>, index: int) -> bool {
    &&& 0 <= index
    &&& index / 8 < bits.len()
    &&& (bits[index / 8] >> ((7 - index % 8) as u8)) & 1u8 == 1u8
}

impl View for Bitfield {
    type V = Seq<u8>;

    closed spec fn view(&self) -> Seq<u8> {
        self.payload@
    }
}

impl Bitfield {
    /// A bitfield over the given bytes.
    pub fn new(payload: Vec<u8>) -> (r: Bitfield)
        ensures
            r@ == payload@,
    {
        Bitfield { payload }
    }

    /// Whether the bitfield marks piece `index`; indices past its end are not marked.
    pub fn has_piece(&self, index: usize) -> (r: bool)
        ensures
            r == bit_set(self@, index as int),
    {
        let byte_idx = index / 8;
        let byte_offset = index % 8;
        if byte_idx >= self.payload.len() {
            return false;
        }
        (self.payload[byte_idx] >> ((7 - byte_offset) as u8)) & 1 == 1
    }

    /// The number of pieces the bitfield has room for: eight per byte.
    pub fn pieces(&self) -> (r: usize)
        requires
            self@.len() * 8 <= usize::MAX,
        ensures
            r == self@.len() * 8,
    {
        self.payload.len() * 8
    }
}

/// Every marked piece lies within the room the bitfield has.
pub proof fn lemma_marked_piece_in_range(bits: Seq<u8>, index: int)
    requires
        bit_set(bits, index),
    ensures
        0 <= index < bits.len() * 8,
{
}

/// Piece `index` is bit `index % 8` of byte `index / 8`, counted from the
/// high bit: the piece is marked exactly when that byte, masked with
/// `0x80 >> (index % 8)`, is not zero.
pub proof fn lemma_piece_bit_position(bits: Seq<u8>, index: int)
    requires
        0 <= index < bits.len() * 8,
    ensures
        bit_set(bits, index) <==> bits[index / 8] & (0x80u8 >> ((index % 8) as u8)) != 0,
{
    let b = bits[index / 8];
    let k = (index % 8) as u8;
    assert(k < 8 ==> (((b >> ((7 - k) as u8)) & 1u8 == 1u8) <==> b & (0x80u8 >> k) != 0))
        by (bit_vector);
}

/// Piece 0 is the high bit of the first byte.
pub proof fn lemma_first_piece_is_high_bit(bits: Seq<u8>)
    requires
        bits.len() > 0,
    ensures
        bit_set(bits, 0) <==> bits[0] >= 128,
{
    let b = bits[0];
    assert(((b >> 7u8) & 1u8 == 1u8) <==> b >= 128) by (bit_vector);
}

} // verus!
