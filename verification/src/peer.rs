//! The handshake that opens a connection between two peers.

use crate::bytes::{append_bytes, fill_from};
use vstd::prelude::*;

verus! {

/// The bytes of the protocol identifier, "BitTorrent protocol".
pub open spec fn protocol_id() -> Seq<u8> {
    seq![
        66u8, 105, 116, 84, 111, 114, 114, 101, 110, 116, 32, 112, 114, 111, 116, 111, 99, 111,
        108,
    ]
}

/// The length of a handshake on the wire.
pub const HANDSHAKE_LEN: usize = 68;

/// The handshake message.
#[derive(Debug)]
pub struct Handshake {
    /// string length of <pstr>, as a single raw byte
    pstrlen: u8,
    /// string identifier of the protocol
    pstr: [u8; 19],
    /// eight reserved bytes; all current implementations use all zeroes
    reserved: [u8; 8],
    /// 20-byte SHA1 hash of the info key in the metainfo file
    info_hash: [u8; 20],
    /// 20-byte string used as a unique ID for the client
    peer_id: [u8; 20],
}

/// What a [`Handshake`] holds.
pub struct HandshakeView {
    pub pstrlen: u8,
    pub pstr: Seq<u8>,
    pub reserved: Seq<u8>,
    pub info_hash: Seq<u8>,
    pub peer_id: Seq<u8>,
}

impl View for Handshake {
    type V = HandshakeView;

    closed spec fn view(&self) -> HandshakeView {
        HandshakeView {
            pstrlen: self.pstrlen,
            pstr: self.pstr@,
            reserved: self.reserved@,
            info_hash: self.info_hash@,
            peer_id: self.peer_id@,
        }
    }
}

/// The bytes of a handshake on the wire, its fields in order.
pub open spec fn handshake_bytes(h: HandshakeView) -> Seq<u8> {
    seq![h.pstrlen] + h.pstr + h.reserved + h.info_hash + h.peer_id
}

/// The handshake that the first 68 bytes of `b` hold.
pub open spec fn handshake_at(b: Seq<u8>) -> HandshakeView {
    HandshakeView {
        pstrlen: b[0],
        pstr: b.subrange(1, 20),
        reserved: b.subrange(20, 28),
        info_hash: b.subrange(28, 48),
        peer_id: b.subrange(48, 68),
    }
}

/// The inputs on which decoding a handshake gives an answer: a first byte
/// that is not 19, or one that is followed by a wrong identifier, or 68
/// bytes in all.
pub open spec fn handshake_decodable(b: Seq<u8>) -> bool {
    &&& b.len() >= 1
    &&& b[0] == 19 ==> b.len() >= 20 && (b.subrange(1, 20) != protocol_id() || b.len() >= 68)
}

/// Why bytes are not a handshake.
#[derive(Debug, Clone, Copy, PartialEq, Eq, Structural)]
pub enum HandshakeError {
    /// The first byte is not the length of the protocol identifier.
    InvalidProtocolLength(u8),
    /// The protocol identifier is not "BitTorrent protocol".
    InvalidProtocolString,
    /// The peer answered for another torrent.
    InfoHashMismatch,
}

fn protocol_id_bytes() -> (r: [u8; 19])
    ensures
        r@ == protocol_id(),
{
    let r: [u8; 19] = [
        66, 105, 116, 84, 111, 114, 114, 101, 110, 116, 32, 112, 114, 111, 116, 111, 99, 111, 108,
    ];
    assert(r@ =~= protocol_id());
    r
}

/// Whether `bytes[start..start + n]` equals `expected`.
fn equal_at(bytes: &[u8], start: usize, expected: &[u8]) -> (r: bool)
    requires
        start + expected@.len() <= bytes@.len(),
    ensures
        r == (bytes@.subrange(start as int, start + expected@.len()) == expected@),
{
    let n = bytes.len();
    let mut i: usize = 0;
    while i < expected.len()
        invariant
            n == bytes@.len(),
            i <= expected@.len(),
            start + expected@.len() <= bytes@.len(),
            forall|k: int| 0 <= k < i ==> bytes@[start + k] == expected@[k],
        decreases expected@.len() - i,
    {
        if bytes[start + i] != expected[i] {
            assert(bytes@.subrange(start as int, start + expected@.len())[i as int]
                != expected@[i as int]);
            return false;
        }
        i = i + 1;
    }
    assert(bytes@.subrange(start as int, start + expected@.len()) =~= expected@);
    true
}

impl Handshake {
    /// The handshake this client sends for a torrent.
    pub fn new(info_hash: [u8; 20], peer_id: [u8; 20]) -> (r: Handshake)
        ensures
            r@.pstrlen == 19,
            r@.pstr == protocol_id(),
            r@.reserved == Seq::new(8, |i: int| 0u8),
            r@.info_hash == info_hash@,
            r@.peer_id == peer_id@,
    {
        let reserved: [u8; 8] = [0u8; 8];
        assert(reserved@ =~= Seq::new(8, |i: int| 0u8));
        Handshake { pstrlen: 19, pstr: protocol_id_bytes(), reserved, info_hash, peer_id }
    }

    /// The handshake's bytes on the wire.
    pub fn as_bytes(&self) -> (r: Vec<u8>)
        ensures
            r@ == handshake_bytes(self@),
            r@.len() == HANDSHAKE_LEN,
    {
        let mut bytes: Vec<u8> = Vec::with_capacity(68);
        bytes.push(self.pstrlen);
        append_bytes(&mut bytes, self.pstr.as_slice());
        append_bytes(&mut bytes, self.reserved.as_slice());
        append_bytes(&mut bytes, self.info_hash.as_slice());
        append_bytes(&mut bytes, self.peer_id.as_slice());
        assert(bytes@ =~= handshake_bytes(self@));
        bytes
    }

    /// Reads a handshake from the front of `bytes`.
    pub fn from_bytes(bytes: &[u8]) -> (r: Result<Handshake, HandshakeError>)
        requires
            handshake_decodable(bytes@),
        ensures
            bytes@[0] != 19 ==> r == Err::<Handshake, HandshakeError>(
                HandshakeError::InvalidProtocolLength(bytes@[0]),
            ),
            bytes@[0] == 19 && bytes@.subrange(1, 20) != protocol_id() ==> r == Err::<
                Handshake,
                HandshakeError,
            >(HandshakeError::InvalidProtocolString),
            bytes@[0] == 19 && bytes@.subrange(1, 20) == protocol_id() ==> r is Ok,
            r matches Ok(h) ==> h@ == handshake_at(bytes@),
    {
        if bytes[0] != 19 {
            return Err(HandshakeError::InvalidProtocolLength(bytes[0]));
        }
        let id = protocol_id_bytes();
        if !equal_at(bytes, 1, id.as_slice()) {
            return Err(HandshakeError::InvalidProtocolString);
        }
        let mut pstr: [u8; 19] = [0u8; 19];
        let mut reserved: [u8; 8] = [0u8; 8];
        let mut info_hash: [u8; 20] = [0u8; 20];
        let mut peer_id: [u8; 20] = [0u8; 20];
        fill_from(&mut pstr, bytes, 1);
        fill_from(&mut reserved, bytes, 20);
        fill_from(&mut info_hash, bytes, 28);
        fill_from(&mut peer_id, bytes, 48);
        Ok(Handshake { pstrlen: bytes[0], pstr, reserved, info_hash, peer_id })
    }

    /// The info hash the handshake is for.
    pub fn info_hash(&self) -> (r: [u8; 20])
        ensures
            r@ == self@.info_hash,
    {
        self.info_hash
    }

    /// The id of the peer that sent the handshake.
    pub fn peer_id(&self) -> (r: [u8; 20])
        ensures
            r@ == self@.peer_id,
    {
        self.peer_id
    }
}

/// Checks a peer's handshake reply against the torrent's info hash and
/// gives the peer's id: the decision taken after the reply has been read.
pub fn check_handshake_reply(reply: &[u8; 68], info_hash: &[u8; 20]) -> (r: Result<
    [u8; 20],
    HandshakeError,
>)
    ensures
        reply@[0] != 19 ==> r == Err::<[u8; 20], HandshakeError>(
            HandshakeError::InvalidProtocolLength(reply@[0]),
        ),
        reply@[0] == 19 && reply@.subrange(1, 20) != protocol_id() ==> r == Err::<
            [u8; 20],
            HandshakeError,
        >(HandshakeError::InvalidProtocolString),
        reply@[0] == 19 && reply@.subrange(1, 20) == protocol_id() ==> (if reply@.subrange(28, 48)
            == info_hash@ {
            r matches Ok(id) && id@ == reply@.subrange(48, 68)
        } else {
            r == Err::<[u8; 20], HandshakeError>(HandshakeError::InfoHashMismatch)
        }),
{
    let response = Handshake::from_bytes(reply.as_slice())?;
    let theirs = response.info_hash();
    if !equal_at(theirs.as_slice(), 0, info_hash.as_slice()) {
        assert(theirs@.subrange(0, 20) == theirs@);
        return Err(HandshakeError::InfoHashMismatch);
    }
    assert(theirs@.subrange(0, 20) == theirs@);
    Ok(response.peer_id())
}

/// Where each field lies in a handshake's bytes: the length byte at 0, the
/// protocol identifier at 1..20, the reserved bytes at 20..28, the info
/// hash at 28..48 and the peer id at 48..68, each in its own order.
pub proof fn lemma_handshake_layout(h: HandshakeView)
    requires
        h.pstr.len() == 19,
        h.reserved.len() == 8,
        h.info_hash.len() == 20,
        h.peer_id.len() == 20,
    ensures
        handshake_bytes(h).len() == 68,
        handshake_bytes(h)[0] == h.pstrlen,
        handshake_bytes(h).subrange(1, 20) == h.pstr,
        handshake_bytes(h).subrange(20, 28) == h.reserved,
        handshake_bytes(h).subrange(28, 48) == h.info_hash,
        handshake_bytes(h).subrange(48, 68) == h.peer_id,
{
    let b = handshake_bytes(h);
    assert(b.subrange(1, 20) =~= h.pstr);
    assert(b.subrange(20, 28) =~= h.reserved);
    assert(b.subrange(28, 48) =~= h.info_hash);
    assert(b.subrange(48, 68) =~= h.peer_id);
}

/// A handshake read from bytes takes each field from its place, in order:
/// the info hash is bytes 28..48 and the peer id bytes 48..68.
pub proof fn lemma_read_handshake_fields(b: Seq<u8>)
    requires
        b.len() >= 68,
    ensures
        handshake_at(b).pstrlen == b[0],
        handshake_at(b).pstr == b.subrange(1, 20),
        handshake_at(b).reserved == b.subrange(20, 28),
        handshake_at(b).info_hash == b.subrange(28, 48),
        handshake_at(b).peer_id == b.subrange(48, 68),
        forall|k: int| 0 <= k < 20 ==> handshake_at(b).info_hash[k] == b[28 + k],
{
}

/// The protocol identifier is the text "BitTorrent protocol", one byte per
/// character.
pub proof fn lemma_protocol_id_text()
    ensures
        protocol_id().len() == "BitTorrent protocol"@.len(),
        forall|k: int| 0 <= k < 19 ==> protocol_id()[k] as char == "BitTorrent protocol"@[k],
{
    reveal_strlit("BitTorrent protocol");
}

/// Reading back the bytes of any well-formed handshake gives that handshake.
pub proof fn lemma_handshake_roundtrip(h: HandshakeView)
    requires
        h.pstrlen == 19,
        h.pstr == protocol_id(),
        h.reserved.len() == 8,
        h.info_hash.len() == 20,
        h.peer_id.len() == 20,
    ensures
        handshake_bytes(h).len() == HANDSHAKE_LEN,
        handshake_decodable(handshake_bytes(h)),
        handshake_at(handshake_bytes(h)) == h,
{
    let b = handshake_bytes(h);
    assert(b.subrange(1, 20) =~= h.pstr);
    assert(b.subrange(20, 28) =~= h.reserved);
    assert(b.subrange(28, 48) =~= h.info_hash);
    assert(b.subrange(48, 68) =~= h.peer_id);
}

/// Writing out the handshake read from 68 bytes gives those bytes back.
pub proof fn lemma_handshake_bytes_of_read(b: Seq<u8>)
    requires
        b.len() == HANDSHAKE_LEN,
    ensures
        handshake_bytes(handshake_at(b)) == b,
{
    assert(handshake_bytes(handshake_at(b)) =~= b);
}

} // verus!
