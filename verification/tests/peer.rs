use bitborrower::peer::{check_handshake_reply, Handshake, HandshakeError, HANDSHAKE_LEN};

fn reply(info_hash: [u8; 20], peer_id: [u8; 20]) -> [u8; 68] {
    let bytes = Handshake::new(info_hash, peer_id).as_bytes();
    let mut out = [0u8; 68];
    out.copy_from_slice(&bytes);
    out
}

#[test]
fn handshake_layout() {
    let bytes = Handshake::new([1; 20], [2; 20]).as_bytes();
    assert_eq!(bytes.len(), HANDSHAKE_LEN);
    assert_eq!(bytes[0], 19);
    assert_eq!(&bytes[1..20], b"BitTorrent protocol");
    assert_eq!(&bytes[20..28], &[0u8; 8]);
    assert_eq!(&bytes[28..48], &[1u8; 20]);
    assert_eq!(&bytes[48..68], &[2u8; 20]);
}

#[test]
fn handshake_roundtrip() {
    let mut ih = [0u8; 20];
    let mut pid = [0u8; 20];
    for i in 0..20 {
        ih[i] = i as u8;
        pid[i] = 100 + i as u8;
    }
    let bytes = Handshake::new(ih, pid).as_bytes();
    let h = Handshake::from_bytes(&bytes).unwrap();
    assert_eq!(h.info_hash(), ih);
    assert_eq!(h.peer_id(), pid);
    assert_eq!(h.as_bytes(), bytes);
}

#[test]
fn handshake_wrong_length_byte() {
    let mut bytes = Handshake::new([0; 20], [0; 20]).as_bytes();
    bytes[0] = 18;
    assert_eq!(
        Handshake::from_bytes(&bytes).unwrap_err(),
        HandshakeError::InvalidProtocolLength(18)
    );
    assert_eq!(
        Handshake::from_bytes(&[7]).unwrap_err(),
        HandshakeError::InvalidProtocolLength(7)
    );
}

#[test]
fn handshake_wrong_protocol_string() {
    let mut bytes = Handshake::new([0; 20], [0; 20]).as_bytes();
    bytes[1] = b'b';
    assert_eq!(
        Handshake::from_bytes(&bytes).unwrap_err(),
        HandshakeError::InvalidProtocolString
    );
}

#[test]
fn reply_with_matching_hash_gives_peer_id() {
    let r = reply([3; 20], [4; 20]);
    assert_eq!(check_handshake_reply(&r, &[3; 20]), Ok([4; 20]));
}

#[test]
fn reply_with_other_hash_is_refused() {
    let r = reply([3; 20], [4; 20]);
    assert_eq!(check_handshake_reply(&r, &[5; 20]), Err(HandshakeError::InfoHashMismatch));
}

#[test]
fn reply_with_bad_header_is_refused() {
    let mut r = reply([3; 20], [4; 20]);
    r[0] = 0;
    assert_eq!(
        check_handshake_reply(&r, &[3; 20]),
        Err(HandshakeError::InvalidProtocolLength(0))
    );
}
