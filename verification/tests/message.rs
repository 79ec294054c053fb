use bitborrower::message::{decode_frame, Bitfield, Message, MessageError};

fn decode_id_and_payload(frame: &[u8]) -> Result<Message, MessageError> {
    Message::deserialize(frame[4], &frame[5..])
}

#[test]
fn serialize_choke_family() {
    assert_eq!(Message::Choke.serialize(), vec![0, 0, 0, 1, 0]);
    assert_eq!(Message::Unchoke.serialize(), vec![0, 0, 0, 1, 1]);
    assert_eq!(Message::Interested.serialize(), vec![0, 0, 0, 1, 2]);
    assert_eq!(Message::NotInterested.serialize(), vec![0, 0, 0, 1, 3]);
}

#[test]
fn serialize_have_is_big_endian() {
    assert_eq!(Message::Have(258).serialize(), vec![0, 0, 0, 5, 4, 0, 0, 1, 2]);
    assert_eq!(
        Message::Have(0x0102_0304).serialize(),
        vec![0, 0, 0, 5, 4, 1, 2, 3, 4]
    );
}

#[test]
fn serialize_bitfield() {
    assert_eq!(
        Message::Bitfield(vec![0xff, 0x80]).serialize(),
        vec![0, 0, 0, 3, 5, 0xff, 0x80]
    );
}

#[test]
fn serialize_request_and_cancel() {
    let req = Message::Request { index: 1, begin: 16384, length: 16384 };
    assert_eq!(
        req.serialize(),
        vec![0, 0, 0, 13, 6, 0, 0, 0, 1, 0, 0, 0x40, 0, 0, 0, 0x40, 0]
    );
    let cancel = Message::Cancel { index: 1, begin: 16384, length: 16384 };
    assert_eq!(
        cancel.serialize(),
        vec![0, 0, 0, 13, 8, 0, 0, 0, 1, 0, 0, 0x40, 0, 0, 0, 0x40, 0]
    );
}

#[test]
fn serialize_piece() {
    let piece = Message::Piece { index: 2, begin: 3, block: vec![9, 8, 7] };
    assert_eq!(
        piece.serialize(),
        vec![0, 0, 0, 12, 7, 0, 0, 0, 2, 0, 0, 0, 3, 9, 8, 7]
    );
}

#[test]
fn deserialize_fixed_messages() {
    assert!(matches!(Message::deserialize(0, &[]), Ok(Message::Choke)));
    assert!(matches!(Message::deserialize(1, &[]), Ok(Message::Unchoke)));
    assert!(matches!(Message::deserialize(2, &[]), Ok(Message::Interested)));
    assert!(matches!(Message::deserialize(3, &[]), Ok(Message::NotInterested)));
}

#[test]
fn deserialize_have() {
    assert!(matches!(Message::deserialize(4, &[0, 0, 1, 2]), Ok(Message::Have(258))));
    assert!(matches!(Message::deserialize(4, &[0, 0, 1, 2, 99]), Ok(Message::Have(258))));
}

#[test]
fn deserialize_request() {
    let m = Message::deserialize(6, &[0, 0, 0, 7, 0, 0, 0x40, 0, 0, 0, 0x10, 0]).unwrap();
    match m {
        Message::Request { index, begin, length } => {
            assert_eq!((index, begin, length), (7, 16384, 4096));
        }
        other => panic!("unexpected {:?}", other),
    }
}

#[test]
fn deserialize_piece_takes_the_rest_as_block() {
    let m = Message::deserialize(7, &[0, 0, 0, 1, 0, 0, 0, 2, 5, 6, 7]).unwrap();
    match m {
        Message::Piece { index, begin, block } => {
            assert_eq!((index, begin), (1, 2));
            assert_eq!(block, vec![5, 6, 7]);
        }
        other => panic!("unexpected {:?}", other),
    }
    let empty = Message::deserialize(7, &[0, 0, 0, 1, 0, 0, 0, 2]).unwrap();
    assert!(matches!(empty, Message::Piece { index: 1, begin: 2, ref block } if block.is_empty()));
}

#[test]
fn deserialize_bitfield_keeps_payload() {
    let m = Message::deserialize(5, &[0xa0, 1]).unwrap();
    assert!(matches!(m, Message::Bitfield(ref b) if *b == vec![0xa0, 1]));
}

#[test]
fn deserialize_unknown_id() {
    assert_eq!(Message::deserialize(9, &[]).unwrap_err(), MessageError::UnknownId(9));
    assert_eq!(Message::deserialize(200, &[1, 2]).unwrap_err(), MessageError::UnknownId(200));
}

#[test]
fn deserialize_truncated_payloads() {
    assert_eq!(Message::deserialize(4, &[0, 0, 1]).unwrap_err(), MessageError::UnexpectedEof);
    assert_eq!(Message::deserialize(6, &[0; 11]).unwrap_err(), MessageError::UnexpectedEof);
    assert_eq!(Message::deserialize(7, &[0; 7]).unwrap_err(), MessageError::UnexpectedEof);
    assert_eq!(Message::deserialize(8, &[0; 4]).unwrap_err(), MessageError::UnexpectedEof);
}

#[test]
fn serialize_then_deserialize_roundtrip() {
    let messages = vec![
        Message::Choke,
        Message::Unchoke,
        Message::Interested,
        Message::NotInterested,
        Message::Have(u32::MAX),
        Message::Bitfield(vec![1, 2, 3]),
        Message::Request { index: 4, begin: 5, length: 6 },
        Message::Piece { index: 7, begin: 8, block: vec![10, 11] },
        Message::Cancel { index: 0xdead_beef, begin: 1, length: 2 },
    ];
    for m in messages {
        let frame = m.serialize();
        let len = u32::from_be_bytes([frame[0], frame[1], frame[2], frame[3]]) as usize;
        assert_eq!(len + 4, frame.len());
        let back = decode_id_and_payload(&frame).unwrap();
        assert_eq!(format!("{:?}", back), format!("{:?}", m));
    }
}

#[test]
fn bitfield_high_bit_is_piece_zero() {
    let bf = Bitfield::new(vec![0b1010_0000, 0b0000_0001]);
    assert!(bf.has_piece(0));
    assert!(!bf.has_piece(1));
    assert!(bf.has_piece(2));
    assert!(!bf.has_piece(7));
    assert!(!bf.has_piece(8));
    assert!(bf.has_piece(15));
    assert!(!bf.has_piece(16));
    assert!(!bf.has_piece(1000));
    assert_eq!(bf.pieces(), 16);
}

#[test]
fn empty_bitfield_has_nothing() {
    let bf = Bitfield::new(vec![]);
    assert_eq!(bf.pieces(), 0);
    assert!(!bf.has_piece(0));
}

#[test]
fn frame_of_a_message_decodes_back() {
    let frame = Message::Have(7).serialize();
    assert!(matches!(decode_frame(&frame), Ok(Some(Message::Have(7)))));
    let mut longer = Message::Unchoke.serialize();
    longer.extend_from_slice(&[0, 0, 0, 1, 2]);
    assert!(matches!(decode_frame(&longer), Ok(Some(Message::Unchoke))));
}

#[test]
fn keep_alive_frame_is_none() {
    assert!(matches!(decode_frame(&[0, 0, 0, 0]), Ok(None)));
}

#[test]
fn short_frames_are_refused() {
    assert_eq!(decode_frame(&[0, 0, 0]).unwrap_err(), MessageError::UnexpectedEof);
    assert_eq!(decode_frame(&[0, 0, 0, 5, 4, 0]).unwrap_err(), MessageError::UnexpectedEof);
    assert_eq!(decode_frame(&[0, 0, 0, 1, 42]).unwrap_err(), MessageError::UnknownId(42));
}

#[test]
fn body_length_reads_the_prefix() {
    assert_eq!(bitborrower::message::body_length(&[0, 0, 1, 2]), 258);
    assert_eq!(bitborrower::message::body_length(&[0xff, 0, 0, 0]), 0xff00_0000);
}
