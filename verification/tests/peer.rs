use bittorrent_client::peer::{
    Handshake, PeerError, PeerMessage, HANDSHAKE_LEN, PEER_ID_LEN, PROTOCOL_STRING,
};
use bittorrent_client::torrent::HASH_LEN;

fn sample_info_hash() -> [u8; HASH_LEN] {
    let mut h = [0u8; HASH_LEN];
    for (i, b) in h.iter_mut().enumerate() {
        *b = i as u8;
    }
    h
}

fn sample_peer_id() -> [u8; PEER_ID_LEN] {
    *b"-RS0001-abcdefghijkl"
}

#[test]
fn handshake_round_trips() {
    let hs = Handshake::new(sample_info_hash(), sample_peer_id());
    let bytes = hs.serialize();
    assert_eq!(bytes.len(), HANDSHAKE_LEN);
    assert_eq!(bytes.len(), 68, "BitTorrent handshake must always be exactly 68 bytes");

    let parsed = Handshake::parse(&bytes).unwrap();
    assert_eq!(parsed, hs);
}

#[test]
fn handshake_rejects_wrong_protocol_string() {
    let mut bytes = Handshake::new(sample_info_hash(), sample_peer_id()).serialize();
    bytes[5] = b'X';
    assert!(matches!(Handshake::parse(&bytes), Err(PeerError::WrongProtocol)));
}

#[test]
fn handshake_rejects_truncated_input() {
    let bytes = Handshake::new(sample_info_hash(), sample_peer_id()).serialize();
    assert!(matches!(Handshake::parse(&bytes[..30]), Err(PeerError::UnexpectedEof)));
}

#[test]
fn keep_alive_round_trips() {
    let bytes = PeerMessage::KeepAlive.serialize();
    assert_eq!(bytes, 0u32.to_be_bytes());
    let (msg, consumed) = PeerMessage::parse(&bytes).unwrap();
    assert_eq!(msg, PeerMessage::KeepAlive);
    assert_eq!(consumed, 4);
}

#[test]
fn zero_length_messages_round_trip() {
    for msg in [
        PeerMessage::Choke,
        PeerMessage::Unchoke,
        PeerMessage::Interested,
        PeerMessage::NotInterested,
    ] {
        let bytes = msg.serialize();
        assert_eq!(bytes.len(), 5);
        let (parsed, consumed) = PeerMessage::parse(&bytes).unwrap();
        assert_eq!(parsed, msg);
        assert_eq!(consumed, bytes.len());
    }
}

#[test]
fn have_round_trips() {
    let msg = PeerMessage::Have { piece_index: 42 };
    let bytes = msg.serialize();
    assert_eq!(bytes.len(), 4 + 1 + 4);
    let (parsed, consumed) = PeerMessage::parse(&bytes).unwrap();
    assert_eq!(parsed, msg);
    assert_eq!(consumed, bytes.len());
}

#[test]
fn bitfield_round_trips_with_arbitrary_bytes() {
    let msg = PeerMessage::Bitfield(vec![0xFF, 0x00, 0xA5]);
    let bytes = msg.serialize();
    let (parsed, consumed) = PeerMessage::parse(&bytes).unwrap();
    assert_eq!(parsed, msg);
    assert_eq!(consumed, bytes.len());
}

#[test]
fn request_round_trips() {
    let msg = PeerMessage::Request { index: 5, begin: 16384, length: 16384 };
    let bytes = msg.serialize();
    let (parsed, _) = PeerMessage::parse(&bytes).unwrap();
    assert_eq!(parsed, msg);
}

#[test]
fn piece_round_trips_with_realistic_block_size() {
    let block = vec![0x7Au8; 16 * 1024];
    let msg = PeerMessage::Piece { index: 3, begin: 0, block: block.clone() };
    let bytes = msg.serialize();

    assert_eq!(bytes.len(), 4 + 1 + 4 + 4 + block.len());

    let (parsed, consumed) = PeerMessage::parse(&bytes).unwrap();
    assert_eq!(parsed, msg);
    assert_eq!(consumed, bytes.len());
}

#[test]
fn cancel_round_trips() {
    let msg = PeerMessage::Cancel { index: 1, begin: 0, length: 16384 };
    let bytes = msg.serialize();
    let (parsed, _) = PeerMessage::parse(&bytes).unwrap();
    assert_eq!(parsed, msg);
}

#[test]
fn parse_reports_truncated_frame_without_panicking() {
    let mut bytes = 100u32.to_be_bytes().to_vec();
    bytes.push(PeerMessage::ID_PIECE);
    bytes.extend_from_slice(&[1, 2, 3]);

    let err = PeerMessage::parse(&bytes).unwrap_err();
    assert!(matches!(err, PeerError::TruncatedPayload { .. }));
    assert_eq!(err, PeerError::TruncatedPayload { expected: 104, got: 8 });
}

#[test]
fn parse_rejects_unknown_message_id() {
    let mut bytes = 1u32.to_be_bytes().to_vec();
    bytes.push(99);
    let err = PeerMessage::parse(&bytes).unwrap_err();
    assert!(matches!(err, PeerError::UnknownMessageId(99)));
}

#[test]
fn parse_leaves_remaining_bytes_for_the_next_message() {
    let mut buf = PeerMessage::Unchoke.serialize();
    buf.extend_from_slice(&PeerMessage::Have { piece_index: 7 }.serialize());

    let (first, consumed1) = PeerMessage::parse(&buf).unwrap();
    assert_eq!(first, PeerMessage::Unchoke);

    let (second, _consumed2) = PeerMessage::parse(&buf[consumed1..]).unwrap();
    assert_eq!(second, PeerMessage::Have { piece_index: 7 });
}

#[test]
fn handshake_bytes_are_laid_out_as_agreed() {
    let bytes = Handshake::new(sample_info_hash(), sample_peer_id()).serialize();
    assert_eq!(&PROTOCOL_STRING, b"BitTorrent protocol");
    assert_eq!(bytes[0], 19);
    assert_eq!(&bytes[1..20], b"BitTorrent protocol");
    assert_eq!(&bytes[20..28], &[0u8; 8]);
    assert_eq!(&bytes[28..48], &sample_info_hash());
    assert_eq!(&bytes[48..], b"-RS0001-abcdefghijkl");
}

#[test]
fn every_byte_of_the_protocol_name_counts() {
    let hs = Handshake::new(sample_info_hash(), sample_peer_id());
    for i in 0..20 {
        let mut bytes = hs.serialize();
        bytes[i] ^= 1;
        assert_eq!(Handshake::parse(&bytes), Err(PeerError::WrongProtocol));
    }
}

#[test]
fn reserved_bytes_and_what_follows_do_not_count() {
    let hs = Handshake::new(sample_info_hash(), sample_peer_id());
    let mut bytes = hs.serialize().to_vec();
    for b in &mut bytes[20..28] {
        *b = 0xff;
    }
    bytes.push(1);
    assert_eq!(Handshake::parse(&bytes), Ok(hs));
}

#[test]
fn a_handshake_needs_all_of_its_bytes() {
    let bytes = Handshake::new(sample_info_hash(), sample_peer_id()).serialize();
    for n in 0..68 {
        assert_eq!(Handshake::parse(&bytes[..n]), Err(PeerError::UnexpectedEof));
    }
}

#[test]
fn message_bytes_are_laid_out_as_agreed() {
    let request = PeerMessage::Request { index: 1, begin: 0x0203_0405, length: 16384 };
    assert_eq!(
        request.serialize(),
        vec![0, 0, 0, 13, 6, 0, 0, 0, 1, 2, 3, 4, 5, 0, 0, 0x40, 0]
    );
    let piece = PeerMessage::Piece { index: 258, begin: 3, block: vec![9, 8] };
    assert_eq!(piece.serialize(), vec![0, 0, 0, 11, 7, 0, 0, 1, 2, 0, 0, 0, 3, 9, 8]);
    assert_eq!(PeerMessage::Choke.serialize(), vec![0, 0, 0, 1, 0]);
    assert_eq!(PeerMessage::Unchoke.serialize(), vec![0, 0, 0, 1, 1]);
    assert_eq!(PeerMessage::Interested.serialize(), vec![0, 0, 0, 1, 2]);
    assert_eq!(PeerMessage::NotInterested.serialize(), vec![0, 0, 0, 1, 3]);
    assert_eq!(PeerMessage::Have { piece_index: 7 }.serialize(), vec![0, 0, 0, 5, 4, 0, 0, 0, 7]);
    assert_eq!(PeerMessage::Bitfield(vec![0x80]).serialize(), vec![0, 0, 0, 2, 5, 0x80]);
    assert_eq!(PeerMessage::Cancel { index: 0, begin: 0, length: 0 }.serialize()[4], 8);
}

#[test]
fn short_payloads_say_what_was_missing() {
    let cases: Vec<(Vec<u8>, usize, usize)> = vec![
        (vec![0, 0, 0, 2, 4, 1], 4, 1),
        (vec![0, 0, 0, 1, 6], 4, 0),
        (vec![0, 0, 0, 5, 6, 0, 0, 0, 1], 8, 4),
        (vec![0, 0, 0, 9, 8, 0, 0, 0, 1, 0, 0, 0, 1], 12, 8),
        (vec![0, 0, 0, 6, 7, 0, 0, 0, 1, 0], 8, 5),
    ];
    for (bytes, expected, got) in cases {
        assert_eq!(
            PeerMessage::parse(&bytes),
            Err(PeerError::TruncatedPayload { expected, got })
        );
    }
    assert_eq!(PeerMessage::parse(&[0, 0, 0]), Err(PeerError::UnexpectedEof));
}

#[test]
fn payloads_may_be_longer_than_needed() {
    let (message, consumed) = PeerMessage::parse(&[0, 0, 0, 3, 0, 1, 2]).unwrap();
    assert_eq!(message, PeerMessage::Choke);
    assert_eq!(consumed, 7);
    let (message, consumed) = PeerMessage::parse(&[0, 0, 0, 6, 4, 0, 0, 0, 9, 77]).unwrap();
    assert_eq!(message, PeerMessage::Have { piece_index: 9 });
    assert_eq!(consumed, 10);
}

#[test]
fn every_strict_prefix_of_a_message_is_rejected() {
    let bytes = PeerMessage::Piece { index: 1, begin: 2, block: vec![3; 10] }.serialize();
    for n in 0..bytes.len() {
        let expected = if n < 4 {
            PeerError::UnexpectedEof
        } else {
            PeerError::TruncatedPayload { expected: bytes.len(), got: n }
        };
        assert_eq!(PeerMessage::parse(&bytes[..n]), Err(expected));
    }
}

#[test]
fn ordinary_messages_have_frames() {
    assert!(PeerMessage::KeepAlive.is_framable());
    assert!(PeerMessage::Bitfield(vec![]).is_framable());
    assert!(PeerMessage::Piece { index: 0, begin: 0, block: vec![0; 16384] }.is_framable());
    assert!(PeerMessage::Cancel { index: 0, begin: 0, length: 0 }.is_framable());
}

#[test]
fn protocol_errors_say_what_is_wrong() {
    assert_eq!(PeerError::UnexpectedEof.message(), "unexpected end of input");
    assert_eq!(
        PeerError::WrongProtocol.message(),
        "handshake did not identify BitTorrent protocol"
    );
    assert_eq!(PeerError::UnknownMessageId(99).message(), "unknown message id: 99");
    assert_eq!(
        PeerError::TruncatedPayload { expected: 104, got: 0 }.message(),
        "payload truncated: expected 104 bytes, got 0"
    );
}
