use bittorrent_client::download::DownloadSession;
use bittorrent_client::network::{HandshakeIoError, MessageIoError};
use bittorrent_client::peer::{Handshake, PeerError, PeerMessage};
use bittorrent_client::seed::{
    answer_handshake, block_answer, build_full_bitfield, file_offset, SeedAction, SeedConfig,
    SeedError, SeedSession,
};
use sha1::{Digest, Sha1};

fn config(piece_length: u32, num_pieces: u32) -> SeedConfig {
    SeedConfig {
        file_path: std::path::PathBuf::from("content.bin"),
        piece_length,
        num_pieces,
        info_hash: [9u8; 20],
    }
}

#[test]
fn full_bitfield_sets_exactly_the_real_pieces() {
    let bf = build_full_bitfield(10);
    assert_eq!(bf.len(), 2);
    assert_eq!(bf[0], 0b1111_1111);
    assert_eq!(bf[1], 0b1100_0000);
}

#[test]
fn full_bitfield_handles_exact_byte_multiple() {
    let bf = build_full_bitfield(16);
    assert_eq!(bf, vec![0xFF, 0xFF]);
}

#[test]
fn full_bitfield_handles_fewer_than_eight_pieces() {
    let bf = build_full_bitfield(3);
    assert_eq!(bf, vec![0b1110_0000]);
}

#[test]
fn a_bitfield_of_no_pieces_is_empty() {
    assert_eq!(build_full_bitfield(0), vec![]);
    assert_eq!(build_full_bitfield(1), vec![0x80]);
}

#[test]
fn handshakes_for_our_torrent_are_answered() {
    let theirs = Handshake::new([9u8; 20], [0xAA; 20]);
    let (ours, bitfield) = answer_handshake(Ok(theirs), [0xEE; 20], &config(1024, 3)).unwrap();
    assert_eq!(ours, Handshake::new([9u8; 20], [0xEE; 20]));
    assert_eq!(bitfield, PeerMessage::Bitfield(vec![0b1110_0000]));
}

#[test]
fn handshakes_for_another_torrent_are_refused() {
    let theirs = Handshake::new([2u8; 20], [0xAA; 20]);
    let error = answer_handshake(Ok(theirs), [0xEE; 20], &config(1024, 1)).unwrap_err();
    assert!(matches!(error, SeedError::InfoHashMismatch));
    assert_eq!(
        error.message(),
        "peer requested a torrent we're not seeding (info_hash mismatch)"
    );
}

#[test]
fn failed_handshakes_end_the_session() {
    let failed = Err(HandshakeIoError::Protocol(PeerError::WrongProtocol));
    let error = answer_handshake(failed, [0xEE; 20], &config(1024, 1)).unwrap_err();
    assert!(matches!(error, SeedError::HandshakeFailed));
    assert_eq!(error.message(), "handshake failed");
}

#[test]
fn interest_is_answered_and_remembered() {
    let config = config(1024, 3);
    let mut session = SeedSession::new();
    assert!(!session.peer_is_interested);
    let action = session.on_received(Ok(PeerMessage::Interested), &config);
    assert!(matches!(action, SeedAction::Send(PeerMessage::Unchoke)));
    assert!(session.peer_is_interested);
    let action = session.on_received(Ok(PeerMessage::KeepAlive), &config);
    assert!(matches!(action, SeedAction::Wait));
    assert!(session.peer_is_interested);
    let action = session.on_received(Ok(PeerMessage::NotInterested), &config);
    assert!(matches!(action, SeedAction::Wait));
    assert!(!session.peer_is_interested);
}

#[test]
fn requests_are_served_with_or_without_interest() {
    let config = config(1024, 3);
    let mut session = SeedSession::new();
    let request = PeerMessage::Request { index: 2, begin: 5, length: 7 };
    for _ in 0..2 {
        match session.on_received(Ok(request.clone()), &config) {
            SeedAction::Read { index, begin, offset, length } => {
                assert_eq!((index, begin, offset, length), (2, 5, 2053, 7));
            }
            _ => panic!("expected a read"),
        }
        session.on_received(Ok(PeerMessage::Interested), &config);
    }
}

#[test]
fn other_messages_need_no_answer() {
    let config = config(1024, 3);
    let mut session = SeedSession::new();
    for message in [
        PeerMessage::KeepAlive,
        PeerMessage::Have { piece_index: 0 },
        PeerMessage::Cancel { index: 0, begin: 0, length: 1 },
        PeerMessage::Choke,
        PeerMessage::Unchoke,
        PeerMessage::Piece { index: 0, begin: 0, block: vec![1] },
        PeerMessage::Bitfield(vec![0xff]),
    ] {
        assert!(matches!(session.on_received(Ok(message), &config), SeedAction::Wait));
    }
    let gone = Err(MessageIoError::Protocol(PeerError::UnexpectedEof));
    assert!(matches!(session.on_received(gone, &config), SeedAction::Close));
}

#[test]
fn blocks_that_were_read_are_sent() {
    assert_eq!(
        block_answer(1, 2, Ok(vec![3])).unwrap(),
        PeerMessage::Piece { index: 1, begin: 2, block: vec![3] }
    );
    let failed = std::io::Error::new(std::io::ErrorKind::UnexpectedEof, "early eof");
    let error = block_answer(1, 2, Err(failed)).unwrap_err();
    assert!(matches!(error, SeedError::Io(_)));
    assert_eq!(error.message(), "I/O error: early eof");
}

#[test]
fn offsets_into_large_files_do_not_overflow() {
    assert_eq!(file_offset(3, 1024, 10), 3082);
    assert_eq!(file_offset(u32::MAX, u32::MAX, u32::MAX), 18446744069414584320);
}

#[test]
fn a_seeder_serves_our_own_leecher() {
    let piece_length: u32 = 40_000;
    let mut content = Vec::new();
    for piece_idx in 0..3u32 {
        for i in 0..piece_length {
            content.push(((piece_idx * 37 + i) % 256) as u8);
        }
    }
    let config = config(piece_length, 3);
    let expected = content[40_000..80_000].to_vec();
    let hash: [u8; 20] = Sha1::digest(&expected).into();

    let mut seeder = SeedSession::new();
    let (mut leecher, opening) = DownloadSession::start(vec![(1, piece_length, hash)]);
    let mut to_seeder = vec![opening];
    while !leecher.is_done() {
        let message = to_seeder.remove(0);
        let reply = match seeder.on_received(Ok(message), &config) {
            SeedAction::Send(reply) => reply,
            SeedAction::Read { index, begin, offset, length } => {
                let start = offset as usize;
                let block = content[start..start + length as usize].to_vec();
                block_answer(index, begin, Ok(block)).unwrap()
            }
            _ => panic!("the seeder has something to say"),
        };
        let (next, requests) = leecher.on_received(Ok(reply)).unwrap();
        leecher = next;
        to_seeder.extend(requests);
    }
    assert_eq!(leecher.into_results(), vec![(1, expected)]);
}
