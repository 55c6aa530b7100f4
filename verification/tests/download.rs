use bittorrent_client::download::{
    accept_piece, piece_offset, split_into_blocks, DownloadError, DownloadSession, PieceDownload,
    BLOCK_SIZE,
};
use bittorrent_client::network::MessageIoError;
use bittorrent_client::peer::{PeerError, PeerMessage};
use sha1::{Digest, Sha1};

fn sample(len: usize) -> Vec<u8> {
    (0..len).map(|i| (i % 251) as u8).collect()
}

fn digest(data: &[u8]) -> [u8; 20] {
    Sha1::digest(data).into()
}

fn answer(data: &[u8], request: &PeerMessage) -> PeerMessage {
    match request {
        PeerMessage::Request { index, begin, length } => {
            let start = *begin as usize;
            let block = data[start..start + *length as usize].to_vec();
            PeerMessage::Piece { index: *index, begin: *begin, block }
        }
        other => panic!("expected Request, got {:?}", other),
    }
}

#[test]
fn splits_piece_into_expected_block_boundaries() {
    let blocks = split_into_blocks(2 * BLOCK_SIZE);
    assert_eq!(blocks, vec![(0, BLOCK_SIZE), (BLOCK_SIZE, BLOCK_SIZE)]);

    let blocks = split_into_blocks(BLOCK_SIZE + 100);
    assert_eq!(blocks, vec![(0, BLOCK_SIZE), (BLOCK_SIZE, 100)]);

    let blocks = split_into_blocks(500);
    assert_eq!(blocks, vec![(0, 500)]);
}

#[test]
fn an_empty_piece_has_no_blocks() {
    assert_eq!(split_into_blocks(0), vec![]);
    assert_eq!(split_into_blocks(1), vec![(0, 1)]);
    assert_eq!(split_into_blocks(16384), vec![(0, 16384)]);
}

#[test]
fn downloads_and_verifies_a_piece() {
    let data = sample(2 * BLOCK_SIZE as usize);
    let assignments = vec![(0, 2 * BLOCK_SIZE, digest(&data))];
    let (session, opening) = DownloadSession::start(assignments);
    assert_eq!(opening, PeerMessage::Interested);
    let (mut session, requests) = session.on_received(Ok(PeerMessage::Unchoke)).unwrap();
    assert_eq!(
        requests,
        vec![
            PeerMessage::Request { index: 0, begin: 0, length: BLOCK_SIZE },
            PeerMessage::Request { index: 0, begin: BLOCK_SIZE, length: BLOCK_SIZE },
        ]
    );
    for request in &requests {
        assert!(!session.is_done());
        let (next, to_send) = session.on_received(Ok(answer(&data, request))).unwrap();
        assert_eq!(to_send, vec![]);
        session = next;
    }
    assert!(session.is_done());
    assert_eq!(session.into_results(), vec![(0, data)]);
}

#[test]
fn rejects_a_piece_with_wrong_digest() {
    let data = vec![0x11u8; BLOCK_SIZE as usize];
    let (session, _) = DownloadSession::start(vec![(0, BLOCK_SIZE, [0u8; 20])]);
    let (session, requests) = session.on_received(Ok(PeerMessage::Unchoke)).unwrap();
    let result = session.on_received(Ok(answer(&data, &requests[0])));
    assert!(matches!(result, Err(DownloadError::HashMismatch)));
}

#[test]
fn blocks_may_come_in_any_order_with_others_in_between() {
    let data = sample(3 * BLOCK_SIZE as usize + 10);
    let mut piece = PieceDownload::new(4, data.len() as u32, digest(&data));
    let requests = piece.requests();
    assert_eq!(requests.len(), 4);
    for k in [2, 0, 3, 1] {
        assert!(!piece.is_complete());
        for chatter in [
            PeerMessage::KeepAlive,
            PeerMessage::Have { piece_index: 1 },
            PeerMessage::Choke,
            PeerMessage::Piece { index: 5, begin: 0, block: vec![1; 100_000] },
        ] {
            piece = piece.on_message(chatter).unwrap();
        }
        piece = piece.on_message(answer(&data, &requests[k])).unwrap();
    }
    assert!(piece.is_complete());
    assert_eq!(piece.finish().unwrap(), data);
}

#[test]
fn blocks_past_the_end_are_rejected() {
    for (begin, len) in [(0u32, 11usize), (10, 1), (5, 6), (u32::MAX, 1)] {
        let piece = PieceDownload::new(0, 10, [0u8; 20]);
        let block = PeerMessage::Piece { index: 0, begin, block: vec![0; len] };
        let error = match piece.on_message(block) {
            Ok(_) => panic!("expected an error"),
            Err(e) => e,
        };
        assert!(matches!(
            error,
            DownloadError::UnexpectedMessage("block extends past piece boundary")
        ));
        assert_eq!(error.message(), "unexpected message: block extends past piece boundary");
    }
}

#[test]
fn a_block_that_comes_twice_does_not_pass_for_the_piece() {
    let data = sample(2 * BLOCK_SIZE as usize);
    let mut piece = PieceDownload::new(0, data.len() as u32, digest(&data));
    let requests = piece.requests();
    piece = piece.on_message(answer(&data, &requests[1])).unwrap();
    piece = piece.on_message(answer(&data, &requests[1])).unwrap();
    assert!(piece.is_complete());
    assert!(matches!(piece.finish(), Err(DownloadError::HashMismatch)));
}

#[test]
fn several_pieces_are_downloaded_one_by_one() {
    let first = sample(BLOCK_SIZE as usize + 1);
    let last = sample(7);
    let (session, _) = DownloadSession::start(vec![
        (3, first.len() as u32, digest(&first)),
        (5, 0, digest(&[])),
        (9, 7, digest(&last)),
    ]);
    let (session, none) = session.on_received(Ok(PeerMessage::Bitfield(vec![0xff]))).unwrap();
    assert_eq!(none, vec![]);
    let (session, none) = session.on_received(Ok(PeerMessage::Choke)).unwrap();
    assert_eq!(none, vec![]);
    let (session, requests) = session.on_received(Ok(PeerMessage::Unchoke)).unwrap();
    assert_eq!(requests.len(), 2);
    let (session, none) = session.on_received(Ok(answer(&first, &requests[0]))).unwrap();
    assert_eq!(none, vec![]);
    let (session, requests) = session.on_received(Ok(answer(&first, &requests[1]))).unwrap();
    assert_eq!(requests, vec![PeerMessage::Request { index: 9, begin: 0, length: 7 }]);
    assert!(!session.is_done());
    let (session, none) = session.on_received(Ok(answer(&last, &requests[0]))).unwrap();
    assert_eq!(none, vec![]);
    assert!(session.is_done());
    assert_eq!(session.into_results(), vec![(3, first), (5, vec![]), (9, last)]);
}

#[test]
fn a_session_without_pieces_still_waits_for_unchoke() {
    let (session, opening) = DownloadSession::start(vec![]);
    assert_eq!(opening, PeerMessage::Interested);
    assert!(!session.is_done());
    let (session, requests) = session.on_received(Ok(PeerMessage::Unchoke)).unwrap();
    assert_eq!(requests, vec![]);
    assert!(session.is_done());
}

#[test]
fn an_empty_piece_with_the_wrong_digest_is_rejected() {
    let (session, _) = DownloadSession::start(vec![(0, 0, [0u8; 20])]);
    let result = session.on_received(Ok(PeerMessage::Unchoke));
    assert!(matches!(result, Err(DownloadError::HashMismatch)));
}

#[test]
fn failures_to_receive_end_a_download() {
    let malformed = || Err(MessageIoError::Protocol(PeerError::UnknownMessageId(99)));
    let (session, _) = DownloadSession::start(vec![(0, 1, [0u8; 20])]);
    assert!(matches!(
        session.on_received(malformed()),
        Err(DownloadError::UnexpectedMessage("malformed message while waiting for unchoke"))
    ));
    let (session, _) = DownloadSession::start(vec![(0, 1, [0u8; 20])]);
    let (session, _) = session.on_received(Ok(PeerMessage::Unchoke)).unwrap();
    assert!(matches!(
        session.on_received(malformed()),
        Err(DownloadError::UnexpectedMessage("malformed message while downloading blocks"))
    ));
    let (session, _) = DownloadSession::start(vec![]);
    let gone = std::io::Error::new(std::io::ErrorKind::UnexpectedEof, "early eof");
    let error = match session.on_received(Err(MessageIoError::Io(gone))) {
        Ok(_) => panic!("expected an error"),
        Err(e) => e,
    };
    assert_eq!(error.message(), "I/O error: early eof");
}

#[test]
fn only_the_expected_digest_is_accepted() {
    assert_eq!(accept_piece(vec![1, 2], [3; 20], [3; 20]).unwrap(), vec![1, 2]);
    let mut other = [3u8; 20];
    other[19] = 4;
    let error = accept_piece(vec![1, 2], [3; 20], other).unwrap_err();
    assert!(matches!(error, DownloadError::HashMismatch));
    assert_eq!(error.message(), "downloaded piece failed hash verification");
    assert_eq!(DownloadError::ConnectionClosed.message(), "peer closed the connection");
}

#[test]
fn pieces_start_where_the_ones_before_them_end() {
    assert_eq!(piece_offset(0, 10), 0);
    assert_eq!(piece_offset(1, 10), 10);
    assert_eq!(piece_offset(u32::MAX, u32::MAX), 18446744065119617025);
}
