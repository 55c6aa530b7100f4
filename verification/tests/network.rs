use bittorrent_client::network::{
    handshake_received, FrameStart, HandshakeIoError, MessageIoError,
};
use bittorrent_client::peer::{Handshake, PeerError, PeerMessage};

fn closed() -> std::io::Error {
    std::io::Error::new(std::io::ErrorKind::UnexpectedEof, "early eof")
}

fn receive(incoming: &[u8]) -> (Result<PeerMessage, MessageIoError>, usize) {
    let mut prefix = [0u8; 4];
    prefix.copy_from_slice(&incoming[..4]);
    let start = FrameStart::received(Ok(prefix)).unwrap();
    let end = 4 + start.remaining();
    (start.completed(Ok(incoming[4..end].to_vec())), end)
}

#[test]
fn handshakes_that_were_sent_are_received() {
    let sent = Handshake::new([7u8; 20], [0xAA; 20]);
    assert_eq!(handshake_received(Ok(sent.serialize())).unwrap(), sent);
}

#[test]
fn bad_handshakes_are_protocol_errors() {
    let result = handshake_received(Ok([0u8; 68]));
    let error = result.unwrap_err();
    assert!(matches!(error, HandshakeIoError::Protocol(PeerError::WrongProtocol)));
    assert_eq!(
        error.message(),
        "protocol error during handshake: handshake did not identify BitTorrent protocol"
    );
}

#[test]
fn failures_to_read_a_handshake_are_io_errors() {
    let error = handshake_received(Err(closed())).unwrap_err();
    assert!(matches!(error, HandshakeIoError::Io(_)));
    assert_eq!(error.message(), "I/O error during handshake: early eof");
}

#[test]
fn messages_sent_back_to_back_are_each_received() {
    let mut incoming = Vec::new();
    let sent = [
        PeerMessage::Unchoke,
        PeerMessage::Have { piece_index: 3 },
        PeerMessage::KeepAlive,
        PeerMessage::Piece { index: 0, begin: 0, block: vec![0x42u8; 16 * 1024] },
    ];
    for message in &sent {
        incoming.extend_from_slice(&message.serialize());
    }
    let mut at = 0;
    for message in &sent {
        let (received, consumed) = receive(&incoming[at..]);
        assert_eq!(&received.unwrap(), message);
        at += consumed;
    }
    assert_eq!(at, incoming.len());
}

#[test]
fn bad_messages_are_protocol_errors() {
    let (received, _) = receive(&[0, 0, 0, 1, 99]);
    let error = received.unwrap_err();
    assert!(matches!(error, MessageIoError::Protocol(PeerError::UnknownMessageId(99))));
    assert_eq!(error.message(), "protocol error reading message: unknown message id: 99");
}

#[test]
fn failures_to_read_a_message_are_io_errors() {
    assert!(matches!(FrameStart::received(Err(closed())), Err(MessageIoError::Io(_))));
    let start = FrameStart { prefix: [0, 0, 0, 5] };
    assert_eq!(start.remaining(), 5);
    let error = start.completed(Err(closed())).unwrap_err();
    assert!(matches!(error, MessageIoError::Io(_)));
    assert_eq!(error.message(), "I/O error reading message: early eof");
}
