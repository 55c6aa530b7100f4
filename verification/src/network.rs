//! From bytes that were read off a connection to handshakes and messages.
//! Whoever owns the connection does the reading and hands in what came of it.

use crate::bencode::push_all;
use crate::peer::{
    handshake_at, message_at, message_bytes, Handshake, MessageModel, PeerError, PeerMessage,
};
use crate::peer_laws::{message_length, message_round_trips};
use crate::wire::{be_number, read_be};
use vstd::prelude::*;
use vstd::string::{to_string_from_display_ensures, StringExecFns};

verus! {

/// `std::io::Error`: why reading or writing failed. Nothing is said of what is
/// inside.
#[verifier::external_type_specification]
#[verifier::external_body]
pub struct ExIoError(std::io::Error);

/// Whether `text` is `prefix` followed by what the error shows of itself.
pub open spec fn shows_io_error(text: Seq<char>, prefix: Seq<char>, e: std::io::Error) -> bool {
    exists|shown: String| #[trigger]
        to_string_from_display_ensures::<std::io::Error>(&e, shown) && text == prefix + shown@
}

/// `prefix` followed by what the error shows of itself.
pub fn io_error_message(prefix: &str, e: &std::io::Error) -> (r: String)
    ensures
        shows_io_error(r@, prefix@, *e),
{
    let shown: String = e.to_string();
    let mut out: String = prefix.to_string();
    out.append(shown.as_str());
    out
}

/// Why no handshake was received.
#[derive(Debug)]
pub enum HandshakeIoError {
    Io(std::io::Error),
    Protocol(PeerError),
}

impl HandshakeIoError {
    /// The error as a message for a user.
    pub fn message(&self) -> (r: String)
        ensures
            match *self {
                HandshakeIoError::Io(e) => shows_io_error(r@, "I/O error during handshake: "@, e),
                HandshakeIoError::Protocol(e) => r@ == "protocol error during handshake: "@
                    + e.text(),
            },
    {
        match self {
            HandshakeIoError::Io(e) => io_error_message("I/O error during handshake: ", e),
            HandshakeIoError::Protocol(e) => {
                let mut out = "protocol error during handshake: ".to_string();
                out.append(e.message().as_str());
                out
            },
        }
    }
}

/// Why no message was received.
#[derive(Debug)]
pub enum MessageIoError {
    Io(std::io::Error),
    Protocol(PeerError),
}

impl MessageIoError {
    /// The error as a message for a user.
    pub fn message(&self) -> (r: String)
        ensures
            match *self {
                MessageIoError::Io(e) => shows_io_error(r@, "I/O error reading message: "@, e),
                MessageIoError::Protocol(e) => r@ == "protocol error reading message: "@
                    + e.text(),
            },
    {
        match self {
            MessageIoError::Io(e) => io_error_message("I/O error reading message: ", e),
            MessageIoError::Protocol(e) => {
                let mut out = "protocol error reading message: ".to_string();
                out.append(e.message().as_str());
                out
            },
        }
    }
}

/// The handshake in the 68 bytes that were read, or why there is none.
pub fn handshake_received(read: Result<[u8; 68], std::io::Error>) -> (r: Result<
    Handshake,
    HandshakeIoError,
>)
    ensures
        match read {
            Err(e) => r == Err::<Handshake, HandshakeIoError>(HandshakeIoError::Io(e)),
            Ok(buf) => match handshake_at(buf@) {
                Ok((info_hash, peer_id)) => r matches Ok(h) && h.info_hash@ == info_hash
                    && h.peer_id@ == peer_id,
                Err(e) => r == Err::<Handshake, HandshakeIoError>(HandshakeIoError::Protocol(e)),
            },
        },
{
    match read {
        Err(e) => Err(HandshakeIoError::Io(e)),
        Ok(buf) => match Handshake::parse(&buf) {
            Ok(handshake) => Ok(handshake),
            Err(e) => Err(HandshakeIoError::Protocol(e)),
        },
    }
}

/// A message of which the length has been read.
pub struct FrameStart {
    pub prefix: [u8; 4],
}

impl FrameStart {
    /// The start of a message, from its first four bytes.
    pub fn received(read: Result<[u8; 4], std::io::Error>) -> (r: Result<
        FrameStart,
        MessageIoError,
    >)
        ensures
            match read {
                Err(e) => r == Err::<FrameStart, MessageIoError>(MessageIoError::Io(e)),
                Ok(prefix) => r == Ok::<FrameStart, MessageIoError>(FrameStart { prefix }),
            },
    {
        match read {
            Err(e) => Err(MessageIoError::Io(e)),
            Ok(prefix) => Ok(FrameStart { prefix }),
        }
    }

    /// How many bytes of the message are still to be read.
    pub fn remaining(&self) -> (r: usize)
        ensures
            r == be_number(self.prefix@, 0),
    {
        read_be(&self.prefix, 0) as usize
    }

    /// The message, from the bytes that follow its length.
    pub fn completed(&self, read: Result<Vec<u8>, std::io::Error>) -> (r: Result<
        PeerMessage,
        MessageIoError,
    >)
        ensures
            match read {
                Err(e) => r == Err::<PeerMessage, MessageIoError>(MessageIoError::Io(e)),
                Ok(body) => match message_at(self.prefix@ + body@) {
                    Ok((m, _)) => r matches Ok(message) && message@ == m,
                    Err(e) => r == Err::<PeerMessage, MessageIoError>(MessageIoError::Protocol(e)),
                },
            },
    {
        let body: Vec<u8> = match read {
            Err(e) => {
                return Err(MessageIoError::Io(e));
            },
            Ok(body) => body,
        };
        let mut frame: Vec<u8> = Vec::new();
        push_all(&mut frame, &self.prefix);
        push_all(&mut frame, &body);
        assert(frame@ =~= self.prefix@ + body@);
        match PeerMessage::parse(&frame) {
            Ok((message, _consumed)) => Ok(message),
            Err(e) => Err(MessageIoError::Protocol(e)),
        }
    }
}

/// Reading the first four bytes of a message that was sent, and then as many
/// as they ask for, takes up just the bytes of that message and gives the
/// message.
pub proof fn sent_messages_are_received(m: MessageModel, rest: Seq<u8>)
    requires
        m.fits(),
    ensures
        ({
            let incoming = message_bytes(m) + rest;
            let prefix = incoming.take(4);
            let remaining = be_number(prefix, 0);
            let body = incoming.skip(4).take(remaining);
            &&& 4 + remaining == message_bytes(m).len()
            &&& message_at(prefix + body) == Ok::<(MessageModel, int), PeerError>(
                (m, 4 + remaining),
            )
        }),
{
    let sent = message_bytes(m);
    let incoming = sent + rest;
    message_round_trips(m, rest);
    message_length(m);
    assert(be_number(incoming.take(4), 0) == be_number(incoming, 0));
    let remaining = be_number(incoming, 0);
    message_round_trips(m, Seq::empty());
    assert(incoming.take(4) + incoming.skip(4).take(remaining) =~= sent + Seq::empty());
}

/// A text that shows an error is the prefix, whole, and then something that the
/// error shows of itself, whole.
pub proof fn errors_are_shown_behind_their_prefix(
    text: Seq<char>,
    prefix: Seq<char>,
    e: std::io::Error,
)
    requires
        shows_io_error(text, prefix, e),
    ensures
        text.len() >= prefix.len(),
        text.take(prefix.len() as int) == prefix,
        exists|shown: String| #[trigger]
            to_string_from_display_ensures::<std::io::Error>(&e, shown) && text.skip(
                prefix.len() as int,
            ) == shown@,
{
    let shown = choose|shown: String| #[trigger]
        to_string_from_display_ensures::<std::io::Error>(&e, shown) && text == prefix + shown@;
    assert(text.take(prefix.len() as int) =~= prefix);
    assert(text.skip(prefix.len() as int) =~= shown@);
}

} // verus!
