//! The peer wire protocol: the handshake and the messages that two clients
//! exchange once they are connected. This module only turns values into bytes
//! and back; it knows of no sockets.

use crate::bencode::{bytes_equal, push_all};
use crate::text::{decimal_text, push_decimal};
use crate::wire::{be_bytes, be_number, push_be, read_be, twenty_bytes};
use vstd::prelude::*;
use vstd::slice::slice_to_vec;
use vstd::string::StringExecFns;

verus! {

/// `BitTorrent protocol`
pub const PROTOCOL_STRING: [u8; 19] = [
    0x42, 0x69, 0x74, 0x54, 0x6f, 0x72, 0x72, 0x65, 0x6e, 0x74, 0x20, 0x70, 0x72, 0x6f, 0x74, 0x6f,
    0x63, 0x6f, 0x6c,
];

/// The length of a peer id in bytes.
pub const PEER_ID_LEN: usize = 20;

/// The length of a handshake in bytes: the length of the protocol string, the
/// string, eight reserved bytes, the `info_hash` and the peer id.
pub const HANDSHAKE_LEN: usize = 1 + 19 + 8 + 20 + 20;

/// Why bytes are no handshake or no message.
#[derive(Debug, Clone, Copy, PartialEq, Eq)]
pub enum PeerError {
    UnexpectedEof,
    WrongProtocol,
    UnknownMessageId(u8),
    TruncatedPayload { expected: usize, got: usize },
}

impl PeerError {
    /// What the error says to a user.
    pub open spec fn text(self) -> Seq<char> {
        match self {
            PeerError::UnexpectedEof => "unexpected end of input"@,
            PeerError::WrongProtocol => "handshake did not identify BitTorrent protocol"@,
            PeerError::UnknownMessageId(id) => "unknown message id: "@ + decimal_text(id as nat),
            PeerError::TruncatedPayload { expected, got } => "payload truncated: expected "@
                + decimal_text(expected as nat) + " bytes, got "@ + decimal_text(got as nat),
        }
    }

    /// The error as a message for a user.
    pub fn message(&self) -> (r: String)
        ensures
            r@ == self.text(),
    {
        match self {
            PeerError::UnexpectedEof => "unexpected end of input".to_string(),
            PeerError::WrongProtocol => {
                "handshake did not identify BitTorrent protocol".to_string()
            },
            PeerError::UnknownMessageId(id) => {
                let mut out = "unknown message id: ".to_string();
                push_decimal(&mut out, *id as u64);
                out
            },
            PeerError::TruncatedPayload { expected, got } => {
                let mut out = "payload truncated: expected ".to_string();
                push_decimal(&mut out, *expected as u64);
                out.append(" bytes, got ");
                push_decimal(&mut out, *got as u64);
                out
            },
        }
    }
}

// ---------------------------------------------------------------------
// Handshake
// ---------------------------------------------------------------------

/// What each side says first: which torrent it wants to talk about, and who
/// it is.
#[derive(Debug, Clone, PartialEq, Eq)]
pub struct Handshake {
    pub info_hash: [u8; 20],
    pub peer_id: [u8; 20],
}

/// The bytes of a handshake.
pub open spec fn handshake_bytes(info_hash: Seq<u8>, peer_id: Seq<u8>) -> Seq<u8> {
    seq![19u8] + PROTOCOL_STRING@ + Seq::new(8, |i: int| 0u8) + info_hash + peer_id
}

/// The `info_hash` and peer id of the handshake that `buf` starts with. The
/// reserved bytes may be anything.
pub open spec fn handshake_at(buf: Seq<u8>) -> Result<(Seq<u8>, Seq<u8>), PeerError> {
    if buf.len() < 68 {
        Err(PeerError::UnexpectedEof)
    } else if buf[0] != 19 || buf.subrange(1, 20) != PROTOCOL_STRING@ {
        Err(PeerError::WrongProtocol)
    } else {
        Ok((buf.subrange(28, 48), buf.subrange(48, 68)))
    }
}

/// Copies `src` over the bytes of `buf` from `at` on.
fn copy_into(buf: &mut [u8; 68], at: usize, src: &[u8])
    requires
        at + src@.len() <= 68,
    ensures
        forall|i: int|
            0 <= i < 68 ==> #[trigger] final(buf)@[i] == (if at <= i < at + src@.len() {
                src@[i - at]
            } else {
                old(buf)@[i]
            }),
{
    let mut i: usize = 0;
    while i < src.len()
        invariant
            i <= src@.len(),
            at + src@.len() <= 68,
            forall|j: int|
                0 <= j < 68 ==> #[trigger] buf@[j] == (if at <= j < at + i {
                    src@[j - at]
                } else {
                    old(buf)@[j]
                }),
        decreases src@.len() - i,
    {
        buf[at + i] = src[i];
        i += 1;
    }
}

impl Handshake {
    pub fn new(info_hash: [u8; 20], peer_id: [u8; 20]) -> (r: Self)
        ensures
            r.info_hash == info_hash,
            r.peer_id == peer_id,
    {
        Handshake { info_hash, peer_id }
    }

    /// The bytes of the handshake. The reserved bytes are zero: no extensions
    /// are offered.
    pub fn serialize(&self) -> (r: [u8; 68])
        ensures
            r@ == handshake_bytes(self.info_hash@, self.peer_id@),
    {
        let mut buf: [u8; 68] = [0u8;68];
        buf[0] = 19;
        copy_into(&mut buf, 1, &PROTOCOL_STRING);
        copy_into(&mut buf, 28, &self.info_hash);
        copy_into(&mut buf, 48, &self.peer_id);
        assert(buf@ =~= handshake_bytes(self.info_hash@, self.peer_id@));
        buf
    }

    /// Reads the handshake that `buf` starts with.
    pub fn parse(buf: &[u8]) -> (r: Result<Handshake, PeerError>)
        ensures
            match handshake_at(buf@) {
                Ok((info_hash, peer_id)) => r matches Ok(h) && h.info_hash@ == info_hash
                    && h.peer_id@ == peer_id,
                Err(e) => r matches Err(error) && error == e,
            },
    {
        if buf.len() < HANDSHAKE_LEN {
            return Err(PeerError::UnexpectedEof);
        }
        if buf[0] != 19 || !bytes_equal(&buf[1..20], &PROTOCOL_STRING) {
            return Err(PeerError::WrongProtocol);
        }
        let info_hash = twenty_bytes(buf, 28);
        let peer_id = twenty_bytes(buf, 48);
        Ok(Handshake { info_hash, peer_id })
    }
}

// ---------------------------------------------------------------------
// Messages
// ---------------------------------------------------------------------

/// What peers say to each other after the handshake.
#[derive(Debug, Clone, PartialEq, Eq)]
pub enum PeerMessage {
    /// A message of length zero: it keeps an idle connection open.
    KeepAlive,
    Choke,
    Unchoke,
    Interested,
    NotInterested,
    /// The sender has this piece now.
    Have { piece_index: u32 },
    /// Which pieces the sender has, a bit for each, the most significant bit
    /// of a byte first.
    Bitfield(Vec<u8>),
    /// The sender asks for `length` bytes of piece `index` from `begin` on.
    Request { index: u32, begin: u32, length: u32 },
    /// The bytes of piece `index` from `begin` on.
    Piece { index: u32, begin: u32, block: Vec<u8> },
    /// The sender no longer needs what it asked for.
    Cancel { index: u32, begin: u32, length: u32 },
}

/// A message with its bytes as sequences.
pub enum MessageModel {
    KeepAlive,
    Choke,
    Unchoke,
    Interested,
    NotInterested,
    Have { piece_index: u32 },
    Bitfield(Seq<u8>),
    Request { index: u32, begin: u32, length: u32 },
    Piece { index: u32, begin: u32, block: Seq<u8> },
    Cancel { index: u32, begin: u32, length: u32 },
}

impl View for PeerMessage {
    type V = MessageModel;

    open spec fn view(&self) -> MessageModel {
        match *self {
            PeerMessage::KeepAlive => MessageModel::KeepAlive,
            PeerMessage::Choke => MessageModel::Choke,
            PeerMessage::Unchoke => MessageModel::Unchoke,
            PeerMessage::Interested => MessageModel::Interested,
            PeerMessage::NotInterested => MessageModel::NotInterested,
            PeerMessage::Have { piece_index } => MessageModel::Have { piece_index },
            PeerMessage::Bitfield(bits) => MessageModel::Bitfield(bits@),
            PeerMessage::Request { index, begin, length } => MessageModel::Request {
                index,
                begin,
                length,
            },
            PeerMessage::Piece { index, begin, block } => MessageModel::Piece {
                index,
                begin,
                block: block@,
            },
            PeerMessage::Cancel { index, begin, length } => MessageModel::Cancel {
                index,
                begin,
                length,
            },
        }
    }
}

impl MessageModel {
    /// The byte that says which message follows; a keep-alive has none.
    pub open spec fn id(self) -> u8
        recommends
            !(self is KeepAlive),
    {
        match self {
            MessageModel::KeepAlive => 0,
            MessageModel::Choke => PeerMessage::ID_CHOKE,
            MessageModel::Unchoke => PeerMessage::ID_UNCHOKE,
            MessageModel::Interested => PeerMessage::ID_INTERESTED,
            MessageModel::NotInterested => PeerMessage::ID_NOT_INTERESTED,
            MessageModel::Have { .. } => PeerMessage::ID_HAVE,
            MessageModel::Bitfield(_) => PeerMessage::ID_BITFIELD,
            MessageModel::Request { .. } => PeerMessage::ID_REQUEST,
            MessageModel::Piece { .. } => PeerMessage::ID_PIECE,
            MessageModel::Cancel { .. } => PeerMessage::ID_CANCEL,
        }
    }

    /// The bytes that follow the identifying byte.
    pub open spec fn payload(self) -> Seq<u8> {
        match self {
            MessageModel::Have { piece_index } => be_bytes(piece_index),
            MessageModel::Bitfield(bits) => bits,
            MessageModel::Request { index, begin, length } => be_bytes(index) + be_bytes(begin)
                + be_bytes(length),
            MessageModel::Piece { index, begin, block } => be_bytes(index) + be_bytes(begin)
                + block,
            MessageModel::Cancel { index, begin, length } => be_bytes(index) + be_bytes(begin)
                + be_bytes(length),
            _ => Seq::empty(),
        }
    }

    /// Whether the length of the message fits in its prefix.
    pub open spec fn fits(self) -> bool {
        self.payload().len() < u32::MAX
    }
}

/// A frame: the length of what follows, an identifying byte and a payload.
pub open spec fn framed(id: u8, payload: Seq<u8>) -> Seq<u8> {
    be_bytes((1 + payload.len()) as u32) + seq![id] + payload
}

/// The bytes of a message.
pub open spec fn message_bytes(m: MessageModel) -> Seq<u8> {
    if m is KeepAlive {
        be_bytes(0)
    } else {
        framed(m.id(), m.payload())
    }
}

/// The number at `offset` of a payload.
pub open spec fn number_in(payload: Seq<u8>, offset: int) -> Result<u32, PeerError> {
    if payload.len() < offset + 4 {
        Err(
            PeerError::TruncatedPayload {
                expected: (offset + 4) as usize,
                got: payload.len() as usize,
            },
        )
    } else {
        Ok(be_number(payload, offset) as u32)
    }
}

/// The message that an identifying byte and a payload make. Bytes behind what
/// the message needs are ignored.
pub open spec fn message_of(id: u8, payload: Seq<u8>) -> Result<MessageModel, PeerError> {
    if id == PeerMessage::ID_CHOKE {
        Ok(MessageModel::Choke)
    } else if id == PeerMessage::ID_UNCHOKE {
        Ok(MessageModel::Unchoke)
    } else if id == PeerMessage::ID_INTERESTED {
        Ok(MessageModel::Interested)
    } else if id == PeerMessage::ID_NOT_INTERESTED {
        Ok(MessageModel::NotInterested)
    } else if id == PeerMessage::ID_HAVE {
        match number_in(payload, 0) {
            Ok(piece_index) => Ok(MessageModel::Have { piece_index }),
            Err(e) => Err(e),
        }
    } else if id == PeerMessage::ID_BITFIELD {
        Ok(MessageModel::Bitfield(payload))
    } else if id == PeerMessage::ID_REQUEST || id == PeerMessage::ID_CANCEL {
        match (number_in(payload, 0), number_in(payload, 4), number_in(payload, 8)) {
            (Err(e), _, _) => Err(e),
            (_, Err(e), _) => Err(e),
            (_, _, Err(e)) => Err(e),
            (Ok(index), Ok(begin), Ok(length)) => if id == PeerMessage::ID_REQUEST {
                Ok(MessageModel::Request { index, begin, length })
            } else {
                Ok(MessageModel::Cancel { index, begin, length })
            },
        }
    } else if id == PeerMessage::ID_PIECE {
        match (number_in(payload, 0), number_in(payload, 4)) {
            (Err(e), _) => Err(e),
            (_, Err(e)) => Err(e),
            (Ok(index), Ok(begin)) => Ok(
                MessageModel::Piece { index, begin, block: payload.skip(8) },
            ),
        }
    } else {
        Err(PeerError::UnknownMessageId(id))
    }
}

/// The message that `buf` starts with and how many bytes it takes up.
pub open spec fn message_at(buf: Seq<u8>) -> Result<(MessageModel, int), PeerError> {
    if buf.len() < 4 {
        Err(PeerError::UnexpectedEof)
    } else {
        let total = 4 + be_number(buf, 0);
        if total == 4 {
            Ok((MessageModel::KeepAlive, 4))
        } else if buf.len() < total {
            Err(
                PeerError::TruncatedPayload {
                    expected: if total <= usize::MAX {
                        total as usize
                    } else {
                        usize::MAX
                    },
                    got: buf.len() as usize,
                },
            )
        } else {
            match message_of(buf[4], buf.subrange(5, total)) {
                Ok(m) => Ok((m, total)),
                Err(e) => Err(e),
            }
        }
    }
}

impl PeerMessage {
    pub const ID_CHOKE: u8 = 0;

    pub const ID_UNCHOKE: u8 = 1;

    pub const ID_INTERESTED: u8 = 2;

    pub const ID_NOT_INTERESTED: u8 = 3;

    pub const ID_HAVE: u8 = 4;

    pub const ID_BITFIELD: u8 = 5;

    pub const ID_REQUEST: u8 = 6;

    pub const ID_PIECE: u8 = 7;

    pub const ID_CANCEL: u8 = 8;

    /// Whether the length of the message fits in its prefix.
    pub fn is_framable(&self) -> (r: bool)
        ensures
            r == self@.fits(),
    {
        match self {
            PeerMessage::Bitfield(bits) => (bits.len() as u64) < 0xffff_ffff,
            PeerMessage::Piece { block, .. } => (block.len() as u64) < 0xffff_ffff - 8,
            _ => true,
        }
    }

    /// The bytes of the message: its length, then, but for a keep-alive, the
    /// identifying byte and the payload.
    pub fn serialize(&self) -> (r: Vec<u8>)
        requires
            self@.fits(),
        ensures
            r@ == message_bytes(self@),
    {
        let mut out: Vec<u8> = Vec::new();
        match self {
            PeerMessage::KeepAlive => push_be(&mut out, 0),
            PeerMessage::Choke => write_framed(&mut out, Self::ID_CHOKE, &[]),
            PeerMessage::Unchoke => write_framed(&mut out, Self::ID_UNCHOKE, &[]),
            PeerMessage::Interested => write_framed(&mut out, Self::ID_INTERESTED, &[]),
            PeerMessage::NotInterested => write_framed(&mut out, Self::ID_NOT_INTERESTED, &[]),
            PeerMessage::Have { piece_index } => {
                let mut payload: Vec<u8> = Vec::new();
                push_be(&mut payload, *piece_index);
                assert(payload@ == self@.payload());
                write_framed(&mut out, Self::ID_HAVE, &payload);
            },
            PeerMessage::Bitfield(bits) => write_framed(&mut out, Self::ID_BITFIELD, bits),
            PeerMessage::Request { index, begin, length } => {
                let mut payload: Vec<u8> = Vec::with_capacity(12);
                push_be(&mut payload, *index);
                push_be(&mut payload, *begin);
                push_be(&mut payload, *length);
                assert(payload@ == self@.payload());
                write_framed(&mut out, Self::ID_REQUEST, &payload);
            },
            PeerMessage::Piece { index, begin, block } => {
                let mut payload: Vec<u8> = Vec::new();
                push_be(&mut payload, *index);
                push_be(&mut payload, *begin);
                push_all(&mut payload, block);
                assert(payload@ == self@.payload());
                write_framed(&mut out, Self::ID_PIECE, &payload);
            },
            PeerMessage::Cancel { index, begin, length } => {
                let mut payload: Vec<u8> = Vec::with_capacity(12);
                push_be(&mut payload, *index);
                push_be(&mut payload, *begin);
                push_be(&mut payload, *length);
                assert(payload@ == self@.payload());
                write_framed(&mut out, Self::ID_CANCEL, &payload);
            },
        }
        assert(out@ =~= message_bytes(self@));
        out
    }

    /// Reads the message that `buf` starts with and says how many bytes it
    /// takes up, so that the next message can be read behind it. A frame that
    /// is not all there is an error, whose `expected` is the length of the
    /// whole frame, or the largest `usize` where the length is larger still.
    pub fn parse(buf: &[u8]) -> (r: Result<(PeerMessage, usize), PeerError>)
        ensures
            match message_at(buf@) {
                Ok((m, consumed)) => r matches Ok(got) && got.0@ == m && got.1 == consumed,
                Err(e) => r matches Err(error) && error == e,
            },
    {
        if buf.len() < 4 {
            return Err(PeerError::UnexpectedEof);
        }
        let length: usize = read_be(buf, 0) as usize;
        if length == 0 {
            return Ok((PeerMessage::KeepAlive, 4));
        }
        if buf.len() - 4 < length {
            let expected: usize = length.saturating_add(4);
            return Err(PeerError::TruncatedPayload { expected, got: buf.len() });
        }
        let total_len: usize = 4 + length;
        let id: u8 = buf[4];
        let payload = &buf[5..total_len];
        match Self::from_frame(id, payload) {
            Ok(message) => Ok((message, total_len)),
            Err(e) => Err(e),
        }
    }

    /// The message that an identifying byte and a payload make.
    fn from_frame(id: u8, payload: &[u8]) -> (r: Result<PeerMessage, PeerError>)
        ensures
            match message_of(id, payload@) {
                Ok(m) => r matches Ok(got) && got@ == m,
                Err(e) => r matches Err(error) && error == e,
            },
    {
        if id == Self::ID_CHOKE {
            Ok(PeerMessage::Choke)
        } else if id == Self::ID_UNCHOKE {
            Ok(PeerMessage::Unchoke)
        } else if id == Self::ID_INTERESTED {
            Ok(PeerMessage::Interested)
        } else if id == Self::ID_NOT_INTERESTED {
            Ok(PeerMessage::NotInterested)
        } else if id == Self::ID_HAVE {
            let piece_index: u32 = read_u32(payload, 0)?;
            Ok(PeerMessage::Have { piece_index })
        } else if id == Self::ID_BITFIELD {
            Ok(PeerMessage::Bitfield(slice_to_vec(payload)))
        } else if id == Self::ID_REQUEST {
            let index: u32 = read_u32(payload, 0)?;
            let begin: u32 = read_u32(payload, 4)?;
            let length: u32 = read_u32(payload, 8)?;
            Ok(PeerMessage::Request { index, begin, length })
        } else if id == Self::ID_PIECE {
            let index: u32 = read_u32(payload, 0)?;
            let begin: u32 = read_u32(payload, 4)?;
            let block: Vec<u8> = slice_to_vec(&payload[8..payload.len()]);
            assert(block@ =~= payload@.skip(8));
            Ok(PeerMessage::Piece { index, begin, block })
        } else if id == Self::ID_CANCEL {
            let index: u32 = read_u32(payload, 0)?;
            let begin: u32 = read_u32(payload, 4)?;
            let length: u32 = read_u32(payload, 8)?;
            Ok(PeerMessage::Cancel { index, begin, length })
        } else {
            Err(PeerError::UnknownMessageId(id))
        }
    }
}

/// Appends a frame to `out`: the length of what follows, the identifying byte
/// and the payload.
fn write_framed(out: &mut Vec<u8>, id: u8, payload: &[u8])
    requires
        payload@.len() < u32::MAX,
    ensures
        final(out)@ == old(out)@ + framed(id, payload@),
{
    push_be(out, 1 + payload.len() as u32);
    out.push(id);
    push_all(out, payload);
    assert(out@ =~= old(out)@ + framed(id, payload@));
}

/// Reads the number at `offset` of a payload; a payload that is too short is an
/// error.
fn read_u32(payload: &[u8], offset: usize) -> (r: Result<u32, PeerError>)
    requires
        offset + 4 <= usize::MAX,
    ensures
        r == number_in(payload@, offset as int),
{
    if payload.len() < offset + 4 {
        return Err(PeerError::TruncatedPayload { expected: offset + 4, got: payload.len() });
    }
    Ok(read_be(payload, offset))
}

} // verus!
