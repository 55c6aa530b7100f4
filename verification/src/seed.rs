//! The seeding side of a connection: what to answer to a handshake, which part
//! of the file to read for a request, and what to send back. Whoever owns the
//! connection and the file sends, receives and reads.

use crate::digest::same_digest;
use crate::network::{io_error_message, shows_io_error, HandshakeIoError, MessageIoError};
use crate::peer::{Handshake, MessageModel, PeerMessage};
use vstd::prelude::*;

verus! {

/// `std::path::PathBuf`: where a file is. Nothing is said of what is inside.
#[verifier::external_type_specification]
#[verifier::external_body]
pub struct ExPathBuf(std::path::PathBuf);

/// Why a seeding session failed.
#[derive(Debug)]
pub enum SeedError {
    Io(std::io::Error),
    InfoHashMismatch,
    HandshakeFailed,
}

impl SeedError {
    /// The error as a message for a user.
    pub fn message(&self) -> (r: String)
        ensures
            match *self {
                SeedError::Io(e) => shows_io_error(r@, "I/O error: "@, e),
                SeedError::InfoHashMismatch => r@
                    == "peer requested a torrent we're not seeding (info_hash mismatch)"@,
                SeedError::HandshakeFailed => r@ == "handshake failed"@,
            },
    {
        match self {
            SeedError::Io(e) => io_error_message("I/O error: ", e),
            SeedError::InfoHashMismatch => {
                "peer requested a torrent we're not seeding (info_hash mismatch)".to_string()
            },
            SeedError::HandshakeFailed => "handshake failed".to_string(),
        }
    }
}

/// What a seeder knows of the torrent that it serves.
pub struct SeedConfig {
    pub file_path: std::path::PathBuf,
    pub piece_length: u32,
    pub num_pieces: u32,
    pub info_hash: [u8; 20],
}

/// Whether bit `k` of a byte is set, the least significant bit being bit 0.
pub open spec fn bit(b: u8, k: u8) -> bool {
    (b >> k) & 1 == 1
}

/// Whether a bitfield announces piece `i`: one bit for each piece, the most
/// significant bit of a byte first.
pub open spec fn announces(bitfield: Seq<u8>, i: int) -> bool {
    bit(bitfield[i / 8], (7 - i % 8) as u8)
}

/// Whether a bitfield has a bit for each of `num_pieces` pieces and announces
/// those and no others.
pub open spec fn is_full_bitfield(bitfield: Seq<u8>, num_pieces: u32) -> bool {
    &&& bitfield.len() == (num_pieces + 7) / 8
    &&& forall|i: int|
        0 <= i < 8 * bitfield.len() ==> (#[trigger] announces(bitfield, i) <==> i < num_pieces)
}

/// Setting a bit sets that bit and no other.
proof fn lemma_set_bit(b: u8, k: u8, j: u8)
    by (bit_vector)
    requires
        k < 8,
        j < 8,
    ensures
        ((b | (1u8 << k)) >> j) & 1 == 1 <==> (j == k || (b >> j) & 1 == 1),
{
}

/// No bit of zero is set.
proof fn lemma_no_bit(j: u8)
    by (bit_vector)
    requires
        j < 8,
    ensures
        (0u8 >> j) & 1 != 1,
{
}

/// A bitfield that announces every piece. The bits behind the last piece are
/// zero.
pub fn build_full_bitfield(num_pieces: u32) -> (r: Vec<u8>)
    ensures
        is_full_bitfield(r@, num_pieces),
{
    let mut num_bytes: usize = (num_pieces / 8) as usize;
    if num_pieces % 8 != 0 {
        num_bytes += 1;
    }
    let mut bitfield: Vec<u8> = vec![0u8; num_bytes];
    assert forall|i: int| 0 <= i < 8 * num_bytes implies !#[trigger] announces(bitfield@, i) by {
        lemma_no_bit((7 - i % 8) as u8);
    }
    let mut piece_index: u32 = 0;
    while piece_index < num_pieces
        invariant
            piece_index <= num_pieces,
            bitfield@.len() == num_bytes,
            num_bytes == (num_pieces + 7) / 8,
            forall|i: int|
                0 <= i < 8 * num_bytes ==> (#[trigger] announces(bitfield@, i) <==> i
                    < piece_index),
        decreases num_pieces - piece_index,
    {
        let byte_index: usize = (piece_index / 8) as usize;
        let bit_offset: u8 = 7 - (piece_index % 8) as u8;
        let ghost before = bitfield@;
        let byte: u8 = bitfield[byte_index];
        bitfield.set(byte_index, byte | (1u8 << bit_offset));
        assert forall|i: int| 0 <= i < 8 * num_bytes implies (#[trigger] announces(bitfield@, i)
            <==> i < piece_index + 1) by {
            assert(announces(before, i) <==> i < piece_index);
            if i / 8 == byte_index {
                lemma_set_bit(byte, bit_offset, (7 - i % 8) as u8);
            }
        }
        piece_index += 1;
    }
    bitfield
}

/// Answers a handshake: with our own and a bitfield that announces every piece,
/// if the peer asks for the torrent that we serve.
pub fn answer_handshake(
    received: Result<Handshake, HandshakeIoError>,
    our_peer_id: [u8; 20],
    config: &SeedConfig,
) -> (r: Result<(Handshake, PeerMessage), SeedError>)
    ensures
        match received {
            Err(_) => r matches Err(e) && e is HandshakeFailed,
            Ok(theirs) => if theirs.info_hash != config.info_hash {
                r matches Err(e) && e is InfoHashMismatch
            } else {
                &&& r matches Ok(answer)
                &&& answer.0.info_hash == config.info_hash
                &&& answer.0.peer_id == our_peer_id
                &&& answer.1@ matches MessageModel::Bitfield(bits)
                &&& is_full_bitfield(bits, config.num_pieces)
            },
        },
{
    let theirs: Handshake = match received {
        Ok(handshake) => handshake,
        Err(_) => {
            return Err(SeedError::HandshakeFailed);
        },
    };
    if !same_digest(&theirs.info_hash, &config.info_hash) {
        return Err(SeedError::InfoHashMismatch);
    }
    let ours = Handshake::new(config.info_hash, our_peer_id);
    let bitfield: Vec<u8> = build_full_bitfield(config.num_pieces);
    Ok((ours, PeerMessage::Bitfield(bitfield)))
}

/// Where in the file the byte at `begin` of piece `index` stands.
pub open spec fn block_offset(index: u32, piece_length: u32, begin: u32) -> int {
    index * piece_length + begin
}

/// Where in the file to read for the byte at `begin` of piece `index`.
pub fn file_offset(index: u32, piece_length: u32, begin: u32) -> (r: u64)
    ensures
        r == block_offset(index, piece_length, begin),
        r == index * piece_length + begin,
{
    assert(index * piece_length + begin <= u64::MAX) by (nonlinear_arith)
        requires
            0 <= index <= u32::MAX,
            0 <= piece_length <= u32::MAX,
            0 <= begin <= u32::MAX,
    ;
    assert(0 <= index * piece_length) by (nonlinear_arith)
        requires
            0 <= index,
            0 <= piece_length,
    ;
    index as u64 * piece_length as u64 + begin as u64
}

/// What a seeder does next.
pub enum SeedAction {
    /// Nothing: wait for the next message.
    Wait,
    /// Send this message.
    Send(PeerMessage),
    /// Read `length` bytes of the file from `offset` on, for the block at
    /// `begin` of piece `index`.
    Read { index: u32, begin: u32, offset: u64, length: u32 },
    /// Close the connection: the peer is gone, or nothing more can be made of
    /// what it sends.
    Close,
}

/// What a seeder keeps of a connection on which handshakes have been exchanged.
pub struct SeedSession {
    pub peer_is_interested: bool,
}

impl SeedSession {
    /// A peer has not said that it is interested at first.
    pub fn new() -> (r: SeedSession)
        ensures
            !r.peer_is_interested,
    {
        SeedSession { peer_is_interested: false }
    }

    /// Takes in what came of receiving a message and says what to do. Requests
    /// are served whether or not the peer has said that it is interested.
    pub fn on_received(
        &mut self,
        received: Result<PeerMessage, MessageIoError>,
        config: &SeedConfig,
    ) -> (r: SeedAction)
        ensures
            final(self).peer_is_interested == (match received {
                Ok(message) => message@ is Interested || (old(self).peer_is_interested
                    && !(message@ is NotInterested)),
                Err(_) => old(self).peer_is_interested,
            }),
            match received {
                Err(_) => r is Close,
                Ok(message) => match message@ {
                    MessageModel::Interested => r matches SeedAction::Send(m) && m@
                        == MessageModel::Unchoke,
                    MessageModel::Request { index, begin, length } => r == (SeedAction::Read {
                        index,
                        begin,
                        offset: block_offset(index, config.piece_length, begin) as u64,
                        length,
                    }),
                    _ => r is Wait,
                },
            },
            r matches SeedAction::Read { index, begin, offset, .. } ==> offset == index
                * config.piece_length + begin,
    {
        let message: PeerMessage = match received {
            Ok(message) => message,
            Err(_) => {
                return SeedAction::Close;
            },
        };
        match message {
            PeerMessage::Interested => {
                self.peer_is_interested = true;
                SeedAction::Send(PeerMessage::Unchoke)
            },
            PeerMessage::NotInterested => {
                self.peer_is_interested = false;
                SeedAction::Wait
            },
            PeerMessage::Request { index, begin, length } => {
                let offset: u64 = file_offset(index, config.piece_length, begin);
                SeedAction::Read { index, begin, offset, length }
            },
            _ => SeedAction::Wait,
        }
    }
}

/// What to send for a block that was read, or why the session ends.
pub fn block_answer(index: u32, begin: u32, read: Result<Vec<u8>, std::io::Error>) -> (r: Result<
    PeerMessage,
    SeedError,
>)
    ensures
        match read {
            Ok(block) => r matches Ok(m) && m@ == (MessageModel::Piece {
                index,
                begin,
                block: block@,
            }),
            Err(e) => r == Err::<PeerMessage, SeedError>(SeedError::Io(e)),
        },
{
    match read {
        Ok(block) => Ok(PeerMessage::Piece { index, begin, block }),
        Err(e) => Err(SeedError::Io(e)),
    }
}

} // verus!
