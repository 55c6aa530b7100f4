//! The leeching side of a connection: which messages to send, what to make of
//! the ones that come back, and when a piece is complete and can be trusted.
//! Whoever owns the connection sends and receives.

use crate::digest::{same_digest, sha1_digest, sha1_of};
use crate::network::{io_error_message, shows_io_error, MessageIoError};
use crate::peer::{MessageModel, PeerMessage};
use vstd::prelude::*;
use vstd::string::StringExecFns;

verus! {

/// The usual size of a block: pieces are asked for in parts of 16 KiB.
pub const BLOCK_SIZE: u32 = 16 * 1024;

/// Why a download failed.
#[derive(Debug)]
pub enum DownloadError {
    Io(std::io::Error),
    UnexpectedMessage(&'static str),
    HashMismatch,
    ConnectionClosed,
}

impl DownloadError {
    /// The error as a message for a user.
    pub fn message(&self) -> (r: String)
        ensures
            match *self {
                DownloadError::Io(e) => shows_io_error(r@, "I/O error: "@, e),
                DownloadError::UnexpectedMessage(context) => r@ == "unexpected message: "@
                    + context@,
                DownloadError::HashMismatch => r@ == "downloaded piece failed hash verification"@,
                DownloadError::ConnectionClosed => r@ == "peer closed the connection"@,
            },
    {
        match self {
            DownloadError::Io(e) => io_error_message("I/O error: ", e),
            DownloadError::UnexpectedMessage(context) => {
                let mut out = "unexpected message: ".to_string();
                out.append(context);
                out
            },
            DownloadError::HashMismatch => {
                "downloaded piece failed hash verification".to_string()
            },
            DownloadError::ConnectionClosed => "peer closed the connection".to_string(),
        }
    }
}

/// How many blocks a piece of `piece_length` bytes has.
pub open spec fn block_count(piece_length: u32) -> nat {
    ((piece_length + BLOCK_SIZE - 1) / BLOCK_SIZE as int) as nat
}

/// The length of block `i`: all blocks are full but for the last, which takes
/// what is left.
pub open spec fn block_length(piece_length: u32, i: int) -> int {
    if piece_length - i * BLOCK_SIZE < BLOCK_SIZE {
        piece_length - i * BLOCK_SIZE
    } else {
        BLOCK_SIZE as int
    }
}

/// Where the blocks of a piece begin and how long they are.
pub open spec fn blocks_of(piece_length: u32) -> Seq<(u32, u32)> {
    Seq::new(
        block_count(piece_length),
        |i: int| ((i * BLOCK_SIZE) as u32, block_length(piece_length, i) as u32),
    )
}

/// Multiplying by the size of a block is multiplying by a number.
pub(crate) proof fn lemma_times_block_size(x: int)
    ensures
        BLOCK_SIZE == 0x4000,
        x * BLOCK_SIZE == x * 0x4000,
{
    assert(BLOCK_SIZE == 0x4000);
}

/// The blocks of a piece cover it, and the last of them is needed for that.
pub(crate) proof fn lemma_block_count(piece_length: u32)
    ensures
        piece_length <= block_count(piece_length) * BLOCK_SIZE < piece_length + BLOCK_SIZE,
{
    let n = piece_length + BLOCK_SIZE - 1;
    vstd::arithmetic::div_mod::lemma_fundamental_div_mod(n, BLOCK_SIZE as int);
}

/// Splits a piece into blocks, each as where it begins and its length. The last
/// block may be shorter than [`BLOCK_SIZE`].
pub fn split_into_blocks(piece_length: u32) -> (r: Vec<(u32, u32)>)
    ensures
        r@ == blocks_of(piece_length),
{
    let mut blocks: Vec<(u32, u32)> = Vec::new();
    let mut begin: u32 = 0;
    proof {
        lemma_block_count(piece_length);
    }
    while begin < piece_length
        invariant
            piece_length <= block_count(piece_length) * BLOCK_SIZE < piece_length + BLOCK_SIZE,
            begin <= piece_length,
            begin < piece_length ==> begin == blocks@.len() * BLOCK_SIZE,
            begin == piece_length ==> blocks@.len() == block_count(piece_length),
            blocks@.len() <= block_count(piece_length),
            forall|i: int|
                0 <= i < blocks@.len() ==> #[trigger] blocks@[i] == blocks_of(piece_length)[i],
        decreases piece_length - begin,
    {
        let left: u32 = piece_length - begin;
        let length: u32 = if left < BLOCK_SIZE {
            left
        } else {
            BLOCK_SIZE
        };
        let ghost k: int = blocks@.len() as int;
        proof {
            lemma_times_block_size(k);
            lemma_times_block_size(k + 1);
            lemma_times_block_size(block_count(piece_length) as int);
        }
        assert((begin, length) == blocks_of(piece_length)[blocks@.len() as int]);
        blocks.push((begin, length));
        begin += length;
    }
    assert(blocks@ =~= blocks_of(piece_length));
    blocks
}

/// What a failure to receive a message means for a download.
pub open spec fn failure(e: MessageIoError, waiting: bool) -> DownloadError {
    match e {
        MessageIoError::Io(e) => DownloadError::Io(e),
        MessageIoError::Protocol(_) => DownloadError::UnexpectedMessage(
            if waiting {
                "malformed message while waiting for unchoke"
            } else {
                "malformed message while downloading blocks"
            },
        ),
    }
}

/// What a failure to receive a message means for a download.
fn failed(e: MessageIoError, waiting: bool) -> (r: DownloadError)
    ensures
        r == failure(e, waiting),
{
    match e {
        MessageIoError::Io(e) => DownloadError::Io(e),
        MessageIoError::Protocol(_) => DownloadError::UnexpectedMessage(
            if waiting {
                "malformed message while waiting for unchoke"
            } else {
                "malformed message while downloading blocks"
            },
        ),
    }
}

/// The bytes of a piece where its digest is the expected one.
pub open spec fn accepted(data: Seq<u8>, actual: [u8; 20], expected: [u8; 20]) -> Result<
    Seq<u8>,
    DownloadError,
> {
    if actual == expected {
        Ok(data)
    } else {
        Err(DownloadError::HashMismatch)
    }
}

/// Lets the bytes of a piece through where their digest, `actual`, is the
/// expected one.
pub fn accept_piece(data: Vec<u8>, actual: [u8; 20], expected: [u8; 20]) -> (r: Result<
    Vec<u8>,
    DownloadError,
>)
    ensures
        match accepted(data@, actual, expected) {
            Ok(bytes) => r matches Ok(v) && v@ == bytes,
            Err(e) => r matches Err(error) && error == e,
        },
{
    if same_digest(&actual, &expected) {
        Ok(data)
    } else {
        Err(DownloadError::HashMismatch)
    }
}

/// A piece of which blocks are still coming in. Bytes that are not there yet
/// are zero.
pub struct PieceModel {
    pub index: u32,
    pub length: u32,
    pub expected: [u8; 20],
    pub buf: Seq<u8>,
    pub received: nat,
}

impl PieceModel {
    /// A piece of which nothing has been received.
    pub open spec fn started(assignment: (u32, u32, [u8; 20])) -> PieceModel {
        PieceModel {
            index: assignment.0,
            length: assignment.1,
            expected: assignment.2,
            buf: Seq::new(assignment.1 as nat, |i: int| 0u8),
            received: 0,
        }
    }

    /// Whether as many bytes were received as the piece has.
    pub open spec fn complete(self) -> bool {
        self.received >= self.length
    }

    /// The requests for the blocks of the piece.
    pub open spec fn requests(self) -> Seq<MessageModel> {
        blocks_of(self.length).map_values(
            |b: (u32, u32)|
                MessageModel::Request { index: self.index, begin: b.0, length: b.1 },
        )
    }

    /// The piece after a message: a block of this piece goes where it belongs,
    /// and anything else is ignored.
    pub open spec fn after(self, m: MessageModel) -> Result<PieceModel, DownloadError> {
        match m {
            MessageModel::Piece { index, begin, block } => if index != self.index {
                Ok(self)
            } else if begin + block.len() > self.buf.len() {
                Err(DownloadError::UnexpectedMessage("block extends past piece boundary"))
            } else {
                Ok(
                    PieceModel {
                        buf: overwritten(self.buf, begin as int, block),
                        received: self.received + block.len(),
                        ..self
                    },
                )
            },
            _ => Ok(self),
        }
    }
}

/// `s` with the elements from `at` on replaced by those of `part`.
pub open spec fn overwritten(s: Seq<u8>, at: int, part: Seq<u8>) -> Seq<u8> {
    s.take(at) + part + s.skip(at + part.len())
}

/// The messages that a list of messages stands for.
pub open spec fn views(messages: Seq<PeerMessage>) -> Seq<MessageModel> {
    messages.map_values(|m: PeerMessage| m@)
}

/// A piece of which blocks are still coming in.
pub struct PieceDownload {
    index: u32,
    length: u32,
    expected: [u8; 20],
    buf: Vec<u8>,
    received: u64,
}

impl View for PieceDownload {
    type V = PieceModel;

    closed spec fn view(&self) -> PieceModel {
        PieceModel {
            index: self.index,
            length: self.length,
            expected: self.expected,
            buf: self.buf@,
            received: self.received as nat,
        }
    }
}

impl PieceDownload {
    /// A piece has room for all of its bytes, and the block that completes it
    /// is the last one that it takes.
    #[verifier::type_invariant]
    spec fn wf(self) -> bool {
        &&& self.buf@.len() == self.length
        &&& self.received <= 2 * self.length
    }

    /// Starts to download a piece.
    pub fn new(index: u32, length: u32, expected: [u8; 20]) -> (r: PieceDownload)
        ensures
            r@ == PieceModel::started((index, length, expected)),
    {
        let buf: Vec<u8> = vec![0u8; length as usize];
        assert(buf@ =~= Seq::new(length as nat, |i: int| 0u8));
        PieceDownload { index, length, expected, buf, received: 0 }
    }

    /// The requests for the blocks of the piece, to be sent once.
    pub fn requests(&self) -> (r: Vec<PeerMessage>)
        ensures
            views(r@) == self@.requests(),
    {
        let blocks: Vec<(u32, u32)> = split_into_blocks(self.length);
        let mut out: Vec<PeerMessage> = Vec::new();
        let mut i: usize = 0;
        while i < blocks.len()
            invariant
                i <= blocks@.len(),
                i == out@.len(),
                blocks@ == blocks_of(self.length),
                forall|j: int| 0 <= j < i ==> (#[trigger] out@[j])@ == self@.requests()[j],
            decreases blocks@.len() - i,
        {
            let (begin, length) = blocks[i];
            out.push(PeerMessage::Request { index: self.index, begin, length });
            i += 1;
        }
        assert(views(out@) =~= self@.requests());
        out
    }

    /// Whether as many bytes were received as the piece has.
    pub fn is_complete(&self) -> (r: bool)
        ensures
            r == self@.complete(),
    {
        self.received >= self.length as u64
    }

    /// Takes in a message. Blocks may come in any order; each goes where it
    /// belongs. A block that does not fit in the piece is an error.
    pub fn on_message(self, message: PeerMessage) -> (r: Result<PieceDownload, DownloadError>)
        requires
            !self@.complete(),
        ensures
            match self@.after(message@) {
                Ok(p) => r matches Ok(next) && next@ == p,
                Err(e) => r matches Err(error) && error == e,
            },
    {
        proof {
            use_type_invariant(&self);
        }
        match message {
            PeerMessage::Piece { index, begin, block } => {
                if index != self.index {
                    return Ok(self);
                }
                let start: usize = begin as usize;
                if start > self.buf.len() || block.len() > self.buf.len() - start {
                    return Err(
                        DownloadError::UnexpectedMessage("block extends past piece boundary"),
                    );
                }
                let mut buf: Vec<u8> = self.buf;
                overwrite(&mut buf, start, &block);
                let received: u64 = self.received + block.len() as u64;
                Ok(
                    PieceDownload {
                        index: self.index,
                        length: self.length,
                        expected: self.expected,
                        buf,
                        received,
                    },
                )
            },
            _ => Ok(self),
        }
    }

    /// The bytes of the piece, where their SHA-1 digest is the expected one.
    pub fn finish(self) -> (r: Result<Vec<u8>, DownloadError>)
        ensures
            match accepted(self@.buf, sha1_of(self@.buf), self@.expected) {
                Ok(bytes) => r matches Ok(v) && v@ == bytes,
                Err(e) => r matches Err(error) && error == e,
            },
            r matches Ok(v) ==> v@.len() == self@.length,
    {
        proof {
            use_type_invariant(&self);
        }
        let actual: [u8; 20] = sha1_digest(&self.buf);
        accept_piece(self.buf, actual, self.expected)
    }
}

/// Replaces the elements of `buf` from `at` on by those of `part`.
fn overwrite(buf: &mut Vec<u8>, at: usize, part: &[u8])
    requires
        at + part@.len() <= old(buf)@.len(),
    ensures
        final(buf)@ == overwritten(old(buf)@, at as int, part@),
{
    let mut i: usize = 0;
    while i < part.len()
        invariant
            i <= part@.len(),
            at + part@.len() <= old(buf)@.len(),
            buf@ =~= overwritten(old(buf)@, at as int, part@.take(i as int)),
        decreases part@.len() - i,
    {
        assert(at + i < buf.len());
        buf.set(at + i, part[i]);
        i += 1;
    }
    assert(part@.take(i as int) =~= part@);
}

/// The download of several pieces over one connection. The pieces are
/// downloaded one by one, in the order in which they were assigned.
pub struct SessionModel {
    /// The pieces to download: index, length and expected digest.
    pub assignments: Seq<(u32, u32, [u8; 20])>,
    /// Whether the peer lets us download.
    pub unchoked: bool,
    /// The pieces that are complete and verified.
    pub results: Seq<(u32, Seq<u8>)>,
    /// The piece that is being downloaded.
    pub current: Option<PieceModel>,
}

impl SessionModel {
    /// A session in which nothing has been received.
    pub open spec fn started(assignments: Seq<(u32, u32, [u8; 20])>) -> SessionModel {
        SessionModel { assignments, unchoked: false, results: Seq::empty(), current: None }
    }

    /// Whether all pieces are complete and verified.
    pub open spec fn done(self) -> bool {
        self.unchoked && self.current is None && self.results.len() >= self.assignments.len()
    }

    /// The session after it has turned to the next piece that has any bytes,
    /// and the requests for that piece. A piece without bytes needs none and
    /// is verified at once.
    pub open spec fn advanced(self) -> Result<(SessionModel, Seq<MessageModel>), DownloadError>
        decreases self.assignments.len() - self.results.len(),
    {
        if self.results.len() >= self.assignments.len() {
            Ok((SessionModel { current: None, ..self }, Seq::empty()))
        } else {
            let piece = PieceModel::started(self.assignments[self.results.len() as int]);
            if piece.complete() {
                match self.with_result(piece) {
                    Ok(next) => next.advanced(),
                    Err(e) => Err(e),
                }
            } else {
                Ok((SessionModel { current: Some(piece), ..self }, piece.requests()))
            }
        }
    }

    /// The session with a complete piece among its results, if the piece has
    /// the expected digest.
    pub open spec fn with_result(self, piece: PieceModel) -> Result<SessionModel, DownloadError> {
        match accepted(piece.buf, sha1_of(piece.buf), piece.expected) {
            Ok(data) => Ok(
                SessionModel {
                    results: self.results.push((piece.index, data)),
                    current: None,
                    ..self
                },
            ),
            Err(e) => Err(e),
        }
    }

    /// The session after a message, and what to send in return.
    pub open spec fn after(self, m: MessageModel) -> Result<
        (SessionModel, Seq<MessageModel>),
        DownloadError,
    > {
        if !self.unchoked {
            if m is Unchoke {
                SessionModel { unchoked: true, ..self }.advanced()
            } else {
                Ok((self, Seq::empty()))
            }
        } else {
            match self.current {
                None => Ok((self, Seq::empty())),
                Some(piece) => match piece.after(m) {
                    Err(e) => Err(e),
                    Ok(next) => if next.complete() {
                        match self.with_result(next) {
                            Ok(session) => session.advanced(),
                            Err(e) => Err(e),
                        }
                    } else {
                        Ok((SessionModel { current: Some(next), ..self }, Seq::empty()))
                    },
                },
            }
        }
    }
}

/// The pieces that a list of downloaded pieces stands for.
pub open spec fn result_views(results: Seq<(u32, Vec<u8>)>) -> Seq<(u32, Seq<u8>)> {
    results.map_values(|r: (u32, Vec<u8>)| (r.0, r.1@))
}

/// The download of several pieces over one connection, with the interested and
/// unchoke messages exchanged once at the start.
pub struct DownloadSession {
    assignments: Vec<(u32, u32, [u8; 20])>,
    unchoked: bool,
    results: Vec<(u32, Vec<u8>)>,
    current: Option<PieceDownload>,
}

impl View for DownloadSession {
    type V = SessionModel;

    closed spec fn view(&self) -> SessionModel {
        SessionModel {
            assignments: self.assignments@,
            unchoked: self.unchoked,
            results: result_views(self.results@),
            current: match self.current {
                Some(piece) => Some(piece@),
                None => None,
            },
        }
    }
}

impl DownloadSession {
    /// A piece that is being downloaded is not complete.
    #[verifier::type_invariant]
    spec fn wf(self) -> bool {
        self.current matches Some(piece) ==> !piece@.complete()
    }

    /// Starts a session over a connection on which handshakes have been
    /// exchanged, and says what to send first: that we are interested.
    pub fn start(assignments: Vec<(u32, u32, [u8; 20])>) -> (r: (DownloadSession, PeerMessage))
        ensures
            r.0@ == SessionModel::started(assignments@),
            r.1@ == MessageModel::Interested,
    {
        let results: Vec<(u32, Vec<u8>)> = Vec::new();
        assert(result_views(results@) =~= Seq::empty());
        let session = DownloadSession { assignments, unchoked: false, results, current: None };
        (session, PeerMessage::Interested)
    }

    /// Whether all pieces are complete and verified.
    pub fn is_done(&self) -> (r: bool)
        ensures
            r == self@.done(),
    {
        self.unchoked && self.current.is_none() && self.results.len() >= self.assignments.len()
    }

    /// Takes in what came of receiving a message, and says what to send in
    /// return. The first failure ends the session.
    pub fn on_received(self, received: Result<PeerMessage, MessageIoError>) -> (r: Result<
        (DownloadSession, Vec<PeerMessage>),
        DownloadError,
    >)
        ensures
            match received {
                Err(e) => r == Err::<(DownloadSession, Vec<PeerMessage>), DownloadError>(
                    failure(e, !self@.unchoked),
                ),
                Ok(message) => match self@.after(message@) {
                    Ok((session, to_send)) => r matches Ok(next) && next.0@ == session && views(
                        next.1@,
                    ) == to_send,
                    Err(e) => r matches Err(error) && error == e,
                },
            },
    {
        proof {
            use_type_invariant(&self);
        }
        let message: PeerMessage = match received {
            Ok(message) => message,
            Err(e) => {
                return Err(failed(e, !self.unchoked));
            },
        };
        if !self.unchoked {
            if let PeerMessage::Unchoke = message {
                let DownloadSession { assignments, unchoked: _, results, current: _ } = self;
                return Self::advance(assignments, results);
            }
            return Ok((self, no_messages()));
        }
        let DownloadSession { assignments, unchoked, results, current } = self;
        match current {
            None => {
                let session = DownloadSession { assignments, unchoked, results, current: None };
                Ok((session, no_messages()))
            },
            Some(piece) => {
                let next: PieceDownload = piece.on_message(message)?;
                if next.is_complete() {
                    let results: Vec<(u32, Vec<u8>)> = Self::with_result(results, next)?;
                    Self::advance(assignments, results)
                } else {
                    let session = DownloadSession {
                        assignments,
                        unchoked,
                        results,
                        current: Some(next),
                    };
                    Ok((session, no_messages()))
                }
            },
        }
    }

    /// Adds a complete piece to the results, if it has the expected digest.
    fn with_result(results: Vec<(u32, Vec<u8>)>, piece: PieceDownload) -> (r: Result<
        Vec<(u32, Vec<u8>)>,
        DownloadError,
    >)
        ensures
            match accepted(piece@.buf, sha1_of(piece@.buf), piece@.expected) {
                Ok(data) => r matches Ok(v) && result_views(v@) == result_views(results@).push(
                    (piece@.index, data),
                ),
                Err(e) => r matches Err(error) && error == e,
            },
    {
        let index: u32 = piece.index;
        let data: Vec<u8> = piece.finish()?;
        let ghost bytes = data@;
        let mut all: Vec<(u32, Vec<u8>)> = results;
        all.push((index, data));
        assert(result_views(all@) =~= result_views(results@).push((index, bytes)));
        Ok(all)
    }

    /// Turns to the next piece that has any bytes.
    fn advance(
        assignments: Vec<(u32, u32, [u8; 20])>,
        completed: Vec<(u32, Vec<u8>)>,
    ) -> (r: Result<(DownloadSession, Vec<PeerMessage>), DownloadError>)
        ensures
            ({
                let session = SessionModel {
                    assignments: assignments@,
                    unchoked: true,
                    results: result_views(completed@),
                    current: None,
                };
                match session.advanced() {
                    Ok((next, to_send)) => r matches Ok(got) && got.0@ == next && views(got.1@)
                        == to_send,
                    Err(e) => r matches Err(error) && error == e,
                }
            }),
    {
        let ghost at_start = SessionModel {
            assignments: assignments@,
            unchoked: true,
            results: result_views(completed@),
            current: None,
        };
        let mut results: Vec<(u32, Vec<u8>)> = completed;
        while results.len() < assignments.len()
            invariant
                at_start == (SessionModel {
                    assignments: assignments@,
                    unchoked: true,
                    results: result_views(completed@),
                    current: None,
                }),
                at_start.advanced() == (SessionModel {
                    assignments: assignments@,
                    unchoked: true,
                    results: result_views(results@),
                    current: None,
                }).advanced(),
            decreases assignments@.len() - results@.len(),
        {
            let (index, length, expected) = assignments[results.len()];
            let piece: PieceDownload = PieceDownload::new(index, length, expected);
            if !piece.is_complete() {
                let requests: Vec<PeerMessage> = piece.requests();
                let session = DownloadSession {
                    assignments,
                    unchoked: true,
                    results,
                    current: Some(piece),
                };
                return Ok((session, requests));
            }
            let ghost before = result_views(results@).len();
            results = Self::with_result(results, piece)?;
            assert(result_views(results@).len() == before + 1);
        }
        let session = DownloadSession { assignments, unchoked: true, results, current: None };
        Ok((session, no_messages()))
    }

    /// The pieces that are complete and verified, as index and bytes.
    pub fn into_results(self) -> (r: Vec<(u32, Vec<u8>)>)
        ensures
            result_views(r@) == self@.results,
    {
        self.results
    }
}

/// Nothing to send.
fn no_messages() -> (r: Vec<PeerMessage>)
    ensures
        views(r@) == Seq::<MessageModel>::empty(),
{
    let none: Vec<PeerMessage> = Vec::new();
    assert(views(none@) =~= Seq::empty());
    none
}

/// Where in the output file piece `index` starts.
pub fn piece_offset(index: u32, piece_length: u32) -> (r: u64)
    ensures
        r == index * piece_length,
{
    assert(0 <= index * piece_length <= u64::MAX) by (nonlinear_arith)
        requires
            0 <= index <= u32::MAX,
            0 <= piece_length <= u32::MAX,
    ;
    index as u64 * piece_length as u64
}

} // verus!
