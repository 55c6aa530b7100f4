//! What holds of handshakes and messages as a whole: what is written can be
//! read back, also where more bytes follow, and what is cut short is rejected.

use crate::peer::{
    handshake_at, handshake_bytes, message_at, message_bytes, message_of, MessageModel, PeerError,
    PeerMessage, PROTOCOL_STRING,
};
use crate::text::decimal_text;
use crate::wire::{be_bytes, be_bytes_read_back, be_number};
use vstd::prelude::*;
use vstd::string::StringSliceAdditionalSpecFns;

verus! {

/// A handshake is 68 bytes long, and reading it gives its `info_hash` and peer
/// id back, whatever follows.
pub proof fn handshake_round_trips(info_hash: Seq<u8>, peer_id: Seq<u8>, rest: Seq<u8>)
    requires
        info_hash.len() == 20,
        peer_id.len() == 20,
    ensures
        handshake_bytes(info_hash, peer_id).len() == 68,
        handshake_at(handshake_bytes(info_hash, peer_id) + rest) == Ok::<
            (Seq<u8>, Seq<u8>),
            PeerError,
        >((info_hash, peer_id)),
{
    let buf = handshake_bytes(info_hash, peer_id) + rest;
    assert(buf.subrange(1, 20) =~= PROTOCOL_STRING@);
    assert(buf.subrange(28, 48) =~= info_hash);
    assert(buf.subrange(48, 68) =~= peer_id);
}

/// A handshake that is cut short is rejected.
pub proof fn truncated_handshake_is_rejected(buf: Seq<u8>, n: int)
    requires
        0 <= n <= buf.len(),
        n < 68,
    ensures
        handshake_at(buf.take(n)) == Err::<(Seq<u8>, Seq<u8>), PeerError>(
            PeerError::UnexpectedEof,
        ),
{
}

/// Any other byte in the part that names the protocol has the handshake
/// rejected.
pub proof fn wrong_protocol_is_rejected(info_hash: Seq<u8>, peer_id: Seq<u8>, i: int, b: u8)
    requires
        info_hash.len() == 20,
        peer_id.len() == 20,
        0 <= i < 20,
        b != handshake_bytes(info_hash, peer_id)[i],
    ensures
        handshake_at(handshake_bytes(info_hash, peer_id).update(i, b)) == Err::<
            (Seq<u8>, Seq<u8>),
            PeerError,
        >(PeerError::WrongProtocol),
{
    let buf = handshake_bytes(info_hash, peer_id).update(i, b);
    if i > 0 {
        assert(buf.subrange(1, 20)[i - 1] == b);
        assert(handshake_bytes(info_hash, peer_id)[i] == PROTOCOL_STRING@[i - 1]);
    }
}

/// The eight reserved bytes have no influence on what is read.
pub proof fn reserved_bytes_are_ignored(buf: Seq<u8>, reserved: Seq<u8>)
    requires
        buf.len() >= 68,
        reserved.len() == 8,
    ensures
        handshake_at(buf.take(20) + reserved + buf.skip(28)) == handshake_at(buf),
{
    let other = buf.take(20) + reserved + buf.skip(28);
    assert(other.subrange(1, 20) =~= buf.subrange(1, 20));
    assert(other.subrange(28, 48) =~= buf.subrange(28, 48));
    assert(other.subrange(48, 68) =~= buf.subrange(48, 68));
}

/// The numbers of a payload read back as they were written.
proof fn lemma_number_at(before: Seq<u8>, n: u32, after: Seq<u8>)
    ensures
        be_number(before + be_bytes(n) + after, before.len() as int) == n,
{
    let s = before + be_bytes(n) + after;
    let at = before.len() as int;
    be_bytes_read_back(n);
    assert(forall|i: int| 0 <= i < 4 ==> s[at + i] == #[trigger] be_bytes(n)[i]);
    assert(s[at] == be_bytes(n)[0]);
}

/// The identifying byte and the payload of a message make the message.
proof fn lemma_payload_reads_back(m: MessageModel)
    requires
        !(m is KeepAlive),
    ensures
        message_of(m.id(), m.payload()) == Ok::<MessageModel, PeerError>(m),
{
    match m {
        MessageModel::Have { piece_index } => {
            lemma_number_at(Seq::empty(), piece_index, Seq::empty());
            assert(Seq::empty() + be_bytes(piece_index) + Seq::empty() =~= m.payload());
        },
        MessageModel::Request { index, begin, length } => {
            lemma_three_numbers(index, begin, length);
        },
        MessageModel::Cancel { index, begin, length } => {
            lemma_three_numbers(index, begin, length);
        },
        MessageModel::Piece { index, begin, block } => {
            lemma_number_at(Seq::empty(), index, be_bytes(begin) + block);
            assert(Seq::empty() + be_bytes(index) + (be_bytes(begin) + block) =~= m.payload());
            lemma_number_at(be_bytes(index), begin, block);
            assert(m.payload().skip(8) =~= block);
        },
        _ => {},
    }
}

proof fn lemma_three_numbers(a: u32, b: u32, c: u32)
    ensures
        ({
            let s = be_bytes(a) + be_bytes(b) + be_bytes(c);
            be_number(s, 0) == a && be_number(s, 4) == b && be_number(s, 8) == c
        }),
{
    let s = be_bytes(a) + be_bytes(b) + be_bytes(c);
    lemma_number_at(Seq::empty(), a, be_bytes(b) + be_bytes(c));
    assert(Seq::empty() + be_bytes(a) + (be_bytes(b) + be_bytes(c)) =~= s);
    lemma_number_at(be_bytes(a), b, be_bytes(c));
    lemma_number_at(be_bytes(a) + be_bytes(b), c, Seq::empty());
    assert(be_bytes(a) + be_bytes(b) + be_bytes(c) + Seq::empty() =~= s);
}

/// A keep-alive is four bytes long, any other message five bytes longer than
/// its payload.
pub proof fn message_length(m: MessageModel)
    ensures
        message_bytes(m).len() == if m is KeepAlive {
            4
        } else {
            5 + m.payload().len()
        },
{
}

/// Reading a message that was written gives the message back and all of its
/// bytes as consumed, whatever follows.
pub proof fn message_round_trips(m: MessageModel, rest: Seq<u8>)
    requires
        m.fits(),
    ensures
        message_at(message_bytes(m) + rest) == Ok::<(MessageModel, int), PeerError>(
            (m, message_bytes(m).len() as int),
        ),
{
    let buf = message_bytes(m) + rest;
    if m is KeepAlive {
        lemma_number_at(Seq::empty(), 0, rest);
        assert(Seq::empty() + be_bytes(0) + rest =~= buf);
    } else {
        let length = 1 + m.payload().len();
        let after = seq![m.id()] + m.payload() + rest;
        lemma_number_at(Seq::empty(), length as u32, after);
        assert(Seq::empty() + be_bytes(length as u32) + after =~= buf);
        assert(buf.subrange(5, 4 + length as int) =~= m.payload());
        lemma_payload_reads_back(m);
    }
}

/// A message that is cut short is rejected: with less than its prefix as the
/// end of input, with more as a truncated payload, with the whole frame's
/// length as what was expected.
pub proof fn truncated_message_is_rejected(m: MessageModel, n: int)
    requires
        m.fits(),
        0 <= n < message_bytes(m).len() <= usize::MAX,
    ensures
        message_at(message_bytes(m).take(n)) == Err::<(MessageModel, int), PeerError>(
            if n < 4 {
                PeerError::UnexpectedEof
            } else {
                PeerError::TruncatedPayload {
                    expected: message_bytes(m).len() as usize,
                    got: n as usize,
                }
            },
        ),
{
    if n >= 4 {
        let buf = message_bytes(m).take(n);
        let length = 1 + m.payload().len();
        let after = buf.skip(4);
        lemma_number_at(Seq::empty(), length as u32, after);
        assert(Seq::empty() + be_bytes(length as u32) + after =~= buf);
    }
}

/// What is read takes up at least the prefix and at most what is there, and
/// the bytes behind it have no influence on it.
pub proof fn reading_stays_inside_the_frame(buf: Seq<u8>, rest: Seq<u8>)
    ensures
        message_at(buf) matches Ok((m, consumed)) ==> 4 <= consumed <= buf.len() && message_at(
            buf.take(consumed) + rest,
        ) == message_at(buf),
{
    if let Ok((m, consumed)) = message_at(buf) {
        let other = buf.take(consumed) + rest;
        assert(be_number(other, 0) == be_number(buf, 0));
        if consumed > 4 {
            assert(other.subrange(5, consumed) =~= buf.subrange(5, consumed));
        }
    }
}

/// Messages written one behind another.
pub open spec fn stream_bytes(messages: Seq<MessageModel>) -> Seq<u8>
    decreases messages.len(),
{
    if messages.len() == 0 {
        Seq::empty()
    } else {
        message_bytes(messages[0]) + stream_bytes(messages.skip(1))
    }
}

/// The messages that `buf` holds one behind another, or `None` where it holds
/// something else.
pub open spec fn stream_at(buf: Seq<u8>) -> Option<Seq<MessageModel>>
    decreases buf.len(),
{
    if buf.len() == 0 {
        Some(Seq::empty())
    } else {
        match message_at(buf) {
            Ok((m, consumed)) => if 0 < consumed <= buf.len() {
                match stream_at(buf.skip(consumed)) {
                    Some(others) => Some(seq![m] + others),
                    None => None,
                }
            } else {
                None
            },
            Err(_) => None,
        }
    }
}

/// Messages that were written one behind another are read back one behind
/// another, each from where the one before it ends.
pub proof fn streams_round_trip(messages: Seq<MessageModel>)
    requires
        forall|i: int| 0 <= i < messages.len() ==> (#[trigger] messages[i]).fits(),
    ensures
        stream_at(stream_bytes(messages)) == Some(messages),
    decreases messages.len(),
{
    if messages.len() > 0 {
        let first = message_bytes(messages[0]);
        let others = messages.skip(1);
        assert forall|i: int| 0 <= i < others.len() implies (#[trigger] others[i]).fits() by {
            assert(others[i] == messages[i + 1]);
        }
        streams_round_trip(others);
        message_round_trips(messages[0], stream_bytes(others));
        assert(stream_bytes(messages).skip(first.len() as int) =~= stream_bytes(others));
        assert(seq![messages[0]] + others =~= messages);
    }
}

/// Different messages have different bytes.
pub proof fn message_bytes_are_injective(a: MessageModel, b: MessageModel)
    requires
        a.fits(),
        b.fits(),
        message_bytes(a) == message_bytes(b),
    ensures
        a == b,
{
    message_round_trips(a, Seq::empty());
    message_round_trips(b, Seq::empty());
}

// ---------------------------------------------------------------------
// What goes over the wire, byte by byte
// ---------------------------------------------------------------------

/// The number whose four bytes stand in `s` from `at` on, most significant first.
pub open spec fn number(s: Seq<u8>, at: int) -> int {
    s[at] * 0x100_0000 + s[at + 1] * 0x1_0000 + s[at + 2] * 0x100 + s[at + 3]
}

/// The bytes of a handshake, one by one: 19, the name of the protocol, eight
/// zeros, the `info_hash` and the peer id.
pub proof fn handshake_layout(info_hash: Seq<u8>, peer_id: Seq<u8>)
    requires
        info_hash.len() == 20,
        peer_id.len() == 20,
    ensures
        ({
            let bytes = handshake_bytes(info_hash, peer_id);
            &&& bytes.len() == 68
            &&& bytes[0] == 19
            &&& bytes.subrange(1, 20) == "BitTorrent protocol".spec_bytes()
            &&& forall|i: int| 20 <= i < 28 ==> #[trigger] bytes[i] == 0
            &&& forall|i: int| 0 <= i < 20 ==> bytes[28 + i] == #[trigger] info_hash[i]
            &&& forall|i: int| 0 <= i < 20 ==> bytes[48 + i] == #[trigger] peer_id[i]
        }),
{
    lemma_protocol_string();
    let bytes = handshake_bytes(info_hash, peer_id);
    assert(bytes.subrange(1, 20) =~= PROTOCOL_STRING@);
}

proof fn lemma_protocol_string()
    ensures
        PROTOCOL_STRING@ == "BitTorrent protocol".spec_bytes(),
{
    reveal_strlit("BitTorrent protocol");
    broadcast use vstd::string::is_ascii_spec_bytes;

    assert("BitTorrent protocol".is_ascii());
    assert(PROTOCOL_STRING@ =~= "BitTorrent protocol".spec_bytes());
}

/// What is read of bytes as a handshake: fewer than 68 are too few, others must
/// start with 19 and the name of the protocol, and then bytes 28 to 47 are the
/// `info_hash` and bytes 48 to 67 the peer id.
pub proof fn handshake_reading(buf: Seq<u8>)
    ensures
        if buf.len() < 68 {
            handshake_at(buf) == Err::<(Seq<u8>, Seq<u8>), PeerError>(PeerError::UnexpectedEof)
        } else if buf[0] == 19 && buf.subrange(1, 20) == "BitTorrent protocol".spec_bytes() {
            handshake_at(buf) matches Ok((info_hash, peer_id)) && {
                &&& info_hash.len() == 20
                &&& peer_id.len() == 20
                &&& forall|i: int| 0 <= i < 20 ==> #[trigger] info_hash[i] == buf[28 + i]
                &&& forall|i: int| 0 <= i < 20 ==> #[trigger] peer_id[i] == buf[48 + i]
            }
        } else {
            handshake_at(buf) == Err::<(Seq<u8>, Seq<u8>), PeerError>(PeerError::WrongProtocol)
        },
{
    lemma_protocol_string();
}

/// The bytes of a message, one by one. The first four give how many follow, and a
/// keep-alive has no others. Byte 4 tells the messages apart. A bitfield follows
/// as it is. Piece indices, offsets and lengths are numbers in that order from
/// byte 5 on, and a block starts at byte 13.
pub proof fn message_layout(m: MessageModel)
    requires
        m.fits(),
    ensures
        ({
            let bytes = message_bytes(m);
            &&& bytes.len() >= 4
            &&& bytes[0] * 0x100_0000 + bytes[1] * 0x1_0000 + bytes[2] * 0x100 + bytes[3]
                == bytes.len() - 4
            &&& match m {
                MessageModel::KeepAlive => bytes.len() == 4,
                MessageModel::Choke => bytes.len() == 5 && bytes[4] == 0,
                MessageModel::Unchoke => bytes.len() == 5 && bytes[4] == 1,
                MessageModel::Interested => bytes.len() == 5 && bytes[4] == 2,
                MessageModel::NotInterested => bytes.len() == 5 && bytes[4] == 3,
                MessageModel::Have { piece_index } => bytes.len() == 9 && bytes[4] == 4
                    && piece_index == bytes[5] * 0x100_0000 + bytes[6] * 0x1_0000 + bytes[7] * 0x100
                    + bytes[8],
                MessageModel::Bitfield(bits) => {
                    &&& bytes.len() == 5 + bits.len()
                    &&& bytes[4] == 5
                    &&& forall|i: int| 0 <= i < bits.len() ==> bytes[5 + i] == #[trigger] bits[i]
                },
                MessageModel::Request { index, begin, length } => {
                    &&& bytes.len() == 17
                    &&& bytes[4] == 6
                    &&& index == bytes[5] * 0x100_0000 + bytes[6] * 0x1_0000 + bytes[7] * 0x100
                        + bytes[8]
                    &&& begin == bytes[9] * 0x100_0000 + bytes[10] * 0x1_0000 + bytes[11] * 0x100
                        + bytes[12]
                    &&& length == bytes[13] * 0x100_0000 + bytes[14] * 0x1_0000 + bytes[15] * 0x100
                        + bytes[16]
                },
                MessageModel::Piece { index, begin, block } => {
                    &&& bytes.len() == 13 + block.len()
                    &&& bytes[4] == 7
                    &&& index == bytes[5] * 0x100_0000 + bytes[6] * 0x1_0000 + bytes[7] * 0x100
                        + bytes[8]
                    &&& begin == bytes[9] * 0x100_0000 + bytes[10] * 0x1_0000 + bytes[11] * 0x100
                        + bytes[12]
                    &&& forall|i: int|
                        0 <= i < block.len() ==> bytes[13 + i] == #[trigger] block[i]
                },
                MessageModel::Cancel { index, begin, length } => {
                    &&& bytes.len() == 17
                    &&& bytes[4] == 8
                    &&& index == bytes[5] * 0x100_0000 + bytes[6] * 0x1_0000 + bytes[7] * 0x100
                        + bytes[8]
                    &&& begin == bytes[9] * 0x100_0000 + bytes[10] * 0x1_0000 + bytes[11] * 0x100
                        + bytes[12]
                    &&& length == bytes[13] * 0x100_0000 + bytes[14] * 0x1_0000 + bytes[15] * 0x100
                        + bytes[16]
                },
            }
        }),
{
    let bytes = message_bytes(m);
    if m is KeepAlive {
        be_bytes_read_back(0);
    } else {
        let n = (1 + m.payload().len()) as u32;
        let head = be_bytes(n) + seq![m.id()];
        let rest = seq![m.id()] + m.payload();
        lemma_number_at(Seq::empty(), n, rest);
        assert(Seq::empty() + be_bytes(n) + rest =~= bytes);
        assert(head + m.payload() =~= bytes);
        match m {
            MessageModel::Have { piece_index } => {
                lemma_number_at(head, piece_index, Seq::empty());
                assert(head + be_bytes(piece_index) + Seq::empty() =~= bytes);
            },
            MessageModel::Request { index, begin, length } => {
                lemma_layout_of_numbers(head, index, begin, be_bytes(length));
                assert(head + (be_bytes(index) + be_bytes(begin) + be_bytes(length)) =~= bytes);
                lemma_number_at(head + be_bytes(index) + be_bytes(begin), length, Seq::empty());
                assert(head + be_bytes(index) + be_bytes(begin) + be_bytes(length)
                    + Seq::empty() =~= bytes);
            },
            MessageModel::Cancel { index, begin, length } => {
                lemma_layout_of_numbers(head, index, begin, be_bytes(length));
                assert(head + (be_bytes(index) + be_bytes(begin) + be_bytes(length)) =~= bytes);
                lemma_number_at(head + be_bytes(index) + be_bytes(begin), length, Seq::empty());
                assert(head + be_bytes(index) + be_bytes(begin) + be_bytes(length)
                    + Seq::empty() =~= bytes);
            },
            MessageModel::Piece { index, begin, block } => {
                lemma_layout_of_numbers(head, index, begin, block);
                assert forall|i: int| 0 <= i < block.len() implies bytes[13 + i]
                    == #[trigger] block[i] by {
                    assert(m.payload()[8 + i] == block[i]);
                }
            },
            _ => {},
        }
    }
}

/// Two numbers that follow five bytes.
proof fn lemma_layout_of_numbers(head: Seq<u8>, a: u32, b: u32, tail: Seq<u8>)
    requires
        head.len() == 5,
    ensures
        be_number(head + (be_bytes(a) + be_bytes(b) + tail), 5) == a,
        be_number(head + (be_bytes(a) + be_bytes(b) + tail), 9) == b,
{
    let s = head + (be_bytes(a) + be_bytes(b) + tail);
    lemma_number_at(head, a, be_bytes(b) + tail);
    assert(head + be_bytes(a) + (be_bytes(b) + tail) =~= s);
    lemma_number_at(head + be_bytes(a), b, tail);
    assert(head + be_bytes(a) + be_bytes(b) + tail =~= s);
}

/// What is read of bytes as a message, for all bytes: which message, with which
/// fields out of which bytes, how many bytes it takes up, or which error.
pub proof fn message_reading(buf: Seq<u8>)
    requires
        buf.len() <= usize::MAX,
    ensures
        ({
            let got = buf.len() as usize;
            let length = number(buf, 0);
            let total = 4 + length;
            if got < 4 {
                message_at(buf) == Err::<(MessageModel, int), PeerError>(PeerError::UnexpectedEof)
            } else if length == 0 {
                message_at(buf) == Ok::<(MessageModel, int), PeerError>((MessageModel::KeepAlive, 4))
            } else if got < total {
                message_at(buf) matches Err(PeerError::TruncatedPayload { expected, got: g }) && g
                    == got && (total <= usize::MAX ==> expected == total) && (total > usize::MAX
                    ==> expected == usize::MAX)
            } else {
                let id = buf[4];
                let payload = length - 1;
                &&& message_at(buf) matches Ok((m, consumed)) ==> consumed == total
                &&& id == 0 ==> (message_at(buf) matches Ok((m, _)) && m is Choke)
                &&& id == 1 ==> (message_at(buf) matches Ok((m, _)) && m is Unchoke)
                &&& id == 2 ==> (message_at(buf) matches Ok((m, _)) && m is Interested)
                &&& id == 3 ==> (message_at(buf) matches Ok((m, _)) && m is NotInterested)
                &&& id == 4 ==> if payload < 4 {
                    too_short(buf, 4, payload)
                } else {
                    message_at(buf) matches Ok((MessageModel::Have { piece_index }, _))
                        && piece_index == number(buf, 5)
                }
                &&& id == 5 ==> (message_at(buf) matches Ok((MessageModel::Bitfield(bits), _))
                    && bits.len() == payload && forall|i: int|
                    0 <= i < payload ==> #[trigger] bits[i] == buf[5 + i])
                &&& id == 6 ==> if payload < 12 {
                    too_short(buf, missing(payload), payload)
                } else {
                    message_at(buf) matches Ok(
                        (MessageModel::Request { index, begin, length: l }, _),
                    ) && index == number(buf, 5) && begin == number(buf, 9) && l == number(buf, 13)
                }
                &&& id == 7 ==> if payload < 8 {
                    too_short(buf, missing(payload), payload)
                } else {
                    message_at(buf) matches Ok((MessageModel::Piece { index, begin, block }, _))
                        && index == number(buf, 5) && begin == number(buf, 9) && block.len()
                        == payload - 8 && forall|i: int|
                        0 <= i < block.len() ==> #[trigger] block[i] == buf[13 + i]
                }
                &&& id == 8 ==> if payload < 12 {
                    too_short(buf, missing(payload), payload)
                } else {
                    message_at(buf) matches Ok(
                        (MessageModel::Cancel { index, begin, length: l }, _),
                    ) && index == number(buf, 5) && begin == number(buf, 9) && l == number(buf, 13)
                }
                &&& id > 8 ==> message_at(buf) == Err::<(MessageModel, int), PeerError>(
                    PeerError::UnknownMessageId(id),
                )
            }
        }),
{
    if buf.len() >= 4 && 0 < number(buf, 0) <= buf.len() - 4 {
        let payload = buf.subrange(5, 4 + number(buf, 0));
        let n = payload.len();
        assert(n >= 4 ==> number(payload, 0) == number(buf, 5));
        assert(n >= 8 ==> number(payload, 4) == number(buf, 9));
        assert(n >= 12 ==> number(payload, 8) == number(buf, 13));
    }
}

/// Whether `buf` is refused for a payload of `got` bytes where `expected` are
/// needed.
pub open spec fn too_short(buf: Seq<u8>, expected: int, got: int) -> bool {
    message_at(buf) matches Err(PeerError::TruncatedPayload { expected: e, got: g }) && e
        == expected && g == got
}

/// How many bytes the first of several numbers of four bytes needs that is not
/// all there.
pub open spec fn missing(payload: int) -> int {
    if payload < 4 {
        4
    } else if payload < 8 {
        8
    } else {
        12
    }
}

/// A message stands for what it says: the same kind with the same numbers and
/// bytes.
pub proof fn messages_stand_for_what_they_say(m: PeerMessage)
    ensures
        match m {
            PeerMessage::KeepAlive => m@ == MessageModel::KeepAlive,
            PeerMessage::Choke => m@ == MessageModel::Choke,
            PeerMessage::Unchoke => m@ == MessageModel::Unchoke,
            PeerMessage::Interested => m@ == MessageModel::Interested,
            PeerMessage::NotInterested => m@ == MessageModel::NotInterested,
            PeerMessage::Have { piece_index: a } => m@ matches MessageModel::Have { piece_index }
                && piece_index == a,
            PeerMessage::Bitfield(v) => m@ matches MessageModel::Bitfield(bits) && bits == v@,
            PeerMessage::Request { index: a, begin: b, length: c } => m@
                matches MessageModel::Request { index, begin, length } && index == a && begin == b
                && length == c,
            PeerMessage::Piece { index: a, begin: b, block: v } => m@
                matches MessageModel::Piece { index, begin, block } && index == a && begin == b
                && block == v@,
            PeerMessage::Cancel { index: a, begin: b, length: c } => m@
                matches MessageModel::Cancel { index, begin, length } && index == a && begin == b
                && length == c,
        },
{
}

/// A message fits just if it is less than 2^32 bytes behind its length.
pub proof fn messages_that_fit(m: MessageModel)
    ensures
        m.fits() <==> match m {
            MessageModel::Bitfield(bits) => 1 + bits.len() <= u32::MAX,
            MessageModel::Piece { block, .. } => 9 + block.len() <= u32::MAX,
            _ => true,
        },
{
}

/// What the errors say to a user.
pub proof fn protocol_errors_say_what_is_wrong(e: PeerError)
    ensures
        match e {
            PeerError::UnexpectedEof => e.text() == "unexpected end of input"@,
            PeerError::WrongProtocol => e.text()
                == "handshake did not identify BitTorrent protocol"@,
            PeerError::UnknownMessageId(id) => e.text() == "unknown message id: "@ + decimal_text(
                id as nat,
            ),
            PeerError::TruncatedPayload { expected, got } => e.text()
                == "payload truncated: expected "@ + decimal_text(expected as nat)
                + " bytes, got "@ + decimal_text(got as nat),
        },
{
}

} // verus!
