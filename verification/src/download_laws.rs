//! What holds of downloads as a whole: the blocks of a piece tile it, only
//! verified pieces come out, in the order in which they were assigned, and
//! the blocks of an honest peer make up the pieces whatever their order.

use crate::digest::sha1_of;
use crate::download::{
    accepted, block_count, block_length, blocks_of, failure, lemma_block_count,
    lemma_times_block_size, result_views, views, DownloadError, PieceModel, SessionModel,
    BLOCK_SIZE,
};
use crate::network::MessageIoError;
use crate::peer::{MessageModel, PeerMessage};
use vstd::prelude::*;

verus! {

/// Where block `n` begins, or the end of the piece where it has no such block.
pub open spec fn block_begin(piece_length: u32, n: int) -> int {
    if n * BLOCK_SIZE < piece_length {
        n * BLOCK_SIZE
    } else {
        piece_length as int
    }
}

/// A block ends where the next one begins, and no block is empty.
proof fn lemma_block(piece_length: u32, n: int)
    requires
        0 <= n < block_count(piece_length),
    ensures
        block_begin(piece_length, n) == n * BLOCK_SIZE,
        block_begin(piece_length, n) + block_length(piece_length, n) == block_begin(
            piece_length,
            n + 1,
        ),
        0 < block_length(piece_length, n) <= BLOCK_SIZE,
        block_begin(piece_length, n + 1) <= piece_length,
        n + 1 == block_count(piece_length) ==> block_begin(piece_length, n + 1) == piece_length,
{
    lemma_block_count(piece_length);
    lemma_times_block_size(n);
    lemma_times_block_size(n + 1);
    lemma_times_block_size(block_count(piece_length) as int);
}

/// The blocks of a piece lie side by side from its start to its end. None is
/// empty, none is longer than [`BLOCK_SIZE`], and all but the last are as long.
pub proof fn blocks_tile_the_piece(piece_length: u32)
    ensures
        piece_length == 0 <==> blocks_of(piece_length).len() == 0,
        piece_length > 0 ==> blocks_of(piece_length)[0].0 == 0,
        piece_length > 0 ==> blocks_of(piece_length).last().0 + blocks_of(piece_length).last().1
            == piece_length,
        forall|i: int|
            0 <= i < blocks_of(piece_length).len() ==> 0 < (
            #[trigger] blocks_of(piece_length)[i]).1 <= BLOCK_SIZE,
        forall|i: int, j: int|
            0 <= i && j == i + 1 && j < blocks_of(piece_length).len() ==> (
            #[trigger] blocks_of(piece_length)[i]).1 == BLOCK_SIZE && blocks_of(piece_length)[i].0
                + blocks_of(piece_length)[i].1 == (#[trigger] blocks_of(piece_length)[j]).0,
{
    let count = block_count(piece_length) as int;
    lemma_block_count(piece_length);
    lemma_times_block_size(count);
    assert forall|i: int| 0 <= i < count implies 0 < (#[trigger] blocks_of(piece_length)[i]).1
        <= BLOCK_SIZE by {
        lemma_block(piece_length, i);
    }
    assert forall|i: int, j: int| 0 <= i && j == i + 1 && j < count implies (
    #[trigger] blocks_of(piece_length)[i]).1 == BLOCK_SIZE && blocks_of(piece_length)[i].0
        + blocks_of(piece_length)[i].1 == (#[trigger] blocks_of(piece_length)[j]).0 by {
        lemma_block(piece_length, i);
        lemma_block(piece_length, j);
        lemma_times_block_size(i);
        lemma_times_block_size(j);
    }
    if piece_length > 0 {
        lemma_block(piece_length, 0);
        lemma_block(piece_length, count - 1);
    }
}

/// What every session keeps: its results are the first of the assigned pieces,
/// in order, each of the assigned length and with the assigned digest, and the
/// piece that is being downloaded is the next one.
pub open spec fn consistent(s: SessionModel) -> bool {
    &&& s.results.len() <= s.assignments.len()
    &&& forall|i: int|
        0 <= i < s.results.len() ==> verified(#[trigger] s.results[i], s.assignments[i])
    &&& match s.current {
        Some(piece) => {
            &&& s.unchoked
            &&& s.results.len() < s.assignments.len()
            &&& (piece.index, piece.length, piece.expected)
                == s.assignments[s.results.len() as int]
            &&& piece.buf.len() == piece.length
            &&& !piece.complete()
        },
        None => if s.unchoked {
            s.results.len() == s.assignments.len()
        } else {
            s.results.len() == 0
        },
    }
}

/// Whether a downloaded piece is the assigned one: it has the assigned index
/// and length, and its digest is the expected one.
pub open spec fn verified(result: (u32, Seq<u8>), assignment: (u32, u32, [u8; 20])) -> bool {
    &&& result.0 == assignment.0
    &&& result.1.len() == assignment.1
    &&& sha1_of(result.1) == assignment.2
}

proof fn lemma_advanced_is_consistent(s: SessionModel)
    requires
        s.unchoked,
        s.results.len() <= s.assignments.len(),
        forall|i: int|
            0 <= i < s.results.len() ==> verified(#[trigger] s.results[i], s.assignments[i]),
    ensures
        s.advanced() matches Ok((next, _)) ==> consistent(next) && next.assignments
            == s.assignments,
    decreases s.assignments.len() - s.results.len(),
{
    if s.results.len() < s.assignments.len() {
        let piece = PieceModel::started(s.assignments[s.results.len() as int]);
        if piece.complete() {
            if let Ok(next) = s.with_result(piece) {
                lemma_advanced_is_consistent(next);
            }
        }
    }
}

/// A new session is consistent.
pub proof fn sessions_start_consistent(assignments: Seq<(u32, u32, [u8; 20])>)
    ensures
        consistent(SessionModel::started(assignments)),
{
}

/// A message leaves a consistent session consistent and with the same
/// assignments. What it has the session send is either nothing or the requests
/// of the piece that the session has just turned to.
pub proof fn messages_keep_sessions_consistent(s: SessionModel, m: MessageModel)
    requires
        consistent(s),
    ensures
        s.after(m) matches Ok((next, to_send)) ==> {
            &&& consistent(next)
            &&& next.assignments == s.assignments
            &&& to_send.len() == 0 || (next.current matches Some(piece) && to_send
                == piece.requests() && piece == PieceModel::started(
                s.assignments[next.results.len() as int],
            ))
        },
{
    if !s.unchoked {
        if m is Unchoke {
            let open = SessionModel { unchoked: true, ..s };
            lemma_advanced_is_consistent(open);
            lemma_advanced_turns_to_a_new_piece(open);
        }
    } else if let Some(piece) = s.current {
        if let Ok(next) = piece.after(m) {
            if next.complete() {
                if let Ok(more) = s.with_result(next) {
                    lemma_advanced_is_consistent(more);
                    lemma_advanced_turns_to_a_new_piece(more);
                }
            }
        }
    }
}

proof fn lemma_advanced_turns_to_a_new_piece(s: SessionModel)
    requires
        s.results.len() <= s.assignments.len(),
    ensures
        s.advanced() matches Ok((next, to_send)) ==> match next.current {
            Some(piece) => to_send == piece.requests() && piece == PieceModel::started(
                s.assignments[next.results.len() as int],
            ),
            None => to_send.len() == 0,
        },
    decreases s.assignments.len() - s.results.len(),
{
    if s.results.len() < s.assignments.len() {
        let piece = PieceModel::started(s.assignments[s.results.len() as int]);
        if piece.complete() {
            if let Ok(next) = s.with_result(piece) {
                lemma_advanced_turns_to_a_new_piece(next);
            }
        }
    }
}

/// The session after several messages, one behind another.
pub open spec fn after_all(s: SessionModel, messages: Seq<MessageModel>) -> Result<
    SessionModel,
    DownloadError,
>
    decreases messages.len(),
{
    if messages.len() == 0 {
        Ok(s)
    } else {
        match after_all(s, messages.drop_last()) {
            Ok(before) => match before.after(messages.last()) {
                Ok((next, _)) => Ok(next),
                Err(e) => Err(e),
            },
            Err(e) => Err(e),
        }
    }
}

proof fn lemma_after_all_is_consistent(s: SessionModel, messages: Seq<MessageModel>)
    requires
        consistent(s),
    ensures
        after_all(s, messages) matches Ok(next) ==> consistent(next) && next.assignments
            == s.assignments,
    decreases messages.len(),
{
    if messages.len() > 0 {
        lemma_after_all_is_consistent(s, messages.drop_last());
        if let Ok(before) = after_all(s, messages.drop_last()) {
            messages_keep_sessions_consistent(before, messages.last());
        }
    }
}

/// Whatever a peer sends, a session that is done has every assigned piece, in
/// the order in which they were assigned, and each has the assigned length and
/// the expected digest.
pub proof fn finished_sessions_hold_verified_pieces(
    assignments: Seq<(u32, u32, [u8; 20])>,
    messages: Seq<MessageModel>,
)
    ensures
        after_all(SessionModel::started(assignments), messages) matches Ok(s) ==> s.done() ==> {
            &&& s.results.len() == assignments.len()
            &&& forall|i: int|
                0 <= i < assignments.len() ==> verified(#[trigger] s.results[i], assignments[i])
        },
{
    sessions_start_consistent(assignments);
    lemma_after_all_is_consistent(SessionModel::started(assignments), messages);
}

/// The message that answers the request for block `n` of a piece with the bytes
/// `data`.
pub open spec fn answer(index: u32, data: Seq<u8>, n: int) -> MessageModel {
    let begin = n * BLOCK_SIZE;
    MessageModel::Piece {
        index,
        begin: begin as u32,
        block: data.subrange(begin, begin + block_length(data.len() as u32, n)),
    }
}

/// Whether a message has nothing to do with the download of a piece.
pub open spec fn unrelated(index: u32, m: MessageModel) -> bool {
    !(m matches MessageModel::Piece { index: i, .. } && i == index)
}

/// Whether `messages` bring every block of a piece with the bytes `data` once,
/// in any order and with unrelated messages in between, up to the last block.
/// `which` says of each message which block it brings; an unrelated message
/// has -1.
pub open spec fn delivers(
    index: u32,
    data: Seq<u8>,
    messages: Seq<MessageModel>,
    which: Seq<int>,
) -> bool {
    let count = block_count(data.len() as u32);
    &&& which.len() == messages.len()
    &&& forall|k: int|
        0 <= k < which.len() ==> if #[trigger] which[k] == -1 {
            unrelated(index, messages[k])
        } else {
            0 <= which[k] < count && messages[k] == answer(index, data, which[k])
        }
    &&& forall|n: int| 0 <= n < count ==> which.contains(n)
    &&& forall|j: int, k: int|
        0 <= j < k < which.len() && #[trigger] which[j] != -1 ==> which[j] != #[trigger] which[k]
    &&& if count == 0 {
        which.len() == 0
    } else {
        which.last() != -1
    }
}

/// The blocks that the first `k` messages brought.
spec fn arrived(which: Seq<int>, k: int) -> Set<int>
    decreases k,
{
    if k <= 0 {
        Set::empty()
    } else if which[k - 1] == -1 {
        arrived(which, k - 1)
    } else {
        arrived(which, k - 1).insert(which[k - 1])
    }
}

proof fn lemma_arrived(which: Seq<int>, k: int, n: int)
    requires
        0 <= k <= which.len(),
        n != -1,
    ensures
        arrived(which, k).contains(n) <==> exists|j: int| 0 <= j < k && #[trigger] which[j] == n,
    decreases k,
{
    if k > 0 {
        lemma_arrived(which, k - 1, n);
    }
}

/// How many bytes the blocks below `n` that are in `blocks` have together.
spec fn covered(piece_length: u32, blocks: Set<int>, n: int) -> int
    decreases n,
{
    if n <= 0 {
        0
    } else {
        covered(piece_length, blocks, n - 1) + if blocks.contains(n - 1) {
            block_length(piece_length, n - 1)
        } else {
            0
        }
    }
}

proof fn lemma_covered_with(piece_length: u32, blocks: Set<int>, i: int, n: int)
    requires
        0 <= i,
        !blocks.contains(i),
    ensures
        covered(piece_length, blocks.insert(i), n) == covered(piece_length, blocks, n) + if i < n {
            block_length(piece_length, i)
        } else {
            0
        },
    decreases n,
{
    if n > 0 {
        lemma_covered_with(piece_length, blocks, i, n - 1);
    }
}

/// All blocks together have the bytes of the piece, and fewer have fewer.
proof fn lemma_covered(piece_length: u32, blocks: Set<int>, n: int)
    requires
        0 <= n <= block_count(piece_length),
    ensures
        covered(piece_length, blocks, n) <= block_begin(piece_length, n),
        covered(piece_length, blocks, n) == block_begin(piece_length, n) <==> (forall|i: int|
            0 <= i < n ==> blocks.contains(i)),
    decreases n,
{
    lemma_times_block_size(0);
    if n > 0 {
        lemma_covered(piece_length, blocks, n - 1);
        lemma_block(piece_length, n - 1);
        if !(forall|i: int| 0 <= i < n - 1 ==> blocks.contains(i)) {
            let i = choose|i: int| 0 <= i < n - 1 && !blocks.contains(i);
            assert(0 <= i < n && !blocks.contains(i));
        }
        if !blocks.contains(n - 1) {
            assert(0 <= n - 1 < n && !blocks.contains(n - 1));
        }
    }
}

/// The piece after several messages, one behind another.
pub open spec fn piece_after_all(piece: PieceModel, messages: Seq<MessageModel>) -> Result<
    PieceModel,
    DownloadError,
>
    decreases messages.len(),
{
    if messages.len() == 0 {
        Ok(piece)
    } else {
        match piece_after_all(piece, messages.drop_last()) {
            Ok(before) => before.after(messages.last()),
            Err(e) => Err(e),
        }
    }
}

/// What the first `k` messages of a delivery make of the piece.
proof fn lemma_delivery(
    assignment: (u32, u32, [u8; 20]),
    data: Seq<u8>,
    messages: Seq<MessageModel>,
    which: Seq<int>,
    k: int,
)
    requires
        data.len() == assignment.1,
        delivers(assignment.0, data, messages, which),
        0 <= k <= messages.len(),
    ensures
        piece_after_all(PieceModel::started(assignment), messages.take(k)) matches Ok(piece) && {
            let count = block_count(assignment.1) as int;
            &&& (piece.index, piece.length, piece.expected) == assignment
            &&& piece.buf.len() == data.len()
            &&& piece.received == covered(assignment.1, arrived(which, k), count)
            &&& forall|n: int, x: int|
                #![trigger arrived(which, k).contains(n), piece.buf[x]]
                0 <= n < count && arrived(which, k).contains(n) && block_begin(assignment.1, n)
                    <= x < block_begin(assignment.1, n + 1) ==> piece.buf[x] == data[x]
        },
    decreases k,
{
    let piece_length = assignment.1;
    let count = block_count(piece_length) as int;
    if k == 0 {
        assert(messages.take(0).len() == 0);
        lemma_nothing_covered(piece_length, count);
    } else {
        lemma_delivery(assignment, data, messages, which, k - 1);
        assert(messages.take(k).drop_last() =~= messages.take(k - 1));
        assert(messages.take(k).last() == messages[k - 1]);
        let before = piece_after_all(
            PieceModel::started(assignment),
            messages.take(k - 1),
        )->Ok_0;
        let n = which[k - 1];
        if n != -1 {
            lemma_block(piece_length, n);
            lemma_times_block_size(n);
            lemma_arrived(which, k - 1, n);
            lemma_covered_with(piece_length, arrived(which, k - 1), n, count);
            let piece = before.after(messages[k - 1])->Ok_0;
            let begin = block_begin(piece_length, n);
            assert(messages[k - 1] == answer(assignment.0, data, n));
            assert forall|m: int, x: int|
                #![trigger arrived(which, k).contains(m), piece.buf[x]]
                0 <= m < count && arrived(which, k).contains(m) && block_begin(piece_length, m)
                    <= x < block_begin(piece_length, m + 1) implies piece.buf[x] == data[x] by {
                lemma_block(piece_length, m);
                if begin <= x < begin + block_length(piece_length, n) {
                } else {
                    assert(piece.buf[x] == before.buf[x]);
                    assert(m != n);
                    assert(arrived(which, k - 1).contains(m));
                }
            }
        }
    }
}

proof fn lemma_nothing_covered(piece_length: u32, n: int)
    ensures
        covered(piece_length, Set::empty(), n) == 0,
    decreases n,
{
    if n > 0 {
        lemma_nothing_covered(piece_length, n - 1);
    }
}

/// Blocks make up the piece whatever the order in which they come and whatever
/// comes in between: after the last of them the piece holds just its bytes, and
/// before that it is not complete.
pub proof fn delivered_pieces_are_reassembled(
    assignment: (u32, u32, [u8; 20]),
    data: Seq<u8>,
    messages: Seq<MessageModel>,
    which: Seq<int>,
)
    requires
        data.len() == assignment.1,
        delivers(assignment.0, data, messages, which),
    ensures
        piece_after_all(PieceModel::started(assignment), messages) == Ok::<
            PieceModel,
            DownloadError,
        >(PieceModel { buf: data, received: data.len(), ..PieceModel::started(assignment) }),
        forall|k: int|
            #![trigger messages.take(k)]
            0 <= k < messages.len() ==> (piece_after_all(
                PieceModel::started(assignment),
                messages.take(k),
            ) matches Ok(piece) && !piece.complete()),
{
    let piece_length = assignment.1;
    let count = block_count(piece_length) as int;
    let len = messages.len() as int;
    assert(messages.take(len) =~= messages);
    lemma_delivery(assignment, data, messages, which, len);
    lemma_covered(piece_length, arrived(which, len), count);
    assert forall|n: int| 0 <= n < count implies arrived(which, len).contains(n) by {
        lemma_arrived(which, len, n);
        let j = which.index_of(n);
        assert(which.contains(n));
        assert(which[j] == n);
    }
    lemma_end(piece_length);
    let piece = piece_after_all(PieceModel::started(assignment), messages)->Ok_0;
    assert forall|x: int| 0 <= x < data.len() implies piece.buf[x] == data[x] by {
        let n = x / (BLOCK_SIZE as int);
        lemma_block_at(piece_length, x);
        assert(arrived(which, len).contains(n));
    }
    assert(piece.buf =~= data);
    assert forall|k: int|
        #![trigger messages.take(k)]
        0 <= k < len implies (piece_after_all(
        PieceModel::started(assignment),
        messages.take(k),
    ) matches Ok(p) && !p.complete()) by {
        lemma_delivery(assignment, data, messages, which, k);
        lemma_covered(piece_length, arrived(which, k), count);
        let last = which[len - 1];
        lemma_arrived(which, k, last);
        assert(!arrived(which, k).contains(last));
    }
}

/// Behind the last block there is nothing.
proof fn lemma_end(piece_length: u32)
    ensures
        block_begin(piece_length, block_count(piece_length) as int) == piece_length,
{
    lemma_block_count(piece_length);
}

/// Every byte of a piece is in a block.
proof fn lemma_block_at(piece_length: u32, x: int)
    requires
        0 <= x < piece_length,
    ensures
        ({
            let n = x / (BLOCK_SIZE as int);
            &&& 0 <= n < block_count(piece_length)
            &&& block_begin(piece_length, n) <= x < block_begin(piece_length, n + 1)
        }),
{
    let n = x / (BLOCK_SIZE as int);
    lemma_block_count(piece_length);
    vstd::arithmetic::div_mod::lemma_fundamental_div_mod(x, BLOCK_SIZE as int);
    lemma_times_block_size(n);
    lemma_times_block_size(n + 1);
    lemma_times_block_size(block_count(piece_length) as int);
    assert(n * BLOCK_SIZE == BLOCK_SIZE * n) by (nonlinear_arith);
    assert(0 <= n) by {
        vstd::arithmetic::div_mod::lemma_div_pos_is_pos(x, BLOCK_SIZE as int);
    }
}

/// A session that has just turned to a piece takes the bytes that a delivery
/// brings, if they have the expected digest, and turns to the next piece.
proof fn lemma_delivery_to_session(
    s: SessionModel,
    data: Seq<u8>,
    messages: Seq<MessageModel>,
    which: Seq<int>,
    k: int,
)
    requires
        s.unchoked,
        s.results.len() < s.assignments.len(),
        s.current == Some(PieceModel::started(s.assignments[s.results.len() as int])),
        ({
            let assignment = s.assignments[s.results.len() as int];
            &&& data.len() == assignment.1
            &&& sha1_of(data) == assignment.2
            &&& delivers(assignment.0, data, messages, which)
            &&& assignment.1 > 0
        }),
        0 <= k <= messages.len(),
    ensures
        ({
            let assignment = s.assignments[s.results.len() as int];
            let taken = SessionModel {
                results: s.results.push((assignment.0, data)),
                current: None,
                ..s
            };
            after_all(s, messages.take(k)) == if k < messages.len() {
                Ok::<SessionModel, DownloadError>(
                    SessionModel {
                        current: Some(
                            piece_after_all(
                                PieceModel::started(assignment),
                                messages.take(k),
                            )->Ok_0,
                        ),
                        ..s
                    },
                )
            } else {
                match taken.advanced() {
                    Ok((next, _)) => Ok(next),
                    Err(e) => Err(e),
                }
            }
        }),
    decreases k,
{
    let assignment = s.assignments[s.results.len() as int];
    delivered_pieces_are_reassembled(assignment, data, messages, which);
    lemma_end(assignment.1);
    lemma_times_block_size(0);
    assert(messages.len() > 0) by {
        lemma_block_at(assignment.1, 0);
        assert(which.contains(0));
    }
    if k > 0 {
        lemma_delivery_to_session(s, data, messages, which, k - 1);
        assert(messages.take(k).drop_last() =~= messages.take(k - 1));
        assert(messages.take(k).last() == messages[k - 1]);
        if k == messages.len() {
            assert(messages.take(k) =~= messages);
        }
    }
}

/// What an honest peer sends for each of the pieces, one piece behind another.
pub open spec fn deliveries(scripts: Seq<Seq<MessageModel>>) -> Seq<MessageModel>
    decreases scripts.len(),
{
    if scripts.len() == 0 {
        Seq::empty()
    } else {
        deliveries(scripts.drop_last()) + scripts.last()
    }
}

proof fn lemma_after_all_of_sum(s: SessionModel, a: Seq<MessageModel>, b: Seq<MessageModel>)
    ensures
        after_all(s, a + b) == match after_all(s, a) {
            Ok(next) => after_all(next, b),
            Err(e) => Err(e),
        },
    decreases b.len(),
{
    if b.len() == 0 {
        assert(a + b =~= a);
    } else {
        lemma_after_all_of_sum(s, a, b.drop_last());
        assert((a + b).drop_last() =~= a + b.drop_last());
        assert((a + b).last() == b.last());
    }
}

/// Whether `scripts` are deliveries of pieces with the bytes `data`, which are
/// the assigned pieces.
pub open spec fn honest(
    assignments: Seq<(u32, u32, [u8; 20])>,
    data: Seq<Seq<u8>>,
    scripts: Seq<Seq<MessageModel>>,
    which: Seq<Seq<int>>,
) -> bool {
    &&& data.len() == assignments.len()
    &&& scripts.len() == assignments.len()
    &&& which.len() == assignments.len()
    &&& forall|i: int|
        0 <= i < assignments.len() ==> verified(
            (assignments[i].0, #[trigger] data[i]),
            assignments[i],
        ) && delivers(assignments[i].0, data[i], scripts[i], which[i])
}

/// The assigned pieces with their bytes.
pub open spec fn downloaded(
    assignments: Seq<(u32, u32, [u8; 20])>,
    data: Seq<Seq<u8>>,
) -> Seq<(u32, Seq<u8>)> {
    Seq::new(assignments.len(), |i: int| (assignments[i].0, data[i]))
}

proof fn lemma_honest_prefix(
    assignments: Seq<(u32, u32, [u8; 20])>,
    data: Seq<Seq<u8>>,
    scripts: Seq<Seq<MessageModel>>,
    which: Seq<Seq<int>>,
    j: int,
)
    requires
        honest(assignments, data, scripts, which),
        0 <= j <= assignments.len(),
    ensures
        after_all(
            SessionModel::started(assignments),
            seq![MessageModel::Unchoke] + deliveries(scripts.take(j)),
        ) == match (SessionModel {
            assignments,
            unchoked: true,
            results: downloaded(assignments, data).take(j),
            current: None,
        }).advanced() {
            Ok((next, _)) => Ok::<SessionModel, DownloadError>(next),
            Err(e) => Err(e),
        },
    decreases j,
{
    let s = SessionModel::started(assignments);
    let all = downloaded(assignments, data);
    let opening = seq![MessageModel::Unchoke];
    if j == 0 {
        let messages = opening + deliveries(scripts.take(0));
        assert(messages =~= opening);
        assert(messages.drop_last() =~= Seq::empty());
        assert(after_all(s, messages.drop_last()) == Ok::<SessionModel, DownloadError>(s));
        assert(all.take(0) =~= s.results);
    } else {
        lemma_honest_prefix(assignments, data, scripts, which, j - 1);
        let before = SessionModel {
            assignments,
            unchoked: true,
            results: all.take(j - 1),
            current: None,
        };
        let script = scripts[j - 1];
        let assignment = assignments[j - 1];
        assert(verified((assignment.0, data[j - 1]), assignment));
        assert(scripts.take(j).drop_last() =~= scripts.take(j - 1));
        assert(scripts.take(j).last() == script);
        assert(opening + deliveries(scripts.take(j)) =~= (opening + deliveries(
            scripts.take(j - 1),
        )) + script);
        lemma_after_all_of_sum(s, opening + deliveries(scripts.take(j - 1)), script);
        assert(all.take(j) =~= all.take(j - 1).push((assignment.0, data[j - 1])));
        let piece = PieceModel::started(assignment);
        if assignment.1 == 0 {
            lemma_block_count(0);
            lemma_times_block_size(block_count(0) as int);
            assert(script =~= Seq::empty());
            assert(piece.buf =~= data[j - 1]);
        } else {
            let turned = SessionModel { current: Some(piece), ..before };
            lemma_delivery_to_session(
                turned,
                data[j - 1],
                script,
                which[j - 1],
                script.len() as int,
            );
            assert(script.take(script.len() as int) =~= script);
        }
    }
}

/// Whatever a peer sends before it lets us download is ignored.
pub proof fn messages_before_unchoke_are_ignored(
    assignments: Seq<(u32, u32, [u8; 20])>,
    messages: Seq<MessageModel>,
)
    requires
        forall|i: int| 0 <= i < messages.len() ==> !(#[trigger] messages[i] is Unchoke),
    ensures
        after_all(SessionModel::started(assignments), messages) == Ok::<
            SessionModel,
            DownloadError,
        >(SessionModel::started(assignments)),
    decreases messages.len(),
{
    if messages.len() > 0 {
        messages_before_unchoke_are_ignored(assignments, messages.drop_last());
        assert(!(messages[messages.len() - 1] is Unchoke));
    }
}

/// Downloading from a peer that at some point lets us download and then brings
/// every block of every assigned piece ends with all of the pieces, each with
/// its bytes.
pub proof fn honest_peers_are_downloaded_from(
    assignments: Seq<(u32, u32, [u8; 20])>,
    data: Seq<Seq<u8>>,
    first: Seq<MessageModel>,
    scripts: Seq<Seq<MessageModel>>,
    which: Seq<Seq<int>>,
)
    requires
        honest(assignments, data, scripts, which),
        forall|i: int| 0 <= i < first.len() ==> !(#[trigger] first[i] is Unchoke),
    ensures
        after_all(
            SessionModel::started(assignments),
            first + (seq![MessageModel::Unchoke] + deliveries(scripts)),
        ) matches Ok(s) && s.done() && s.results == downloaded(assignments, data),
{
    let n = assignments.len() as int;
    let rest = seq![MessageModel::Unchoke] + deliveries(scripts);
    messages_before_unchoke_are_ignored(assignments, first);
    lemma_after_all_of_sum(SessionModel::started(assignments), first, rest);
    lemma_honest_prefix(assignments, data, scripts, which, n);
    assert(scripts.take(n) =~= scripts);
    assert(downloaded(assignments, data).take(n) =~= downloaded(assignments, data));
}

/// What a piece makes of a message. A block of the piece goes where it says,
/// byte for byte; every other byte stays, and the block's length is counted. A
/// block that would reach past the end is refused. Nothing else has an effect.
pub proof fn blocks_go_where_they_belong(piece: PieceModel, m: MessageModel)
    ensures
        match m {
            MessageModel::Piece { index, begin, block } => if index != piece.index {
                piece.after(m) == Ok::<PieceModel, DownloadError>(piece)
            } else if begin + block.len() > piece.buf.len() {
                piece.after(m) == Err::<PieceModel, DownloadError>(
                    DownloadError::UnexpectedMessage("block extends past piece boundary"),
                )
            } else {
                piece.after(m) matches Ok(next) && {
                    &&& (next.index, next.length, next.expected) == (
                        piece.index,
                        piece.length,
                        piece.expected,
                    )
                    &&& next.received == piece.received + block.len()
                    &&& next.buf.len() == piece.buf.len()
                    &&& forall|i: int|
                        0 <= i < block.len() ==> next.buf[begin + i] == #[trigger] block[i]
                    &&& forall|x: int|
                        0 <= x < begin || begin + block.len() <= x < piece.buf.len()
                            ==> #[trigger] next.buf[x] == piece.buf[x]
                }
            },
            _ => piece.after(m) == Ok::<PieceModel, DownloadError>(piece),
        },
{
}

/// A piece that is started is the assigned one, holds a zero for every byte, and
/// is complete just if it has no bytes. It is complete in general once as many
/// bytes have come as it has.
pub proof fn pieces_start_empty(assignment: (u32, u32, [u8; 20]), piece: PieceModel)
    ensures
        ({
            let started = PieceModel::started(assignment);
            &&& started.index == assignment.0
            &&& started.length == assignment.1
            &&& started.expected == assignment.2
            &&& started.received == 0
            &&& started.buf.len() == assignment.1
            &&& forall|x: int| 0 <= x < assignment.1 ==> #[trigger] started.buf[x] == 0
        }),
        piece.complete() <==> piece.received >= piece.length,
{
}

/// The requests of a piece ask for all of it in order, 16384 bytes at a time: the
/// requests together reach just to the end of the piece.
pub proof fn requests_ask_for_the_whole_piece(piece: PieceModel)
    ensures
        ({
            let requests = piece.requests();
            &&& (requests.len() - 1) * 16384 < piece.length <= requests.len() * 16384
            &&& forall|b: int|
                0 <= b < requests.len() ==> (#[trigger] requests[b] matches MessageModel::Request {
                    index,
                    begin,
                    length,
                } && index == piece.index && begin == b * 16384 && length == if b + 1
                    < requests.len() {
                    16384
                } else {
                    piece.length - b * 16384
                })
        }),
{
    let requests = piece.requests();
    let n = piece.length;
    lemma_block_count(n);
    lemma_times_block_size(block_count(n) as int);
    assert forall|b: int| 0 <= b < requests.len() implies (
    #[trigger] requests[b] matches MessageModel::Request { index, begin, length } && index
        == piece.index && begin == b * 16384 && length == if b + 1 < requests.len() {
        16384
    } else {
        n - b * 16384
    }) by {
        lemma_block(n, b);
        lemma_times_block_size(b);
        lemma_times_block_size(b + 1);
        assert(requests[b] == (MessageModel::Request {
            index: piece.index,
            begin: blocks_of(n)[b].0,
            length: blocks_of(n)[b].1,
        }));
    }
}

/// Whenever a message makes a session turn to a piece, what the session sends is
/// a request for every block of just that piece, in order, and the piece is the
/// assigned one behind those that are done. A session that turns to no piece
/// sends nothing.
pub proof fn every_new_piece_is_asked_for(s: SessionModel, m: MessageModel)
    requires
        consistent(s),
    ensures
        s.after(m) matches Ok((next, to_send)) ==> {
            let turned = next.current is Some && (s.current is None || next.results.len()
                != s.results.len());
            if turned {
                let assignment = s.assignments[next.results.len() as int];
                let piece = next.current->0;
                &&& next.results.len() < s.assignments.len()
                &&& (piece.index, piece.length, piece.expected) == assignment
                &&& piece.received == 0
                &&& assignment.1 > 0
                &&& (to_send.len() - 1) * 16384 < assignment.1 <= to_send.len() * 16384
                &&& forall|b: int|
                    0 <= b < to_send.len() ==> (
                    #[trigger] to_send[b] matches MessageModel::Request { index, begin, length }
                        && index == assignment.0 && begin == b * 16384 && length == if b + 1
                        < to_send.len() {
                        16384
                    } else {
                        assignment.1 - b * 16384
                    })
            } else {
                to_send.len() == 0
            }
        },
{
    messages_keep_sessions_consistent(s, m);
    if !s.unchoked {
        if m is Unchoke {
            lemma_advanced_turns_to_a_new_piece(SessionModel { unchoked: true, ..s });
        }
    } else if let Some(piece) = s.current {
        if let Ok(after) = piece.after(m) {
            if after.complete() {
                if let Ok(more) = s.with_result(after) {
                    lemma_advanced_turns_to_a_new_piece(more);
                    lemma_advanced_keeps_results(more);
                }
            }
        }
    }
    if let Ok((next, to_send)) = s.after(m) {
        if let Some(piece) = next.current {
            requests_ask_for_the_whole_piece(piece);
        }
    }
}

proof fn lemma_advanced_keeps_results(s: SessionModel)
    requires
        s.results.len() <= s.assignments.len(),
    ensures
        s.advanced() matches Ok((next, _)) ==> {
            &&& s.results.len() <= next.results.len() <= s.assignments.len()
            &&& next.results.take(s.results.len() as int) == s.results
            &&& forall|j: int|
                s.results.len() <= j < next.results.len() ==> (
                #[trigger] s.assignments[j]).1 == 0
            &&& next.unchoked == s.unchoked
            &&& next.assignments == s.assignments
        },
        s.advanced() matches Err(e) ==> e is HashMismatch && exists|j: int|
            s.results.len() <= j < s.assignments.len() && (#[trigger] s.assignments[j]).1 == 0
                && s.assignments[j].2 != sha1_of(Seq::empty()),
    decreases s.assignments.len() - s.results.len(),
{
    assert(s.results.take(s.results.len() as int) =~= s.results);
    if s.results.len() < s.assignments.len() {
        let at = s.results.len() as int;
        let piece = PieceModel::started(s.assignments[at]);
        if piece.complete() {
            assert(piece.buf =~= Seq::empty());
            match s.with_result(piece) {
                Ok(more) => {
                    lemma_advanced_keeps_results(more);
                    if let Ok((next, _)) = more.advanced() {
                        assert(next.results.take(at) =~= more.results.take(at));
                        assert(more.results.take(at) =~= s.results);
                    }
                },
                Err(e) => {
                    assert(s.assignments[at].1 == 0 && s.assignments[at].2 != sha1_of(
                        Seq::empty(),
                    ));
                },
            }
        }
    }
}

/// A message takes nothing away from the results. Before unchoke nothing but the
/// unchoke has an effect, and after it a block does to the piece under download
/// just what it does to a piece: as long as that is not complete it stays under
/// download, and once it is complete its bytes are the next result.
pub proof fn sessions_make_progress(s: SessionModel, m: MessageModel)
    requires
        consistent(s),
    ensures
        s.after(m) matches Ok((next, to_send)) ==> {
            &&& next.assignments == s.assignments
            &&& next.results.len() >= s.results.len()
            &&& next.results.take(s.results.len() as int) == s.results
            &&& next.unchoked == (s.unchoked || m is Unchoke)
            &&& (!s.unchoked && !(m is Unchoke)) ==> next == s
            &&& (s.unchoked && s.current is None) ==> next == s
            &&& s.current matches Some(piece) ==> (piece.after(m) matches Ok(after) && if after.received
                >= after.length {
                &&& next.results.len() > s.results.len()
                &&& next.results[s.results.len() as int] == (after.index, after.buf)
                &&& sha1_of(after.buf) == after.expected
            } else {
                &&& next.results == s.results
                &&& next.current == Some(after)
            })
        },
{
    messages_keep_sessions_consistent(s, m);
    assert(s.results.take(s.results.len() as int) =~= s.results);
    let n = s.results.len() as int;
    if !s.unchoked {
        if m is Unchoke {
            lemma_advanced_keeps_results(SessionModel { unchoked: true, ..s });
        }
    } else if let Some(piece) = s.current {
        if let Ok(after) = piece.after(m) {
            if after.complete() {
                if let Ok(more) = s.with_result(after) {
                    lemma_advanced_keeps_results(more);
                    if let Ok((next, _)) = more.advanced() {
                        assert(next.results.take(n) =~= next.results.take(n + 1).take(n));
                        assert(more.results.take(n) =~= s.results);
                        assert(next.results[n] == next.results.take(n + 1)[n]);
                    }
                }
            }
        }
    }
}

/// A session fails for two reasons only: a block that reaches past the end of the
/// piece under download, or bytes of a complete piece, be it one without bytes,
/// that have another digest than the expected one. In both cases it does fail.
pub proof fn sessions_fail_for_a_reason(s: SessionModel, m: MessageModel)
    requires
        consistent(s),
    ensures
        ({
            let past_the_end = s.current matches Some(piece) && m matches MessageModel::Piece {
                index,
                begin,
                block,
            } && index == piece.index && begin + block.len() > piece.length;
            let completed = s.current matches Some(piece) && piece.after(m) matches Ok(after)
                && after.received >= after.length;
            let wrong_digest = s.current matches Some(piece) && piece.after(m) matches Ok(after)
                && after.received >= after.length && sha1_of(after.buf) != after.expected;
            let wrong_empty_piece = exists|j: int|
                s.results.len() <= j < s.assignments.len() && (#[trigger] s.assignments[j]).1 == 0
                    && s.assignments[j].2 != sha1_of(Seq::empty());
            &&& past_the_end <==> s.after(m) == Err::<
                (SessionModel, Seq<MessageModel>),
                DownloadError,
            >(DownloadError::UnexpectedMessage("block extends past piece boundary"))
            &&& wrong_digest ==> s.after(m) == Err::<
                (SessionModel, Seq<MessageModel>),
                DownloadError,
            >(DownloadError::HashMismatch)
            &&& s.after(m) matches Err(e) ==> past_the_end || (e is HashMismatch && (wrong_digest
                || (wrong_empty_piece && (completed || (!s.unchoked && m is Unchoke)))))
        }),
{
    if !s.unchoked {
        if m is Unchoke {
            lemma_advanced_keeps_results(SessionModel { unchoked: true, ..s });
        }
    } else if let Some(piece) = s.current {
        if let Ok(after) = piece.after(m) {
            if after.complete() {
                if let Ok(more) = s.with_result(after) {
                    lemma_advanced_keeps_results(more);
                    if more.advanced() is Err {
                        let j = choose|j: int|
                            more.results.len() <= j < more.assignments.len() && (
                            #[trigger] more.assignments[j]).1 == 0 && more.assignments[j].2
                                != sha1_of(Seq::empty());
                        assert(s.results.len() <= j < s.assignments.len() && s.assignments[j].1
                            == 0 && s.assignments[j].2 != sha1_of(Seq::empty()));
                    }
                }
            }
        }
    }
}

/// A piece comes through just if its digest is the expected one, and then as it
/// is.
pub proof fn only_the_expected_digest_comes_through(
    data: Seq<u8>,
    actual: [u8; 20],
    expected: [u8; 20],
)
    ensures
        accepted(data, actual, expected) matches Ok(bytes) ==> actual == expected && bytes == data,
        accepted(data, actual, expected) matches Err(e) ==> actual != expected && e is HashMismatch,
{
}

/// What a failure to receive a message means: an input or output error is passed
/// on, and a malformed message is named by when it came.
pub proof fn failures_say_when_they_came(e: MessageIoError, waiting: bool)
    ensures
        match e {
            MessageIoError::Io(cause) => failure(e, waiting) == DownloadError::Io(cause),
            MessageIoError::Protocol(_) => failure(e, waiting)
                == DownloadError::UnexpectedMessage(
                if waiting {
                    "malformed message while waiting for unchoke"
                } else {
                    "malformed message while downloading blocks"
                },
            ),
        },
{
}

/// Lists of messages and of results stand for as many messages and results, each
/// in its place.
pub proof fn lists_keep_their_items(
    messages: Seq<PeerMessage>,
    results: Seq<(u32, Vec<u8>)>,
)
    ensures
        views(messages).len() == messages.len(),
        forall|i: int| 0 <= i < messages.len() ==> views(messages)[i] == (#[trigger] messages[i])@,
        result_views(results).len() == results.len(),
        forall|i: int|
            0 <= i < results.len() ==> result_views(results)[i] == (
                (#[trigger] results[i]).0,
                results[i].1@,
            ),
{
}

/// A session starts with nothing received and the assignments that it was given,
/// and it is done just when the peer lets us download and there is a result for
/// every assignment.
pub proof fn sessions_start_with_nothing(
    assignments: Seq<(u32, u32, [u8; 20])>,
    s: SessionModel,
)
    ensures
        ({
            let started = SessionModel::started(assignments);
            &&& started.assignments == assignments
            &&& !started.unchoked
            &&& started.results.len() == 0
            &&& started.current is None
        }),
        consistent(s) ==> (s.done() <==> s.unchoked && s.results.len() == s.assignments.len()),
{
}

} // verus!
