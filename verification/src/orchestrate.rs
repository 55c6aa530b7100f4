//! What ties a torrent to connections: who we say we are, how long each piece
//! is, which peer is asked for which piece, and whether all of them came.

use crate::bencode::push_all;
use crate::seed::SeedConfig;
use crate::text::{decimal_text, push_decimal};
use crate::torrent::Torrent;
use crate::wire::{be_bytes, push_be, twenty_bytes};
use vstd::arithmetic::div_mod::{lemma_fundamental_div_mod, lemma_fundamental_div_mod_converse};
use vstd::prelude::*;
use vstd::string::StringExecFns;

verus! {

/// `std::time::SystemTime`: a moment. Nothing is said of what is inside.
#[verifier::external_type_specification]
#[verifier::external_body]
pub struct ExSystemTime(std::time::SystemTime);

/// Calls `std::time::SystemTime::now`, of whose result nothing can be said.
#[verifier::external_body]
fn now() -> std::time::SystemTime {
    std::time::SystemTime::now()
}

/// Calls `std::time::SystemTime::duration_since` with the Unix epoch. There is
/// no result for a moment before the epoch. What the result is for a given
/// moment is left unsaid, as moments come from the clock alone.
#[verifier::external_body]
fn since_epoch(moment: std::time::SystemTime) -> (r: Option<std::time::Duration>) {
    moment.duration_since(std::time::UNIX_EPOCH).ok()
}

/// Calls `std::time::Duration::subsec_nanos`: the part of a duration that is
/// less than a second, in nanoseconds.
#[verifier::external_body]
fn subsec_nanos(duration: &std::time::Duration) -> (r: u32)
    ensures
        r < 1_000_000_000,
{
    duration.subsec_nanos()
}

/// Calls `std::time::Duration::as_secs`: the whole seconds of a duration. How
/// many those are is left unsaid, as durations come from the clock alone.
#[verifier::external_body]
fn as_secs(duration: &std::time::Duration) -> u64 {
    duration.as_secs()
}

/// What peer ids start with: `-RS0001-`
pub const PEER_ID_PREFIX: [u8; 8] = [0x2d, 0x52, 0x53, 0x30, 0x30, 0x30, 0x31, 0x2d];

/// The peer id for a moment, given as the whole seconds since the Unix epoch and
/// the nanoseconds beyond them: the prefix, eight bytes for the seconds and four
/// for the nanoseconds.
pub open spec fn peer_id_of(secs: u64, nanos: u32) -> Seq<u8> {
    PEER_ID_PREFIX@ + be_bytes((secs / 0x1_0000_0000) as u32) + be_bytes(
        (secs % 0x1_0000_0000) as u32,
    ) + be_bytes(nanos)
}

/// The peer id for a moment, given as the whole seconds since the Unix epoch and
/// the nanoseconds beyond them.
pub fn peer_id_from_time(secs: u64, nanos: u32) -> (r: [u8; 20])
    ensures
        r@ == peer_id_of(secs, nanos),
{
    let mut id: Vec<u8> = Vec::new();
    push_all(&mut id, &PEER_ID_PREFIX);
    push_be(&mut id, (secs / 0x1_0000_0000) as u32);
    push_be(&mut id, (secs % 0x1_0000_0000) as u32);
    push_be(&mut id, nanos);
    assert(id@ =~= peer_id_of(secs, nanos));
    let r: [u8; 20] = twenty_bytes(&id, 0);
    assert(r@ =~= id@);
    r
}

/// A peer id that is made from the whole of the current time, to the nanosecond,
/// so that clients that were started at different moments can be told apart. A
/// clock that stands before the Unix epoch counts as one that stands at it.
pub fn generate_peer_id() -> (r: [u8; 20])
    ensures
        exists|secs: u64, nanos: u32|
            nanos < 1_000_000_000 && r@ == #[trigger] peer_id_of(secs, nanos),
{
    match since_epoch(now()) {
        Some(duration) => peer_id_from_time(as_secs(&duration), subsec_nanos(&duration)),
        None => peer_id_from_time(0, 0),
    }
}

/// The low 32 bits of a number.
pub open spec fn low_bits(n: int) -> u32 {
    (n % 0x1_0000_0000) as u32
}

/// The length of piece `index`: that of every piece but for the last, which
/// has what is left of the content.
pub open spec fn piece_length_of(
    index: u32,
    num_pieces: u32,
    piece_length: u32,
    total_length: int,
) -> u32 {
    if index == num_pieces - 1 {
        low_bits(total_length - piece_length * (num_pieces - 1))
    } else {
        piece_length
    }
}

/// Whether the length of the last piece can be computed in an `i64`.
pub open spec fn last_piece_fits(num_pieces: u32, piece_length: u32, total_length: int) -> bool {
    &&& piece_length * (num_pieces - 1) <= i64::MAX
    &&& total_length - piece_length * (num_pieces - 1) >= i64::MIN
}

/// The low 32 bits of `n`.
fn truncated(n: i64) -> (r: u32)
    ensures
        r == low_bits(n as int),
{
    assert(n as u32 == (n % 0x1_0000_0000) as u32) by (bit_vector);
    n as u32
}

/// The length of piece `index` in bytes. Every piece has `piece_length` bytes,
/// except possibly the last, which has what is left of `total_length`.
pub fn piece_len_for(index: u32, num_pieces: u32, piece_length: u32, total_length: i64) -> (r: u32)
    requires
        num_pieces > 0,
        index == num_pieces - 1 ==> last_piece_fits(num_pieces, piece_length, total_length as int),
    ensures
        r == piece_length_of(index, num_pieces, piece_length, total_length as int),
{
    if index == num_pieces - 1 {
        assert(0 <= piece_length * (num_pieces - 1)) by (nonlinear_arith)
            requires
                0 <= piece_length,
                0 < num_pieces,
        ;
        let full_pieces_bytes: i64 = piece_length as i64 * (num_pieces as i64 - 1);
        truncated(total_length - full_pieces_bytes)
    } else {
        piece_length
    }
}

/// How many of the first `count` pieces go to peer `peer` out of `peers`.
pub open spec fn share(count: int, peers: int, peer: int) -> int {
    count / peers + if peer < count % peers {
        1int
    } else {
        0
    }
}

/// A piece as something to download: its index, its length and its digest.
pub open spec fn assignment(
    pieces: Seq<[u8; 20]>,
    num_pieces: u32,
    piece_length: u32,
    total_length: int,
    i: int,
) -> (u32, u32, [u8; 20]) {
    (i as u32, piece_length_of(i as u32, num_pieces, piece_length, total_length), pieces[i])
}

/// The first `count` pieces in a round-robin over `peers` peers: peer `p` gets
/// pieces `p`, `p + peers`, `p + 2 * peers` and so on.
pub open spec fn round_robin(
    pieces: Seq<[u8; 20]>,
    num_pieces: u32,
    piece_length: u32,
    total_length: int,
    peers: int,
    count: int,
) -> Seq<Seq<(u32, u32, [u8; 20])>> {
    Seq::new(
        peers as nat,
        |p: int|
            Seq::new(
                share(count, peers, p) as nat,
                |k: int|
                    assignment(pieces, num_pieces, piece_length, total_length, p + k * peers),
            ),
    )
}

/// What is to be downloaded, and from whom.
pub struct LeechPlan {
    pub num_pieces: u32,
    pub piece_length: u32,
    pub total_length: i64,
    /// For each peer the pieces that it is asked for.
    pub assignments: Vec<Vec<(u32, u32, [u8; 20])>>,
}

/// The numbers of all of `count` peers.
pub open spec fn all_peers(count: nat) -> Seq<usize> {
    Seq::new(count, |p: int| p as usize)
}

impl LeechPlan {
    /// The peers to connect to: all of them, also those that are asked for no
    /// pieces because there are more peers than pieces.
    pub fn peers_to_connect(&self) -> (r: Vec<usize>)
        ensures
            r@ == all_peers(self.assignments@.len()),
            r@.len() == self.assignments@.len(),
            forall|p: int| 0 <= p < self.assignments@.len() ==> #[trigger] r@[p] == p,
    {
        let mut peers: Vec<usize> = Vec::new();
        let mut p: usize = 0;
        while p < self.assignments.len()
            invariant
                p <= self.assignments@.len(),
                peers@ == all_peers(p as nat),
                peers@.len() == p,
                forall|q: int| 0 <= q < p ==> #[trigger] peers@[q] == q,
            decreases self.assignments@.len() - p,
        {
            peers.push(p);
            p += 1;
            assert(peers@ =~= all_peers(p as nat));
        }
        peers
    }
}

/// The assignments of a plan as sequences.
pub open spec fn assignment_views(v: Seq<Vec<(u32, u32, [u8; 20])>>) -> Seq<
    Seq<(u32, u32, [u8; 20])>,
> {
    v.map_values(|a: Vec<(u32, u32, [u8; 20])>| a@)
}

/// Whether the sizes that a torrent gives can be computed with.
pub open spec fn plannable(t: Torrent) -> bool {
    &&& t@.layout.total_fits()
    &&& low_bits(t.pieces@.len() as int) > 0 ==> last_piece_fits(
        low_bits(t.pieces@.len() as int),
        low_bits(t.piece_length as int),
        t@.layout.total(),
    )
}

/// The low 32 bits of a length.
fn truncated_len(n: usize) -> (r: u32)
    ensures
        r == low_bits(n as int),
{
    (n as u64 % 0x1_0000_0000) as u32
}

/// Whether the sizes that a torrent gives can be computed with.
pub fn is_plannable(torrent: &Torrent) -> (r: bool)
    ensures
        r == plannable(*torrent),
{
    let total: i64 = match torrent.checked_total_length() {
        Some(total) => total,
        None => {
            return false;
        },
    };
    let num_pieces: u32 = truncated_len(torrent.pieces.len());
    if num_pieces == 0 {
        return true;
    }
    let piece_length: u32 = truncated(torrent.piece_length);
    assert(0 <= piece_length * (num_pieces - 1) <= u64::MAX) by (nonlinear_arith)
        requires
            0 <= piece_length <= u32::MAX,
            0 < num_pieces <= u32::MAX,
    ;
    let full: i128 = piece_length as i128 * (num_pieces as i128 - 1);
    full <= i64::MAX as i128 && total as i128 - full >= i64::MIN as i128
}

/// One more piece goes to the peer whose turn it is, and to no other.
proof fn lemma_share_of_next(count: int, peers: int, peer: int)
    requires
        0 <= count,
        0 <= peer < peers,
    ensures
        share(count + 1, peers, peer) == share(count, peers, peer) + if peer == count % peers {
            1int
        } else {
            0
        },
        peer == count % peers ==> peer + share(count, peers, peer) * peers == count,
        share(count, peers, peer) >= 0,
{
    let round = count / peers;
    let turn = count % peers;
    lemma_fundamental_div_mod(count, peers);
    assert(peers * round == round * peers) by (nonlinear_arith);
    assert(round >= 0) by {
        vstd::arithmetic::div_mod::lemma_div_pos_is_pos(count, peers);
    }
    if turn + 1 < peers {
        lemma_fundamental_div_mod_converse(count + 1, peers, round, turn + 1);
    } else {
        assert((round + 1) * peers == round * peers + peers) by (nonlinear_arith);
        lemma_fundamental_div_mod_converse(count + 1, peers, round + 1, 0);
    }
}

/// Decides which of `num_peers` peers is asked for which piece of a torrent:
/// the peers take turns. Without peers there is nothing to decide.
pub fn plan_leech(torrent: &Torrent, num_peers: usize) -> (r: Result<LeechPlan, String>)
    requires
        num_peers > 0 ==> plannable(*torrent),
    ensures
        if num_peers == 0 {
            r matches Err(text) && text@ == "no peers given -- pass at least one with --peers"@
        } else {
            r matches Ok(plan) && {
                &&& plan.num_pieces == low_bits(torrent.pieces@.len() as int)
                &&& plan.piece_length == low_bits(torrent.piece_length as int)
                &&& plan.total_length == torrent@.layout.total()
                &&& plan.assignments@.len() == num_peers
                &&& assignment_views(plan.assignments@) == round_robin(
                    torrent.pieces@,
                    plan.num_pieces,
                    plan.piece_length,
                    plan.total_length as int,
                    num_peers as int,
                    plan.num_pieces as int,
                )
            }
        },
{
    if num_peers == 0 {
        return Err("no peers given -- pass at least one with --peers".to_string());
    }
    let num_pieces: u32 = truncated_len(torrent.pieces.len());
    let piece_length: u32 = truncated(torrent.piece_length);
    let total_length: i64 = torrent.total_length();
    let ghost pieces = torrent.pieces@;
    let ghost peers = num_peers as int;
    let mut assignments: Vec<Vec<(u32, u32, [u8; 20])>> = Vec::new();
    let mut p: usize = 0;
    while p < num_peers
        invariant
            p <= num_peers,
            assignments@.len() == p,
            forall|q: int| 0 <= q < p ==> (#[trigger] assignments@[q])@ =~= Seq::empty(),
        decreases num_peers - p,
    {
        assignments.push(Vec::new());
        p += 1;
    }
    let mut i: u32 = 0;
    proof {
        assert forall|q: int| 0 <= q < peers implies (#[trigger] assignments@[q])@ == round_robin(
            pieces,
            num_pieces,
            piece_length,
            total_length as int,
            peers,
            0,
        )[q] by {
            lemma_fundamental_div_mod_converse(0, peers, 0, 0);
        }
    }
    while i < num_pieces
        invariant
            i <= num_pieces <= torrent.pieces@.len(),
            num_peers > 0,
            peers == num_peers,
            pieces == torrent.pieces@,
            assignments@.len() == num_peers,
            num_pieces > 0 ==> last_piece_fits(num_pieces, piece_length, total_length as int),
            forall|q: int|
                0 <= q < peers ==> (#[trigger] assignments@[q])@ == round_robin(
                    pieces,
                    num_pieces,
                    piece_length,
                    total_length as int,
                    peers,
                    i as int,
                )[q],
        decreases num_pieces - i,
    {
        let length: u32 = piece_len_for(i, num_pieces, piece_length, total_length);
        let hash: [u8; 20] = torrent.pieces[i as usize];
        let slot: usize = i as usize % num_peers;
        let ghost before = assignments@;
        assignments[slot].push((i, length, hash));
        proof {
            assert forall|q: int| 0 <= q < peers implies (#[trigger] assignments@[q])@
                == round_robin(
                pieces,
                num_pieces,
                piece_length,
                total_length as int,
                peers,
                i + 1,
            )[q] by {
                lemma_share_of_next(i as int, peers, q);
                assert(before[q]@ == round_robin(
                    pieces,
                    num_pieces,
                    piece_length,
                    total_length as int,
                    peers,
                    i as int,
                )[q]);
                assert(assignments@[q]@ =~= round_robin(
                    pieces,
                    num_pieces,
                    piece_length,
                    total_length as int,
                    peers,
                    i + 1,
                )[q]);
            }
        }
        i += 1;
    }
    assert(assignment_views(assignments@) =~= round_robin(
        pieces,
        num_pieces,
        piece_length,
        total_length as int,
        peers,
        num_pieces as int,
    ));
    Ok(LeechPlan { num_pieces, piece_length, total_length, assignments })
}

/// What a seeder of `file_path` needs to know of a torrent.
pub fn seed_config(torrent: &Torrent, file_path: std::path::PathBuf) -> (r: SeedConfig)
    ensures
        r.file_path == file_path,
        r.piece_length == low_bits(torrent.piece_length as int),
        r.num_pieces == low_bits(torrent.pieces@.len() as int),
        r.info_hash == torrent.info_hash,
{
    SeedConfig {
        file_path,
        piece_length: truncated(torrent.piece_length),
        num_pieces: truncated_len(torrent.pieces.len()),
        info_hash: torrent.info_hash,
    }
}

/// Whether a download in which `done` pieces were written is complete.
pub fn leech_outcome(done: usize, num_pieces: u32) -> (r: Result<(), String>)
    ensures
        if low_bits(done as int) == num_pieces {
            r is Ok
        } else {
            r matches Err(text) && text@ == "only "@ + decimal_text(done as nat) + "/"@
                + decimal_text(num_pieces as nat) + " pieces downloaded successfully"@
        },
{
    if truncated_len(done) == num_pieces {
        return Ok(());
    }
    let mut text: String = "only ".to_string();
    push_decimal(&mut text, done as u64);
    text.append("/");
    push_decimal(&mut text, num_pieces as u64);
    text.append(" pieces downloaded successfully");
    Err(text)
}

} // verus!
