//! What holds of a whole download: every piece is asked for once, the pieces of
//! a torrent are those of the content that it describes, and written where they
//! belong they make up that content.

use crate::bencode::encoded;
use crate::digest::sha1_of;
use crate::download::SessionModel;
use crate::download_laws::{after_all, deliveries};
use crate::orchestrate::{
    all_peers, assignment, assignment_views, last_piece_fits, low_bits, peer_id_of,
    piece_length_of, plannable, round_robin, share, LeechPlan,
};
use crate::peer::MessageModel;
use crate::seed_laws::{assignment_of, seeders_can_be_downloaded_from, served_piece};
use crate::torrent::{
    parsed, piece_hashes, single_file_root, LayoutModel, Torrent, TorrentError, TorrentModel,
};
use crate::torrent_laws::{
    created_torrent_describes_its_content, lemma_piece_starts_inside, piece_count, piece_of,
};
use crate::wire::{be_bytes, be_bytes_read_back, be_number};
use vstd::arithmetic::div_mod::{
    lemma_div_pos_is_pos, lemma_fundamental_div_mod, lemma_fundamental_div_mod_converse,
};
use vstd::prelude::*;
use vstd::string::StringSliceAdditionalSpecFns;

verus! {

/// Different moments since the Unix epoch, down to the nanosecond, have different
/// peer ids.
pub proof fn peer_ids_tell_moments_apart(s1: u64, n1: u32, s2: u64, n2: u32)
    requires
        peer_id_of(s1, n1) == peer_id_of(s2, n2),
    ensures
        s1 == s2,
        n1 == n2,
{
    lemma_peer_id_parts(s1, n1);
    lemma_peer_id_parts(s2, n2);
}

/// What a peer id was made from can be read out of it.
proof fn lemma_peer_id_parts(secs: u64, nanos: u32)
    ensures
        be_number(peer_id_of(secs, nanos).subrange(8, 12), 0) == secs / 0x1_0000_0000,
        be_number(peer_id_of(secs, nanos).subrange(12, 16), 0) == secs % 0x1_0000_0000,
        be_number(peer_id_of(secs, nanos).subrange(16, 20), 0) == nanos,
{
    let id = peer_id_of(secs, nanos);
    let high = (secs / 0x1_0000_0000) as u32;
    let low = (secs % 0x1_0000_0000) as u32;
    assert(id.subrange(8, 12) =~= be_bytes(high));
    assert(id.subrange(12, 16) =~= be_bytes(low));
    assert(id.subrange(16, 20) =~= be_bytes(nanos));
    be_bytes_read_back(high);
    be_bytes_read_back(low);
    be_bytes_read_back(nanos);
}

/// The lengths of the pieces add up to that of the content, where what is left
/// for the last piece can be its length: all but the last are full, and the
/// last one ends where the content ends.
pub proof fn piece_lengths_add_up(num_pieces: u32, piece_length: u32, total_length: int)
    requires
        num_pieces > 0,
        0 <= total_length - piece_length * (num_pieces - 1) <= u32::MAX,
    ensures
        forall|i: u32|
            i < num_pieces - 1 ==> #[trigger] piece_length_of(
                i,
                num_pieces,
                piece_length,
                total_length,
            ) == piece_length,
        piece_length * (num_pieces - 1) + piece_length_of(
            (num_pieces - 1) as u32,
            num_pieces,
            piece_length,
            total_length,
        ) == total_length,
{
}

/// In a round-robin every piece is assigned to one peer, once: piece `i` to
/// peer `i % peers`, behind the pieces of that peer that come before it.
pub proof fn every_piece_is_assigned_once(
    pieces: Seq<[u8; 20]>,
    num_pieces: u32,
    piece_length: u32,
    total_length: int,
    peers: int,
    i: int,
)
    requires
        peers > 0,
        0 <= i < num_pieces,
    ensures
        ({
            let plan = round_robin(
                pieces,
                num_pieces,
                piece_length,
                total_length,
                peers,
                num_pieces as int,
            );
            &&& plan.len() == peers
            &&& 0 <= i % peers < peers
            &&& 0 <= i / peers < plan[i % peers].len()
            &&& plan[i % peers][i / peers] == assignment(
                pieces,
                num_pieces,
                piece_length,
                total_length,
                i,
            )
            &&& forall|p: int, k: int|
                0 <= p < peers && 0 <= k < plan[p].len() && (#[trigger] plan[p][k]).0 == i ==> p
                    == i % peers && k == i / peers
        }),
{
    let n = num_pieces as int;
    let plan = round_robin(pieces, num_pieces, piece_length, total_length, peers, n);
    let p = i % peers;
    let k = i / peers;
    lemma_fundamental_div_mod(i, peers);
    lemma_fundamental_div_mod(n, peers);
    lemma_div_pos_is_pos(i, peers);
    lemma_div_pos_is_pos(n, peers);
    assert(peers * k == k * peers) by (nonlinear_arith);
    lemma_place_is_in_share(n, peers, p, k);
    assert forall|q: int, j: int|
        0 <= q < peers && 0 <= j < plan[q].len() && (#[trigger] plan[q][j]).0 == i implies q
        == i % peers && j == i / peers by {
        lemma_place_is_in_share(n, peers, q, j);
        assert(q + j * peers == i);
        lemma_fundamental_div_mod_converse(i, peers, j, q);
    }
}

/// A peer is asked for its pieces in ascending order.
pub proof fn pieces_are_asked_for_in_order(
    pieces: Seq<[u8; 20]>,
    num_pieces: u32,
    piece_length: u32,
    total_length: int,
    peers: int,
    p: int,
)
    requires
        0 <= p < peers,
    ensures
        ({
            let assigned = round_robin(
                pieces,
                num_pieces,
                piece_length,
                total_length,
                peers,
                num_pieces as int,
            )[p];
            forall|j: int, k: int|
                0 <= j < k < assigned.len() ==> (#[trigger] assigned[j]).0 < (
                #[trigger] assigned[k]).0
        }),
{
    let n = num_pieces as int;
    let assigned = round_robin(pieces, num_pieces, piece_length, total_length, peers, n)[p];
    assert forall|j: int, k: int| 0 <= j < k < assigned.len() implies (#[trigger] assigned[j]).0
        < (#[trigger] assigned[k]).0 by {
        lemma_place_is_in_share(n, peers, p, j);
        lemma_place_is_in_share(n, peers, p, k);
        assert(0 <= j * peers < k * peers) by (nonlinear_arith)
            requires
                0 <= j < k,
                0 < peers,
        ;
    }
}

/// Peer `p` has a `k`-th piece just if there is a piece of that number.
proof fn lemma_place_is_in_share(n: int, peers: int, p: int, k: int)
    requires
        0 <= n,
        0 <= p < peers,
        0 <= k,
    ensures
        share(n, peers, p) >= 0,
        k < share(n, peers, p) <==> p + k * peers < n,
{
    let round = n / peers;
    let turn = n % peers;
    lemma_fundamental_div_mod(n, peers);
    lemma_div_pos_is_pos(n, peers);
    assert(peers * round == round * peers) by (nonlinear_arith);
    if k < round {
        assert(k * peers + peers <= round * peers) by (nonlinear_arith)
            requires
                k + 1 <= round,
                peers > 0,
        ;
    } else if k > round {
        assert(k * peers >= round * peers + peers) by (nonlinear_arith)
            requires
                k >= round + 1,
                peers > 0,
        ;
    }
}

/// Whether a torrent describes `content` in pieces of `piece_length` bytes.
pub open spec fn describes(t: Torrent, content: Seq<u8>, piece_length: u32) -> bool {
    &&& t.piece_length == piece_length
    &&& t@.layout == LayoutModel::Single(content.len() as int)
    &&& t.pieces@.len() == piece_count(content.len(), piece_length as nat)
    &&& forall|i: int|
        0 <= i < t.pieces@.len() ==> #[trigger] t.pieces@[i] == sha1_of(
            piece_of(content, piece_length as nat, i),
        )
}

/// A torrent that was read from a torrent file that was made for some content
/// describes that content.
pub proof fn created_torrents_describe_their_content(
    t: Torrent,
    name: Seq<char>,
    content: Seq<u8>,
    announce: Seq<char>,
    piece_length: u32,
)
    requires
        piece_length > 0,
        content.len() <= i64::MAX,
        encoded(
            single_file_root(
                announce,
                name,
                piece_length as int,
                content.len() as int,
                piece_hashes(content, piece_length as nat),
            ),
        ).len() <= usize::MAX,
        parsed(
            encoded(
                single_file_root(
                    announce,
                    name,
                    piece_length as int,
                    content.len() as int,
                    piece_hashes(content, piece_length as nat),
                ),
            ),
        ) == Ok::<TorrentModel, TorrentError>(t@),
    ensures
        describes(t, content, piece_length),
{
    created_torrent_describes_its_content(name, content, announce, piece_length as int);
    assert forall|i: int| 0 <= i < t.pieces@.len() implies #[trigger] t.pieces@[i] == sha1_of(
        piece_of(content, piece_length as nat, i),
    ) by {
        assert(t@.pieces[i] == t.pieces@[i]@);
        assert(t.pieces@[i] =~= sha1_of(piece_of(content, piece_length as nat, i)));
    }
}

/// Where piece `i` starts, how long it is, and whether another one follows.
proof fn lemma_piece(content: Seq<u8>, size: nat, i: int)
    requires
        size > 0,
        0 <= i < piece_count(content.len(), size),
    ensures
        0 <= i * size < content.len(),
        (i + 1) * size == i * size + size,
        piece_of(content, size, i).len() == if i + 1 < piece_count(content.len(), size) {
            size as int
        } else {
            content.len() - i * size
        },
        piece_of(content, size, i).len() <= size,
        i * size + piece_of(content, size, i).len() <= content.len(),
        forall|x: int|
            0 <= x < piece_of(content, size, i).len() ==> #[trigger] piece_of(content, size, i)[x]
                == content[i * size + x],
{
    let count = piece_count(content.len(), size);
    lemma_piece_starts_inside(content.len(), size, i);
    assert((i + 1) * size == i * size + size) by (nonlinear_arith);
    if i + 1 < count {
        lemma_piece_starts_inside(content.len(), size, i + 1);
    } else {
        lemma_fundamental_div_mod((content.len() + size - 1) as int, size as int);
        assert(size * count == count * size) by (nonlinear_arith);
    }
}

/// What is asked for, of a torrent that describes some content, is the pieces
/// of that content: each with its index, its length and its digest. The sizes
/// can be computed with.
pub proof fn assignments_are_the_pieces(
    t: Torrent,
    content: Seq<u8>,
    piece_length: u32,
    i: u32,
)
    requires
        describes(t, content, piece_length),
        piece_length > 0,
        content.len() <= i64::MAX,
        i < t.pieces@.len() <= u32::MAX,
    ensures
        low_bits(t.pieces@.len() as int) == t.pieces@.len(),
        low_bits(t.piece_length as int) == piece_length,
        last_piece_fits(
            t.pieces@.len() as u32,
            piece_length,
            content.len() as int,
        ),
        assignment(
            t.pieces@,
            t.pieces@.len() as u32,
            piece_length,
            content.len() as int,
            i as int,
        ) == assignment_of(content, piece_length, i),
{
    let count = t.pieces@.len();
    let size = piece_length as nat;
    lemma_piece(content, size, i as int);
    lemma_piece(content, size, count - 1);
    assert(piece_length * (count - 1) == (count - 1) * size) by (nonlinear_arith)
        requires
            size == piece_length,
    ;
}

/// The peers of a round-robin are asked for pieces of the content. Downloading
/// from them, where each of them has the content, ends for each of them with
/// just the pieces that it was asked for.
pub proof fn every_peer_yields_its_pieces(
    t: Torrent,
    content: Seq<u8>,
    piece_length: u32,
    peers: int,
    p: int,
    first: Seq<MessageModel>,
)
    requires
        describes(t, content, piece_length),
        piece_length > 0,
        content.len() <= i64::MAX,
        t.pieces@.len() <= u32::MAX,
        0 <= p < peers,
        forall|i: int| 0 <= i < first.len() ==> !(#[trigger] first[i] is Unchoke),
    ensures
        ({
            let count = t.pieces@.len();
            let assigned = round_robin(
                t.pieces@,
                count as u32,
                piece_length,
                content.len() as int,
                peers,
                count as int,
            )[p];
            let scripts = assigned.map_values(
                |a: (u32, u32, [u8; 20])| served_piece(content, piece_length, a.0),
            );
            after_all(
                SessionModel::started(assigned),
                first + (seq![MessageModel::Unchoke] + deliveries(scripts)),
            ) matches Ok(s) && s.done() && s.results == assigned.map_values(
                |a: (u32, u32, [u8; 20])|
                    (a.0, piece_of(content, piece_length as nat, a.0 as int)),
            )
        }),
{
    let count = t.pieces@.len();
    let assigned = round_robin(
        t.pieces@,
        count as u32,
        piece_length,
        content.len() as int,
        peers,
        count as int,
    )[p];
    let indices = assigned.map_values(|a: (u32, u32, [u8; 20])| a.0);
    assert forall|k: int| 0 <= k < assigned.len() implies #[trigger] indices[k] < count
        && assigned[k] == assignment_of(content, piece_length, indices[k]) by {
        lemma_place_is_in_share(count as int, peers, p, k);
        let i = p + k * peers;
        assert(0 <= k * peers) by (nonlinear_arith)
            requires
                0 <= k,
                0 < peers,
        ;
        assignments_are_the_pieces(t, content, piece_length, i as u32);
    }
    seeders_can_be_downloaded_from(content, piece_length, indices, first);
    assert(indices.map_values(|index: u32| assignment_of(content, piece_length, index))
        =~= assigned);
    assert(indices.map_values(|index: u32| served_piece(content, piece_length, index))
        =~= assigned.map_values(
        |a: (u32, u32, [u8; 20])| served_piece(content, piece_length, a.0),
    ));
    assert(indices.map_values(
        |index: u32| (index, piece_of(content, piece_length as nat, index as int)),
    ) =~= assigned.map_values(
        |a: (u32, u32, [u8; 20])| (a.0, piece_of(content, piece_length as nat, a.0 as int)),
    ));
}

/// A file after `data` was written to it from `offset` on. Where there was
/// nothing before `offset` there are zeros.
pub open spec fn written(file: Seq<u8>, offset: int, data: Seq<u8>) -> Seq<u8> {
    Seq::new(
        if data.len() == 0 || offset + data.len() <= file.len() {
            file.len()
        } else {
            (offset + data.len()) as nat
        },
        |x: int|
            if offset <= x < offset + data.len() {
                data[x - offset]
            } else if x < file.len() {
                file[x]
            } else {
                0
            },
    )
}

/// A file after the pieces of `content` were written to it where they start, in
/// the order that `order` gives.
pub open spec fn pieces_written(
    file: Seq<u8>,
    content: Seq<u8>,
    piece_length: u32,
    order: Seq<u32>,
) -> Seq<u8>
    decreases order.len(),
{
    if order.len() == 0 {
        file
    } else {
        written(
            pieces_written(file, content, piece_length, order.drop_last()),
            order.last() * piece_length,
            piece_of(content, piece_length as nat, order.last() as int),
        )
    }
}

proof fn lemma_pieces_written(
    file: Seq<u8>,
    content: Seq<u8>,
    piece_length: u32,
    order: Seq<u32>,
)
    requires
        piece_length > 0,
        forall|k: int|
            0 <= k < order.len() ==> #[trigger] order[k] < piece_count(
                content.len(),
                piece_length as nat,
            ),
    ensures
        ({
            let result = pieces_written(file, content, piece_length, order);
            &&& file.len() <= result.len()
            &&& result.len() <= file.len() || result.len() <= content.len()
            &&& forall|k: int|
                0 <= k < order.len() ==> #[trigger] order[k] * piece_length + piece_of(
                    content,
                    piece_length as nat,
                    order[k] as int,
                ).len() <= result.len()
            &&& forall|k: int, x: int|
                #![trigger order[k], result[x]]
                0 <= k < order.len() && order[k] * piece_length <= x < order[k] * piece_length
                    + piece_of(content, piece_length as nat, order[k] as int).len()
                    ==> result[x] == content[x]
            &&& forall|x: int|
                content.len() <= x < file.len() ==> #[trigger] result[x] == file[x]
        }),
    decreases order.len(),
{
    if order.len() > 0 {
        let before = order.drop_last();
        assert forall|k: int| 0 <= k < before.len() implies #[trigger] before[k] < piece_count(
            content.len(),
            piece_length as nat,
        ) by {
            assert(before[k] == order[k]);
        }
        lemma_pieces_written(file, content, piece_length, before);
        let last = order.last() as int;
        assert(order[order.len() - 1] < piece_count(content.len(), piece_length as nat));
        lemma_piece(content, piece_length as nat, last);
        let old_file = pieces_written(file, content, piece_length, before);
        let result = pieces_written(file, content, piece_length, order);
        let piece = piece_of(content, piece_length as nat, last);
        let offset = order.last() * piece_length;
        assert(offset + piece.len() <= content.len());
        assert(result == written(old_file, offset, piece));
        assert forall|k: int| 0 <= k < order.len() implies #[trigger] order[k] * piece_length
            + piece_of(content, piece_length as nat, order[k] as int).len() <= result.len() by {
            if k < order.len() - 1 {
                assert(before[k] == order[k]);
            }
        }
        assert forall|k: int, x: int|
            #![trigger order[k], result[x]]
            0 <= k < order.len() && order[k] * piece_length <= x < order[k] * piece_length
                + piece_of(content, piece_length as nat, order[k] as int).len() implies result[x]
            == content[x] by {
            lemma_piece(content, piece_length as nat, order[k] as int);
            if offset <= x < offset + piece.len() {
                assert(result[x] == piece[x - offset]);
            } else {
                assert(k < order.len() - 1);
                assert(before[k] == order[k]);
                assert(old_file[x] == content[x]);
            }
        }
        assert forall|x: int| content.len() <= x < file.len() implies #[trigger] result[x]
            == file[x] by {
            assert(old_file[x] == file[x]);
        }
    }
}

/// Writing every piece where it starts, in any order, makes up the content. A
/// file that was longer before keeps what it had behind it.
pub proof fn pieces_make_up_the_content(
    file: Seq<u8>,
    content: Seq<u8>,
    piece_length: u32,
    order: Seq<u32>,
)
    requires
        piece_length > 0,
        piece_count(content.len(), piece_length as nat) <= u32::MAX,
        forall|k: int|
            0 <= k < order.len() ==> #[trigger] order[k] < piece_count(
                content.len(),
                piece_length as nat,
            ),
        forall|i: u32|
            i < piece_count(content.len(), piece_length as nat) ==> #[trigger] order.contains(i),
    ensures
        pieces_written(file, content, piece_length, order) == content + if file.len()
            > content.len() {
            file.skip(content.len() as int)
        } else {
            Seq::empty()
        },
{
    let size = piece_length as nat;
    let result = pieces_written(file, content, piece_length, order);
    lemma_pieces_written(file, content, piece_length, order);
    assert forall|x: int| 0 <= x < content.len() implies x < result.len() && #[trigger] result[x]
        == content[x] by {
        let i = x / (piece_length as int);
        lemma_piece_at(content, piece_length, x);
        assert(order.contains(i as u32));
        let k = choose|k: int| 0 <= k < order.len() && order[k] == i as u32;
        assert(order[k] as int == i);
        assert(order[k] * piece_length == i * piece_length);
        assert(result[x] == content[x]);
    }
    if content.len() > 0 {
        assert(result[content.len() - 1] == content[content.len() - 1]);
    }
    assert(result =~= content + if file.len() > content.len() {
        file.skip(content.len() as int)
    } else {
        Seq::empty()
    });
}

/// Every byte of the content is in a piece.
proof fn lemma_piece_at(content: Seq<u8>, piece_length: u32, x: int)
    requires
        piece_length > 0,
        0 <= x < content.len(),
    ensures
        ({
            let i = x / (piece_length as int);
            &&& 0 <= i < piece_count(content.len(), piece_length as nat)
            &&& i * piece_length <= x < i * piece_length + piece_of(
                content,
                piece_length as nat,
                i,
            ).len()
        }),
{
    let size = piece_length as int;
    let i = x / size;
    let n = content.len() + size - 1;
    let count = n / size;
    lemma_fundamental_div_mod(x, size);
    lemma_fundamental_div_mod(n, size);
    lemma_div_pos_is_pos(x, size);
    assert(size * i == i * size) by (nonlinear_arith);
    assert(i < count) by (nonlinear_arith)
        requires
            size * i <= x < content.len(),
            n == content.len() + size - 1,
            n == size * count + n % size,
            0 <= n % size < size,
            size > 0,
    ;
    lemma_piece(content, piece_length as nat, i);
}

/// All of `count` peers: every number below `count` is there, once, and no other.
pub proof fn no_peer_is_left_out(count: nat)
    requires
        count <= usize::MAX,
    ensures
        forall|p: usize| p < count ==> #[trigger] all_peers(count).contains(p),
        forall|i: int| 0 <= i < all_peers(count).len() ==> #[trigger] all_peers(count)[i] < count,
        forall|i: int, j: int|
            0 <= i < j < all_peers(count).len() ==> #[trigger] all_peers(count)[i]
                != #[trigger] all_peers(count)[j],
{
    assert forall|p: usize| p < count implies #[trigger] all_peers(count).contains(p) by {
        assert(all_peers(count)[p as int] == p);
    }
}

/// The peers that a plan says to connect to: every peer, and so every one that
/// is asked for a piece, once, and no others.
pub proof fn every_peer_with_pieces_is_connected_to(plan: LeechPlan, connected: Seq<usize>)
    requires
        connected == all_peers(plan.assignments@.len()),
        plan.assignments@.len() <= usize::MAX,
    ensures
        forall|p: usize|
            p < plan.assignments@.len() && (#[trigger] plan.assignments@[p as int])@.len() > 0
                ==> connected.contains(p),
        forall|i: int|
            0 <= i < connected.len() ==> #[trigger] connected[i] < plan.assignments@.len(),
        forall|i: int, j: int|
            0 <= i < j < connected.len() ==> #[trigger] connected[i] != #[trigger] connected[j],
{
    no_peer_is_left_out(plan.assignments@.len());
    assert forall|p: usize|
        p < plan.assignments@.len() && (#[trigger] plan.assignments@[p as int])@.len()
            > 0 implies connected.contains(p) by {
        assert(all_peers(plan.assignments@.len()).contains(p));
    }
}

/// What a round-robin asks of which peer, in numbers: there is a list for every
/// peer, the `k`-th piece that peer `p` is asked for is piece `p + k * peers`,
/// with the digest that the torrent gives for it and the length of a piece, or
/// what is left of the content for the last piece, and the list stops only where
/// there is no further piece.
pub proof fn peers_are_asked_in_turn(
    pieces: Seq<[u8; 20]>,
    num_pieces: u32,
    piece_length: u32,
    total_length: int,
    peers: int,
    p: int,
    k: int,
)
    requires
        0 <= p < peers,
        0 <= k,
    ensures
        ({
            let plan = round_robin(
                pieces,
                num_pieces,
                piece_length,
                total_length,
                peers,
                num_pieces as int,
            );
            let i = p + k * peers;
            &&& plan.len() == peers
            &&& k < plan[p].len() <==> i < num_pieces
            &&& k < plan[p].len() ==> {
                &&& plan[p][k].0 == i
                &&& plan[p][k].2 == pieces[i]
                &&& i + 1 < num_pieces ==> plan[p][k].1 == piece_length
                &&& i + 1 == num_pieces ==> plan[p][k].1 == (total_length - piece_length * i)
                    % 0x1_0000_0000
            }
        }),
{
    lemma_place_is_in_share(num_pieces as int, peers, p, k);
    assert(0 <= k * peers) by (nonlinear_arith)
        requires
            0 <= k,
            0 < peers,
    ;
}

/// The low 32 bits of a number are below 2^32, and differ from the number by a
/// multiple of that.
pub proof fn low_bits_are_a_remainder(n: int)
    ensures
        (n - low_bits(n)) % 0x1_0000_0000 == 0,
        0 <= n <= u32::MAX ==> low_bits(n) == n,
{
}

/// Which torrents can be planned for: the lengths of the files can be added up in
/// an `i64`, and, where there is a piece, so can what the other pieces take up
/// and what is left for the last one.
pub proof fn plannable_torrents(t: Torrent)
    ensures
        plannable(t) <==> {
            let count = t.pieces@.len() % 0x1_0000_0000;
            let full = (t.piece_length as int % 0x1_0000_0000) * (count - 1);
            &&& t@.layout.total_fits()
            &&& count > 0 ==> full <= i64::MAX && t@.layout.total() - full >= i64::MIN
        },
{
}

/// A torrent that describes some content can be planned for.
pub proof fn described_content_can_be_planned_for(t: Torrent, content: Seq<u8>, piece_length: u32)
    requires
        describes(t, content, piece_length),
        piece_length > 0,
        content.len() <= i64::MAX,
        t.pieces@.len() <= u32::MAX,
    ensures
        plannable(t),
{
    if t.pieces@.len() > 0 {
        assignments_are_the_pieces(t, content, piece_length, 0);
    }
}

/// A peer id is twenty bytes long: `-RS0001-`, and then, most significant byte
/// first, the seconds in eight bytes and the nanoseconds in four.
pub proof fn peer_ids_hold_the_time(secs: u64, nanos: u32)
    ensures
        ({
            let id = peer_id_of(secs, nanos);
            &&& id.len() == 20
            &&& id.take(8) == "-RS0001-".spec_bytes()
            &&& secs == id[8] * 0x100_0000_0000_0000 + id[9] * 0x1_0000_0000_0000 + id[10]
                * 0x100_0000_0000 + id[11] * 0x1_0000_0000 + id[12] * 0x100_0000 + id[13]
                * 0x1_0000 + id[14] * 0x100 + id[15]
            &&& nanos == id[16] * 0x100_0000 + id[17] * 0x1_0000 + id[18] * 0x100 + id[19]
        }),
{
    let id = peer_id_of(secs, nanos);
    reveal_strlit("-RS0001-");
    broadcast use vstd::string::is_ascii_spec_bytes;

    assert("-RS0001-".is_ascii());
    assert(id.take(8) =~= "-RS0001-".spec_bytes());
    lemma_peer_id_parts(secs, nanos);
}

/// The lists of a plan stand for as many lists, each in its place.
pub proof fn plans_keep_their_lists(v: Seq<Vec<(u32, u32, [u8; 20])>>)
    ensures
        assignment_views(v).len() == v.len(),
        forall|p: int| 0 <= p < v.len() ==> assignment_views(v)[p] == (#[trigger] v[p])@,
{
}

} // verus!
