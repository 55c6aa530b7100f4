//! What holds of seeding as a whole: what a bitfield announces pins it down,
//! and a seeder that has the content is one that can be downloaded from.

use crate::digest::sha1_of;
use crate::download::{
    block_count, block_length, blocks_of, lemma_block_count, lemma_times_block_size, PieceModel,
    SessionModel, BLOCK_SIZE,
};
use crate::download_laws::{
    after_all, answer, blocks_tile_the_piece, delivers, deliveries, downloaded, honest,
    honest_peers_are_downloaded_from, verified,
};
use crate::peer::MessageModel;
use crate::seed::{announces, bit, block_offset, is_full_bitfield};
use crate::torrent_laws::{lemma_piece_starts_inside, piece_count, piece_of};
use vstd::prelude::*;

verus! {

/// Bytes with the same bits are the same.
proof fn lemma_same_bits(a: u8, b: u8)
    by (bit_vector)
    requires
        (a >> 0u8) & 1 == 1 <==> (b >> 0u8) & 1 == 1,
        (a >> 1u8) & 1 == 1 <==> (b >> 1u8) & 1 == 1,
        (a >> 2u8) & 1 == 1 <==> (b >> 2u8) & 1 == 1,
        (a >> 3u8) & 1 == 1 <==> (b >> 3u8) & 1 == 1,
        (a >> 4u8) & 1 == 1 <==> (b >> 4u8) & 1 == 1,
        (a >> 5u8) & 1 == 1 <==> (b >> 5u8) & 1 == 1,
        (a >> 6u8) & 1 == 1 <==> (b >> 6u8) & 1 == 1,
        (a >> 7u8) & 1 == 1 <==> (b >> 7u8) & 1 == 1,
    ensures
        a == b,
{
}

/// There is one bitfield that announces all pieces and nothing else.
pub proof fn full_bitfields_are_unique(a: Seq<u8>, b: Seq<u8>, num_pieces: u32)
    requires
        is_full_bitfield(a, num_pieces),
        is_full_bitfield(b, num_pieces),
    ensures
        a == b,
{
    assert forall|j: int| 0 <= j < a.len() implies a[j] == b[j] by {
        assert forall|k: int| 0 <= k < 8 implies bit(a[j], #[trigger] (k as u8)) == bit(
            b[j],
            k as u8,
        ) by {
            let i = 8 * j + (7 - k);
            assert(i / 8 == j && i % 8 == 7 - k);
            assert(announces(a, i) == announces(b, i));
        }
        assert(bit(a[j], 0int as u8) == bit(b[j], 0int as u8));
        assert(bit(a[j], 1int as u8) == bit(b[j], 1int as u8));
        assert(bit(a[j], 2int as u8) == bit(b[j], 2int as u8));
        assert(bit(a[j], 3int as u8) == bit(b[j], 3int as u8));
        assert(bit(a[j], 4int as u8) == bit(b[j], 4int as u8));
        assert(bit(a[j], 5int as u8) == bit(b[j], 5int as u8));
        assert(bit(a[j], 6int as u8) == bit(b[j], 6int as u8));
        assert(bit(a[j], 7int as u8) == bit(b[j], 7int as u8));
        lemma_same_bits(a[j], b[j]);
    }
    assert(a =~= b);
}

/// What a seeder whose file holds `content` sends for a request.
pub open spec fn served(content: Seq<u8>, piece_length: u32, request: MessageModel) -> MessageModel
    recommends
        request is Request,
{
    let index = request->Request_index;
    let begin = request->Request_begin;
    let offset = block_offset(index, piece_length, begin);
    MessageModel::Piece {
        index,
        begin,
        block: content.subrange(offset, offset + request->Request_length),
    }
}

/// Piece `index` of `content` as something to download.
pub open spec fn assignment_of(content: Seq<u8>, piece_length: u32, index: u32) -> (
    u32,
    u32,
    [u8; 20],
) {
    let piece = piece_of(content, piece_length as nat, index as int);
    (index, piece.len() as u32, sha1_of(piece))
}

/// What a seeder sends for the requests of a piece.
pub open spec fn served_piece(content: Seq<u8>, piece_length: u32, index: u32) -> Seq<
    MessageModel,
> {
    PieceModel::started(assignment_of(content, piece_length, index)).requests().map_values(
        |m: MessageModel| served(content, piece_length, m),
    )
}

/// A piece is no longer than the piece length.
pub proof fn pieces_are_no_longer(content: Seq<u8>, piece_length: u32, index: u32)
    requires
        index < piece_count(content.len(), piece_length as nat),
        piece_length > 0,
    ensures
        0 < piece_of(content, piece_length as nat, index as int).len() <= piece_length,
        block_offset(index, piece_length, 0) + piece_of(
            content,
            piece_length as nat,
            index as int,
        ).len() <= content.len(),
{
    lemma_piece_starts_inside(content.len(), piece_length as nat, index as int);
    assert((index + 1) * piece_length == index * piece_length + piece_length) by (nonlinear_arith);
}

/// The answers of a seeder to the requests for a piece deliver that piece.
pub proof fn seeders_deliver(content: Seq<u8>, piece_length: u32, index: u32)
    requires
        index < piece_count(content.len(), piece_length as nat),
        piece_length > 0,
    ensures
        ({
            let piece = piece_of(content, piece_length as nat, index as int);
            delivers(
                index,
                piece,
                served_piece(content, piece_length, index),
                Seq::new(block_count(piece.len() as u32), |i: int| i),
            )
        }),
{
    let piece = piece_of(content, piece_length as nat, index as int);
    let len = piece.len() as u32;
    let count = block_count(len);
    let which = Seq::new(count, |i: int| i);
    let messages = served_piece(content, piece_length, index);
    pieces_are_no_longer(content, piece_length, index);
    lemma_piece_starts_inside(content.len(), piece_length as nat, index as int);
    let start = index * piece_length;
    assert((index + 1) * piece_length == start + piece_length) by (nonlinear_arith)
        requires
            start == index * piece_length,
    ;
    assert(piece =~= content.subrange(start, start + len));
    blocks_tile_the_piece(len);
    lemma_block_count(len);
    assert forall|k: int| 0 <= k < count implies messages[k] == answer(index, piece, k) by {
        lemma_times_block_size(k);
        lemma_times_block_size(count as int);
        let begin = k * BLOCK_SIZE;
        let length = block_length(len, k);
        let offset = block_offset(index, piece_length, begin as u32);
        assert(0 < blocks_of(len)[k].1);
        assert(begin + length <= len);
        assert(content.subrange(offset, offset + length) =~= piece.subrange(
            begin,
            begin + length,
        ));
    }
    assert forall|n: int| 0 <= n < count implies which.contains(n) by {
        assert(which[n] == n);
    }
}

/// Downloading any pieces of a torrent from a seeder that has its content ends
/// with just those pieces of the content.
pub proof fn seeders_can_be_downloaded_from(
    content: Seq<u8>,
    piece_length: u32,
    indices: Seq<u32>,
    first: Seq<MessageModel>,
)
    requires
        piece_length > 0,
        forall|i: int|
            0 <= i < indices.len() ==> #[trigger] indices[i] < piece_count(
                content.len(),
                piece_length as nat,
            ),
        forall|i: int| 0 <= i < first.len() ==> !(#[trigger] first[i] is Unchoke),
    ensures
        ({
            let assignments = indices.map_values(
                |index: u32| assignment_of(content, piece_length, index),
            );
            let scripts = indices.map_values(
                |index: u32| served_piece(content, piece_length, index),
            );
            after_all(
                SessionModel::started(assignments),
                first + (seq![MessageModel::Unchoke] + deliveries(scripts)),
            ) matches Ok(s) && s.done() && s.results == indices.map_values(
                |index: u32| (index, piece_of(content, piece_length as nat, index as int)),
            )
        }),
{
    let assignments = indices.map_values(
        |index: u32| assignment_of(content, piece_length, index),
    );
    let scripts = indices.map_values(|index: u32| served_piece(content, piece_length, index));
    let data = indices.map_values(
        |index: u32| piece_of(content, piece_length as nat, index as int),
    );
    let which = data.map_values(
        |piece: Seq<u8>| Seq::new(block_count(piece.len() as u32), |i: int| i),
    );
    assert forall|i: int| 0 <= i < assignments.len() implies verified(
        (assignments[i].0, #[trigger] data[i]),
        assignments[i],
    ) && delivers(assignments[i].0, data[i], scripts[i], which[i]) by {
        seeders_deliver(content, piece_length, indices[i]);
        pieces_are_no_longer(content, piece_length, indices[i]);
    }
    assert(honest(assignments, data, scripts, which));
    honest_peers_are_downloaded_from(assignments, data, first, scripts, which);
    assert(downloaded(assignments, data) =~= indices.map_values(
        |index: u32| (index, piece_of(content, piece_length as nat, index as int)),
    ));
}

/// A byte of which just the `m` most significant bits are set.
proof fn lemma_top_bits(b: u8, m: u8)
    by (bit_vector)
    requires
        1 <= m <= 8,
        (b >> 7u8) & 1 == 1 <==> 0 < m,
        (b >> 6u8) & 1 == 1 <==> 1 < m,
        (b >> 5u8) & 1 == 1 <==> 2 < m,
        (b >> 4u8) & 1 == 1 <==> 3 < m,
        (b >> 3u8) & 1 == 1 <==> 4 < m,
        (b >> 2u8) & 1 == 1 <==> 5 < m,
        (b >> 1u8) & 1 == 1 <==> 6 < m,
        (b >> 0u8) & 1 == 1 <==> 7 < m,
    ensures
        m == 1 ==> b == 0x80,
        m == 2 ==> b == 0xc0,
        m == 3 ==> b == 0xe0,
        m == 4 ==> b == 0xf0,
        m == 5 ==> b == 0xf8,
        m == 6 ==> b == 0xfc,
        m == 7 ==> b == 0xfe,
        m == 8 ==> b == 0xff,
{
}

/// The bytes of a bitfield that announces all pieces, one by one: there is one for
/// every eight pieces and one for those left over. All are 0xff but for the one
/// of those left over, in which one bit is set for each of them, the most
/// significant first.
pub proof fn full_bitfields_byte_by_byte(bitfield: Seq<u8>, num_pieces: u32)
    requires
        is_full_bitfield(bitfield, num_pieces),
    ensures
        8 * (bitfield.len() - 1) < num_pieces <= 8 * bitfield.len(),
        forall|j: int|
            0 <= j < bitfield.len() ==> {
                let left = num_pieces - 8 * j;
                &&& left >= 8 ==> #[trigger] bitfield[j] == 0xff
                &&& left == 7 ==> bitfield[j] == 0xfe
                &&& left == 6 ==> bitfield[j] == 0xfc
                &&& left == 5 ==> bitfield[j] == 0xf8
                &&& left == 4 ==> bitfield[j] == 0xf0
                &&& left == 3 ==> bitfield[j] == 0xe0
                &&& left == 2 ==> bitfield[j] == 0xc0
                &&& left == 1 ==> bitfield[j] == 0x80
            },
{
    assert forall|j: int| 0 <= j < bitfield.len() implies {
        let left = num_pieces - 8 * j;
        &&& left >= 8 ==> #[trigger] bitfield[j] == 0xff
        &&& left == 7 ==> bitfield[j] == 0xfe
        &&& left == 6 ==> bitfield[j] == 0xfc
        &&& left == 5 ==> bitfield[j] == 0xf8
        &&& left == 4 ==> bitfield[j] == 0xf0
        &&& left == 3 ==> bitfield[j] == 0xe0
        &&& left == 2 ==> bitfield[j] == 0xc0
        &&& left == 1 ==> bitfield[j] == 0x80
    } by {
        let left = num_pieces - 8 * j;
        let m: u8 = if left >= 8 {
            8
        } else {
            left as u8
        };
        lemma_announced(bitfield, num_pieces, j, 0);
        lemma_announced(bitfield, num_pieces, j, 1);
        lemma_announced(bitfield, num_pieces, j, 2);
        lemma_announced(bitfield, num_pieces, j, 3);
        lemma_announced(bitfield, num_pieces, j, 4);
        lemma_announced(bitfield, num_pieces, j, 5);
        lemma_announced(bitfield, num_pieces, j, 6);
        lemma_announced(bitfield, num_pieces, j, 7);
        lemma_top_bits(bitfield[j], m);
    }
}

/// The bit for piece `8 * j + k`.
proof fn lemma_announced(bitfield: Seq<u8>, num_pieces: u32, j: int, k: int)
    requires
        is_full_bitfield(bitfield, num_pieces),
        0 <= j < bitfield.len(),
        0 <= k < 8,
    ensures
        bit(bitfield[j], (7 - k) as u8) <==> 8 * j + k < num_pieces,
{
    let i = 8 * j + k;
    assert(i / 8 == j && i % 8 == k);
    assert(announces(bitfield, i) <==> i < num_pieces);
}

/// Where blocks stand in the file: the first byte of the first piece at the start,
/// every byte of a piece behind the one before it, and every piece where the one
/// before it ends.
pub proof fn blocks_stand_one_behind_another(index: u32, piece_length: u32, begin: u32)
    ensures
        block_offset(0, piece_length, 0) == 0,
        begin < u32::MAX ==> block_offset(index, piece_length, (begin + 1) as u32) == block_offset(
            index,
            piece_length,
            begin,
        ) + 1,
        index < u32::MAX ==> block_offset((index + 1) as u32, piece_length, begin) == block_offset(
            index,
            piece_length,
            begin,
        ) + piece_length,
{
    assert((index + 1) * piece_length == index * piece_length + piece_length) by (nonlinear_arith);
}

} // verus!
