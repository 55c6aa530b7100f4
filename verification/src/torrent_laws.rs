//! What holds of creating and parsing torrent files taken together.

use crate::bencode::{
    decoded, encoded, keys_increase, lookup, precedes, span_of, BError, BModel,
};
use crate::bencode_laws::{
    decoding_undoes_encoding, lookup_finds_the_entry, spans_hold_the_values,
    spans_of_canonical_input_are_canonical,
};
use crate::digest::sha1_of;
use crate::torrent::{
    digests_of, field, file_of, files_of, parsed, path_of, piece_hashes, piece_size, raw_info,
    single_file_info, single_file_root, sum_of_lengths, torrent_of, FileEntry, FileLayout, FileModel,
    LayoutModel, Torrent, TorrentError, TorrentModel,
};
use vstd::arithmetic::div_mod::lemma_fundamental_div_mod;
use vstd::prelude::*;
use vstd::string::StringSliceAdditionalSpecFns;
use vstd::utf8::{
    decode_utf8, encode_utf8, encode_utf8_decode_utf8, encode_utf8_valid_utf8, valid_utf8,
};

verus! {

/// The keys of a single-file torrent find the entries that they name.
proof fn lemma_single_file_lookups(
    announce: Seq<char>,
    name: Seq<char>,
    piece_length: int,
    total_length: int,
    pieces: Seq<u8>,
)
    ensures
        ({
            let info = single_file_info(name, piece_length, total_length, pieces);
            let root = single_file_root(announce, name, piece_length, total_length, pieces);
            &&& root.get("announce".spec_bytes()) == Some(BModel::Bytes(encode_utf8(announce)))
            &&& root.get("info".spec_bytes()) == Some(info)
            &&& info.get("length".spec_bytes()) == Some(BModel::Int(total_length))
            &&& info.get("name".spec_bytes()) == Some(BModel::Bytes(encode_utf8(name)))
            &&& info.get("piece length".spec_bytes()) == Some(BModel::Int(piece_length))
            &&& info.get("pieces".spec_bytes()) == Some(BModel::Bytes(pieces))
            &&& keys_increase(info->Dict_0)
            &&& keys_increase(root->Dict_0)
        }),
{
    crate::torrent::lemma_keys_in_order();
    crate::bencode::precedes_is_total("announce".spec_bytes(), "announce".spec_bytes());
    crate::bencode::precedes_is_total("length".spec_bytes(), "length".spec_bytes());
    crate::bencode::precedes_is_total("name".spec_bytes(), "name".spec_bytes());
    crate::bencode::precedes_is_total("piece length".spec_bytes(), "piece length".spec_bytes());
    let info = single_file_info(name, piece_length, total_length, pieces)->Dict_0;
    let root = single_file_root(announce, name, piece_length, total_length, pieces)->Dict_0;
    let info1 = info.drop_first();
    let info2 = info1.drop_first();
    let info3 = info2.drop_first();
    assert(info1[0] == info[1]);
    assert(info2[0] == info[2]);
    assert(info3[0] == info[3]);
    assert(root.drop_first()[0] == root[1]);
    assert(lookup(root.drop_first(), "info".spec_bytes()) == Some(root[1].1));
    assert(lookup(info3, "pieces".spec_bytes()) == Some(info[3].1));
    assert(lookup(info2, "pieces".spec_bytes()) == Some(info[3].1));
    assert(lookup(info1, "pieces".spec_bytes()) == Some(info[3].1));
    assert(lookup(info2, "piece length".spec_bytes()) == Some(info[2].1));
    assert(lookup(info1, "piece length".spec_bytes()) == Some(info[2].1));
    assert(lookup(info1, "name".spec_bytes()) == Some(info[1].1));
}

/// A created torrent file parses, and the torrent says what went into it. The
/// `info_hash` is the digest of the `info` dictionary.
pub proof fn created_torrents_parse(
    announce: Seq<char>,
    name: Seq<char>,
    piece_length: int,
    total_length: int,
    pieces: Seq<u8>,
)
    requires
        i64::MIN <= piece_length <= i64::MAX,
        i64::MIN <= total_length <= i64::MAX,
        pieces.len() % 20 == 0,
        encoded(single_file_root(announce, name, piece_length, total_length, pieces)).len()
            <= usize::MAX,
    ensures
        parsed(encoded(single_file_root(announce, name, piece_length, total_length, pieces))) == Ok::<
            TorrentModel,
            TorrentError,
        >(
            TorrentModel {
                announce,
                name,
                piece_length,
                pieces: digests_of(pieces)->Ok_0,
                layout: LayoutModel::Single(total_length),
                info_hash: sha1_of(
                    encoded(single_file_info(name, piece_length, total_length, pieces)),
                )@,
            },
        ),
{
    let info = single_file_info(name, piece_length, total_length, pieces);
    let root = single_file_root(announce, name, piece_length, total_length, pieces);
    lemma_single_file_lookups(announce, name, piece_length, total_length, pieces);
    assert(info.wf()) by {
        assert(BModel::Int(total_length).wf());
        assert(BModel::Bytes(encode_utf8(name)).wf());
        assert(BModel::Int(piece_length).wf());
        assert(BModel::Bytes(pieces).wf());
    }
    assert(root.wf()) by {
        assert(BModel::Bytes(encode_utf8(announce)).wf());
    }
    decoding_undoes_encoding(root);
    spans_of_canonical_input_are_canonical(root, "info".spec_bytes());
    encode_utf8_valid_utf8(announce);
    encode_utf8_decode_utf8(announce);
    encode_utf8_valid_utf8(name);
    encode_utf8_decode_utf8(name);
}

/// The number of pieces of `size` bytes that `len` bytes are cut into.
pub open spec fn piece_count(len: nat, size: nat) -> nat {
    (len + size - 1) as nat / size
}

/// The bytes of piece `i` of `content`.
pub open spec fn piece_of(content: Seq<u8>, size: nat, i: int) -> Seq<u8> {
    content.subrange(
        i * size,
        if (i + 1) * size <= content.len() {
            (i + 1) * size
        } else {
            content.len() as int
        },
    )
}

/// Every piece starts inside the content.
pub(crate) proof fn lemma_piece_starts_inside(len: nat, size: nat, i: int)
    requires
        size > 0,
        0 <= i < piece_count(len, size),
    ensures
        0 <= i * size < len,
{
    let count = piece_count(len, size);
    lemma_fundamental_div_mod((len + size - 1) as int, size as int);
    assert(0 <= i * size <= (count - 1) * size) by (nonlinear_arith)
        requires
            0 <= i <= count - 1,
            size > 0,
    ;
    assert((count - 1) * size == size * count - size) by (nonlinear_arith);
}

/// A created torrent file has one digest for every piece of the content, in
/// order, and each of them is the digest of its piece.
pub proof fn piece_hashes_are_those_of_the_pieces(content: Seq<u8>, size: nat)
    requires
        size > 0,
    ensures
        digests_of(piece_hashes(content, size)) matches Ok(digests) && {
            &&& digests.len() == piece_count(content.len(), size)
            &&& forall|i: int|
                0 <= i < digests.len() ==> #[trigger] digests[i] == sha1_of(
                    piece_of(content, size, i),
                )@
        },
    decreases content.len(),
{
    let hashes = piece_hashes(content, size);
    let count = piece_count(content.len(), size);
    if content.len() == 0 {
        assert(count == 0) by (nonlinear_arith)
            requires
                count == (size - 1) as nat / size,
                size > 0,
        ;
    } else if content.len() <= size {
        let len = content.len();
        assert(count == 1) by (nonlinear_arith)
            requires
                count == (len + size - 1) as nat / size,
                0 < len <= size,
        ;
        assert(piece_of(content, size, 0) =~= content);
        assert(hashes.subrange(0, 20) =~= hashes);
    } else {
        let rest = content.skip(size as int);
        let tail = piece_hashes(rest, size);
        let first = sha1_of(content.take(size as int))@;
        piece_hashes_are_those_of_the_pieces(rest, size);
        let rest_count = piece_count(rest.len(), size);
        let len = content.len();
        assert(count == rest_count + 1) by (nonlinear_arith)
            requires
                count == (len + size - 1) as nat / size,
                rest_count == (len - size + size - 1) as nat / size,
                size > 0,
                len > size,
        ;
        let digests = Seq::new(hashes.len() / 20, |i: int| hashes.subrange(20 * i, 20 * i + 20));
        let others = digests_of(tail)->Ok_0;
        assert forall|i: int| 0 <= i < digests.len() implies #[trigger] digests[i] == sha1_of(
            piece_of(content, size, i),
        )@ by {
            if i == 0 {
                assert(hashes.subrange(0, 20) =~= first);
                assert(piece_of(content, size, 0) =~= content.take(size as int));
            } else {
                assert(hashes.subrange(20 * i, 20 * i + 20) =~= tail.subrange(
                    20 * (i - 1),
                    20 * (i - 1) + 20,
                ));
                assert(others[i - 1] == tail.subrange(20 * (i - 1), 20 * (i - 1) + 20));
                assert((i + 1) * size == i * size + size && i * size == (i - 1) * size + size)
                    by (nonlinear_arith);
                lemma_piece_starts_inside(len, size, i);
                assert(piece_of(content, size, i) =~= piece_of(rest, size, i - 1));
            }
        }
    }
}

/// The torrent file of any content parses, and the torrent has the given name,
/// announce URL and piece length, a single file of the length of the content,
/// and for every piece of the content its digest.
pub proof fn created_torrent_describes_its_content(
    name: Seq<char>,
    content: Seq<u8>,
    announce: Seq<char>,
    piece_length: int,
)
    requires
        i64::MIN <= piece_length <= i64::MAX,
        content.len() <= i64::MAX,
        encoded(
            single_file_root(
                announce,
                name,
                piece_length,
                content.len() as int,
                piece_hashes(content, piece_size(piece_length)),
            ),
        ).len() <= usize::MAX,
    ensures
        parsed(
            encoded(
                single_file_root(
                    announce,
                    name,
                    piece_length,
                    content.len() as int,
                    piece_hashes(content, piece_size(piece_length)),
                ),
            ),
        ) matches Ok(t) && {
            &&& t.announce == announce
            &&& t.name == name
            &&& t.piece_length == piece_length
            &&& t.layout == LayoutModel::Single(content.len() as int)
            &&& t.pieces.len() == piece_count(content.len(), piece_size(piece_length))
            &&& forall|i: int|
                0 <= i < t.pieces.len() ==> #[trigger] t.pieces[i] == sha1_of(
                    piece_of(content, piece_size(piece_length), i),
                )@
        },
{
    let pieces = piece_hashes(content, piece_size(piece_length));
    piece_hashes_are_those_of_the_pieces(content, piece_size(piece_length));
    created_torrents_parse(announce, name, piece_length, content.len() as int, pieces);
}

/// The `info_hash` of every torrent file that parses is the digest of the very
/// bytes of the `info` dictionary that the file holds: those bytes, decoded
/// alone, give that dictionary.
pub proof fn info_hash_is_of_the_bytes_in_the_file(file: Seq<u8>)
    requires
        parsed(file) is Ok,
    ensures
        span_of(file, "info".spec_bytes()) matches Some((from, to)) && {
            &&& 0 < from < to <= file.len()
            &&& parsed(file)->Ok_0.info_hash == sha1_of(file.subrange(from, to))@
            &&& decoded(file)->Ok_0.get("info".spec_bytes()) matches Some(info)
            &&& decoded(file.subrange(from, to)) == Ok::<BModel, BError>(info)
        },
{
    spans_hold_the_values(file, "info".spec_bytes());
}

/// The `info_hash` depends on the bytes of the `info` dictionary alone: torrent
/// files that share those bytes have one `info` dictionary and one `info_hash`,
/// wherever they are announced.
pub proof fn info_hash_identifies_the_info(a: Seq<u8>, b: Seq<u8>)
    requires
        parsed(a) is Ok,
        parsed(b) is Ok,
        raw_info(a) == raw_info(b),
    ensures
        parsed(a)->Ok_0.info_hash == parsed(b)->Ok_0.info_hash,
        field(decoded(a)->Ok_0, "info", "info") == field(decoded(b)->Ok_0, "info", "info"),
{
    spans_hold_the_values(a, "info".spec_bytes());
    spans_hold_the_values(b, "info".spec_bytes());
}

/// The `info_hash` of a canonical torrent file is the digest of the canonical
/// encoding of its `info` dictionary, so canonical files with one `info`
/// dictionary have one `info_hash`.
pub proof fn info_hash_of_a_canonical_file(root: BModel)
    requires
        root.wf(),
        encoded(root).len() <= usize::MAX,
        parsed(encoded(root)) is Ok,
    ensures
        root.get("info".spec_bytes()) matches Some(info) && parsed(encoded(root))->Ok_0.info_hash
            == sha1_of(encoded(info))@,
{
    decoding_undoes_encoding(root);
    spans_of_canonical_input_are_canonical(root, "info".spec_bytes());
}

// ---------------------------------------------------------------------
// What a torrent file says, field by field
// ---------------------------------------------------------------------

/// A torrent has what its file says, field by field: the texts, the piece length,
/// twenty bytes of `pieces` for each digest, in order, and either the one length
/// or every file of the list, in order, each with its length and all segments of
/// its path.
pub proof fn torrents_say_what_the_file_says(bytes: Seq<u8>)
    requires
        parsed(bytes) is Ok,
    ensures
        ({
            let t = parsed(bytes)->Ok_0;
            let root = decoded(bytes)->Ok_0;
            let info = root.get("info".spec_bytes())->0;
            &&& decoded(bytes) is Ok
            &&& root.get("info".spec_bytes()) is Some
            &&& root.get("announce".spec_bytes()) matches Some(BModel::Bytes(announce))
            &&& valid_utf8(announce)
            &&& t.announce == decode_utf8(announce)
            &&& info.get("name".spec_bytes()) matches Some(BModel::Bytes(name))
            &&& valid_utf8(name)
            &&& t.name == decode_utf8(name)
            &&& info.get("piece length".spec_bytes()) == Some(BModel::Int(t.piece_length))
            &&& info.get("pieces".spec_bytes()) matches Some(BModel::Bytes(raw))
            &&& raw.len() == 20 * t.pieces.len()
            &&& forall|i: int, j: int|
                #![trigger t.pieces[i][j]]
                0 <= i < t.pieces.len() && 0 <= j < 20 ==> t.pieces[i].len() == 20
                    && t.pieces[i][j] == raw[20 * i + j]
            &&& match t.layout {
                LayoutModel::Single(length) => info.get("length".spec_bytes()) == Some(
                    BModel::Int(length),
                ),
                LayoutModel::Multi(files) => {
                    &&& info.get("length".spec_bytes()) is None
                    &&& info.get("files".spec_bytes()) matches Some(BModel::List(entries))
                    &&& files.len() == entries.len()
                    &&& forall|i: int|
                        0 <= i < entries.len() ==> describes_file(#[trigger] entries[i], files[i])
                },
            }
        }),
{
    let t = parsed(bytes)->Ok_0;
    let info = decoded(bytes)->Ok_0.get("info".spec_bytes())->0;
    assert forall|i: int, j: int|
        #![trigger t.pieces[i][j]]
        0 <= i < t.pieces.len() && 0 <= j < 20 implies t.pieces[i].len() == 20 && t.pieces[i][j]
        == (info.get("pieces".spec_bytes())->0->Bytes_0)[20 * i + j] by {}
    if let LayoutModel::Multi(files) = t.layout {
        let entries = info.get("files".spec_bytes())->0->List_0;
        assert forall|i: int| 0 <= i < entries.len() implies describes_file(
            #[trigger] entries[i],
            files[i],
        ) by {
            assert(file_of(entries[i]) is Some);
            lemma_file_is_described(entries[i]);
        }
    }
}

/// Whether an entry of a `files` list describes a file: its `length` is that of
/// the file, and its `path` is a list with a text for each segment of the file's
/// path, in order.
pub open spec fn describes_file(entry: BModel, file: FileModel) -> bool {
    &&& entry.get("length".spec_bytes()) == Some(BModel::Int(file.length))
    &&& entry.get("path".spec_bytes()) matches Some(BModel::List(segments))
    &&& segments.len() == file.path.len()
    &&& forall|j: int|
        0 <= j < segments.len() ==> (#[trigger] segments[j] matches BModel::Bytes(text)
            && valid_utf8(text) && file.path[j] == decode_utf8(text))
}

proof fn lemma_file_is_described(entry: BModel)
    requires
        file_of(entry) is Some,
    ensures
        describes_file(entry, file_of(entry)->0),
{
    let segments = entry.get("path".spec_bytes())->0->List_0;
    assert forall|j: int| 0 <= j < segments.len() implies (
    #[trigger] segments[j] matches BModel::Bytes(text) && valid_utf8(text) && (file_of(
        entry,
    )->0.path)[j] == decode_utf8(text)) by {
        assert(segments[j].as_text() is Some);
    }
}

/// A described file is the file of the entry.
proof fn lemma_described_file(entry: BModel, file: FileModel)
    requires
        describes_file(entry, file),
    ensures
        file_of(entry) == Some(file),
{
    let segments = entry.get("path".spec_bytes())->0->List_0;
    assert forall|j: int| 0 <= j < segments.len() implies (#[trigger] segments[j]).as_text()
        == Some(file.path[j]) by {}
    assert(path_of(segments) is Some);
    assert(path_of(segments)->0 =~= file.path);
}

/// A file of which the root has an announce URL and an `info` dictionary with a
/// name, a piece length, digests of twenty bytes each, and a length or a list of
/// entries that each describe a file, parses. With a length it is a single file
/// of that length, and else there is a file for every entry, just the one that
/// the entry describes, in order.
pub proof fn well_shaped_files_parse(
    bytes: Seq<u8>,
    announce: Seq<u8>,
    name: Seq<u8>,
    raw: Seq<u8>,
    length: int,
    files: Seq<FileModel>,
)
    requires
        ({
            let root = decoded(bytes)->Ok_0;
            let info = root.get("info".spec_bytes())->0;
            &&& decoded(bytes) is Ok
            &&& root.get("info".spec_bytes()) is Some
            &&& root.get("announce".spec_bytes()) == Some(BModel::Bytes(announce))
            &&& valid_utf8(announce)
            &&& info.get("name".spec_bytes()) == Some(BModel::Bytes(name))
            &&& valid_utf8(name)
            &&& info.get("piece length".spec_bytes()) matches Some(BModel::Int(_))
            &&& info.get("pieces".spec_bytes()) == Some(BModel::Bytes(raw))
            &&& raw.len() % 20 == 0
            &&& info.get("length".spec_bytes()) == Some(BModel::Int(length)) || (info.get(
                "length".spec_bytes(),
            ) is None && (info.get("files".spec_bytes()) matches Some(BModel::List(entries))
                && entries.len() == files.len() && forall|i: int|
                0 <= i < files.len() ==> describes_file(entries[i], #[trigger] files[i])))
        }),
    ensures
        parsed(bytes) matches Ok(t) && t.layout == if decoded(bytes)->Ok_0.get(
            "info".spec_bytes(),
        )->0.get("length".spec_bytes()) is Some {
            LayoutModel::Single(length)
        } else {
            LayoutModel::Multi(files)
        },
{
    let info = decoded(bytes)->Ok_0.get("info".spec_bytes())->0;
    if info.get("length".spec_bytes()) is None {
        let entries = info.get("files".spec_bytes())->0->List_0;
        assert forall|i: int| 0 <= i < entries.len() implies file_of(#[trigger] entries[i])
            == Some(files[i]) by {
            lemma_described_file(entries[i], files[i]);
        }
        assert(files_of(entries) is Ok);
        assert(files_of(entries)->Ok_0 =~= files);
    }
}

/// Why a file does not parse: it does not decode, or a field is missing or of the
/// wrong type, of which the first is named. The order is announce URL, `info`,
/// name, piece length, digests, and then the length or the files.
pub proof fn what_is_wrong_with_a_file_is_named(bytes: Seq<u8>)
    ensures
        match decoded(bytes) {
            Err(e) => parsed(bytes) == Err::<TorrentModel, TorrentError>(TorrentError::Bencode(e)),
            Ok(root) => {
                let announce = root.get("announce".spec_bytes());
                let info = root.get("info".spec_bytes())->0;
                let name = info.get("name".spec_bytes());
                let piece_length = info.get("piece length".spec_bytes());
                let pieces = info.get("pieces".spec_bytes());
                let length = info.get("length".spec_bytes());
                let files = info.get("files".spec_bytes());
                if announce is None {
                    parsed(bytes) == missing("announce")
                } else if !is_text(announce->0) {
                    parsed(bytes) == wrong_type("announce")
                } else if root.get("info".spec_bytes()) is None {
                    parsed(bytes) == missing("info")
                } else if name is None {
                    parsed(bytes) == missing("info.name")
                } else if !is_text(name->0) {
                    parsed(bytes) == wrong_type("info.name")
                } else if piece_length is None {
                    parsed(bytes) == missing("info.piece length")
                } else if !(piece_length->0 is Int) {
                    parsed(bytes) == wrong_type("info.piece length")
                } else if pieces is None {
                    parsed(bytes) == missing("info.pieces")
                } else if !(pieces->0 is Bytes) {
                    parsed(bytes) == wrong_type("info.pieces")
                } else if (pieces->0->Bytes_0).len() % 20 != 0 {
                    parsed(bytes) == Err::<TorrentModel, TorrentError>(
                        TorrentError::MalformedPieces,
                    )
                } else if length is Some {
                    if length->0 is Int {
                        parsed(bytes) is Ok
                    } else {
                        parsed(bytes) == wrong_type("info.length")
                    }
                } else if files is None {
                    parsed(bytes) == missing("info.length or info.files")
                } else if !(files->0 is List) {
                    parsed(bytes) == wrong_type("info.files")
                } else if exists|i: int|
                    0 <= i < (files->0->List_0).len() && !is_file_entry(
                        #[trigger] (files->0->List_0)[i],
                    ) {
                    parsed(bytes) == Err::<TorrentModel, TorrentError>(
                        TorrentError::MalformedFileEntry,
                    )
                } else {
                    parsed(bytes) is Ok
                }
            },
        },
{
    if let Ok(root) = decoded(bytes) {
        let info = root.get("info".spec_bytes())->0;
        if let Some(BModel::List(entries)) = info.get("files".spec_bytes()) {
            assert forall|i: int| 0 <= i < entries.len() implies is_file_entry(
                #[trigger] entries[i],
            ) == file_of(entries[i]) is Some by {
                lemma_file_entry(entries[i]);
            }
        }
    }
}

/// The result where a field is missing.
pub open spec fn missing(label: &'static str) -> Result<TorrentModel, TorrentError> {
    Err(TorrentError::MissingField(label))
}

/// The result where a field is of the wrong type.
pub open spec fn wrong_type(label: &'static str) -> Result<TorrentModel, TorrentError> {
    Err(TorrentError::WrongType(label))
}

/// Whether a value is a byte string in UTF-8.
pub open spec fn is_text(v: BModel) -> bool {
    v matches BModel::Bytes(b) && valid_utf8(b)
}

/// Whether a value is an entry of a `files` list: with a number as its `length`
/// and a list of texts as its `path`.
pub open spec fn is_file_entry(v: BModel) -> bool {
    &&& v.get("length".spec_bytes()) matches Some(BModel::Int(_))
    &&& v.get("path".spec_bytes()) matches Some(BModel::List(segments))
    &&& forall|j: int| 0 <= j < segments.len() ==> is_text(#[trigger] segments[j])
}

proof fn lemma_file_entry(v: BModel)
    ensures
        is_file_entry(v) == file_of(v) is Some,
{
    if let Some(BModel::List(segments)) = v.get("path".spec_bytes()) {
        assert(forall|j: int|
            0 <= j < segments.len() ==> is_text(#[trigger] segments[j])
                == segments[j].as_text() is Some);
        if path_of(segments) is Some {
            assert forall|j: int| 0 <= j < segments.len() implies is_text(
                #[trigger] segments[j],
            ) by {
                assert(segments[j].as_text() is Some);
            }
        } else {
            let j = choose|j: int|
                0 <= j < segments.len() && (#[trigger] segments[j]).as_text() is None;
            assert(!is_text(segments[j]));
        }
    }
}

// ---------------------------------------------------------------------
// Totals
// ---------------------------------------------------------------------

/// The total of no files is zero, and with one more file it is larger by just the
/// length of that file. The total of a single file is its length.
pub proof fn totals_add_up(files: Seq<FileModel>, file: FileModel, length: int)
    ensures
        LayoutModel::Single(length).total() == length,
        LayoutModel::Multi(Seq::empty()).total() == 0,
        LayoutModel::Multi(files.push(file)).total() == LayoutModel::Multi(files).total()
            + file.length,
{
    assert(files.push(file).drop_last() =~= files);
}

/// The total of two lists of files one behind the other is the sum of their
/// totals, whichever comes first.
pub proof fn totals_of_lists_add_up(a: Seq<FileModel>, b: Seq<FileModel>)
    ensures
        LayoutModel::Multi(a + b).total() == LayoutModel::Multi(a).total() + LayoutModel::Multi(
            b,
        ).total(),
        LayoutModel::Multi(a + b).total() == LayoutModel::Multi(b + a).total(),
{
    lemma_sum_of_lists(a, b);
    lemma_sum_of_lists(b, a);
}

proof fn lemma_sum_of_lists(a: Seq<FileModel>, b: Seq<FileModel>)
    ensures
        sum_of_lengths(a + b) == sum_of_lengths(a) + sum_of_lengths(b),
    decreases b.len(),
{
    if b.len() == 0 {
        assert(a + b =~= a);
    } else {
        lemma_sum_of_lists(a, b.drop_last());
        assert((a + b).drop_last() =~= a + b.drop_last());
        assert((a + b).last() == b.last());
    }
}

/// A total fits just if it can be added up file by file: a single file's does, and
/// with one more file it does if it did before and the new total is an `i64`.
pub proof fn totals_fit_file_by_file(files: Seq<FileModel>, file: FileModel, length: int)
    ensures
        LayoutModel::Single(length).total_fits(),
        LayoutModel::Multi(Seq::empty()).total_fits(),
        LayoutModel::Multi(files.push(file)).total_fits() <==> LayoutModel::Multi(
            files,
        ).total_fits() && -0x8000_0000_0000_0000 <= LayoutModel::Multi(files).total() + file.length
            <= 0x7fff_ffff_ffff_ffff,
{
    let more = files.push(file);
    let n = files.len() as int;
    assert(more.drop_last() =~= files);
    assert(more.take(n + 1) =~= more);
    assert forall|k: int| 0 <= k <= n implies #[trigger] more.take(k) == files.take(k) by {
        assert(more.take(k) =~= files.take(k));
    }
    assert(Seq::<FileModel>::empty().take(0) =~= Seq::empty());
    let whole = LayoutModel::Multi(more);
    let front = LayoutModel::Multi(files);
    if whole.total_fits() {
        assert forall|k: int| 0 <= k <= n implies i64::MIN <= sum_of_lengths(
            #[trigger] files.take(k),
        ) <= i64::MAX by {
            assert((whole->Multi_0).take(k) == files.take(k));
        }
        assert((whole->Multi_0).take(n + 1) == more);
        assert(front.total_fits());
    } else if front.total_fits() {
        let k = choose|k: int|
            0 <= k <= more.len() && !(i64::MIN <= sum_of_lengths(#[trigger] more.take(k))
                <= i64::MAX);
        if k <= n {
            assert((front->Multi_0).take(k) == more.take(k));
        }
    }
}

/// A torrent stands for what it holds: the same texts and numbers, and every
/// digest and every file with every segment of its path, in order.
pub proof fn torrents_stand_for_what_they_hold(t: Torrent, entry: FileEntry)
    ensures
        t@.announce == t.announce@,
        t@.name == t.name@,
        t@.piece_length == t.piece_length,
        t@.info_hash == t.info_hash@,
        t@.pieces.len() == t.pieces@.len(),
        forall|i: int| 0 <= i < t.pieces@.len() ==> t@.pieces[i] == (#[trigger] t.pieces@[i])@,
        match t.layout {
            FileLayout::Single { length } => t@.layout matches LayoutModel::Single(n) && n
                == length,
            FileLayout::Multi { files } => t@.layout matches LayoutModel::Multi(models)
                && models.len() == files@.len() && forall|i: int|
                0 <= i < files@.len() ==> models[i] == (#[trigger] files@[i])@,
        },
        entry@.length == entry.length,
        entry@.path.len() == entry.path@.len(),
        forall|j: int| 0 <= j < entry.path@.len() ==> entry@.path[j] == (#[trigger] entry.path@[j])@,
{
}

/// What the errors say to a user.
pub proof fn torrent_errors_say_what_is_wrong(e: TorrentError)
    ensures
        match e {
            TorrentError::Bencode(cause) => e.text() == "bencode error: "@ + cause.text(),
            TorrentError::MissingField(k) => e.text() == "missing required field: "@ + k@,
            TorrentError::WrongType(k) => e.text() == "field has wrong type: "@ + k@,
            TorrentError::MalformedPieces => e.text()
                == "'pieces' length is not a multiple of 20"@,
            TorrentError::MalformedFileEntry => e.text() == "malformed entry in 'files' list"@,
        },
{
}

// ---------------------------------------------------------------------
// Torrents of several files
// ---------------------------------------------------------------------

/// The dictionary of one file of a torrent of several.
pub open spec fn file_entry(file: FileModel) -> BModel {
    BModel::Dict(
        seq![
            ("length".spec_bytes(), BModel::Int(file.length)),
            (
                "path".spec_bytes(),
                BModel::List(
                    file.path.map_values(|segment: Seq<char>| BModel::Bytes(encode_utf8(segment))),
                ),
            ),
        ],
    )
}

/// The `info` dictionary of a torrent of several files.
pub open spec fn multi_file_info(
    name: Seq<char>,
    piece_length: int,
    files: Seq<FileModel>,
    pieces: Seq<u8>,
) -> BModel {
    BModel::Dict(
        seq![
            ("files".spec_bytes(), BModel::List(files.map_values(|f: FileModel| file_entry(f)))),
            ("name".spec_bytes(), BModel::Bytes(encode_utf8(name))),
            ("piece length".spec_bytes(), BModel::Int(piece_length)),
            ("pieces".spec_bytes(), BModel::Bytes(pieces)),
        ],
    )
}

/// The dictionary of a torrent file that describes several files.
pub open spec fn multi_file_root(
    announce: Seq<char>,
    name: Seq<char>,
    piece_length: int,
    files: Seq<FileModel>,
    pieces: Seq<u8>,
) -> BModel {
    BModel::Dict(
        seq![
            ("announce".spec_bytes(), BModel::Bytes(encode_utf8(announce))),
            ("info".spec_bytes(), multi_file_info(name, piece_length, files, pieces)),
        ],
    )
}

proof fn lemma_multi_file_keys()
    ensures
        precedes("files".spec_bytes(), "name".spec_bytes()),
        precedes("files".spec_bytes(), "piece length".spec_bytes()),
        precedes("files".spec_bytes(), "pieces".spec_bytes()),
        precedes("length".spec_bytes(), "path".spec_bytes()),
        "files".spec_bytes() != "length".spec_bytes(),
{
    reveal_strlit("files");
    reveal_strlit("name");
    reveal_strlit("piece length");
    reveal_strlit("pieces");
    reveal_strlit("length");
    reveal_strlit("path");
    broadcast use vstd::string::is_ascii_spec_bytes;

    assert("files".is_ascii() && "name".is_ascii() && "piece length".is_ascii()
        && "pieces".is_ascii() && "length".is_ascii() && "path".is_ascii());
    crate::torrent::lemma_precedes_at("files".spec_bytes(), "name".spec_bytes(), 0);
    crate::torrent::lemma_precedes_at("files".spec_bytes(), "piece length".spec_bytes(), 0);
    crate::torrent::lemma_precedes_at("files".spec_bytes(), "pieces".spec_bytes(), 0);
    crate::torrent::lemma_precedes_at("length".spec_bytes(), "path".spec_bytes(), 0);
    crate::torrent::lemma_precedes_at("files".spec_bytes(), "length".spec_bytes(), 0);
}

proof fn lemma_file_entry_is_well_formed(file: FileModel)
    requires
        i64::MIN <= file.length <= i64::MAX,
    ensures
        file_entry(file).wf(),
        describes_file(file_entry(file), file),
{
    lemma_multi_file_keys();
    let entries = file_entry(file)->Dict_0;
    let segments = file.path.map_values(|segment: Seq<char>| BModel::Bytes(encode_utf8(segment)));
    assert(BModel::Int(file.length).wf());
    assert(BModel::List(segments).wf()) by {
        assert forall|j: int| 0 <= j < segments.len() implies (#[trigger] segments[j]).wf() by {}
    }
    crate::bencode::precedes_is_total("length".spec_bytes(), "path".spec_bytes());
    assert(entries.drop_first()[0] == entries[1]);
    assert(lookup(entries.drop_first(), "path".spec_bytes()) == Some(entries[1].1));
    assert forall|j: int| 0 <= j < segments.len() implies (
    #[trigger] segments[j] matches BModel::Bytes(text) && valid_utf8(text) && file.path[j]
        == decode_utf8(text)) by {
        encode_utf8_valid_utf8(file.path[j]);
        encode_utf8_decode_utf8(file.path[j]);
    }
}

/// The torrent file of several files parses, and the torrent has every one of
/// them, in order, each with its length and the segments of its path.
pub proof fn torrents_of_several_files_parse(
    announce: Seq<char>,
    name: Seq<char>,
    piece_length: int,
    files: Seq<FileModel>,
    pieces: Seq<u8>,
)
    requires
        i64::MIN <= piece_length <= i64::MAX,
        forall|i: int|
            0 <= i < files.len() ==> i64::MIN <= (#[trigger] files[i]).length <= i64::MAX,
        pieces.len() % 20 == 0,
        encoded(multi_file_root(announce, name, piece_length, files, pieces)).len() <= usize::MAX,
    ensures
        parsed(encoded(multi_file_root(announce, name, piece_length, files, pieces))) matches Ok(t)
            && t.announce == announce && t.name == name && t.piece_length == piece_length
            && t.layout == LayoutModel::Multi(files) && pieces.len() == 20 * t.pieces.len()
            && t.info_hash == sha1_of(
            encoded(multi_file_info(name, piece_length, files, pieces)),
        )@,
{
    let root = multi_file_root(announce, name, piece_length, files, pieces);
    let info = multi_file_info(name, piece_length, files, pieces);
    let entries = files.map_values(|f: FileModel| file_entry(f));
    lemma_multi_file_keys();
    crate::torrent::lemma_keys_in_order();
    crate::bencode::precedes_is_total("announce".spec_bytes(), "info".spec_bytes());
    crate::bencode::precedes_is_total("files".spec_bytes(), "name".spec_bytes());
    crate::bencode::precedes_is_total("files".spec_bytes(), "piece length".spec_bytes());
    crate::bencode::precedes_is_total("files".spec_bytes(), "pieces".spec_bytes());
    crate::bencode::precedes_is_total("name".spec_bytes(), "piece length".spec_bytes());
    crate::bencode::precedes_is_total("name".spec_bytes(), "pieces".spec_bytes());
    crate::bencode::precedes_is_total("piece length".spec_bytes(), "pieces".spec_bytes());
    crate::bencode::precedes_is_total("length".spec_bytes(), "name".spec_bytes());
    crate::bencode::precedes_is_total("length".spec_bytes(), "piece length".spec_bytes());
    crate::bencode::precedes_is_total("length".spec_bytes(), "pieces".spec_bytes());
    assert forall|i: int| 0 <= i < files.len() implies describes_file(
        entries[i],
        #[trigger] files[i],
    ) && entries[i].wf() by {
        lemma_file_entry_is_well_formed(files[i]);
    }
    assert(BModel::List(entries).wf()) by {
        assert forall|i: int| 0 <= i < entries.len() implies (#[trigger] entries[i]).wf() by {
            assert(describes_file(entries[i], files[i]));
        }
    }
    assert(info.wf()) by {
        assert(BModel::Bytes(encode_utf8(name)).wf());
        assert(BModel::Int(piece_length).wf());
        assert(BModel::Bytes(pieces).wf());
    }
    assert(root.wf()) by {
        assert(BModel::Bytes(encode_utf8(announce)).wf());
    }
    let i0 = info->Dict_0;
    let i1 = i0.drop_first();
    let i2 = i1.drop_first();
    let i3 = i2.drop_first();
    let i4 = i3.drop_first();
    assert(i1[0] == i0[1] && i2[0] == i0[2] && i3[0] == i0[3] && i4.len() == 0);
    assert(lookup(i3, "pieces".spec_bytes()) == Some(i0[3].1));
    assert(lookup(i2, "pieces".spec_bytes()) == Some(i0[3].1));
    assert(lookup(i1, "pieces".spec_bytes()) == Some(i0[3].1));
    assert(lookup(i2, "piece length".spec_bytes()) == Some(i0[2].1));
    assert(lookup(i1, "piece length".spec_bytes()) == Some(i0[2].1));
    assert(lookup(i1, "name".spec_bytes()) == Some(i0[1].1));
    assert(lookup(i4, "length".spec_bytes()) is None);
    assert(lookup(i3, "length".spec_bytes()) is None);
    assert(lookup(i2, "length".spec_bytes()) is None);
    assert(lookup(i1, "length".spec_bytes()) is None);
    let r0 = root->Dict_0;
    assert(r0.drop_first()[0] == r0[1]);
    assert(lookup(r0.drop_first(), "info".spec_bytes()) == Some(r0[1].1));
    decoding_undoes_encoding(root);
    spans_of_canonical_input_are_canonical(root, "info".spec_bytes());
    encode_utf8_valid_utf8(announce);
    encode_utf8_decode_utf8(announce);
    encode_utf8_valid_utf8(name);
    encode_utf8_decode_utf8(name);
    well_shaped_files_parse(
        encoded(root),
        encode_utf8(announce),
        encode_utf8(name),
        pieces,
        0,
        files,
    );
    torrents_say_what_the_file_says(encoded(root));
}

// ---------------------------------------------------------------------
// Pieces and what is created
// ---------------------------------------------------------------------

/// The digests of content, in bytes: for each stretch of `size` bytes, and for
/// what is left behind the last of them, the twenty bytes of its digest, in order.
pub proof fn digests_are_of_consecutive_stretches(content: Seq<u8>, size: nat, i: int)
    requires
        size > 0,
        0 <= i,
        i * size < content.len(),
    ensures
        ({
            let hashes = piece_hashes(content, size);
            let end = if (i + 1) * size <= content.len() {
                (i + 1) * size
            } else {
                content.len() as int
            };
            &&& 20 * i + 20 <= hashes.len()
            &&& hashes.subrange(20 * i, 20 * i + 20) == sha1_of(
                content.subrange(i * size, end),
            )@
            &&& (i + 1) * size >= content.len() ==> hashes.len() == 20 * i + 20
        }),
{
    let count = piece_count(content.len(), size) as int;
    let n = (content.len() + size - 1) as int;
    piece_hashes_are_those_of_the_pieces(content, size);
    lemma_fundamental_div_mod(n, size as int);
    assert(n == size * count + n % (size as int));
    assert((i + 1) * size == i * size + size) by (nonlinear_arith);
    assert(i < count) by (nonlinear_arith)
        requires
            i * size < content.len(),
            n == content.len() + size - 1,
            n == size * count + n % (size as int),
            0 <= n % (size as int) < size,
            size > 0,
    ;
    if (i + 1) * size >= content.len() {
        assert(count <= i + 1) by (nonlinear_arith)
            requires
                (i + 1) * size >= content.len(),
                n == content.len() + size - 1,
                n == size * count + n % (size as int),
                0 <= n % (size as int),
                size > 0,
        ;
    }
    let digests = digests_of(piece_hashes(content, size))->Ok_0;
    assert(digests[i] == sha1_of(piece_of(content, size, i))@);
}

/// Content without bytes has no digests.
pub proof fn no_content_has_no_digests(size: nat)
    ensures
        piece_hashes(Seq::empty(), size).len() == 0,
{
}

/// A piece has as many bytes as was asked for, but at least one.
pub proof fn pieces_are_as_long_as_asked_for(piece_length: int)
    ensures
        piece_length >= 1 ==> piece_size(piece_length) == piece_length,
        piece_length < 1 ==> piece_size(piece_length) == 1,
{
}

/// A created torrent file holds an announce URL and an `info` dictionary, that
/// one a length, a name, a piece length and digests, and neither of them anything
/// else.
pub proof fn created_torrents_hold_nothing_else(
    announce: Seq<char>,
    name: Seq<char>,
    piece_length: int,
    total_length: int,
    pieces: Seq<u8>,
    key: Seq<u8>,
)
    ensures
        single_file_root(announce, name, piece_length, total_length, pieces).get(key) is Some
            ==> key == "announce".spec_bytes() || key == "info".spec_bytes(),
        single_file_info(name, piece_length, total_length, pieces).get(key) is Some ==> key
            == "length".spec_bytes() || key == "name".spec_bytes() || key
            == "piece length".spec_bytes() || key == "pieces".spec_bytes(),
{
    lookup_finds_the_entry(
        single_file_root(announce, name, piece_length, total_length, pieces)->Dict_0,
        key,
    );
    lookup_finds_the_entry(
        single_file_info(name, piece_length, total_length, pieces)->Dict_0,
        key,
    );
}

/// A torrent that is put together has the announce URL and the `info_hash` that it
/// is given.
pub proof fn torrents_have_what_they_are_given(
    announce: Seq<char>,
    info: BModel,
    info_hash: Seq<u8>,
    other_announce: Seq<char>,
    other_hash: Seq<u8>,
)
    ensures
        torrent_of(announce, info, info_hash) matches Ok(t) ==> t.announce == announce
            && t.info_hash == info_hash,
        match torrent_of(announce, info, info_hash) {
            Ok(t) => torrent_of(other_announce, info, other_hash) == Ok::<
                TorrentModel,
                TorrentError,
            >(TorrentModel { announce: other_announce, info_hash: other_hash, ..t }),
            Err(e) => torrent_of(other_announce, info, other_hash) == Err::<
                TorrentModel,
                TorrentError,
            >(e),
        },
{
}

} // verus!
