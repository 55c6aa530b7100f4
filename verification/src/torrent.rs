//! Torrent files: bencoded dictionaries that describe what is shared.
//!
//! [`parse`] turns the bytes of a torrent file into a [`Torrent`] and computes
//! the `info_hash` that identifies it to trackers and peers.
//! [`create_single_file_torrent`] goes the other way.

use crate::bencode::{
    decode, decoded, encode, encoded, inserted, lemma_inserted_at, precedes, precedes_is_total,
    push_all, span_of, value_span, BDict, BError, BModel, BValue,
};
use crate::bencode_laws::spans_hold_the_values;
use crate::digest::{sha1_digest, sha1_of, HASH_INPUT_LIMIT};
use crate::text::{hex, hex_text};
use crate::wire::twenty_bytes;
use vstd::prelude::*;
use vstd::slice::slice_to_vec;
use vstd::string::{StringExecFns, StringSliceAdditionalSpecFns};
use vstd::utf8::encode_utf8;

verus! {

/// The length of a SHA-1 digest in bytes.
pub const HASH_LEN: usize = 20;

/// One file of a torrent that describes several.
#[derive(Debug, Clone)]
pub struct FileEntry {
    pub length: i64,
    /// The segments of the path below the root directory of the torrent, not
    /// yet joined with the separators of an operating system.
    pub path: Vec<String>,
}

/// Whether a torrent describes one file or a directory of files. The `info`
/// dictionary tells them apart by having a `length` or a list of `files`.
#[derive(Debug, Clone)]
pub enum FileLayout {
    Single { length: i64 },
    Multi { files: Vec<FileEntry> },
}

/// A parsed torrent file.
#[derive(Debug, Clone)]
pub struct Torrent {
    pub announce: String,
    pub name: String,
    pub piece_length: i64,
    /// The digest of every piece, in order. A downloaded piece is accepted
    /// only if it has the digest that stands here.
    pub pieces: Vec<[u8; 20]>,
    pub layout: FileLayout,
    /// The digest of the raw bytes of the `info` dictionary, as they stand in the
    /// torrent file. This, and not a file name, identifies the torrent to
    /// trackers and peers.
    pub info_hash: [u8; 20],
}

/// Why bytes are no torrent file.
#[derive(Debug)]
pub enum TorrentError {
    Bencode(BError),
    MissingField(&'static str),
    WrongType(&'static str),
    MalformedPieces,
    MalformedFileEntry,
}

// ---------------------------------------------------------------------
// Models
// ---------------------------------------------------------------------

/// The mathematical value of a [`FileEntry`].
pub struct FileModel {
    pub length: int,
    pub path: Seq<Seq<char>>,
}

/// The mathematical value of a [`FileLayout`].
pub enum LayoutModel {
    Single(int),
    Multi(Seq<FileModel>),
}

/// The mathematical value of a [`Torrent`].
pub struct TorrentModel {
    pub announce: Seq<char>,
    pub name: Seq<char>,
    pub piece_length: int,
    pub pieces: Seq<Seq<u8>>,
    pub layout: LayoutModel,
    pub info_hash: Seq<u8>,
}

impl View for FileEntry {
    type V = FileModel;

    open spec fn view(&self) -> FileModel {
        FileModel {
            length: self.length as int,
            path: Seq::new(self.path@.len(), |i: int| self.path@[i]@),
        }
    }
}

impl View for FileLayout {
    type V = LayoutModel;

    open spec fn view(&self) -> LayoutModel {
        match *self {
            FileLayout::Single { length } => LayoutModel::Single(length as int),
            FileLayout::Multi { files } => LayoutModel::Multi(
                Seq::new(files@.len(), |i: int| files@[i]@),
            ),
        }
    }
}

impl View for Torrent {
    type V = TorrentModel;

    open spec fn view(&self) -> TorrentModel {
        TorrentModel {
            announce: self.announce@,
            name: self.name@,
            piece_length: self.piece_length as int,
            pieces: Seq::new(self.pieces@.len(), |i: int| self.pieces@[i]@),
            layout: self.layout@,
            info_hash: self.info_hash@,
        }
    }
}

// ---------------------------------------------------------------------
// Parsing
// ---------------------------------------------------------------------

/// The value under `key`, which is reported as `label` if it is missing.
pub open spec fn field(v: BModel, key: &'static str, label: &'static str) -> Result<
    BModel,
    TorrentError,
> {
    match v.get(key.spec_bytes()) {
        Some(value) => Ok(value),
        None => Err(TorrentError::MissingField(label)),
    }
}

/// The text under `key`, which is reported as `label` if there is none.
pub open spec fn text_field(v: BModel, key: &'static str, label: &'static str) -> Result<
    Seq<char>,
    TorrentError,
> {
    match field(v, key, label) {
        Ok(value) => match value.as_text() {
            Some(t) => Ok(t),
            None => Err(TorrentError::WrongType(label)),
        },
        Err(e) => Err(e),
    }
}

/// The number under `key`, which is reported as `label` if there is none.
pub open spec fn int_field(v: BModel, key: &'static str, label: &'static str) -> Result<
    int,
    TorrentError,
> {
    match field(v, key, label) {
        Ok(BModel::Int(n)) => Ok(n),
        Ok(_) => Err(TorrentError::WrongType(label)),
        Err(e) => Err(e),
    }
}

/// The digests that `raw` consists of, if its length is a multiple of theirs.
pub open spec fn digests_of(raw: Seq<u8>) -> Result<Seq<Seq<u8>>, TorrentError> {
    if raw.len() % 20 == 0 {
        Ok(Seq::new(raw.len() / 20, |i: int| raw.subrange(20 * i, 20 * i + 20)))
    } else {
        Err(TorrentError::MalformedPieces)
    }
}

/// The digests under `pieces`.
pub open spec fn pieces_field(info: BModel) -> Result<Seq<Seq<u8>>, TorrentError> {
    match field(info, "pieces", "info.pieces") {
        Ok(BModel::Bytes(raw)) => digests_of(raw),
        Ok(_) => Err(TorrentError::WrongType("info.pieces")),
        Err(e) => Err(e),
    }
}

/// The segments of a path, if all of them are text.
pub open spec fn path_of(segments: Seq<BModel>) -> Option<Seq<Seq<char>>> {
    if forall|i: int| 0 <= i < segments.len() ==> (#[trigger] segments[i]).as_text() is Some {
        Some(Seq::new(segments.len(), |i: int| segments[i].as_text()->0))
    } else {
        None
    }
}

/// The file that an entry of the `files` list describes, if it has a number as
/// its length and a list of texts as its path.
pub open spec fn file_of(entry: BModel) -> Option<FileModel> {
    match (entry.get("length".spec_bytes()), entry.get("path".spec_bytes())) {
        (Some(BModel::Int(length)), Some(BModel::List(segments))) => match path_of(segments) {
            Some(path) => Some(FileModel { length, path }),
            None => None,
        },
        _ => None,
    }
}

/// The files that the `files` list describes, if every entry describes one.
pub open spec fn files_of(entries: Seq<BModel>) -> Result<Seq<FileModel>, TorrentError> {
    if forall|i: int| 0 <= i < entries.len() ==> file_of(#[trigger] entries[i]) is Some {
        Ok(Seq::new(entries.len(), |i: int| file_of(entries[i])->0))
    } else {
        Err(TorrentError::MalformedFileEntry)
    }
}

/// The layout that an `info` dictionary describes: a `length` makes it a single
/// file, whatever else is there.
pub open spec fn layout_of(info: BModel) -> Result<LayoutModel, TorrentError> {
    match info.get("length".spec_bytes()) {
        Some(BModel::Int(length)) => Ok(LayoutModel::Single(length)),
        Some(_) => Err(TorrentError::WrongType("info.length")),
        None => match info.get("files".spec_bytes()) {
            Some(BModel::List(entries)) => match files_of(entries) {
                Ok(files) => Ok(LayoutModel::Multi(files)),
                Err(e) => Err(e),
            },
            Some(_) => Err(TorrentError::WrongType("info.files")),
            None => Err(TorrentError::MissingField("info.length or info.files")),
        },
    }
}

/// The torrent that an announce URL, an `info` dictionary and its digest
/// describe. The fields are looked at in the order name, piece length, pieces,
/// layout, and the first one that is not as it should be is reported.
pub open spec fn torrent_of(announce: Seq<char>, info: BModel, info_hash: Seq<u8>) -> Result<
    TorrentModel,
    TorrentError,
> {
    match text_field(info, "name", "info.name") {
        Err(e) => Err(e),
        Ok(name) => match int_field(info, "piece length", "info.piece length") {
            Err(e) => Err(e),
            Ok(piece_length) => match pieces_field(info) {
                Err(e) => Err(e),
                Ok(pieces) => match layout_of(info) {
                    Err(e) => Err(e),
                    Ok(layout) => Ok(
                        TorrentModel { announce, name, piece_length, pieces, layout, info_hash },
                    ),
                },
            },
        },
    }
}

/// The bytes of the `info` dictionary, as they stand in a torrent file.
pub open spec fn raw_info(bytes: Seq<u8>) -> Seq<u8> {
    match span_of(bytes, "info".spec_bytes()) {
        Some((from, to)) => bytes.subrange(from, to),
        None => Seq::empty(),
    }
}

/// The torrent that the bytes of a torrent file describe.
pub open spec fn parsed(bytes: Seq<u8>) -> Result<TorrentModel, TorrentError> {
    match decoded(bytes) {
        Err(e) => Err(TorrentError::Bencode(e)),
        Ok(root) => match text_field(root, "announce", "announce") {
            Err(e) => Err(e),
            Ok(announce) => match field(root, "info", "info") {
                Err(e) => Err(e),
                Ok(info) => torrent_of(announce, info, sha1_of(raw_info(bytes))@),
            },
        },
    }
}

impl From<BError> for TorrentError {
    fn from(e: BError) -> (r: Self) {
        TorrentError::Bencode(e)
    }
}

impl vstd::std_specs::convert::FromSpecImpl<BError> for TorrentError {
    open spec fn obeys_from_spec() -> bool {
        true
    }

    open spec fn from_spec(e: BError) -> Self {
        TorrentError::Bencode(e)
    }
}

/// The value under `key` of `v`.
fn get_field<'a>(v: &'a BValue, key: &'static str, label: &'static str) -> (r: Result<
    &'a BValue,
    TorrentError,
>)
    ensures
        match field(v@, key, label) {
            Ok(m) => r matches Ok(value) && value@ == m,
            Err(e) => r matches Err(error) && error == e,
        },
{
    match v.get(key) {
        Some(value) => Ok(value),
        None => Err(TorrentError::MissingField(label)),
    }
}

/// The text under `key` of `v`.
fn get_text(v: &BValue, key: &'static str, label: &'static str) -> (r: Result<
    String,
    TorrentError,
>)
    ensures
        match text_field(v@, key, label) {
            Ok(t) => r matches Ok(text) && text@ == t,
            Err(e) => r matches Err(error) && error == e,
        },
{
    match get_field(v, key, label) {
        Ok(value) => match value.as_str() {
            Some(text) => Ok(text.to_string()),
            None => Err(TorrentError::WrongType(label)),
        },
        Err(e) => Err(e),
    }
}

/// The number under `key` of `v`.
fn get_int(v: &BValue, key: &'static str, label: &'static str) -> (r: Result<i64, TorrentError>)
    ensures
        match int_field(v@, key, label) {
            Ok(n) => r matches Ok(number) && number == n,
            Err(e) => r matches Err(error) && error == e,
        },
{
    match get_field(v, key, label) {
        Ok(value) => match value.as_int() {
            Some(number) => Ok(number),
            None => Err(TorrentError::WrongType(label)),
        },
        Err(e) => Err(e),
    }
}

/// Splits `raw` into digests.
fn split_digests(raw: &[u8]) -> (r: Result<Vec<[u8; 20]>, TorrentError>)
    ensures
        match digests_of(raw@) {
            Ok(pieces) => r matches Ok(digests) && digests@.len() == pieces.len() && forall|i: int|
                0 <= i < pieces.len() ==> (#[trigger] digests@[i])@ == pieces[i],
            Err(e) => r matches Err(error) && error == e,
        },
{
    if raw.len() % 20 != 0 {
        return Err(TorrentError::MalformedPieces);
    }
    let mut out: Vec<[u8; 20]> = Vec::new();
    let mut pos: usize = 0;
    while pos < raw.len()
        invariant
            pos <= raw.len(),
            raw.len() % 20 == 0,
            pos == 20 * out@.len(),
            forall|i: int|
                0 <= i < out@.len() ==> (#[trigger] out@[i])@ == raw@.subrange(20 * i, 20 * i + 20),
        decreases raw.len() - pos,
    {
        let digest: [u8; 20] = twenty_bytes(raw, pos);
        out.push(digest);
        pos += 20;
    }
    Ok(out)
}

/// The segments of a path.
fn parse_path(segments: &[BValue]) -> (r: Option<Vec<String>>)
    ensures
        match path_of(Seq::new(segments@.len(), |i: int| segments@[i]@)) {
            Some(path) => r matches Some(texts) && Seq::new(texts@.len(), |i: int| texts@[i]@) == path,
            None => r is None,
        },
{
    let ghost models = Seq::new(segments@.len(), |i: int| segments@[i]@);
    let mut out: Vec<String> = Vec::new();
    let mut i: usize = 0;
    while i < segments.len()
        invariant
            i <= segments@.len(),
            out@.len() == i,
            models == Seq::new(segments@.len(), |i: int| segments@[i]@),
            forall|j: int|
                0 <= j < i ==> (#[trigger] models[j]).as_text() == Some((#[trigger] out@[j])@),
        decreases segments@.len() - i,
    {
        assert(models[i as int] == segments@[i as int]@);
        match segments[i].as_str() {
            Some(text) => {
                out.push(text.to_string());
            },
            None => return None,
        }
        i += 1;
    }
    assert forall|j: int| 0 <= j < models.len() implies (#[trigger] models[j]).as_text() is Some by {
        assert(models[j].as_text() == Some(out@[j]@));
    }
    assert(Seq::new(out@.len(), |i: int| out@[i]@) =~= path_of(models)->0) by {
        assert forall|j: int| 0 <= j < models.len() implies out@[j]@ == (#[trigger] path_of(
            models,
        )->0[j]) by {
            assert(models[j].as_text() == Some(out@[j]@));
        }
    }
    Some(out)
}

/// The file that an entry of the `files` list describes.
fn parse_file(entry: &BValue) -> (r: Option<FileEntry>)
    ensures
        match file_of(entry@) {
            Some(m) => r matches Some(file) && file@ == m,
            None => r is None,
        },
{
    let length: i64 = match entry.get("length") {
        Some(value) => match value.as_int() {
            Some(n) => n,
            None => return None,
        },
        None => return None,
    };
    let segments: &[BValue] = match entry.get("path") {
        Some(value) => match value.as_list() {
            Some(list) => {
                assert(value@->List_0 =~= Seq::new(list@.len(), |i: int| list@[i]@));
                list
            },
            None => return None,
        },
        None => return None,
    };
    match parse_path(segments) {
        Some(path) => Some(FileEntry { length, path }),
        None => None,
    }
}

/// The files that the `files` list describes.
fn parse_files(entries: &[BValue]) -> (r: Result<Vec<FileEntry>, TorrentError>)
    ensures
        match files_of(Seq::new(entries@.len(), |i: int| entries@[i]@)) {
            Ok(models) => r matches Ok(files) && Seq::new(files@.len(), |i: int| files@[i]@)
                == models,
            Err(e) => r matches Err(error) && error == e,
        },
{
    let ghost models = Seq::new(entries@.len(), |i: int| entries@[i]@);
    let mut out: Vec<FileEntry> = Vec::with_capacity(entries.len());
    let mut i: usize = 0;
    while i < entries.len()
        invariant
            i <= entries@.len(),
            out@.len() == i,
            models == Seq::new(entries@.len(), |i: int| entries@[i]@),
            forall|j: int|
                0 <= j < i ==> file_of(#[trigger] models[j]) == Some((#[trigger] out@[j])@),
        decreases entries@.len() - i,
    {
        assert(models[i as int] == entries@[i as int]@);
        match parse_file(&entries[i]) {
            Some(file) => {
                out.push(file);
            },
            None => return Err(TorrentError::MalformedFileEntry),
        }
        i += 1;
    }
    assert forall|j: int| 0 <= j < models.len() implies file_of(#[trigger] models[j]) is Some by {
        assert(file_of(models[j]) == Some(out@[j]@));
    }
    assert(Seq::new(out@.len(), |i: int| out@[i]@) =~= files_of(models)->Ok_0) by {
        assert forall|j: int| 0 <= j < models.len() implies out@[j]@ == (#[trigger] files_of(
            models,
        )->Ok_0[j]) by {
            assert(file_of(models[j]) == Some(out@[j]@));
        }
    }
    Ok(out)
}

/// The layout that an `info` dictionary describes.
fn parse_layout(info: &BValue) -> (r: Result<FileLayout, TorrentError>)
    ensures
        match layout_of(info@) {
            Ok(m) => r matches Ok(layout) && layout@ == m,
            Err(e) => r matches Err(error) && error == e,
        },
{
    if let Some(value) = info.get("length") {
        return match value.as_int() {
            Some(length) => Ok(FileLayout::Single { length }),
            None => Err(TorrentError::WrongType("info.length")),
        };
    }
    if let Some(value) = info.get("files") {
        return match value.as_list() {
            Some(list) => {
                assert(value@->List_0 =~= Seq::new(list@.len(), |i: int| list@[i]@));
                match parse_files(list) {
                    Ok(files) => Ok(FileLayout::Multi { files }),
                    Err(e) => Err(e),
                }
            },
            None => Err(TorrentError::WrongType("info.files")),
        };
    }
    Err(TorrentError::MissingField("info.length or info.files"))
}

/// The digests under `pieces`.
fn parse_pieces(info: &BValue) -> (r: Result<Vec<[u8; 20]>, TorrentError>)
    ensures
        match pieces_field(info@) {
            Ok(pieces) => r matches Ok(digests) && Seq::new(
                digests@.len(),
                |i: int| digests@[i]@,
            ) == pieces,
            Err(e) => r matches Err(error) && error == e,
        },
{
    match get_field(info, "pieces", "info.pieces") {
        Ok(value) => match value.as_bytes() {
            Some(raw) => match split_digests(raw) {
                Ok(digests) => {
                    assert(Seq::new(digests@.len(), |i: int| digests@[i]@) =~= pieces_field(
                        info@,
                    )->Ok_0);
                    Ok(digests)
                },
                Err(e) => Err(e),
            },
            None => Err(TorrentError::WrongType("info.pieces")),
        },
        Err(e) => Err(e),
    }
}

/// Puts a torrent together from its announce URL, its `info` dictionary and
/// the digest of that dictionary.
pub fn from_info(announce: String, info: &BValue, info_hash: [u8; 20]) -> (r: Result<
    Torrent,
    TorrentError,
>)
    ensures
        match torrent_of(announce@, info@, info_hash@) {
            Ok(m) => r matches Ok(torrent) && torrent@ == m,
            Err(e) => r matches Err(error) && error == e,
        },
{
    let name = match get_text(info, "name", "info.name") {
        Ok(name) => name,
        Err(e) => return Err(e),
    };
    let piece_length: i64 = match get_int(info, "piece length", "info.piece length") {
        Ok(n) => n,
        Err(e) => return Err(e),
    };
    let pieces = match parse_pieces(info) {
        Ok(pieces) => pieces,
        Err(e) => return Err(e),
    };
    let layout = match parse_layout(info) {
        Ok(layout) => layout,
        Err(e) => return Err(e),
    };
    Ok(Torrent { announce, name, piece_length, pieces, layout, info_hash })
}

/// Parses the bytes of a torrent file.
///
/// The `info_hash` is the digest of the very bytes that the file holds for the
/// `info` dictionary, whether or not they are its canonical encoding.
pub fn parse(bytes: &[u8]) -> (r: Result<Torrent, TorrentError>)
    requires
        bytes@.len() < HASH_INPUT_LIMIT,
    ensures
        match parsed(bytes@) {
            Ok(m) => r matches Ok(torrent) && torrent@ == m,
            Err(e) => r matches Err(error) && error == e,
        },
{
    let root = match decode(bytes) {
        Ok(root) => root,
        Err(e) => return Err(TorrentError::from(e)),
    };
    let announce = match get_text(&root, "announce", "announce") {
        Ok(announce) => announce,
        Err(e) => return Err(e),
    };
    let info = match get_field(&root, "info", "info") {
        Ok(info) => info,
        Err(e) => return Err(e),
    };
    proof {
        spans_hold_the_values(bytes@, "info".spec_bytes());
    }
    let info_hash: [u8; 20] = match value_span(bytes, "info".as_bytes()) {
        Some((from, to)) => sha1_digest(&bytes[from..to]),
        None => return Err(TorrentError::MissingField("info")),
    };
    from_info(announce, info, info_hash)
}

// ---------------------------------------------------------------------
// What a torrent says
// ---------------------------------------------------------------------

/// The lengths of all `files` together.
pub open spec fn sum_of_lengths(files: Seq<FileModel>) -> int
    decreases files.len(),
{
    if files.len() == 0 {
        0
    } else {
        sum_of_lengths(files.drop_last()) + files.last().length
    }
}

impl LayoutModel {
    /// The size of everything together.
    pub open spec fn total(self) -> int {
        match self {
            LayoutModel::Single(length) => length,
            LayoutModel::Multi(files) => sum_of_lengths(files),
        }
    }

    /// Whether the lengths can be added up one after the other in an `i64`.
    pub open spec fn total_fits(self) -> bool {
        match self {
            LayoutModel::Single(length) => true,
            LayoutModel::Multi(files) => forall|k: int|
                0 <= k <= files.len() ==> i64::MIN <= sum_of_lengths(#[trigger] files.take(k))
                    <= i64::MAX,
        }
    }
}

impl Torrent {
    /// The size in bytes of everything that the torrent describes.
    pub fn total_length(&self) -> (r: i64)
        requires
            self@.layout.total_fits(),
        ensures
            r == self@.layout.total(),
    {
        match self.checked_total_length() {
            Some(total) => total,
            None => 0,
        }
    }

    /// The size in bytes of everything that the torrent describes, if the
    /// lengths can be added up in an `i64`.
    pub fn checked_total_length(&self) -> (r: Option<i64>)
        ensures
            match r {
                Some(total) => self@.layout.total_fits() && total == self@.layout.total(),
                None => !self@.layout.total_fits(),
            },
    {
        match &self.layout {
            FileLayout::Single { length } => Some(*length),
            FileLayout::Multi { files } => {
                let ghost models = self@.layout->Multi_0;
                let mut total: i64 = 0;
                let mut i: usize = 0;
                assert(models.take(0) =~= seq![]);
                while i < files.len()
                    invariant
                        i <= files@.len(),
                        models == Seq::new(files@.len(), |i: int| files@[i]@),
                        self@.layout == LayoutModel::Multi(models),
                        total == sum_of_lengths(models.take(i as int)),
                        forall|k: int|
                            0 <= k <= i ==> i64::MIN <= sum_of_lengths(#[trigger] models.take(k))
                                <= i64::MAX,
                    decreases files@.len() - i,
                {
                    let length: i64 = files[i].length;
                    assert(models.take(i + 1).drop_last() =~= models.take(i as int));
                    assert(sum_of_lengths(models.take(i + 1)) == total + length);
                    total = match total.checked_add(length) {
                        Some(sum) => sum,
                        None => {
                            proof {
                                let all = self@.layout->Multi_0;
                                assert(!(i64::MIN <= sum_of_lengths(all.take(i + 1)) <= i64::MAX));
                            }
                            return None;
                        },
                    };
                    i += 1;
                }
                assert(models.take(i as int) =~= models);
                Some(total)
            },
        }
    }

    /// The `info_hash` in hexadecimal, for people to read.
    pub fn info_hash_hex(&self) -> (r: String)
        ensures
            r@ == hex_text(self.info_hash@),
    {
        hex(&self.info_hash)
    }
}

impl TorrentError {
    /// What the error says to a user.
    pub open spec fn text(self) -> Seq<char> {
        match self {
            TorrentError::Bencode(e) => "bencode error: "@ + e.text(),
            TorrentError::MissingField(k) => "missing required field: "@ + k@,
            TorrentError::WrongType(k) => "field has wrong type: "@ + k@,
            TorrentError::MalformedPieces => "'pieces' length is not a multiple of 20"@,
            TorrentError::MalformedFileEntry => "malformed entry in 'files' list"@,
        }
    }

    /// The error as a message for a user.
    pub fn message(&self) -> (r: String)
        ensures
            r@ == self.text(),
    {
        match self {
            TorrentError::Bencode(e) => {
                let mut out = "bencode error: ".to_string();
                out.append(e.message().as_str());
                out
            },
            TorrentError::MissingField(k) => {
                let mut out = "missing required field: ".to_string();
                out.append(k);
                out
            },
            TorrentError::WrongType(k) => {
                let mut out = "field has wrong type: ".to_string();
                out.append(k);
                out
            },
            TorrentError::MalformedPieces => "'pieces' length is not a multiple of 20".to_string(),
            TorrentError::MalformedFileEntry => "malformed entry in 'files' list".to_string(),
        }
    }
}

// ---------------------------------------------------------------------
// Creating a torrent
// ---------------------------------------------------------------------

/// The digests of `content` cut into pieces of `size` bytes, one after the
/// other. The last piece is shorter if `size` does not divide the length.
pub open spec fn piece_hashes(content: Seq<u8>, size: nat) -> Seq<u8>
    decreases content.len(),
{
    if content.len() == 0 || size == 0 {
        seq![]
    } else if content.len() <= size {
        sha1_of(content)@
    } else {
        sha1_of(content.take(size as int))@ + piece_hashes(content.skip(size as int), size)
    }
}

/// The number of bytes in a piece: what was asked for, but at least one.
pub open spec fn piece_size(piece_length: int) -> nat {
    if piece_length < 1 {
        1
    } else {
        piece_length as nat
    }
}

/// Hashes content piece by piece while it is being read. The model is the
/// content so far.
pub struct PieceHasher {
    size: u64,
    pending: Vec<u8>,
    hashes: Vec<u8>,
    content: Ghost<Seq<u8>>,
}

impl PieceHasher {
    /// The content so far.
    pub closed spec fn view(&self) -> Seq<u8> {
        self.content@
    }

    /// The number of bytes in a piece.
    pub closed spec fn size(&self) -> nat {
        self.size as nat
    }

    /// Whether the hashes so far and the bytes of the unfinished piece account
    /// for the content, however it goes on.
    pub closed spec fn wf(&self) -> bool {
        &&& self.pending@.len() < self.size < HASH_INPUT_LIMIT
        &&& forall|rest: Seq<u8>|
            #![trigger self.content@ + rest]
            piece_hashes(self.content@ + rest, self.size as nat) == self.hashes@ + piece_hashes(
                self.pending@ + rest,
                self.size as nat,
            )
    }

    /// Starts with no content.
    pub fn new(piece_length: i64) -> (r: PieceHasher)
        requires
            piece_length < HASH_INPUT_LIMIT,
        ensures
            r.wf(),
            r@ == Seq::<u8>::empty(),
            r.size() == piece_size(piece_length as int),
    {
        let size: u64 = if piece_length < 1 {
            1
        } else {
            piece_length as u64
        };
        let content: Ghost<Seq<u8>> = Ghost(Seq::empty());
        let r = PieceHasher { size, pending: Vec::new(), hashes: Vec::new(), content };
        assert forall|rest: Seq<u8>|
            #![trigger r.content@ + rest]
            piece_hashes(r.content@ + rest, size as nat) == r.hashes@ + piece_hashes(
                r.pending@ + rest,
                size as nat,
            ) by {
            assert(r.content@ + rest =~= r.pending@ + rest);
            assert(r.hashes@ + piece_hashes(r.pending@ + rest, size as nat) =~= piece_hashes(
                r.pending@ + rest,
                size as nat,
            ));
        }
        r
    }

    /// Adds one byte of content.
    fn push(&mut self, b: u8)
        requires
            old(self).wf(),
        ensures
            final(self).wf(),
            final(self)@ == old(self)@.push(b),
            final(self).size() == old(self).size(),
    {
        let ghost size = self.size as nat;
        let ghost before = *self;
        self.pending.push(b);
        let ghost piece = self.pending@;
        proof {
            self.content@ = self.content@.push(b);
        }
        if self.pending.len() as u64 == self.size {
            let hash = sha1_digest(self.pending.as_slice());
            push_all(&mut self.hashes, &hash);
            self.pending.clear();
            proof {
                assert forall|rest: Seq<u8>|
                    #![trigger self.content@ + rest]
                    piece_hashes(self.content@ + rest, size) == self.hashes@ + piece_hashes(
                        self.pending@ + rest,
                        size,
                    ) by {
                    assert(self.content@ + rest =~= before.content@ + (seq![b] + rest));
                    assert(before.pending@ + (seq![b] + rest) =~= piece + rest);
                    assert(self.pending@ + rest =~= rest);
                    lemma_first_piece(piece, rest, size);
                    assert(self.hashes@ + piece_hashes(rest, size) =~= before.hashes@ + (sha1_of(
                        piece,
                    )@ + piece_hashes(rest, size)));
                }
            }
        } else {
            proof {
                assert forall|rest: Seq<u8>|
                    #![trigger self.content@ + rest]
                    piece_hashes(self.content@ + rest, size) == self.hashes@ + piece_hashes(
                        self.pending@ + rest,
                        size,
                    ) by {
                    assert(self.content@ + rest =~= before.content@ + (seq![b] + rest));
                    assert(before.pending@ + (seq![b] + rest) =~= piece + rest);
                }
            }
        }
    }

    /// Adds `data` to the content.
    pub fn update(&mut self, data: &[u8])
        requires
            old(self).wf(),
        ensures
            final(self).wf(),
            final(self)@ == old(self)@ + data@,
            final(self).size() == old(self).size(),
    {
        let mut i: usize = 0;
        assert(self@ + data@.take(0) =~= self@);
        while i < data.len()
            invariant
                i <= data@.len(),
                self.wf(),
                self@ == old(self)@ + data@.take(i as int),
                self.size() == old(self).size(),
            decreases data@.len() - i,
        {
            self.push(data[i]);
            i += 1;
            assert(self@ =~= old(self)@ + data@.take(i as int));
        }
        assert(data@.take(i as int) =~= data@);
    }

    /// The digests of all pieces of the content, one after the other.
    pub fn finish(self) -> (r: Vec<u8>)
        requires
            self.wf(),
        ensures
            r@ == piece_hashes(self@, self.size()),
    {
        proof {
            assert(self.content@ + seq![] =~= self.content@);
            assert(self.pending@ + seq![] =~= self.pending@);
        }
        let mut hashes = self.hashes;
        if self.pending.len() > 0 {
            let hash = sha1_digest(self.pending.as_slice());
            push_all(&mut hashes, &hash);
        }
        assert(hashes@ =~= piece_hashes(self@, self.size()));
        hashes
    }
}

/// The digest of a full piece comes before those of whatever follows it.
proof fn lemma_first_piece(piece: Seq<u8>, rest: Seq<u8>, size: nat)
    requires
        piece.len() == size,
        size > 0,
    ensures
        piece_hashes(piece + rest, size) == sha1_of(piece)@ + piece_hashes(rest, size),
{
    let whole = piece + rest;
    if rest.len() == 0 {
        assert(whole =~= piece);
        assert(sha1_of(piece)@ + piece_hashes(rest, size) =~= sha1_of(piece)@);
    } else {
        assert(whole.take(size as int) =~= piece);
        assert(whole.skip(size as int) =~= rest);
    }
}

/// The dictionary of a torrent file that describes a single file.
pub open spec fn single_file_root(
    announce: Seq<char>,
    name: Seq<char>,
    piece_length: int,
    total_length: int,
    pieces: Seq<u8>,
) -> BModel {
    BModel::Dict(
        seq![
            ("announce".spec_bytes(), BModel::Bytes(encode_utf8(announce))),
            ("info".spec_bytes(), single_file_info(name, piece_length, total_length, pieces)),
        ],
    )
}

/// The `info` dictionary of a torrent file that describes a single file.
pub open spec fn single_file_info(
    name: Seq<char>,
    piece_length: int,
    total_length: int,
    pieces: Seq<u8>,
) -> BModel {
    BModel::Dict(
        seq![
            ("length".spec_bytes(), BModel::Int(total_length)),
            ("name".spec_bytes(), BModel::Bytes(encode_utf8(name))),
            ("piece length".spec_bytes(), BModel::Int(piece_length)),
            ("pieces".spec_bytes(), BModel::Bytes(pieces)),
        ],
    )
}

/// Two byte strings that first differ at `k` are ordered as the bytes there.
pub(crate) proof fn lemma_precedes_at(a: Seq<u8>, b: Seq<u8>, k: int)
    requires
        0 <= k < a.len(),
        k < b.len(),
        forall|i: int| 0 <= i < k ==> a[i] == b[i],
        a[k] < b[k],
    ensures
        precedes(a, b),
        !precedes(b, a),
        a != b,
    decreases k,
{
    if k > 0 {
        assert(a[0] == b[0]);
        assert forall|i: int| 0 <= i < k - 1 implies a.drop_first()[i] == b.drop_first()[i] by {
            assert(a[i + 1] == b[i + 1]);
        }
        lemma_precedes_at(a.drop_first(), b.drop_first(), k - 1);
    }
}

/// The order of the keys in a torrent file that describes a single file.
pub(crate) proof fn lemma_keys_in_order()
    ensures
        precedes("announce".spec_bytes(), "info".spec_bytes()),
        precedes("length".spec_bytes(), "name".spec_bytes()),
        precedes("length".spec_bytes(), "piece length".spec_bytes()),
        precedes("length".spec_bytes(), "pieces".spec_bytes()),
        precedes("name".spec_bytes(), "piece length".spec_bytes()),
        precedes("name".spec_bytes(), "pieces".spec_bytes()),
        precedes("piece length".spec_bytes(), "pieces".spec_bytes()),
{
    reveal_strlit("announce");
    reveal_strlit("info");
    reveal_strlit("length");
    reveal_strlit("name");
    reveal_strlit("piece length");
    reveal_strlit("pieces");
    broadcast use vstd::string::is_ascii_spec_bytes;

    assert("announce".is_ascii() && "info".is_ascii() && "length".is_ascii() && "name".is_ascii()
        && "piece length".is_ascii() && "pieces".is_ascii());
    lemma_precedes_at("announce".spec_bytes(), "info".spec_bytes(), 0);
    lemma_precedes_at("length".spec_bytes(), "name".spec_bytes(), 0);
    lemma_precedes_at("length".spec_bytes(), "piece length".spec_bytes(), 0);
    lemma_precedes_at("length".spec_bytes(), "pieces".spec_bytes(), 0);
    lemma_precedes_at("name".spec_bytes(), "piece length".spec_bytes(), 0);
    lemma_precedes_at("name".spec_bytes(), "pieces".spec_bytes(), 0);
    lemma_precedes_at("piece length".spec_bytes(), "pieces".spec_bytes(), 5);
}

/// An entry with a larger key than all others goes behind them.
proof fn lemma_inserted_last(entries: Seq<(Seq<u8>, BModel)>, key: Seq<u8>, value: BModel)
    requires
        forall|i: int| 0 <= i < entries.len() ==> precedes((#[trigger] entries[i]).0, key),
    ensures
        inserted(entries, key, value) == entries.push((key, value)),
{
    assert forall|i: int| 0 <= i < entries.len() implies (#[trigger] entries[i]).0 != key
        && !precedes(key, entries[i].0) by {
        precedes_is_total(entries[i].0, key);
    }
    lemma_inserted_at(entries, key, value, entries.len() as int);
    assert(entries.insert(entries.len() as int, (key, value)) =~= entries.push((key, value)));
}

/// The bytes of a text, as a vector of its own.
fn bytes_of(text: &str) -> (r: Vec<u8>)
    ensures
        r@ == text.spec_bytes(),
{
    slice_to_vec(text.as_bytes())
}

/// What a torrent of a single file is named: as the file, or `unnamed` where the
/// path of the file ends in no name.
pub fn torrent_name(file_name: Option<String>) -> (r: String)
    ensures
        r@ == (match file_name {
            Some(name) => name@,
            None => "unnamed"@,
        }),
{
    match file_name {
        Some(name) => name,
        None => "unnamed".to_string(),
    }
}

/// Writes the torrent file of a single file whose pieces have been hashed.
pub fn single_file_torrent(
    announce: &str,
    name: &str,
    piece_length: i64,
    total_length: i64,
    pieces: Vec<u8>,
) -> (r: Vec<u8>)
    ensures
        r@ == encoded(
            single_file_root(
                announce@,
                name@,
                piece_length as int,
                total_length as int,
                pieces@,
            ),
        ),
{
    proof {
        lemma_keys_in_order();
        precedes_is_total("length".spec_bytes(), "name".spec_bytes());
    }
    let ghost name_entry = ("name".spec_bytes(), BModel::Bytes(encode_utf8(name@)));
    let ghost size_entry = ("piece length".spec_bytes(), BModel::Int(piece_length as int));
    let ghost pieces_entry = ("pieces".spec_bytes(), BModel::Bytes(pieces@));
    let ghost info_model = single_file_info(
        name@,
        piece_length as int,
        total_length as int,
        pieces@,
    );
    let mut info = BDict::new();
    info.insert(bytes_of("name"), BValue::Bytes(bytes_of(name)));
    assert(info@ =~= seq![name_entry]);
    proof {
        lemma_inserted_last(info@, size_entry.0, size_entry.1);
    }
    info.insert(bytes_of("piece length"), BValue::Int(piece_length));
    assert(info@ =~= seq![name_entry, size_entry]);
    proof {
        lemma_inserted_last(info@, pieces_entry.0, pieces_entry.1);
    }
    info.insert(bytes_of("pieces"), BValue::Bytes(pieces));
    assert(info@ =~= seq![name_entry, size_entry, pieces_entry]);
    info.insert(bytes_of("length"), BValue::Int(total_length));
    assert(info@ =~= info_model->Dict_0);
    let mut root = BDict::new();
    root.insert(bytes_of("announce"), BValue::Bytes(bytes_of(announce)));
    proof {
        lemma_inserted_last(root@, "info".spec_bytes(), info_model);
    }
    root.insert(bytes_of("info"), BValue::Dict(info));
    assert(root@ =~= seq![
        ("announce".spec_bytes(), BModel::Bytes(encode_utf8(announce@))),
        ("info".spec_bytes(), info_model),
    ]);
    encode(&BValue::Dict(root))
}

/// Creates the torrent file of a single file: cuts `content` into pieces of
/// `piece_length` bytes and hashes each of them.
pub fn create_single_file_torrent(
    name: &str,
    content: &[u8],
    announce: &str,
    piece_length: i64,
) -> (r: Vec<u8>)
    requires
        piece_length < HASH_INPUT_LIMIT,
        content@.len() <= i64::MAX,
    ensures
        r@ == encoded(
            single_file_root(
                announce@,
                name@,
                piece_length as int,
                content@.len() as int,
                piece_hashes(content@, piece_size(piece_length as int)),
            ),
        ),
{
    let mut hasher = PieceHasher::new(piece_length);
    hasher.update(content);
    assert(hasher@ =~= content@);
    single_file_torrent(announce, name, piece_length, content.len() as i64, hasher.finish())
}

} // verus!
