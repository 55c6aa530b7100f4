//! Bencode, the serialization format of BitTorrent.
//!
//! There are four kinds of values:
//!
//! * integers, `i<decimal>e`, such as `i42e` and `i-3e`;
//! * byte strings, `<length>:<bytes>`, such as `4:spam`;
//! * lists, `l<values>e`, such as `l4:spam4:eggse`;
//! * dictionaries, `d<key><value>...e`, such as `d3:cow3:mooe`, whose keys are
//!   byte strings in increasing order.
//!
//! Every value has a mathematical model, [`BModel`]. What a byte sequence
//! decodes to is the spec function [`decoded`], and what a value is encoded as
//! is [`encoded`].

use crate::ascii::{COLON, LOWER_D, LOWER_E, LOWER_I, LOWER_L, NINE, ZERO};
use crate::bencode_laws::values_stand_alone;
use crate::decimal::{
    digits, parse_i64, parse_usize, push_i64, push_u64, signed_digits, signed_literal, unsigned_literal,
    lemma_unsigned_literal_nonnegative,
};
use crate::text::{char_debug, debug_text, utf8_text};
use vstd::prelude::*;
use vstd::slice::slice_to_vec;
use vstd::string::{StringExecFns, StringSliceAdditionalSpecFns};
use vstd::utf8::{decode_utf8, valid_utf8};

verus! {

/// A decoded value.
///
/// Byte strings are bytes, not text: piece hashes, for one, are raw binary
/// digests.
#[derive(Debug, PartialEq, Eq)]
pub enum BValue {
    Int(i64),
    Bytes(Vec<u8>),
    List(Vec<BValue>),
    Dict(BDict),
}

/// A dictionary from byte strings to values, kept in increasing order of its
/// keys.
///
/// The order is what makes an encoding reproducible.
#[derive(Debug, PartialEq, Eq)]
pub struct BDict {
    entries: Vec<(Vec<u8>, BValue)>,
}

/// Why a byte sequence is no encoding of a value.
#[derive(Debug, Clone, Copy, PartialEq, Eq)]
pub enum BError {
    UnexpectedEof,
    InvalidInteger,
    InvalidStringLength,
    UnexpectedToken(u8),
    TrailingData,
}

// ---------------------------------------------------------------------
// The model of a value
// ---------------------------------------------------------------------

/// The mathematical value that a [`BValue`] stands for. A dictionary is the
/// sequence of its entries.
pub enum BModel {
    Int(int),
    Bytes(Seq<u8>),
    List(Seq<BModel>),
    Dict(Seq<(Seq<u8>, BModel)>),
}

impl BValue {
    pub open spec fn view(&self) -> BModel
        decreases *self,
    {
        match *self {
            BValue::Int(n) => BModel::Int(n as int),
            BValue::Bytes(b) => BModel::Bytes(b@),
            BValue::List(items) => BModel::List(
                Seq::new(
                    items@.len(),
                    |i: int|
                        if 0 <= i < items@.len() {
                            items@[i].view()
                        } else {
                            arbitrary()
                        },
                ),
            ),
            BValue::Dict(d) => BModel::Dict(d.view()),
        }
    }
}

impl BDict {
    pub closed spec fn view(&self) -> Seq<(Seq<u8>, BModel)>
        decreases *self,
    {
        Seq::new(
            self.entries@.len(),
            |i: int|
                if 0 <= i < self.entries@.len() {
                    (self.entries@[i].0@, self.entries@[i].1.view())
                } else {
                    arbitrary()
                },
        )
    }
}

/// Whether `a` comes strictly before `b` in the lexicographic order of byte
/// strings.
pub open spec fn precedes(a: Seq<u8>, b: Seq<u8>) -> bool
    decreases a.len(),
{
    if b.len() == 0 {
        false
    } else if a.len() == 0 {
        true
    } else if a[0] != b[0] {
        a[0] < b[0]
    } else {
        precedes(a.drop_first(), b.drop_first())
    }
}

/// Whether the keys of `entries` are strictly increasing.
pub open spec fn keys_increase(entries: Seq<(Seq<u8>, BModel)>) -> bool {
    forall|i: int, j: int|
        0 <= i < j < entries.len() ==> precedes(#[trigger] entries[i].0, #[trigger] entries[j].0)
}

impl BModel {
    /// Whether a [`BValue`] can have this model: integers fit in an `i64` and
    /// the keys of every dictionary are strictly increasing.
    pub open spec fn wf(self) -> bool
        decreases self,
    {
        match self {
            BModel::Int(n) => i64::MIN <= n <= i64::MAX,
            BModel::Bytes(b) => true,
            BModel::List(items) => forall|i: int| 0 <= i < items.len() ==> (#[trigger] items[i]).wf(),
            BModel::Dict(entries) => keys_increase(entries) && forall|i: int|
                0 <= i < entries.len() ==> (#[trigger] entries[i]).1.wf(),
        }
    }

    /// The value that a dictionary holds under `key`. Nothing else than a
    /// dictionary holds any.
    pub open spec fn get(self, key: Seq<u8>) -> Option<BModel> {
        match self {
            BModel::Dict(entries) => lookup(entries, key),
            _ => None,
        }
    }

    /// The text that a byte string encodes in UTF-8.
    pub open spec fn as_text(self) -> Option<Seq<char>> {
        match self {
            BModel::Bytes(b) => if valid_utf8(b) {
                Some(decode_utf8(b))
            } else {
                None
            },
            _ => None,
        }
    }
}

/// The value of the first entry whose key is `key`.
pub open spec fn lookup(entries: Seq<(Seq<u8>, BModel)>, key: Seq<u8>) -> Option<BModel>
    decreases entries.len(),
{
    if entries.len() == 0 {
        None
    } else if entries[0].0 == key {
        Some(entries[0].1)
    } else {
        lookup(entries.drop_first(), key)
    }
}

/// `entries` with `value` under `key`: in the place of the entry that had that
/// key, or else before the first entry with a larger one.
pub open spec fn inserted(
    entries: Seq<(Seq<u8>, BModel)>,
    key: Seq<u8>,
    value: BModel,
) -> Seq<(Seq<u8>, BModel)>
    decreases entries.len(),
{
    if entries.len() == 0 {
        seq![(key, value)]
    } else if entries[0].0 == key {
        entries.update(0, (key, value))
    } else if precedes(key, entries[0].0) {
        seq![(key, value)] + entries
    } else {
        seq![entries[0]] + inserted(entries.drop_first(), key, value)
    }
}

/// The dictionary that results from inserting `pairs` one after the other, so
/// that of two pairs with one key the later one stays.
pub open spec fn collected(pairs: Seq<(Seq<u8>, BModel)>) -> Seq<(Seq<u8>, BModel)>
    decreases pairs.len(),
{
    if pairs.len() == 0 {
        seq![]
    } else {
        inserted(collected(pairs.drop_last()), pairs.last().0, pairs.last().1)
    }
}

// ---------------------------------------------------------------------
// Dictionaries
// ---------------------------------------------------------------------

/// Whether `a` comes strictly before `b`.
fn bytes_precede(a: &[u8], b: &[u8]) -> (r: bool)
    ensures
        r == precedes(a@, b@),
{
    let mut i: usize = 0;
    assert(a@.skip(0) =~= a@);
    assert(b@.skip(0) =~= b@);
    while i < a.len() && i < b.len()
        invariant
            i <= a@.len(),
            i <= b@.len(),
            precedes(a@, b@) == precedes(a@.skip(i as int), b@.skip(i as int)),
        decreases a@.len() - i,
    {
        if a[i] != b[i] {
            return a[i] < b[i];
        }
        assert(a@.skip(i as int).drop_first() =~= a@.skip(i + 1));
        assert(b@.skip(i as int).drop_first() =~= b@.skip(i + 1));
        i += 1;
    }
    i < b.len()
}

/// Whether `a` and `b` are the same bytes.
pub(crate) fn bytes_equal(a: &[u8], b: &[u8]) -> (r: bool)
    ensures
        r == (a@ == b@),
{
    if a.len() != b.len() {
        return false;
    }
    let mut i: usize = 0;
    while i < a.len()
        invariant
            i <= a@.len(),
            a@.len() == b@.len(),
            forall|j: int| 0 <= j < i ==> a@[j] == b@[j],
        decreases a@.len() - i,
    {
        if a[i] != b[i] {
            return false;
        }
        i += 1;
    }
    assert(a@ =~= b@);
    true
}

/// Where an entry goes: after the first `i` entries, if none of these has the
/// key or a larger one.
pub(crate) proof fn lemma_inserted_at(
    entries: Seq<(Seq<u8>, BModel)>,
    key: Seq<u8>,
    value: BModel,
    i: int,
)
    requires
        0 <= i <= entries.len(),
        forall|j: int| 0 <= j < i ==> (#[trigger] entries[j]).0 != key && !precedes(key, entries[j].0),
        i < entries.len() ==> entries[i].0 == key || precedes(key, entries[i].0),
    ensures
        i < entries.len() && entries[i].0 == key ==> {
            &&& inserted(entries, key, value) == entries.update(i, (key, value))
            &&& lookup(entries, key) == Some(entries[i].1)
        },
        !(i < entries.len() && entries[i].0 == key) ==> inserted(entries, key, value)
            == entries.insert(i, (key, value)),
    decreases i,
{
    if i == 0 {
        if entries.len() == 0 {
            assert(entries.insert(0, (key, value)) =~= seq![(key, value)]);
        } else if entries[0].0 != key {
            assert(entries.insert(0, (key, value)) =~= seq![(key, value)] + entries);
        }
    } else {
        let rest = entries.drop_first();
        assert(entries[0].0 != key);
        assert forall|j: int| 0 <= j < i - 1 implies (#[trigger] rest[j]).0 != key && !precedes(
            key,
            rest[j].0,
        ) by {
            assert(rest[j] == entries[j + 1]);
        }
        lemma_inserted_at(rest, key, value, i - 1);
        if i < entries.len() && entries[i].0 == key {
            assert(seq![entries[0]] + rest.update(i - 1, (key, value)) =~= entries.update(
                i,
                (key, value),
            ));
        } else {
            assert(seq![entries[0]] + rest.insert(i - 1, (key, value)) =~= entries.insert(
                i,
                (key, value),
            ));
        }
    }
}

proof fn lemma_lookup_skip(entries: Seq<(Seq<u8>, BModel)>, key: Seq<u8>, i: int)
    requires
        0 <= i <= entries.len(),
        forall|j: int| 0 <= j < i ==> (#[trigger] entries[j]).0 != key,
    ensures
        lookup(entries, key) == lookup(entries.skip(i), key),
    decreases i,
{
    if i == 0 {
        assert(entries.skip(0) =~= entries);
    } else {
        let rest = entries.drop_first();
        assert(entries[0].0 != key);
        assert forall|j: int| 0 <= j < i - 1 implies (#[trigger] rest[j]).0 != key by {
            assert(rest[j] == entries[j + 1]);
        }
        lemma_lookup_skip(rest, key, i - 1);
        assert(rest.skip(i - 1) =~= entries.skip(i));
    }
}

/// The order of byte strings is total.
pub proof fn precedes_is_total(a: Seq<u8>, b: Seq<u8>)
    ensures
        a == b || precedes(a, b) || precedes(b, a),
        !(precedes(a, b) && precedes(b, a)),
        !precedes(a, a),
    decreases a.len(),
{
    if a.len() > 0 {
        precedes_is_total(a.drop_first(), a.drop_first());
    }
    if a.len() > 0 && b.len() > 0 && a[0] == b[0] {
        precedes_is_total(a.drop_first(), b.drop_first());
        if a.drop_first() == b.drop_first() {
            assert(a =~= seq![a[0]] + a.drop_first());
            assert(b =~= seq![b[0]] + b.drop_first());
        }
    } else if a.len() == 0 && b.len() == 0 {
        assert(a =~= b);
    }
}

/// The order of byte strings is transitive.
pub proof fn precedes_is_transitive(a: Seq<u8>, b: Seq<u8>, c: Seq<u8>)
    requires
        precedes(a, b),
        precedes(b, c),
    ensures
        precedes(a, c),
    decreases a.len(),
{
    if a.len() > 0 && a[0] == b[0] && b[0] == c[0] {
        precedes_is_transitive(a.drop_first(), b.drop_first(), c.drop_first());
    }
}

/// An entry that goes in front of `entries[i]` leaves the keys increasing, and
/// only the entry with its own key makes way for it.
pub(crate) proof fn lemma_inserted_increases(
    entries: Seq<(Seq<u8>, BModel)>,
    key: Seq<u8>,
    value: BModel,
    i: int,
)
    requires
        keys_increase(entries),
        0 <= i <= entries.len(),
        forall|j: int| 0 <= j < i ==> (#[trigger] entries[j]).0 != key && !precedes(key, entries[j].0),
        i < entries.len() ==> entries[i].0 == key || precedes(key, entries[i].0),
    ensures
        i < entries.len() && entries[i].0 == key ==> keys_increase(
            entries.update(i, (key, value)),
        ),
        !(i < entries.len() && entries[i].0 == key) ==> keys_increase(
            entries.insert(i, (key, value)),
        ) && lookup(entries, key) is None,
{
    if !(i < entries.len() && entries[i].0 == key) {
        assert forall|j: int| 0 <= j < i implies precedes(#[trigger] entries[j].0, key) by {
            assert(entries[j].0 != key);
            precedes_is_total(entries[j].0, key);
        }
        assert forall|j: int| i <= j < entries.len() implies precedes(
            key,
            #[trigger] entries[j].0,
        ) && entries[j].0 != key by {
            if i < j {
                precedes_is_transitive(key, entries[i].0, entries[j].0);
            }
            precedes_is_total(key, entries[j].0);
        }
        let more = entries.insert(i, (key, value));
        assert forall|a: int, b: int| 0 <= a < b < more.len() implies precedes(
            #[trigger] more[a].0,
            #[trigger] more[b].0,
        ) by {
            let before_a = if a < i { a } else { a - 1 };
            let before_b = if b < i { b } else { b - 1 };
            if a != i && b != i {
                assert(more[a] == entries[before_a] && more[b] == entries[before_b]);
            } else if a == i {
                assert(more[b] == entries[before_b]);
            } else {
                assert(more[a] == entries[before_a]);
            }
        }
        lemma_lookup_skip(entries, key, entries.len() as int);
    }
}

impl BDict {
    /// The keys are strictly increasing.
    #[verifier::type_invariant]
    spec fn wf(self) -> bool {
        keys_increase(self@)
    }

    /// The empty dictionary.
    pub fn new() -> (r: BDict)
        ensures
            r@ == Seq::<(Seq<u8>, BModel)>::empty(),
    {
        let entries: Vec<(Vec<u8>, BValue)> = Vec::new();
        assert((BDict { entries })@ =~= Seq::<(Seq<u8>, BModel)>::empty());
        BDict { entries }
    }

    /// The number of entries.
    pub fn len(&self) -> (r: usize)
        ensures
            r == self@.len(),
    {
        self.entries.len()
    }

    /// The key and the value of entry `i`, the entries being in increasing order
    /// of their keys.
    pub fn entry(&self, i: usize) -> (r: Option<(&[u8], &BValue)>)
        ensures
            keys_increase(self@),
            if i < self@.len() {
                r matches Some(found) && (found.0@, found.1@) == self@[i as int]
            } else {
                r is None
            },
    {
        proof {
            use_type_invariant(self);
        }
        if i < self.entries.len() {
            Some((self.entries[i].0.as_slice(), &self.entries[i].1))
        } else {
            None
        }
    }

    /// The value under `key`.
    pub fn get(&self, key: &[u8]) -> (r: Option<&BValue>)
        ensures
            match lookup(self@, key@) {
                Some(v) => r matches Some(value) && value@ == v,
                None => r is None,
            },
    {
        let mut i: usize = 0;
        while i < self.entries.len()
            invariant
                i <= self.entries@.len(),
                forall|j: int| 0 <= j < i ==> (#[trigger] self@[j]).0 != key@,
            decreases self.entries@.len() - i,
        {
            assert(self@[i as int] == (self.entries@[i as int].0@, self.entries@[i as int].1@));
            if bytes_equal(self.entries[i].0.as_slice(), key) {
                proof {
                    lemma_lookup_skip(self@, key@, i as int);
                }
                return Some(&self.entries[i].1);
            }
            i += 1;
        }
        proof {
            lemma_lookup_skip(self@, key@, self@.len() as int);
        }
        None
    }

    /// Puts `value` under `key` and returns the value that was there before. The
    /// keys stay strictly increasing.
    pub fn insert(&mut self, key: Vec<u8>, value: BValue) -> (r: Option<BValue>)
        ensures
            final(self)@ == inserted(old(self)@, key@, value@),
            keys_increase(old(self)@),
            keys_increase(final(self)@),
            match lookup(old(self)@, key@) {
                Some(v) => r matches Some(previous) && previous@ == v,
                None => r is None,
            },
    {
        proof {
            use_type_invariant(&*self);
        }
        let mut entries: Vec<(Vec<u8>, BValue)> = Vec::new();
        std::mem::swap(&mut entries, &mut self.entries);
        let ghost before = BDict { entries };
        let mut i: usize = 0;
        while i < entries.len() && !bytes_equal(entries[i].0.as_slice(), key.as_slice())
            && !bytes_precede(key.as_slice(), entries[i].0.as_slice())
            invariant
                before.entries == entries,
                i <= entries@.len(),
                forall|j: int|
                    0 <= j < i ==> (#[trigger] before@[j]).0 != key@ && !precedes(
                        key@,
                        before@[j].0,
                    ),
            decreases entries@.len() - i,
        {
            i += 1;
        }
        proof {
            if i < entries@.len() {
                assert(before@[i as int].0 == entries@[i as int].0@);
            }
            lemma_inserted_at(before@, key@, value@, i as int);
            lemma_inserted_increases(before@, key@, value@, i as int);
        }
        if i < entries.len() && bytes_equal(entries[i].0.as_slice(), key.as_slice()) {
            let (_, previous) = entries.remove(i);
            entries.insert(i, (key, value));
            assert((BDict { entries })@ =~= before@.update(i as int, (key@, value@)));
            self.entries = entries;
            Some(previous)
        } else {
            entries.insert(i, (key, value));
            assert((BDict { entries })@ =~= before@.insert(i as int, (key@, value@)));
            self.entries = entries;
            None
        }
    }
}

// ---------------------------------------------------------------------
// Looking at a value
// ---------------------------------------------------------------------

impl BValue {
    /// The value under `key` of a dictionary. Any other value has none.
    pub fn get(&self, key: &str) -> (r: Option<&BValue>)
        ensures
            match self@.get(key.spec_bytes()) {
                Some(v) => r matches Some(value) && value@ == v,
                None => r is None,
            },
    {
        match self {
            BValue::Dict(map) => map.get(key.as_bytes()),
            _ => None,
        }
    }

    /// The bytes of a byte string.
    pub fn as_bytes(&self) -> (r: Option<&[u8]>)
        ensures
            match self@ {
                BModel::Bytes(b) => r matches Some(bytes) && bytes@ == b,
                _ => r is None,
            },
    {
        match self {
            BValue::Bytes(b) => Some(b.as_slice()),
            _ => None,
        }
    }

    /// The text of a byte string that is valid UTF-8.
    pub fn as_str(&self) -> (r: Option<&str>)
        ensures
            match self@.as_text() {
                Some(t) => r matches Some(text) && text@ == t,
                None => r is None,
            },
    {
        match self.as_bytes() {
            Some(b) => utf8_text(b),
            None => None,
        }
    }

    /// The number that an integer is.
    pub fn as_int(&self) -> (r: Option<i64>)
        ensures
            match self@ {
                BModel::Int(n) => r matches Some(number) && number == n,
                _ => r is None,
            },
    {
        match self {
            BValue::Int(n) => Some(*n),
            _ => None,
        }
    }

    /// The items of a list.
    pub fn as_list(&self) -> (r: Option<&[BValue]>)
        ensures
            match self@ {
                BModel::List(items) => r matches Some(values) && values@.len() == items.len()
                    && forall|i: int|
                    0 <= i < items.len() ==> (#[trigger] values@[i])@ == items[i],
                _ => r is None,
            },
            match *self {
                BValue::List(v) => r matches Some(values) && values@ == v@,
                _ => r is None,
            },
    {
        match self {
            BValue::List(items) => Some(items.as_slice()),
            _ => None,
        }
    }

    /// The dictionary that this value is.
    pub fn as_dict(&self) -> (r: Option<&BDict>)
        ensures
            r == (match *self {
                BValue::Dict(map) => Some(&map),
                _ => None,
            }),
    {
        match self {
            BValue::Dict(map) => Some(map),
            _ => None,
        }
    }
}

/// A copy of `value`.
fn copy_of(value: &BValue) -> (r: BValue)
    ensures
        r@ == value@,
    decreases *value,
{
    match value {
        BValue::Int(n) => BValue::Int(*n),
        BValue::Bytes(b) => BValue::Bytes(slice_to_vec(b.as_slice())),
        BValue::List(items) => {
            let mut out: Vec<BValue> = Vec::new();
            let mut i: usize = 0;
            while i < items.len()
                invariant
                    i <= items@.len(),
                    out@.len() == i,
                    *value == BValue::List(*items),
                    forall|j: int| 0 <= j < i ==> (#[trigger] out@[j])@ == items@[j]@,
                decreases items@.len() - i,
            {
                assert(decreases_to!(*value => value->List_0));
                assert(decreases_to!(value->List_0 => value->List_0@[i as int]));
                let item = copy_of(&items[i]);
                out.push(item);
                i += 1;
            }
            assert(BValue::List(out)@->List_0 =~= value@->List_0);
            BValue::List(out)
        },
        BValue::Dict(map) => {
            let mut out: Vec<(Vec<u8>, BValue)> = Vec::new();
            let mut i: usize = 0;
            while i < map.entries.len()
                invariant
                    i <= map.entries@.len(),
                    out@.len() == i,
                    *value == BValue::Dict(*map),
                    forall|j: int|
                        0 <= j < i ==> (#[trigger] out@[j]).0@ == map.entries@[j].0@ && out@[j].1@
                            == map.entries@[j].1@,
                decreases map.entries@.len() - i,
            {
                assert(decreases_to!(*value => value->Dict_0));
                assert(decreases_to!(value->Dict_0 => value->Dict_0.entries));
                assert(decreases_to!(value->Dict_0.entries => value->Dict_0.entries[i as int]));
                assert(decreases_to!(value->Dict_0.entries[i as int] => value->Dict_0.entries[i as int].1));
                let key = slice_to_vec(map.entries[i].0.as_slice());
                let item = copy_of(&map.entries[i].1);
                out.push((key, item));
                i += 1;
            }
            proof {
                use_type_invariant(map);
            }
            assert((BDict { entries: out })@ =~= map@);
            BValue::Dict(BDict { entries: out })
        },
    }
}

impl Clone for BValue {
    fn clone(&self) -> (r: Self)
        ensures
            r@ == self@,
    {
        copy_of(self)
    }
}

impl BError {
    /// What the error says to a user.
    pub open spec fn text(self) -> Seq<char> {
        match self {
            BError::UnexpectedEof => "unexpected end of input"@,
            BError::InvalidInteger => "invalid integer literal"@,
            BError::InvalidStringLength => "invalid byte-string length prefix"@,
            BError::UnexpectedToken(b) => "unexpected byte: "@ + char_debug(b as char),
            BError::TrailingData => "trailing data after top-level value"@,
        }
    }

    /// The error as a message for a user.
    pub fn message(&self) -> (r: String)
        ensures
            r@ == self.text(),
    {
        match self {
            BError::UnexpectedEof => "unexpected end of input".to_string(),
            BError::InvalidInteger => "invalid integer literal".to_string(),
            BError::InvalidStringLength => "invalid byte-string length prefix".to_string(),
            BError::UnexpectedToken(b) => {
                let mut out = "unexpected byte: ".to_string();
                out.append(debug_text(*b as char).as_str());
                out
            },
            BError::TrailingData => "trailing data after top-level value".to_string(),
        }
    }
}

// ---------------------------------------------------------------------
// Decoding
// ---------------------------------------------------------------------

/// The index of the first `target` in `s` at or after `pos`.
pub open spec fn index_from(s: Seq<u8>, target: u8, pos: int) -> Option<int>
    decreases s.len() - pos,
{
    if pos >= s.len() {
        None
    } else if s[pos] == target {
        Some(pos)
    } else {
        index_from(s, target, pos + 1)
    }
}

/// The integer whose literal starts at `pos` in `s`, and the position after
/// the `e` that ends it.
pub open spec fn integer_at(s: Seq<u8>, pos: int) -> Result<(int, int), BError> {
    match index_from(s, LOWER_E, pos) {
        None => Err(BError::UnexpectedEof),
        Some(end) => match signed_literal(s.subrange(pos, end)) {
            Some(n) => if i64::MIN <= n <= i64::MAX {
                Ok((n, end + 1))
            } else {
                Err(BError::InvalidInteger)
            },
            None => Err(BError::InvalidInteger),
        },
    }
}

/// The byte string whose length prefix starts at `pos` in `s`, and the
/// position after it. A length with which the string would end beyond every
/// address is invalid, one with which it would only end beyond `s` is cut
/// short.
pub open spec fn string_at(s: Seq<u8>, pos: int) -> Result<(Seq<u8>, int), BError> {
    match index_from(s, COLON, pos) {
        None => Err(BError::UnexpectedEof),
        Some(colon) => match unsigned_literal(s.subrange(pos, colon)) {
            None => Err(BError::InvalidStringLength),
            Some(len) => if colon + 1 + len > usize::MAX {
                Err(BError::InvalidStringLength)
            } else if colon + 1 + len > s.len() {
                Err(BError::UnexpectedEof)
            } else {
                Ok((s.subrange(colon + 1, colon + 1 + len), colon + 1 + len))
            },
        },
    }
}

/// The value that starts at `pos` in `s`, and the position after it.
pub open spec fn value_at(s: Seq<u8>, pos: int) -> Result<(BModel, int), BError>
    decreases s.len() - pos, 0int,
{
    if pos >= s.len() {
        Err(BError::UnexpectedEof)
    } else if s[pos] == LOWER_I {
        match integer_at(s, pos + 1) {
            Ok((n, end)) => Ok((BModel::Int(n), end)),
            Err(e) => Err(e),
        }
    } else if s[pos] == LOWER_L {
        match items_at(s, pos + 1) {
            Ok((items, end)) => Ok((BModel::List(items), end)),
            Err(e) => Err(e),
        }
    } else if s[pos] == LOWER_D {
        match pairs_at(s, pos + 1) {
            Ok((pairs, end)) => Ok((BModel::Dict(collected(pairs)), end)),
            Err(e) => Err(e),
        }
    } else if ZERO <= s[pos] <= NINE {
        match string_at(s, pos) {
            Ok((bytes, end)) => Ok((BModel::Bytes(bytes), end)),
            Err(e) => Err(e),
        }
    } else {
        Err(BError::UnexpectedToken(s[pos]))
    }
}

/// The values from `pos` in `s` up to the `e` that ends their list, and the
/// position after it.
pub open spec fn items_at(s: Seq<u8>, pos: int) -> Result<(Seq<BModel>, int), BError>
    decreases s.len() - pos, 1int,
{
    if pos >= s.len() {
        Err(BError::UnexpectedEof)
    } else if s[pos] == LOWER_E {
        Ok((seq![], pos + 1))
    } else {
        match value_at(s, pos) {
            Err(e) => Err(e),
            Ok((v, next)) => if pos < next <= s.len() {
                after(seq![v], items_at(s, next))
            } else {
                Err(BError::UnexpectedEof)
            },
        }
    }
}

/// The key-value pairs from `pos` in `s` up to the `e` that ends their
/// dictionary, in the order in which they stand there, and the position after
/// it.
pub open spec fn pairs_at(s: Seq<u8>, pos: int) -> Result<(Seq<(Seq<u8>, BModel)>, int), BError>
    decreases s.len() - pos, 1int,
{
    if pos >= s.len() {
        Err(BError::UnexpectedEof)
    } else if s[pos] == LOWER_E {
        Ok((seq![], pos + 1))
    } else {
        match string_at(s, pos) {
            Err(e) => Err(e),
            Ok((key, mid)) => if pos < mid <= s.len() {
                match value_at(s, mid) {
                    Err(e) => Err(e),
                    Ok((v, next)) => if pos < next <= s.len() {
                        after(seq![(key, v)], pairs_at(s, next))
                    } else {
                        Err(BError::UnexpectedEof)
                    },
                }
            } else {
                Err(BError::UnexpectedEof)
            },
        }
    }
}

/// `rest` with `front` before its elements.
pub open spec fn after<T>(front: Seq<T>, rest: Result<(Seq<T>, int), BError>) -> Result<
    (Seq<T>, int),
    BError,
> {
    match rest {
        Ok((tail, end)) => Ok((front + tail, end)),
        Err(e) => Err(e),
    }
}

/// What `s` as a whole decodes to.
pub open spec fn decoded(s: Seq<u8>) -> Result<BModel, BError> {
    match value_at(s, 0) {
        Ok((v, end)) => if end == s.len() {
            Ok(v)
        } else {
            Err(BError::TrailingData)
        },
        Err(e) => Err(e),
    }
}

/// Where the value of the last of the key-value pairs from `pos` in `s` on whose
/// key is `key` starts and ends.
pub open spec fn span_from(s: Seq<u8>, pos: int, key: Seq<u8>) -> Option<(int, int)>
    decreases s.len() - pos,
{
    if pos >= s.len() || s[pos] == LOWER_E {
        None
    } else {
        match string_at(s, pos) {
            Err(_) => None,
            Ok((k, mid)) => if pos < mid <= s.len() {
                match value_at(s, mid) {
                    Err(_) => None,
                    Ok((_, next)) => if pos < next <= s.len() {
                        match span_from(s, next, key) {
                            Some(span) => Some(span),
                            None => if k == key {
                                Some((mid, next))
                            } else {
                                None
                            },
                        }
                    } else {
                        None
                    },
                }
            } else {
                None
            },
        }
    }
}

/// Where in `s`, which is a dictionary as a whole, the value under `key` starts
/// and ends.
pub open spec fn span_of(s: Seq<u8>, key: Seq<u8>) -> Option<(int, int)> {
    if s.len() > 0 && s[0] == LOWER_D {
        span_from(s, 1, key)
    } else {
        None
    }
}

pub(crate) proof fn lemma_index_from(s: Seq<u8>, target: u8, pos: int)
    requires
        0 <= pos,
    ensures
        match index_from(s, target, pos) {
            Some(i) => pos <= i < s.len() && s[i] == target && forall|j: int|
                pos <= j < i ==> s[j] != target,
            None => forall|j: int| pos <= j < s.len() ==> s[j] != target,
        },
    decreases s.len() - pos,
{
    if pos < s.len() && s[pos] != target {
        lemma_index_from(s, target, pos + 1);
    }
}

pub(crate) proof fn lemma_index_from_is(s: Seq<u8>, target: u8, pos: int, i: int)
    requires
        0 <= pos <= i < s.len(),
        s[i] == target,
        forall|j: int| pos <= j < i ==> s[j] != target,
    ensures
        index_from(s, target, pos) == Some(i),
    decreases i - pos,
{
    if pos < i {
        lemma_index_from_is(s, target, pos + 1, i);
    }
}

/// A string ends after it starts, and within the sequence.
pub(crate) proof fn lemma_string_end(s: Seq<u8>, pos: int)
    requires
        0 <= pos,
    ensures
        string_at(s, pos) matches Ok((_, end)) ==> pos < end <= s.len(),
{
    lemma_index_from(s, COLON, pos);
    if let Some(colon) = index_from(s, COLON, pos) {
        lemma_unsigned_literal_nonnegative(s.subrange(pos, colon));
    }
}

/// A value ends after it starts, and within the sequence.
pub(crate) proof fn lemma_value_end(s: Seq<u8>, pos: int)
    requires
        0 <= pos,
    ensures
        value_at(s, pos) matches Ok((_, end)) ==> pos < end <= s.len(),
    decreases s.len() - pos, 0int,
{
    if pos < s.len() {
        if s[pos] == LOWER_I {
            lemma_index_from(s, LOWER_E, pos + 1);
        } else if s[pos] == LOWER_L {
            lemma_items_end(s, pos + 1);
        } else if s[pos] == LOWER_D {
            lemma_pairs_end(s, pos + 1);
        } else {
            lemma_string_end(s, pos);
        }
    }
}

pub(crate) proof fn lemma_items_end(s: Seq<u8>, pos: int)
    requires
        0 <= pos,
    ensures
        items_at(s, pos) matches Ok((_, end)) ==> pos < end <= s.len(),
    decreases s.len() - pos, 1int,
{
    if pos < s.len() && s[pos] != LOWER_E {
        lemma_value_end(s, pos);
        if let Ok((v, next)) = value_at(s, pos) {
            lemma_items_end(s, next);
        }
    }
}

pub(crate) proof fn lemma_pairs_end(s: Seq<u8>, pos: int)
    requires
        0 <= pos,
    ensures
        pairs_at(s, pos) matches Ok((_, end)) ==> pos < end <= s.len(),
    decreases s.len() - pos, 1int,
{
    if pos < s.len() && s[pos] != LOWER_E {
        lemma_string_end(s, pos);
        if let Ok((key, mid)) = string_at(s, pos) {
            lemma_value_end(s, mid);
            if let Ok((v, next)) = value_at(s, mid) {
                lemma_pairs_end(s, next);
            }
        }
    }
}

/// Decodes the one value that `input` consists of. A torrent file is exactly
/// one dictionary, so anything after the value is an error.
pub fn decode(input: &[u8]) -> (r: Result<BValue, BError>)
    ensures
        match decoded(input@) {
            Ok(v) => r matches Ok(value) && value@ == v,
            Err(e) => r matches Err(error) && error == e,
        },
{
    let mut decoder = Decoder { input, pos: 0 };
    match decoder.decode_value() {
        Ok(value) => {
            if decoder.pos != decoder.input.len() {
                return Err(BError::TrailingData);
            }
            Ok(value)
        },
        Err(e) => Err(e),
    }
}

/// Finds where in `input`, the bytes of a dictionary, the value under `key`
/// starts and ends. Where the key stands there more than once, its last value
/// counts.
pub fn value_span(input: &[u8], key: &[u8]) -> (r: Option<(usize, usize)>)
    ensures
        match span_of(input@, key@) {
            Some((from, to)) => r matches Some(span) && span.0 == from && span.1 == to && 0 < from
                < to <= input@.len(),
            None => r is None,
        },
{
    if input.len() == 0 || input[0] != LOWER_D {
        return None;
    }
    let mut decoder = Decoder { input, pos: 1 };
    let mut found: Option<(usize, usize)> = None;
    loop
        invariant
            decoder.input == input,
            decoder.wf(),
            1 <= decoder.pos,
            found matches Some(span) ==> 0 < span.0 < span.1 <= input@.len(),
            input@.len() > 0,
            input@[0] == LOWER_D,
            span_of(input@, key@) == (match span_from(input@, decoder.pos as int, key@) {
                Some(span) => Some(span),
                None => match found {
                    Some(span) => Some((span.0 as int, span.1 as int)),
                    None => None,
                },
            }),
        decreases input@.len() - decoder.pos,
    {
        proof {
            lemma_string_end(input@, decoder.pos as int);
        }
        match decoder.peek() {
            Ok(next) => {
                if next == LOWER_E {
                    return found;
                }
            },
            Err(_) => {
                return found;
            },
        }
        let this_key: Vec<u8> = match decoder.decode_bytes() {
            Ok(bytes) => bytes,
            Err(_) => {
                return found;
            },
        };
        let from: usize = decoder.pos;
        match decoder.decode_value() {
            Ok(_) => {},
            Err(_) => {
                return found;
            },
        }
        if bytes_equal(this_key.as_slice(), key) {
            found = Some((from, decoder.pos));
        }
    }
}

/// A cursor over the input: `pos` is the index of the next unread byte.
struct Decoder<'a> {
    input: &'a [u8],
    pos: usize,
}

impl<'a> Decoder<'a> {
    spec fn wf(&self) -> bool {
        self.pos <= self.input.len()
    }

    /// The next byte, which is not consumed.
    fn peek(&self) -> (r: Result<u8, BError>)
        requires
            self.wf(),
        ensures
            r == (if self.pos < self.input@.len() {
                Ok(self.input@[self.pos as int])
            } else {
                Err(BError::UnexpectedEof)
            }),
    {
        if self.pos < self.input.len() {
            Ok(self.input[self.pos])
        } else {
            Err(BError::UnexpectedEof)
        }
    }

    /// The index of the first `target` at or after the cursor.
    fn find(&self, target: u8) -> (r: Result<usize, BError>)
        requires
            self.wf(),
        ensures
            match index_from(self.input@, target, self.pos as int) {
                Some(i) => r matches Ok(index) && index == i && self.pos <= i < self.input@.len(),
                None => r == Err::<usize, BError>(BError::UnexpectedEof),
            },
    {
        let mut i: usize = self.pos;
        while i < self.input.len()
            invariant
                self.pos <= i <= self.input@.len(),
                forall|j: int| self.pos <= j < i ==> self.input@[j] != target,
            decreases self.input@.len() - i,
        {
            if self.input[i] == target {
                proof {
                    lemma_index_from_is(self.input@, target, self.pos as int, i as int);
                }
                return Ok(i);
            }
            i += 1;
        }
        proof {
            lemma_index_from(self.input@, target, self.pos as int);
        }
        Err(BError::UnexpectedEof)
    }

    /// Decodes the value at the cursor and moves behind it. The bytes that are
    /// consumed are those of just that value.
    fn decode_value(&mut self) -> (r: Result<BValue, BError>)
        requires
            old(self).wf(),
        ensures
            final(self).input == old(self).input,
            match value_at(old(self).input@, old(self).pos as int) {
                Ok((v, end)) => {
                    &&& r matches Ok(value)
                    &&& value@ == v
                    &&& final(self).pos == end
                    &&& final(self).wf()
                    &&& old(self).pos < end
                    &&& decoded(old(self).input@.subrange(old(self).pos as int, end)) == Ok::<
                        BModel,
                        BError,
                    >(v)
                },
                Err(e) => r matches Err(error) && error == e,
            },
        decreases old(self).input@.len() - old(self).pos, 0int,
    {
        proof {
            values_stand_alone(self.input@, self.pos as int);
        }
        let next: u8 = match self.peek() {
            Ok(b) => b,
            Err(e) => return Err(e),
        };
        if next == LOWER_I {
            self.decode_int()
        } else if next == LOWER_L {
            self.decode_list()
        } else if next == LOWER_D {
            self.decode_dict()
        } else if ZERO <= next && next <= NINE {
            match self.decode_bytes() {
                Ok(bytes) => Ok(BValue::Bytes(bytes)),
                Err(e) => Err(e),
            }
        } else {
            Err(BError::UnexpectedToken(next))
        }
    }

    /// `i<decimal>e`
    fn decode_int(&mut self) -> (r: Result<BValue, BError>)
        requires
            old(self).wf(),
            old(self).pos < old(self).input@.len(),
        ensures
            final(self).input == old(self).input,
            match integer_at(old(self).input@, old(self).pos + 1) {
                Ok((n, end)) => r matches Ok(value) && value@ == BModel::Int(n) && final(self).pos
                    == end && final(self).wf(),
                Err(e) => r matches Err(error) && error == e,
            },
    {
        self.pos = self.pos + 1;
        let end: usize = match self.find(LOWER_E) {
            Ok(i) => i,
            Err(e) => return Err(e),
        };
        match parse_i64(self.input, self.pos, end) {
            Some(n) => {
                self.pos = end + 1;
                Ok(BValue::Int(n))
            },
            None => Err(BError::InvalidInteger),
        }
    }

    /// `<length>:<bytes>`
    fn decode_bytes(&mut self) -> (r: Result<Vec<u8>, BError>)
        requires
            old(self).wf(),
        ensures
            final(self).input == old(self).input,
            match string_at(old(self).input@, old(self).pos as int) {
                Ok((b, end)) => r matches Ok(bytes) && bytes@ == b && final(self).pos == end
                    && final(self).wf(),
                Err(e) => r matches Err(error) && error == e,
            },
    {
        let colon: usize = match self.find(COLON) {
            Ok(i) => i,
            Err(e) => return Err(e),
        };
        proof {
            lemma_unsigned_literal_nonnegative(
                self.input@.subrange(self.pos as int, colon as int),
            );
        }
        let len: usize = match parse_usize(self.input, self.pos, colon) {
            Some(n) => n,
            None => return Err(BError::InvalidStringLength),
        };
        let start: usize = colon + 1;
        if len > usize::MAX - start {
            return Err(BError::InvalidStringLength);
        }
        let end: usize = start + len;
        if end > self.input.len() {
            return Err(BError::UnexpectedEof);
        }
        self.pos = end;
        Ok(slice_to_vec(&self.input[start..end]))
    }

    /// `l<values>e`
    fn decode_list(&mut self) -> (r: Result<BValue, BError>)
        requires
            old(self).wf(),
            old(self).pos < old(self).input@.len(),
        ensures
            final(self).input == old(self).input,
            match items_at(old(self).input@, old(self).pos + 1) {
                Ok((items, end)) => r matches Ok(value) && value@ == BModel::List(items)
                    && final(self).pos == end && final(self).wf(),
                Err(e) => r matches Err(error) && error == e,
            },
        decreases old(self).input@.len() - old(self).pos - 1, 1int,
    {
        let ghost s = self.input@;
        let ghost first = self.pos + 1;
        self.pos = self.pos + 1;
        let mut items: Vec<BValue> = Vec::new();
        let ghost mut models: Seq<BModel> = seq![];
        assert(after(models, items_at(s, first)) == items_at(s, first)) by {
            if let Ok((tail, end)) = items_at(s, first) {
                assert(models + tail =~= tail);
            }
        }
        loop
            invariant
                self.input == old(self).input,
                self.wf(),
                s == self.input@,
                first == old(self).pos + 1,
                first <= self.pos,
                models.len() == items@.len(),
                forall|i: int| 0 <= i < items@.len() ==> (#[trigger] items@[i])@ == models[i],
                items_at(s, first) == after(models, items_at(s, self.pos as int)),
            decreases s.len() - self.pos,
        {
            let next: u8 = match self.peek() {
                Ok(b) => b,
                Err(e) => return Err(e),
            };
            if next == LOWER_E {
                self.pos = self.pos + 1;
                assert(BValue::List(items)@->List_0 =~= models + seq![]);
                return Ok(BValue::List(items));
            }
            let ghost at = self.pos as int;
            proof {
                lemma_value_end(s, at);
            }
            match self.decode_value() {
                Ok(value) => {
                    proof {
                        let tail = items_at(s, self.pos as int);
                        assert(after(models, after(seq![value@], tail)) == after(
                            models.push(value@),
                            tail,
                        )) by {
                            if let Ok((rest, end)) = tail {
                                assert(models + (seq![value@] + rest) =~= models.push(value@) + rest);
                            }
                        }
                        models = models.push(value@);
                    }
                    items.push(value);
                },
                Err(e) => return Err(e),
            }
        }
    }

    /// `d<key><value>...e`, where every key is a byte string
    fn decode_dict(&mut self) -> (r: Result<BValue, BError>)
        requires
            old(self).wf(),
            old(self).pos < old(self).input@.len(),
        ensures
            final(self).input == old(self).input,
            match pairs_at(old(self).input@, old(self).pos + 1) {
                Ok((pairs, end)) => r matches Ok(value) && value@ == BModel::Dict(collected(pairs))
                    && final(self).pos == end && final(self).wf(),
                Err(e) => r matches Err(error) && error == e,
            },
        decreases old(self).input@.len() - old(self).pos - 1, 1int,
    {
        let ghost s = self.input@;
        let ghost first = self.pos + 1;
        self.pos = self.pos + 1;
        let mut map = BDict::new();
        let ghost mut pairs: Seq<(Seq<u8>, BModel)> = seq![];
        assert(after(pairs, pairs_at(s, first)) == pairs_at(s, first)) by {
            if let Ok((tail, end)) = pairs_at(s, first) {
                assert(pairs + tail =~= tail);
            }
        }
        loop
            invariant
                self.input == old(self).input,
                self.wf(),
                s == self.input@,
                first == old(self).pos + 1,
                first <= self.pos,
                map@ == collected(pairs),
                pairs_at(s, first) == after(pairs, pairs_at(s, self.pos as int)),
            decreases s.len() - self.pos,
        {
            let next: u8 = match self.peek() {
                Ok(b) => b,
                Err(e) => return Err(e),
            };
            if next == LOWER_E {
                self.pos = self.pos + 1;
                assert(pairs + seq![] =~= pairs);
                return Ok(BValue::Dict(map));
            }
            proof {
                lemma_string_end(s, self.pos as int);
            }
            let key: Vec<u8> = match self.decode_bytes() {
                Ok(bytes) => bytes,
                Err(e) => return Err(e),
            };
            proof {
                lemma_value_end(s, self.pos as int);
            }
            match self.decode_value() {
                Ok(value) => {
                    proof {
                        let tail = pairs_at(s, self.pos as int);
                        let pair = (key@, value@);
                        assert(after(pairs, after(seq![pair], tail)) == after(
                            pairs.push(pair),
                            tail,
                        )) by {
                            if let Ok((rest, end)) = tail {
                                assert(pairs + (seq![pair] + rest) =~= pairs.push(pair) + rest);
                            }
                        }
                        assert(pairs.push(pair).drop_last() =~= pairs);
                        pairs = pairs.push(pair);
                    }
                    map.insert(key, value);
                },
                Err(e) => return Err(e),
            }
        }
    }
}

// ---------------------------------------------------------------------
// Encoding
// ---------------------------------------------------------------------

/// The encoding of a byte string: its length, a colon, and its bytes.
pub open spec fn encoded_bytes(b: Seq<u8>) -> Seq<u8> {
    digits(b.len()) + seq![COLON] + b
}

/// The encoding of a value.
pub open spec fn encoded(v: BModel) -> Seq<u8>
    decreases v,
{
    match v {
        BModel::Int(n) => seq![LOWER_I] + signed_digits(n) + seq![LOWER_E],
        BModel::Bytes(b) => encoded_bytes(b),
        BModel::List(items) => seq![LOWER_L] + encoded_items(items) + seq![LOWER_E],
        BModel::Dict(entries) => seq![LOWER_D] + encoded_entries(entries) + seq![LOWER_E],
    }
}

/// The encodings of the items of a list, one after the other.
pub open spec fn encoded_items(items: Seq<BModel>) -> Seq<u8>
    decreases items,
{
    if items.len() == 0 {
        seq![]
    } else {
        encoded(items[0]) + encoded_items(items.drop_first())
    }
}

/// The encodings of the keys and values of a dictionary, one after the other.
pub open spec fn encoded_entries(entries: Seq<(Seq<u8>, BModel)>) -> Seq<u8>
    decreases entries,
{
    if entries.len() == 0 {
        seq![]
    } else {
        encoded_bytes(entries[0].0) + encoded(entries[0].1) + encoded_entries(entries.drop_first())
    }
}

/// Encodes a value. The entries of a dictionary are kept in increasing order
/// of their keys, so every value is well formed and the encoding is the
/// canonical one.
pub fn encode(value: &BValue) -> (r: Vec<u8>)
    ensures
        r@ == encoded(value@),
        value@.wf(),
{
    let mut out: Vec<u8> = Vec::new();
    encode_into(value, &mut out);
    assert(out@ =~= encoded(value@));
    out
}

/// Appends `bytes` to `out`.
pub(crate) fn push_all(out: &mut Vec<u8>, bytes: &[u8])
    ensures
        final(out)@ == old(out)@ + bytes@,
{
    out.extend_from_slice(bytes);
    assert(out@ =~= old(out)@ + bytes@);
}

/// Appends the encoding of a byte string to `out`.
fn encode_bytes_into(bytes: &[u8], out: &mut Vec<u8>)
    ensures
        final(out)@ == old(out)@ + encoded_bytes(bytes@),
{
    push_u64(out, bytes.len() as u64);
    out.push(COLON);
    push_all(out, bytes);
    assert(out@ =~= old(out)@ + encoded_bytes(bytes@));
}

/// Appends the encoding of `value` to `out`, and keeps what was in `out` before.
pub fn encode_into(value: &BValue, out: &mut Vec<u8>)
    ensures
        final(out)@ == old(out)@ + encoded(value@),
        value@.wf(),
    decreases *value,
{
    match value {
        BValue::Int(n) => {
            out.push(LOWER_I);
            push_i64(out, *n);
            out.push(LOWER_E);
        },
        BValue::Bytes(bytes) => {
            encode_bytes_into(bytes.as_slice(), out);
        },
        BValue::List(items) => {
            out.push(LOWER_L);
            let ghost models = value@->List_0;
            assert(models.skip(0) =~= models);
            let mut i: usize = 0;
            while i < items.len()
                invariant
                    i <= items@.len(),
                    *value == BValue::List(*items),
                    models == value@->List_0,
                    models.len() == items@.len(),
                    forall|j: int| 0 <= j < i ==> (#[trigger] models[j]).wf(),
                    old(out)@ + seq![LOWER_L] + encoded_items(models) =~= out@ + encoded_items(
                        models.skip(i as int),
                    ),
                decreases items@.len() - i,
            {
                assert(decreases_to!(*value => value->List_0));
                assert(decreases_to!(value->List_0 => value->List_0@[i as int]));
                encode_into(&items[i], out);
                assert(models.skip(i as int).drop_first() =~= models.skip(i + 1));
                i += 1;
            }
            out.push(LOWER_E);
        },
        BValue::Dict(map) => {
            out.push(LOWER_D);
            let ghost models = map@;
            assert(models.skip(0) =~= models);
            proof {
                use_type_invariant(map);
            }
            let mut i: usize = 0;
            while i < map.entries.len()
                invariant
                    i <= map.entries@.len(),
                    *value == BValue::Dict(*map),
                    models == map@,
                    models.len() == map.entries@.len(),
                    forall|j: int| 0 <= j < i ==> (#[trigger] models[j]).1.wf(),
                    old(out)@ + seq![LOWER_D] + encoded_entries(models) =~= out@ + encoded_entries(
                        models.skip(i as int),
                    ),
                decreases map.entries@.len() - i,
            {
                assert(decreases_to!(*value => value->Dict_0));
                assert(decreases_to!(value->Dict_0 => value->Dict_0.entries));
                assert(decreases_to!(value->Dict_0.entries => value->Dict_0.entries[i as int]));
                assert(decreases_to!(value->Dict_0.entries[i as int] => value->Dict_0.entries[i as int].1));
                encode_bytes_into(map.entries[i].0.as_slice(), out);
                encode_into(&map.entries[i].1, out);
                assert(models.skip(i as int).drop_first() =~= models.skip(i + 1));
                i += 1;
            }
            out.push(LOWER_E);
        },
    }
    assert(out@ =~= old(out)@ + encoded(value@));
}

} // verus!
