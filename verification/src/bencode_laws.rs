//! What holds of decoding and encoding taken together.

use crate::ascii::{COLON, LOWER_D, LOWER_E, LOWER_I, LOWER_L, MINUS, NINE, ZERO};
use crate::bencode::{
    after, collected, decoded, encoded, encoded_bytes, encoded_entries, encoded_items, index_from,
    inserted, integer_at, items_at, keys_increase, lookup, pairs_at, precedes, span_from, span_of,
    string_at, value_at, BError, BModel, BValue,
};
use crate::decimal::{
    digits, digits_are_shortest, digits_read_back, is_digit, is_number, signed_digits,
    signed_digits_read_back, signed_literal, unsigned_literal,
};
use vstd::prelude::*;
use vstd::utf8::{decode_utf8, valid_utf8};

verus! {

// ---------------------------------------------------------------------
// Dictionaries
// ---------------------------------------------------------------------

/// A dictionary gives back what was put under a key, and keeps what it holds
/// under every other key.
pub proof fn lookup_of_inserted(
    entries: Seq<(Seq<u8>, BModel)>,
    key: Seq<u8>,
    value: BModel,
    other: Seq<u8>,
)
    ensures
        lookup(inserted(entries, key, value), other) == if other == key {
            Some(value)
        } else {
            lookup(entries, other)
        },
    decreases entries.len(),
{
    let more = inserted(entries, key, value);
    if entries.len() == 0 {
        assert(lookup(more.drop_first(), other) is None);
    } else if entries[0].0 == key {
        assert(more.drop_first() =~= entries.drop_first());
    } else if precedes(key, entries[0].0) {
        assert(more.drop_first() =~= entries);
    } else {
        assert(more.drop_first() =~= inserted(entries.drop_first(), key, value));
        lookup_of_inserted(entries.drop_first(), key, value, other);
    }
}

/// The index at which `key` goes into `entries`.
proof fn lemma_insertion_point(entries: Seq<(Seq<u8>, BModel)>, key: Seq<u8>) -> (i: int)
    ensures
        0 <= i <= entries.len(),
        forall|j: int| 0 <= j < i ==> (#[trigger] entries[j]).0 != key && !precedes(key, entries[j].0),
        i < entries.len() ==> entries[i].0 == key || precedes(key, entries[i].0),
    decreases entries.len(),
{
    if entries.len() == 0 || entries[0].0 == key || precedes(key, entries[0].0) {
        0
    } else {
        let rest = entries.drop_first();
        let i = lemma_insertion_point(rest, key);
        assert forall|j: int| 0 <= j < i + 1 implies (#[trigger] entries[j]).0 != key && !precedes(
            key,
            entries[j].0,
        ) by {
            if j > 0 {
                assert(entries[j] == rest[j - 1]);
            }
        }
        i + 1
    }
}

/// Inserting keeps the keys of a dictionary increasing and its values well
/// formed.
pub proof fn inserted_is_wf(entries: Seq<(Seq<u8>, BModel)>, key: Seq<u8>, value: BModel)
    requires
        BModel::Dict(entries).wf(),
        value.wf(),
    ensures
        BModel::Dict(inserted(entries, key, value)).wf(),
{
    let i = lemma_insertion_point(entries, key);
    crate::bencode::lemma_inserted_at(entries, key, value, i);
    crate::bencode::lemma_inserted_increases(entries, key, value, i);
    let more = inserted(entries, key, value);
    assert forall|j: int| 0 <= j < more.len() implies (#[trigger] more[j]).1.wf() by {
        if i < entries.len() && entries[i].0 == key {
            if j != i {
                assert(more[j] == entries[j]);
            }
        } else if j < i {
            assert(more[j] == entries[j]);
        } else if j > i {
            assert(more[j] == entries[j - 1]);
        }
    }
}

proof fn lemma_collected_is_wf(pairs: Seq<(Seq<u8>, BModel)>)
    requires
        forall|i: int| 0 <= i < pairs.len() ==> (#[trigger] pairs[i]).1.wf(),
    ensures
        BModel::Dict(collected(pairs)).wf(),
    decreases pairs.len(),
{
    if pairs.len() > 0 {
        let front = pairs.drop_last();
        assert forall|i: int| 0 <= i < front.len() implies (#[trigger] front[i]).1.wf() by {
            assert(front[i] == pairs[i]);
        }
        lemma_collected_is_wf(front);
        assert(pairs.last() == pairs[pairs.len() - 1]);
        inserted_is_wf(collected(front), pairs.last().0, pairs.last().1);
    }
}

/// Entries whose keys already increase are collected as they stand.
proof fn lemma_collected_in_order(entries: Seq<(Seq<u8>, BModel)>)
    requires
        keys_increase(entries),
    ensures
        collected(entries) == entries,
    decreases entries.len(),
{
    if entries.len() > 0 {
        let front = entries.drop_last();
        assert(keys_increase(front)) by {
            assert forall|i: int, j: int| 0 <= i < j < front.len() implies precedes(
                #[trigger] front[i].0,
                #[trigger] front[j].0,
            ) by {
                assert(front[i] == entries[i] && front[j] == entries[j]);
            }
        }
        lemma_collected_in_order(front);
        let key = entries.last().0;
        assert forall|j: int| 0 <= j < front.len() implies (#[trigger] front[j]).0 != key
            && !precedes(key, front[j].0) by {
            assert(front[j] == entries[j]);
            assert(precedes(entries[j].0, entries[entries.len() - 1].0));
            crate::bencode::precedes_is_total(entries[j].0, key);
        }
        crate::bencode::lemma_inserted_at(front, key, entries.last().1, front.len() as int);
        assert(front.insert(front.len() as int, entries.last()) =~= entries);
    } else {
        assert(entries =~= Seq::empty());
    }
}

// ---------------------------------------------------------------------
// What decodes is well formed
// ---------------------------------------------------------------------

/// Whatever decodes has increasing keys in every dictionary and integers that
/// fit in an `i64`, even where the input had its keys in another order or some
/// of them twice.
pub proof fn decoded_is_wf(s: Seq<u8>)
    ensures
        decoded(s) matches Ok(v) ==> v.wf(),
{
    lemma_value_is_wf(s, 0);
}

proof fn lemma_value_is_wf(s: Seq<u8>, pos: int)
    ensures
        value_at(s, pos) matches Ok((v, _)) ==> v.wf(),
    decreases s.len() - pos, 0int,
{
    if pos < s.len() {
        if s[pos] == LOWER_L {
            lemma_items_are_wf(s, pos + 1);
        } else if s[pos] == LOWER_D {
            lemma_pairs_are_wf(s, pos + 1);
            if let Ok((pairs, _)) = pairs_at(s, pos + 1) {
                lemma_collected_is_wf(pairs);
            }
        }
    }
}

proof fn lemma_items_are_wf(s: Seq<u8>, pos: int)
    ensures
        items_at(s, pos) matches Ok((items, _)) ==> forall|i: int|
            0 <= i < items.len() ==> (#[trigger] items[i]).wf(),
    decreases s.len() - pos, 1int,
{
    if pos < s.len() && s[pos] != LOWER_E {
        lemma_value_is_wf(s, pos);
        if let Ok((v, next)) = value_at(s, pos) {
            if pos < next <= s.len() {
                lemma_items_are_wf(s, next);
            }
        }
    }
}

proof fn lemma_pairs_are_wf(s: Seq<u8>, pos: int)
    ensures
        pairs_at(s, pos) matches Ok((pairs, _)) ==> forall|i: int|
            0 <= i < pairs.len() ==> (#[trigger] pairs[i]).1.wf(),
    decreases s.len() - pos, 1int,
{
    if pos < s.len() && s[pos] != LOWER_E {
        if let Ok((key, mid)) = string_at(s, pos) {
            if pos < mid <= s.len() {
                lemma_value_is_wf(s, mid);
                if let Ok((v, next)) = value_at(s, mid) {
                    if pos < next <= s.len() {
                        lemma_pairs_are_wf(s, next);
                    }
                }
            }
        }
    }
}

// ---------------------------------------------------------------------
// Decoding undoes encoding
// ---------------------------------------------------------------------

/// Whether `part` stands in `s` at `pos`.
spec fn stands_at(s: Seq<u8>, pos: int, part: Seq<u8>) -> bool {
    0 <= pos && pos + part.len() <= s.len() && s.subrange(pos, pos + part.len()) == part
}

proof fn lemma_stands_at_split(s: Seq<u8>, pos: int, a: Seq<u8>, b: Seq<u8>)
    requires
        stands_at(s, pos, a + b),
    ensures
        stands_at(s, pos, a),
        stands_at(s, pos + a.len(), b),
{
    let whole = s.subrange(pos, pos + (a + b).len());
    assert(s.subrange(pos, pos + a.len()) =~= a) by {
        assert forall|i: int| 0 <= i < a.len() implies s[pos + i] == a[i] by {
            assert(whole[i] == (a + b)[i]);
        }
    }
    assert(s.subrange(pos + a.len(), pos + a.len() + b.len()) =~= b) by {
        assert forall|i: int| 0 <= i < b.len() implies s[pos + a.len() + i] == b[i] by {
            assert(whole[a.len() + i] == (a + b)[a.len() + i]);
        }
    }
}

proof fn lemma_stands_at_index(s: Seq<u8>, pos: int, part: Seq<u8>)
    requires
        stands_at(s, pos, part),
    ensures
        forall|i: int| pos <= i < pos + part.len() ==> #[trigger] s[i] == part[i - pos],
{
    assert forall|i: int| pos <= i < pos + part.len() implies #[trigger] s[i] == part[i - pos] by {
        assert(s.subrange(pos, pos + part.len())[i - pos] == part[i - pos]);
    }
}

proof fn lemma_string_round_trip(s: Seq<u8>, pos: int, b: Seq<u8>)
    requires
        stands_at(s, pos, encoded_bytes(b)),
        s.len() <= usize::MAX,
    ensures
        string_at(s, pos) == Ok::<(Seq<u8>, int), BError>((b, pos + encoded_bytes(b).len())),
        ZERO <= s[pos] <= NINE,
{
    let prefix = digits(b.len());
    digits_read_back(b.len());
    lemma_stands_at_split(s, pos, prefix + seq![COLON], b);
    lemma_stands_at_split(s, pos, prefix, seq![COLON]);
    lemma_stands_at_index(s, pos, prefix);
    lemma_stands_at_index(s, pos + prefix.len(), seq![COLON]);
    let colon = pos + prefix.len();
    assert(s[colon] == COLON);
    assert forall|j: int| pos <= j < colon implies s[j] != COLON by {
        assert(is_digit(prefix[j - pos]));
    }
    assert(is_digit(prefix[0]));
    crate::bencode::lemma_index_from_is(s, COLON, pos, colon);
}

proof fn lemma_integer_round_trip(s: Seq<u8>, pos: int, n: int)
    requires
        stands_at(s, pos, signed_digits(n) + seq![LOWER_E]),
        i64::MIN <= n <= i64::MAX,
    ensures
        integer_at(s, pos) == Ok::<(int, int), BError>((n, pos + signed_digits(n).len() + 1)),
{
    let literal = signed_digits(n);
    signed_digits_read_back(n);
    lemma_stands_at_split(s, pos, literal, seq![LOWER_E]);
    lemma_stands_at_index(s, pos, literal);
    lemma_stands_at_index(s, pos + literal.len(), seq![LOWER_E]);
    let end = pos + literal.len();
    assert(s[end] == LOWER_E);
    assert forall|j: int| pos <= j < end implies s[j] != LOWER_E by {
        assert(is_digit(literal[j - pos]) || literal[j - pos] == MINUS);
    }
    crate::bencode::lemma_index_from_is(s, LOWER_E, pos, end);
}

/// An encoding starts with a character that ends no list.
proof fn lemma_encoded_start(v: BModel)
    ensures
        encoded(v).len() > 0,
        encoded(v)[0] != LOWER_E,
{
    if let BModel::Bytes(b) = v {
        digits_read_back(b.len());
        assert(is_digit(digits(b.len())[0]));
    }
}

proof fn lemma_value_round_trip(s: Seq<u8>, pos: int, v: BModel)
    requires
        stands_at(s, pos, encoded(v)),
        s.len() <= usize::MAX,
        v.wf(),
    ensures
        value_at(s, pos) == Ok::<(BModel, int), BError>((v, pos + encoded(v).len())),
    decreases v,
{
    lemma_encoded_start(v);
    lemma_stands_at_index(s, pos, encoded(v));
    assert(s[pos] == encoded(v)[0]);
    match v {
        BModel::Int(n) => {
            assert(encoded(v) =~= seq![LOWER_I] + (signed_digits(n) + seq![LOWER_E]));
            lemma_stands_at_split(s, pos, seq![LOWER_I], signed_digits(n) + seq![LOWER_E]);
            lemma_integer_round_trip(s, pos + 1, n);
        },
        BModel::Bytes(b) => {
            lemma_string_round_trip(s, pos, b);
        },
        BModel::List(items) => {
            let tail = encoded_items(items) + seq![LOWER_E];
            assert(encoded(v) =~= seq![LOWER_L] + tail);
            lemma_stands_at_split(s, pos, seq![LOWER_L], tail);
            lemma_items_round_trip(s, pos + 1, items);
        },
        BModel::Dict(entries) => {
            let tail = encoded_entries(entries) + seq![LOWER_E];
            assert(encoded(v) =~= seq![LOWER_D] + tail);
            lemma_stands_at_split(s, pos, seq![LOWER_D], tail);
            lemma_entries_round_trip(s, pos + 1, entries);
            lemma_collected_in_order(entries);
        },
    }
}

proof fn lemma_items_round_trip(s: Seq<u8>, pos: int, items: Seq<BModel>)
    requires
        stands_at(s, pos, encoded_items(items) + seq![LOWER_E]),
        s.len() <= usize::MAX,
        forall|i: int| 0 <= i < items.len() ==> (#[trigger] items[i]).wf(),
    ensures
        items_at(s, pos) == Ok::<(Seq<BModel>, int), BError>(
            (items, pos + encoded_items(items).len() + 1),
        ),
    decreases items,
{
    if items.len() == 0 {
        assert(encoded_items(items) + seq![LOWER_E] =~= seq![LOWER_E]);
        lemma_stands_at_index(s, pos, seq![LOWER_E]);
        assert(s[pos] == LOWER_E);
        assert(items =~= seq![]);
    } else {
        let first = items[0];
        let rest = items.drop_first();
        let tail = encoded_items(rest) + seq![LOWER_E];
        assert(encoded_items(items) + seq![LOWER_E] =~= encoded(first) + tail);
        lemma_stands_at_split(s, pos, encoded(first), tail);
        lemma_value_round_trip(s, pos, first);
        lemma_encoded_start(first);
        lemma_stands_at_index(s, pos, encoded(first));
        assert(s[pos] == encoded(first)[0]);
        assert forall|i: int| 0 <= i < rest.len() implies (#[trigger] rest[i]).wf() by {
            assert(rest[i] == items[i + 1]);
        }
        lemma_items_round_trip(s, pos + encoded(first).len(), rest);
        assert(seq![first] + rest =~= items);
    }
}

proof fn lemma_entries_round_trip(s: Seq<u8>, pos: int, entries: Seq<(Seq<u8>, BModel)>)
    requires
        stands_at(s, pos, encoded_entries(entries) + seq![LOWER_E]),
        s.len() <= usize::MAX,
        forall|i: int| 0 <= i < entries.len() ==> (#[trigger] entries[i]).1.wf(),
    ensures
        pairs_at(s, pos) == Ok::<(Seq<(Seq<u8>, BModel)>, int), BError>(
            (entries, pos + encoded_entries(entries).len() + 1),
        ),
    decreases entries,
{
    if entries.len() == 0 {
        assert(encoded_entries(entries) + seq![LOWER_E] =~= seq![LOWER_E]);
        lemma_stands_at_index(s, pos, seq![LOWER_E]);
        assert(s[pos] == LOWER_E);
        assert(entries =~= seq![]);
    } else {
        let (key, value) = entries[0];
        let rest = entries.drop_first();
        let tail = encoded_entries(rest) + seq![LOWER_E];
        assert(encoded_entries(entries) + seq![LOWER_E] =~= encoded_bytes(key) + (encoded(value)
            + tail));
        lemma_stands_at_split(s, pos, encoded_bytes(key), encoded(value) + tail);
        let mid = pos + encoded_bytes(key).len();
        lemma_stands_at_split(s, mid, encoded(value), tail);
        lemma_string_round_trip(s, pos, key);
        assert(value.wf()) by {
            assert(entries[0].1.wf());
        }
        lemma_value_round_trip(s, mid, value);
        lemma_encoded_start(value);
        assert forall|i: int| 0 <= i < rest.len() implies (#[trigger] rest[i]).1.wf() by {
            assert(rest[i] == entries[i + 1]);
        }
        lemma_entries_round_trip(s, mid + encoded(value).len(), rest);
        assert(seq![(key, value)] + rest =~= entries);
    }
}

/// Decoding undoes encoding: every value whose encoding can be held in memory
/// is decoded from it again.
pub proof fn decoding_undoes_encoding(v: BModel)
    requires
        v.wf(),
        encoded(v).len() <= usize::MAX,
    ensures
        decoded(encoded(v)) == Ok::<BModel, BError>(v),
{
    let s = encoded(v);
    assert(s.subrange(0, s.len() as int) =~= s);
    lemma_value_round_trip(s, 0, v);
}

/// Two values with one encoding are the same value.
pub proof fn encoding_is_injective(v: BModel, w: BModel)
    requires
        v.wf(),
        w.wf(),
        encoded(v).len() <= usize::MAX,
        encoded(v) == encoded(w),
    ensures
        v == w,
{
    decoding_undoes_encoding(v);
    decoding_undoes_encoding(w);
}

/// Encoding undoes decoding on canonical input: whatever is the encoding of
/// some value decodes, and is encoded as the same bytes again.
pub proof fn encoding_undoes_decoding(s: Seq<u8>, v: BModel)
    requires
        v.wf(),
        s == encoded(v),
        s.len() <= usize::MAX,
    ensures
        decoded(s) matches Ok(w) && encoded(w) == s,
{
    decoding_undoes_encoding(v);
}

// ---------------------------------------------------------------------
// Canonical encodings are shortest
// ---------------------------------------------------------------------

proof fn lemma_unsigned_shortest(lit: Seq<u8>)
    ensures
        unsigned_literal(lit) matches Some(n) ==> n >= 0 && digits(n as nat).len() <= lit.len(),
{
    if is_number(lit) {
        digits_are_shortest(lit);
    } else if lit.len() > 0 && is_number(lit.skip(1)) {
        digits_are_shortest(lit.skip(1));
    }
}

proof fn lemma_signed_shortest(lit: Seq<u8>)
    ensures
        signed_literal(lit) matches Some(n) ==> signed_digits(n).len() <= lit.len(),
{
    lemma_unsigned_shortest(lit);
    if lit.len() > 0 && lit[0] == MINUS && is_number(lit.skip(1)) {
        digits_are_shortest(lit.skip(1));
    }
}

proof fn lemma_string_shortest(s: Seq<u8>, pos: int)
    requires
        0 <= pos,
    ensures
        string_at(s, pos) matches Ok((b, end)) ==> encoded_bytes(b).len() <= end - pos,
{
    crate::bencode::lemma_index_from(s, COLON, pos);
    if let Some(colon) = index_from(s, COLON, pos) {
        lemma_unsigned_shortest(s.subrange(pos, colon));
    }
}

proof fn lemma_inserted_length(entries: Seq<(Seq<u8>, BModel)>, key: Seq<u8>, value: BModel)
    ensures
        encoded_entries(inserted(entries, key, value)).len() <= encoded_entries(entries).len()
            + encoded_bytes(key).len() + encoded(value).len(),
    decreases entries.len(),
{
    let more = inserted(entries, key, value);
    if entries.len() == 0 {
        assert(encoded_entries(more.drop_first()).len() == 0);
    } else if entries[0].0 == key {
        assert(more.drop_first() =~= entries.drop_first());
    } else if precedes(key, entries[0].0) {
        assert(more.drop_first() =~= entries);
    } else {
        assert(more.drop_first() =~= inserted(entries.drop_first(), key, value));
        lemma_inserted_length(entries.drop_first(), key, value);
    }
}

proof fn lemma_encoded_entries_push(entries: Seq<(Seq<u8>, BModel)>)
    requires
        entries.len() > 0,
    ensures
        encoded_entries(entries) == encoded_entries(entries.drop_last()) + encoded_bytes(
            entries.last().0,
        ) + encoded(entries.last().1),
    decreases entries.len(),
{
    let rest = entries.drop_first();
    if rest.len() > 0 {
        lemma_encoded_entries_push(rest);
        assert(rest.drop_last() =~= entries.drop_last().drop_first());
        assert(rest.last() == entries.last());
        assert(entries.drop_last()[0] == entries[0]);
    } else {
        assert(encoded_entries(rest) =~= Seq::empty());
        assert(encoded_entries(entries.drop_last()) =~= Seq::empty());
    }
    assert(encoded_entries(entries) =~= encoded_entries(entries.drop_last()) + encoded_bytes(
        entries.last().0,
    ) + encoded(entries.last().1));
}

proof fn lemma_collected_length(pairs: Seq<(Seq<u8>, BModel)>)
    ensures
        encoded_entries(collected(pairs)).len() <= encoded_entries(pairs).len(),
    decreases pairs.len(),
{
    if pairs.len() > 0 {
        lemma_collected_length(pairs.drop_last());
        lemma_inserted_length(collected(pairs.drop_last()), pairs.last().0, pairs.last().1);
        lemma_encoded_entries_push(pairs);
    }
}

proof fn lemma_value_shortest(s: Seq<u8>, pos: int)
    requires
        0 <= pos,
    ensures
        value_at(s, pos) matches Ok((v, end)) ==> encoded(v).len() <= end - pos,
    decreases s.len() - pos, 0int,
{
    if pos < s.len() {
        if s[pos] == LOWER_I {
            crate::bencode::lemma_index_from(s, LOWER_E, pos + 1);
            if let Some(end) = index_from(s, LOWER_E, pos + 1) {
                lemma_signed_shortest(s.subrange(pos + 1, end));
            }
        } else if s[pos] == LOWER_L {
            lemma_items_shortest(s, pos + 1);
        } else if s[pos] == LOWER_D {
            lemma_pairs_shortest(s, pos + 1);
            if let Ok((pairs, _)) = pairs_at(s, pos + 1) {
                lemma_collected_length(pairs);
            }
        } else {
            lemma_string_shortest(s, pos);
        }
    }
}

proof fn lemma_items_shortest(s: Seq<u8>, pos: int)
    requires
        0 <= pos,
    ensures
        items_at(s, pos) matches Ok((items, end)) ==> encoded_items(items).len() + 1 <= end - pos,
    decreases s.len() - pos, 1int,
{
    if pos < s.len() && s[pos] != LOWER_E {
        lemma_value_shortest(s, pos);
        if let Ok((v, next)) = value_at(s, pos) {
            if pos < next <= s.len() {
                lemma_items_shortest(s, next);
                if let Ok((rest, end)) = items_at(s, next) {
                    assert((seq![v] + rest).drop_first() =~= rest);
                }
            }
        }
    }
}

proof fn lemma_pairs_shortest(s: Seq<u8>, pos: int)
    requires
        0 <= pos,
    ensures
        pairs_at(s, pos) matches Ok((pairs, end)) ==> encoded_entries(pairs).len() + 1 <= end - pos,
    decreases s.len() - pos, 1int,
{
    if pos < s.len() && s[pos] != LOWER_E {
        lemma_string_shortest(s, pos);
        if let Ok((key, mid)) = string_at(s, pos) {
            if pos < mid <= s.len() {
                lemma_value_shortest(s, mid);
                if let Ok((v, next)) = value_at(s, mid) {
                    if pos < next <= s.len() {
                        lemma_pairs_shortest(s, next);
                        if let Ok((rest, end)) = pairs_at(s, next) {
                            assert((seq![(key, v)] + rest).drop_first() =~= rest);
                        }
                    }
                }
            }
        }
    }
}

/// The encoding of a decoded value is no longer than what it was decoded from.
pub proof fn encoding_is_shortest(s: Seq<u8>)
    ensures
        decoded(s) matches Ok(v) ==> encoded(v).len() <= s.len(),
{
    lemma_value_shortest(s, 0);
}

proof fn lemma_entry_is_shorter(entries: Seq<(Seq<u8>, BModel)>, key: Seq<u8>)
    ensures
        lookup(entries, key) matches Some(part) ==> encoded(part).len() <= encoded_entries(
            entries,
        ).len(),
    decreases entries.len(),
{
    if entries.len() > 0 && entries[0].0 != key {
        lemma_entry_is_shorter(entries.drop_first(), key);
    }
}

/// The encoding of what a dictionary holds is shorter than its own.
pub proof fn part_is_shorter(v: BModel, key: Seq<u8>)
    ensures
        v.get(key) matches Some(part) ==> encoded(part).len() < encoded(v).len(),
{
    if let BModel::Dict(entries) = v {
        lemma_entry_is_shorter(entries, key);
    }
}

/// Whatever was decoded, canonical or not, is decoded from its encoding again.
pub proof fn decoded_values_round_trip(s: Seq<u8>)
    requires
        s.len() <= usize::MAX,
    ensures
        decoded(s) matches Ok(v) ==> decoded(encoded(v)) == Ok::<BModel, BError>(v),
{
    decoded_is_wf(s);
    encoding_is_shortest(s);
    if let Ok(v) = decoded(s) {
        decoding_undoes_encoding(v);
    }
}

// ---------------------------------------------------------------------
// Input that is too short or too long
// ---------------------------------------------------------------------

proof fn lemma_index_from_prefix(s: Seq<u8>, target: u8, pos: int, k: int)
    requires
        0 <= pos,
        0 <= k <= s.len(),
    ensures
        index_from(s, target, pos) matches Some(i) ==> index_from(s.take(k), target, pos) == (if i
            < k {
            Some(i)
        } else {
            None
        }),
        index_from(s.take(k), target, pos) matches Some(i) ==> index_from(s, target, pos) == Some(
            i,
        ),
    decreases s.len() - pos,
{
    if pos < s.len() && s[pos] != target {
        lemma_index_from_prefix(s, target, pos + 1, k);
    }
    crate::bencode::lemma_index_from(s, target, pos);
    crate::bencode::lemma_index_from(s.take(k), target, pos);
    if let Some(i) = index_from(s, target, pos) {
        if i < k {
            crate::bencode::lemma_index_from_is(s.take(k), target, pos, i);
        }
    }
    if let Some(i) = index_from(s.take(k), target, pos) {
        crate::bencode::lemma_index_from_is(s, target, pos, i);
    }
}

proof fn lemma_string_prefix(s: Seq<u8>, pos: int, k: int)
    requires
        0 <= pos,
        0 <= k <= s.len(),
    ensures
        string_at(s, pos) matches Ok((b, end)) ==> string_at(s.take(k), pos) == (if end <= k {
            Ok((b, end))
        } else {
            Err(BError::UnexpectedEof)
        }),
        string_at(s.take(k), pos) matches Ok((x, end)) ==> string_at(s, pos) == Ok::<
            (Seq<u8>, int),
            BError,
        >((x, end)),
{
    let t = s.take(k);
    lemma_index_from_prefix(s, COLON, pos, k);
    crate::bencode::lemma_index_from(s, COLON, pos);
    if let Some(colon) = index_from(s, COLON, pos) {
        lemma_unsigned_shortest(s.subrange(pos, colon));
        if colon < k {
            assert(t.subrange(pos, colon) =~= s.subrange(pos, colon));
            if let Some(len) = unsigned_literal(s.subrange(pos, colon)) {
                if colon + 1 + len <= k {
                    assert(t.subrange(colon + 1, colon + 1 + len) =~= s.subrange(
                        colon + 1,
                        colon + 1 + len,
                    ));
                }
            }
        }
    }
}

proof fn lemma_value_prefix(s: Seq<u8>, pos: int, k: int)
    requires
        0 <= pos,
        0 <= k <= s.len(),
    ensures
        value_at(s, pos) matches Ok((v, end)) ==> value_at(s.take(k), pos) == (if end <= k {
            Ok((v, end))
        } else {
            Err(BError::UnexpectedEof)
        }),
        value_at(s.take(k), pos) matches Ok((x, end)) ==> value_at(s, pos) == Ok::<
            (BModel, int),
            BError,
        >((x, end)),
    decreases s.len() - pos, 0int,
{
    let t = s.take(k);
    if pos < s.len() {
        crate::bencode::lemma_value_end(s, pos);
        if pos < k {
            assert(t[pos] == s[pos]);
            if s[pos] == LOWER_I {
                lemma_index_from_prefix(s, LOWER_E, pos + 1, k);
                crate::bencode::lemma_index_from(s, LOWER_E, pos + 1);
                if let Some(end) = index_from(s, LOWER_E, pos + 1) {
                    if end < k {
                        assert(t.subrange(pos + 1, end) =~= s.subrange(pos + 1, end));
                    }
                }
            } else if s[pos] == LOWER_L {
                lemma_items_prefix(s, pos + 1, k);
            } else if s[pos] == LOWER_D {
                lemma_pairs_prefix(s, pos + 1, k);
            } else {
                lemma_string_prefix(s, pos, k);
            }
        }
    }
}

proof fn lemma_items_prefix(s: Seq<u8>, pos: int, k: int)
    requires
        0 <= pos,
        0 <= k <= s.len(),
    ensures
        items_at(s, pos) matches Ok((items, end)) ==> items_at(s.take(k), pos) == (if end <= k {
            Ok((items, end))
        } else {
            Err(BError::UnexpectedEof)
        }),
        items_at(s.take(k), pos) matches Ok((x, end)) ==> items_at(s, pos) == Ok::<
            (Seq<BModel>, int),
            BError,
        >((x, end)),
    decreases s.len() - pos, 1int,
{
    let t = s.take(k);
    if pos < s.len() {
        crate::bencode::lemma_items_end(s, pos);
        if pos < k {
            assert(t[pos] == s[pos]);
            if s[pos] != LOWER_E {
                lemma_value_prefix(s, pos, k);
                if let Ok((v, next)) = value_at(s, pos) {
                    if pos < next <= s.len() {
                        lemma_items_prefix(s, next, k);
                        crate::bencode::lemma_items_end(s, next);
                    }
                }
            }
        }
    }
}

proof fn lemma_pairs_prefix(s: Seq<u8>, pos: int, k: int)
    requires
        0 <= pos,
        0 <= k <= s.len(),
    ensures
        pairs_at(s, pos) matches Ok((pairs, end)) ==> pairs_at(s.take(k), pos) == (if end <= k {
            Ok((pairs, end))
        } else {
            Err(BError::UnexpectedEof)
        }),
        pairs_at(s.take(k), pos) matches Ok((x, end)) ==> pairs_at(s, pos) == Ok::<
            (Seq<(Seq<u8>, BModel)>, int),
            BError,
        >((x, end)),
    decreases s.len() - pos, 1int,
{
    let t = s.take(k);
    if pos < s.len() {
        crate::bencode::lemma_pairs_end(s, pos);
        if pos < k {
            assert(t[pos] == s[pos]);
            if s[pos] != LOWER_E {
                lemma_string_prefix(s, pos, k);
                crate::bencode::lemma_string_end(s, pos);
                if let Ok((key, mid)) = string_at(s, pos) {
                    lemma_value_prefix(s, mid, k);
                    crate::bencode::lemma_value_end(s, mid);
                    if let Ok((v, next)) = value_at(s, mid) {
                        lemma_pairs_prefix(s, next, k);
                        crate::bencode::lemma_pairs_end(s, next);
                    }
                }
            }
        }
    }
}

/// Input that is cut short is recognised as such: no proper prefix of anything
/// that decodes does decode, and the error says that the input ended early.
pub proof fn truncated_input_is_rejected(s: Seq<u8>, k: int)
    requires
        decoded(s) is Ok,
        0 <= k < s.len(),
    ensures
        decoded(s.take(k)) == Err::<BModel, BError>(BError::UnexpectedEof),
{
    lemma_value_prefix(s, 0, k);
}

/// Input that goes on after its value is rejected, whatever follows.
pub proof fn trailing_data_is_rejected(s: Seq<u8>, more: Seq<u8>)
    requires
        decoded(s) is Ok,
        more.len() > 0,
    ensures
        decoded(s + more) == Err::<BModel, BError>(BError::TrailingData),
{
    let whole = s + more;
    assert(whole.take(s.len() as int) =~= s);
    lemma_value_prefix(whole, 0, s.len() as int);
}

// ---------------------------------------------------------------------
// A value stands alone
// ---------------------------------------------------------------------

proof fn lemma_index_from_shift(s: Seq<u8>, target: u8, pos: int, d: int)
    requires
        0 <= d <= pos,
        d <= s.len(),
    ensures
        index_from(s, target, pos) matches Some(i) ==> index_from(s.skip(d), target, pos - d)
            == Some(i - d),
{
    crate::bencode::lemma_index_from(s, target, pos);
    if let Some(i) = index_from(s, target, pos) {
        crate::bencode::lemma_index_from_is(s.skip(d), target, pos - d, i - d);
    }
}

proof fn lemma_string_shift(s: Seq<u8>, pos: int, d: int)
    requires
        0 <= d <= pos,
        d <= s.len(),
    ensures
        string_at(s, pos) matches Ok((b, end)) ==> string_at(s.skip(d), pos - d) == Ok::<
            (Seq<u8>, int),
            BError,
        >((b, end - d)),
{
    let t = s.skip(d);
    lemma_index_from_shift(s, COLON, pos, d);
    crate::bencode::lemma_index_from(s, COLON, pos);
    if let Some(colon) = index_from(s, COLON, pos) {
        lemma_unsigned_shortest(s.subrange(pos, colon));
        assert(t.subrange(pos - d, colon - d) =~= s.subrange(pos, colon));
        if let Ok((b, end)) = string_at(s, pos) {
            assert(t.subrange(colon - d + 1, end - d) =~= s.subrange(colon + 1, end));
        }
    }
}

proof fn lemma_value_shift(s: Seq<u8>, pos: int, d: int)
    requires
        0 <= d <= pos,
        d <= s.len(),
    ensures
        value_at(s, pos) matches Ok((v, end)) ==> value_at(s.skip(d), pos - d) == Ok::<
            (BModel, int),
            BError,
        >((v, end - d)),
    decreases s.len() - pos, 0int,
{
    let t = s.skip(d);
    if pos < s.len() {
        assert(t[pos - d] == s[pos]);
        if s[pos] == LOWER_I {
            lemma_index_from_shift(s, LOWER_E, pos + 1, d);
            crate::bencode::lemma_index_from(s, LOWER_E, pos + 1);
            if let Some(end) = index_from(s, LOWER_E, pos + 1) {
                assert(t.subrange(pos + 1 - d, end - d) =~= s.subrange(pos + 1, end));
            }
        } else if s[pos] == LOWER_L {
            lemma_items_shift(s, pos + 1, d);
        } else if s[pos] == LOWER_D {
            lemma_pairs_shift(s, pos + 1, d);
        } else {
            lemma_string_shift(s, pos, d);
        }
    }
}

proof fn lemma_items_shift(s: Seq<u8>, pos: int, d: int)
    requires
        0 <= d <= pos,
        d <= s.len(),
    ensures
        items_at(s, pos) matches Ok((items, end)) ==> items_at(s.skip(d), pos - d) == Ok::<
            (Seq<BModel>, int),
            BError,
        >((items, end - d)),
    decreases s.len() - pos, 1int,
{
    let t = s.skip(d);
    if pos < s.len() {
        assert(t[pos - d] == s[pos]);
        if s[pos] != LOWER_E {
            lemma_value_shift(s, pos, d);
            crate::bencode::lemma_value_end(s, pos);
            if let Ok((v, next)) = value_at(s, pos) {
                lemma_items_shift(s, next, d);
            }
        }
    }
}

proof fn lemma_pairs_shift(s: Seq<u8>, pos: int, d: int)
    requires
        0 <= d <= pos,
        d <= s.len(),
    ensures
        pairs_at(s, pos) matches Ok((pairs, end)) ==> pairs_at(s.skip(d), pos - d) == Ok::<
            (Seq<(Seq<u8>, BModel)>, int),
            BError,
        >((pairs, end - d)),
    decreases s.len() - pos, 1int,
{
    let t = s.skip(d);
    if pos < s.len() {
        assert(t[pos - d] == s[pos]);
        if s[pos] != LOWER_E {
            lemma_string_shift(s, pos, d);
            crate::bencode::lemma_string_end(s, pos);
            if let Ok((key, mid)) = string_at(s, pos) {
                lemma_value_shift(s, mid, d);
                crate::bencode::lemma_value_end(s, mid);
                if let Ok((v, next)) = value_at(s, mid) {
                    lemma_pairs_shift(s, next, d);
                }
            }
        }
    }
}

/// A value that is read out of a longer input takes up at least one byte, ends
/// within the input, and is what just the bytes that it takes up decode to:
/// what stands before and behind it has no influence on it.
pub proof fn values_stand_alone(s: Seq<u8>, pos: int)
    requires
        0 <= pos,
    ensures
        value_at(s, pos) matches Ok((v, end)) ==> pos < end <= s.len() && decoded(
            s.subrange(pos, end),
        ) == Ok::<BModel, BError>(v),
{
    crate::bencode::lemma_value_end(s, pos);
    if let Ok((v, end)) = value_at(s, pos) {
        lemma_value_prefix(s, pos, end);
        lemma_value_shift(s.take(end), pos, pos);
        assert(s.take(end).skip(pos) =~= s.subrange(pos, end));
    }
}

// ---------------------------------------------------------------------
// Where the values of a dictionary stand
// ---------------------------------------------------------------------

/// The value of the last pair whose key is `key`.
spec fn last_value(pairs: Seq<(Seq<u8>, BModel)>, key: Seq<u8>) -> Option<BModel>
    decreases pairs.len(),
{
    if pairs.len() == 0 {
        None
    } else {
        match last_value(pairs.drop_first(), key) {
            Some(v) => Some(v),
            None => if pairs[0].0 == key {
                Some(pairs[0].1)
            } else {
                None
            },
        }
    }
}

proof fn lemma_last_value_of_last(pairs: Seq<(Seq<u8>, BModel)>, key: Seq<u8>)
    requires
        pairs.len() > 0,
    ensures
        last_value(pairs, key) == if pairs.last().0 == key {
            Some(pairs.last().1)
        } else {
            last_value(pairs.drop_last(), key)
        },
    decreases pairs.len(),
{
    let rest = pairs.drop_first();
    if rest.len() > 0 {
        lemma_last_value_of_last(rest, key);
        assert(rest.last() == pairs.last());
        assert(pairs.drop_last().drop_first() =~= rest.drop_last());
    } else {
        assert(last_value(rest, key) is None);
        assert(last_value(pairs.drop_last(), key) is None);
    }
}

/// A dictionary holds under a key what the last pair with that key brought.
proof fn lemma_lookup_of_collected(pairs: Seq<(Seq<u8>, BModel)>, key: Seq<u8>)
    ensures
        lookup(collected(pairs), key) == last_value(pairs, key),
    decreases pairs.len(),
{
    if pairs.len() > 0 {
        lemma_lookup_of_collected(pairs.drop_last(), key);
        lemma_last_value_of_last(pairs, key);
        lookup_of_inserted(collected(pairs.drop_last()), pairs.last().0, pairs.last().1, key);
    }
}

proof fn lemma_span_from(s: Seq<u8>, pos: int, key: Seq<u8>)
    requires
        0 < pos,
    ensures
        pairs_at(s, pos) matches Ok((pairs, _)) ==> match span_from(s, pos, key) {
            Some((from, to)) => {
                &&& 0 < from
                &&& value_at(s, from) matches Ok((v, end))
                &&& end == to
                &&& last_value(pairs, key) == Some(v)
            },
            None => last_value(pairs, key) is None,
        },
    decreases s.len() - pos,
{
    if pos < s.len() && s[pos] != LOWER_E {
        if let Ok((k, mid)) = string_at(s, pos) {
            crate::bencode::lemma_string_end(s, pos);
            crate::bencode::lemma_value_end(s, mid);
            if let Ok((v, next)) = value_at(s, mid) {
                lemma_span_from(s, next, key);
                if let Ok((rest, end)) = pairs_at(s, next) {
                    let pairs = seq![(k, v)] + rest;
                    assert(pairs.drop_first() =~= rest);
                    assert(pairs[0] == (k, v));
                }
            }
        }
    }
}

/// The bytes of a dictionary have a span for a key just if the dictionary holds
/// something under it, and then the bytes in that span decode to just that.
pub proof fn spans_hold_the_values(s: Seq<u8>, key: Seq<u8>)
    requires
        decoded(s) is Ok,
    ensures
        match decoded(s)->Ok_0.get(key) {
            Some(v) => span_of(s, key) matches Some((from, to)) && 0 < from < to <= s.len()
                && decoded(s.subrange(from, to)) == Ok::<BModel, BError>(v),
            None => span_of(s, key) is None,
        },
{
    if s[0] == LOWER_D {
        lemma_span_from(s, 1, key);
        lemma_lookup_of_collected(pairs_at(s, 1)->Ok_0.0, key);
        if let Some((from, to)) = span_of(s, key) {
            values_stand_alone(s, from);
        }
    }
}

proof fn lemma_span_in_canonical_entries(
    s: Seq<u8>,
    pos: int,
    entries: Seq<(Seq<u8>, BModel)>,
    key: Seq<u8>,
)
    requires
        stands_at(s, pos, encoded_entries(entries) + seq![LOWER_E]),
        s.len() <= usize::MAX,
        forall|i: int| 0 <= i < entries.len() ==> (#[trigger] entries[i]).1.wf(),
    ensures
        span_from(s, pos, key) matches Some((from, to)) ==> last_value(entries, key) matches Some(v)
            && s.subrange(from, to) == encoded(v),
    decreases entries.len(),
{
    if entries.len() == 0 {
        assert(encoded_entries(entries) + seq![LOWER_E] =~= seq![LOWER_E]);
        lemma_stands_at_index(s, pos, seq![LOWER_E]);
        assert(s[pos] == LOWER_E);
    } else {
        let (k, value) = entries[0];
        let rest = entries.drop_first();
        let tail = encoded_entries(rest) + seq![LOWER_E];
        assert(encoded_entries(entries) + seq![LOWER_E] =~= encoded_bytes(k) + (encoded(value)
            + tail));
        lemma_stands_at_split(s, pos, encoded_bytes(k), encoded(value) + tail);
        let mid = pos + encoded_bytes(k).len();
        lemma_stands_at_split(s, mid, encoded(value), tail);
        lemma_string_round_trip(s, pos, k);
        assert(value.wf()) by {
            assert(entries[0].1.wf());
        }
        lemma_value_round_trip(s, mid, value);
        assert forall|i: int| 0 <= i < rest.len() implies (#[trigger] rest[i]).1.wf() by {
            assert(rest[i] == entries[i + 1]);
        }
        let next = mid + encoded(value).len();
        lemma_span_in_canonical_entries(s, next, rest, key);
        lemma_entries_round_trip(s, next, rest);
        lemma_span_from(s, next, key);
    }
}

/// In a canonical dictionary the bytes in the span of a key are the canonical
/// encoding of what the dictionary holds under it.
pub proof fn spans_of_canonical_input_are_canonical(root: BModel, key: Seq<u8>)
    requires
        root.wf(),
        encoded(root).len() <= usize::MAX,
        root.get(key) is Some,
    ensures
        span_of(encoded(root), key) matches Some((from, to)) && encoded(root).subrange(from, to)
            == encoded(root.get(key)->0),
{
    let s = encoded(root);
    let entries = root->Dict_0;
    decoding_undoes_encoding(root);
    spans_hold_the_values(s, key);
    assert(s.subrange(1, s.len() as int) =~= encoded_entries(entries) + seq![LOWER_E]);
    lemma_span_in_canonical_entries(s, 1, entries, key);
    lemma_collected_in_order(entries);
    lemma_lookup_of_collected(entries, key);
}

// ---------------------------------------------------------------------
// The order of keys, and what a dictionary holds
// ---------------------------------------------------------------------

/// Byte strings are ordered by the first byte in which they differ, and a prefix
/// comes before what it is a prefix of.
pub proof fn precedes_is_lexicographic(front: Seq<u8>, x: u8, y: u8, s: Seq<u8>, t: Seq<u8>)
    ensures
        x < y ==> precedes(front + seq![x] + s, front + seq![y] + t),
        precedes(front, front + seq![x] + s),
    decreases front.len(),
{
    let a = front + seq![x] + s;
    let b = front + seq![y] + t;
    if front.len() > 0 {
        let rest = front.drop_first();
        precedes_is_lexicographic(rest, x, y, s, t);
        assert(a.drop_first() =~= rest + seq![x] + s);
        assert(b.drop_first() =~= rest + seq![y] + t);
        assert(a[0] == front[0] && b[0] == front[0]);
    } else {
        assert(a[0] == x && b[0] == y);
    }
}

/// A dictionary holds under a key the value of the first entry with that key, and
/// nothing where there is no such entry.
pub proof fn lookup_finds_the_entry(entries: Seq<(Seq<u8>, BModel)>, key: Seq<u8>)
    ensures
        match lookup(entries, key) {
            Some(v) => exists|i: int|
                0 <= i < entries.len() && #[trigger] entries[i] == (key, v) && forall|j: int|
                    0 <= j < i ==> (#[trigger] entries[j]).0 != key,
            None => forall|i: int| 0 <= i < entries.len() ==> (#[trigger] entries[i]).0 != key,
        },
    decreases entries.len(),
{
    if entries.len() > 0 {
        if entries[0].0 == key {
            assert(entries[0] == (key, entries[0].1));
        } else {
            let rest = entries.drop_first();
            lookup_finds_the_entry(rest, key);
            match lookup(rest, key) {
                Some(v) => {
                    let i = choose|i: int|
                        0 <= i < rest.len() && #[trigger] rest[i] == (key, v) && forall|j: int|
                            0 <= j < i ==> (#[trigger] rest[j]).0 != key;
                    assert(entries[i + 1] == (key, v));
                    assert forall|j: int| 0 <= j < i + 1 implies (#[trigger] entries[j]).0
                        != key by {
                        if j > 0 {
                            assert(rest[j - 1] == entries[j]);
                        }
                    }
                },
                None => {
                    assert forall|j: int| 0 <= j < entries.len() implies (#[trigger] entries[j]).0
                        != key by {
                        if j > 0 {
                            assert(rest[j - 1] == entries[j]);
                        }
                    }
                },
            }
        }
    }
}

/// Putting pairs into a dictionary one by one: nothing is there at first, and each
/// pair changes what is under its own key and nothing else. The keys stay in
/// order.
pub proof fn pairs_are_put_in_one_by_one(
    pairs: Seq<(Seq<u8>, BModel)>,
    key: Seq<u8>,
    value: BModel,
    other: Seq<u8>,
)
    ensures
        lookup(collected(Seq::empty()), other) is None,
        keys_increase(collected(pairs)),
        lookup(collected(pairs.push((key, value))), other) == if other == key {
            Some(value)
        } else {
            lookup(collected(pairs), other)
        },
{
    assert(pairs.push((key, value)).drop_last() =~= pairs);
    lookup_of_inserted(collected(pairs), key, value, other);
    lemma_collected_increases(pairs);
}

proof fn lemma_collected_increases(pairs: Seq<(Seq<u8>, BModel)>)
    ensures
        keys_increase(collected(pairs)),
    decreases pairs.len(),
{
    if pairs.len() > 0 {
        let before = collected(pairs.drop_last());
        let (key, value) = pairs.last();
        lemma_collected_increases(pairs.drop_last());
        let i = lemma_insertion_point(before, key);
        crate::bencode::lemma_inserted_at(before, key, value, i);
        crate::bencode::lemma_inserted_increases(before, key, value, i);
    }
}

// ---------------------------------------------------------------------
// Encodings, byte by byte
// ---------------------------------------------------------------------

/// The encodings of integers and byte strings: `i`, the number and `e`; and the
/// length, a colon and the bytes as they are.
pub proof fn encodings_of_integers_and_strings(n: int, b: Seq<u8>)
    ensures
        encoded(BModel::Int(n)) == seq![0x69u8] + signed_digits(n) + seq![0x65u8],
        encoded(BModel::Bytes(b)) == digits(b.len()) + seq![0x3au8] + b,
{
}

/// The encoding of a list: `le` for an empty one, and with one more item that
/// item's encoding comes last before the `e`.
pub proof fn encodings_of_lists(items: Seq<BModel>, v: BModel)
    ensures
        encoded(BModel::List(Seq::empty())) == seq![0x6cu8, 0x65u8],
        encoded(BModel::List(items.push(v))) == encoded(BModel::List(items)).drop_last() + encoded(
            v,
        ) + seq![0x65u8],
{
    assert(encoded(BModel::List(Seq::empty())) =~= seq![0x6cu8, 0x65u8]);
    lemma_encoded_items_push(items, v);
    assert(encoded(BModel::List(items.push(v))) =~= encoded(BModel::List(items)).drop_last()
        + encoded(v) + seq![0x65u8]);
}

proof fn lemma_encoded_items_push(items: Seq<BModel>, v: BModel)
    ensures
        encoded_items(items.push(v)) == encoded_items(items) + encoded(v),
    decreases items.len(),
{
    let more = items.push(v);
    if items.len() == 0 {
        assert(more.drop_first() =~= Seq::empty());
        assert(encoded_items(more.drop_first()) =~= Seq::empty());
        assert(encoded_items(more) =~= encoded_items(items) + encoded(v));
    } else {
        lemma_encoded_items_push(items.drop_first(), v);
        assert(more.drop_first() =~= items.drop_first().push(v));
        assert(more[0] == items[0]);
        assert(encoded_items(more) =~= encoded_items(items) + encoded(v));
    }
}

/// The encoding of a dictionary: `de` for an empty one, and with one more entry
/// the encodings of its key and its value come last before the `e`.
pub proof fn encodings_of_dictionaries(
    entries: Seq<(Seq<u8>, BModel)>,
    key: Seq<u8>,
    value: BModel,
)
    ensures
        encoded(BModel::Dict(Seq::empty())) == seq![0x64u8, 0x65u8],
        encoded(BModel::Dict(entries.push((key, value)))) == encoded(
            BModel::Dict(entries),
        ).drop_last() + encoded(BModel::Bytes(key)) + encoded(value) + seq![0x65u8],
{
    assert(encoded(BModel::Dict(Seq::empty())) =~= seq![0x64u8, 0x65u8]);
    let more = entries.push((key, value));
    lemma_encoded_entries_push(more);
    assert(more.drop_last() =~= entries);
    assert(more.last() == (key, value));
    assert(encoded(BModel::Bytes(key)) == encoded_bytes(key));
    assert(encoded(BModel::Dict(more)) =~= encoded(BModel::Dict(entries)).drop_last() + encoded(
        BModel::Bytes(key),
    ) + encoded(value) + seq![0x65u8]);
}

// ---------------------------------------------------------------------
// Decoding, byte by byte
// ---------------------------------------------------------------------

/// What starts no value is named, and nothing is no value.
pub proof fn values_start_with_a_sign_of_their_kind(s: Seq<u8>)
    ensures
        s.len() == 0 ==> decoded(s) == Err::<BModel, BError>(BError::UnexpectedEof),
        s.len() > 0 && s[0] != 0x69 && s[0] != 0x6c && s[0] != 0x64 && !(0x30 <= s[0] <= 0x39)
            ==> decoded(s) == Err::<BModel, BError>(BError::UnexpectedToken(s[0])),
{
}

/// Between `i` and the first `e` stands a literal whose value fits in an `i64`,
/// and that value is the integer. Any other literal is invalid, and without an
/// `e` the input ends too early.
pub proof fn integers_are_read_from_literals(literal: Seq<u8>)
    requires
        forall|i: int| 0 <= i < literal.len() ==> #[trigger] literal[i] != 0x65,
    ensures
        decoded(seq![0x69u8] + literal) == Err::<BModel, BError>(BError::UnexpectedEof),
        decoded(seq![0x69u8] + literal + seq![0x65u8]) == match signed_literal(literal) {
            Some(n) => if -0x8000_0000_0000_0000 <= n <= 0x7fff_ffff_ffff_ffff {
                Ok::<BModel, BError>(BModel::Int(n))
            } else {
                Err(BError::InvalidInteger)
            },
            None => Err(BError::InvalidInteger),
        },
{
    let open = seq![0x69u8] + literal;
    crate::bencode::lemma_index_from(open, LOWER_E, 1);
    if let Some(i) = index_from(open, LOWER_E, 1) {
        assert(open[i] == literal[i - 1]);
    }
    let s = open + seq![0x65u8];
    let end = 1 + literal.len() as int;
    assert forall|j: int| 1 <= j < end implies s[j] != LOWER_E by {
        assert(s[j] == literal[j - 1]);
    }
    crate::bencode::lemma_index_from_is(s, LOWER_E, 1, end);
    assert(s.subrange(1, end) =~= literal);
}

/// Before the first colon stands the length of a byte string, and behind it the
/// string, as it is. A string that ends before its length is reached is cut
/// short, one that goes on behind it has trailing data, and what is no length is
/// invalid.
pub proof fn strings_are_as_long_as_they_say(literal: Seq<u8>, b: Seq<u8>)
    requires
        literal.len() > 0,
        0x30 <= literal[0] <= 0x39,
        forall|i: int| 0 <= i < literal.len() ==> #[trigger] literal[i] != 0x3a,
        literal.len() + 1 + b.len() <= usize::MAX,
    ensures
        decoded(literal) == Err::<BModel, BError>(BError::UnexpectedEof),
        decoded(literal + seq![0x3au8] + b) == match unsigned_literal(literal) {
            Some(len) => if literal.len() + 1 + len > usize::MAX {
                Err::<BModel, BError>(BError::InvalidStringLength)
            } else if len > b.len() {
                Err(BError::UnexpectedEof)
            } else if len < b.len() {
                Err(BError::TrailingData)
            } else {
                Ok(BModel::Bytes(b))
            },
            None => Err(BError::InvalidStringLength),
        },
{
    crate::bencode::lemma_index_from(literal, COLON, 0);
    let s = literal + seq![0x3au8] + b;
    let colon = literal.len() as int;
    assert(s[0] == literal[0]);
    assert forall|j: int| 0 <= j < colon implies s[j] != COLON by {
        assert(s[j] == literal[j]);
    }
    crate::bencode::lemma_index_from_is(s, COLON, 0, colon);
    assert(s.subrange(0, colon) =~= literal);
    lemma_unsigned_shortest(literal);
    if unsigned_literal(literal) == Some(b.len() as int) {
        assert(s.subrange(colon + 1, colon + 1 + b.len()) =~= b);
    }
}

proof fn lemma_index_from_unshift(s: Seq<u8>, target: u8, pos: int, d: int)
    requires
        0 <= d <= s.len(),
        0 <= pos,
    ensures
        index_from(s.skip(d), target, pos) matches Some(i) ==> index_from(s, target, pos + d)
            == Some(i + d),
{
    let t = s.skip(d);
    crate::bencode::lemma_index_from(t, target, pos);
    if let Some(i) = index_from(t, target, pos) {
        assert forall|j: int| pos + d <= j < i + d implies s[j] != target by {
            assert(t[j - d] == s[j]);
        }
        crate::bencode::lemma_index_from_is(s, target, pos + d, i + d);
    }
}

proof fn lemma_string_unshift(s: Seq<u8>, pos: int, d: int)
    requires
        0 <= d <= s.len() <= usize::MAX,
        0 <= pos,
    ensures
        string_at(s.skip(d), pos) matches Ok((b, end)) ==> string_at(s, pos + d) == Ok::<
            (Seq<u8>, int),
            BError,
        >((b, end + d)),
{
    let t = s.skip(d);
    lemma_index_from_unshift(s, COLON, pos, d);
    crate::bencode::lemma_index_from(t, COLON, pos);
    if let Some(colon) = index_from(t, COLON, pos) {
        lemma_unsigned_shortest(t.subrange(pos, colon));
        assert(t.subrange(pos, colon) =~= s.subrange(pos + d, colon + d));
        if let Ok((b, end)) = string_at(t, pos) {
            assert(t.subrange(colon + 1, end) =~= s.subrange(colon + d + 1, end + d));
        }
    }
}

proof fn lemma_value_unshift(s: Seq<u8>, pos: int, d: int)
    requires
        0 <= d <= s.len() <= usize::MAX,
        0 <= pos,
    ensures
        value_at(s.skip(d), pos) matches Ok((v, end)) ==> value_at(s, pos + d) == Ok::<
            (BModel, int),
            BError,
        >((v, end + d)),
    decreases s.len() - d - pos, 0int,
{
    let t = s.skip(d);
    if pos < t.len() {
        assert(t[pos] == s[pos + d]);
        if t[pos] == LOWER_I {
            lemma_index_from_unshift(s, LOWER_E, pos + 1, d);
            crate::bencode::lemma_index_from(t, LOWER_E, pos + 1);
            if let Some(end) = index_from(t, LOWER_E, pos + 1) {
                assert(t.subrange(pos + 1, end) =~= s.subrange(pos + 1 + d, end + d));
            }
        } else if t[pos] == LOWER_L {
            lemma_items_unshift(s, pos + 1, d);
        } else if t[pos] == LOWER_D {
            lemma_pairs_unshift(s, pos + 1, d);
        } else {
            lemma_string_unshift(s, pos, d);
        }
    }
}

proof fn lemma_items_unshift(s: Seq<u8>, pos: int, d: int)
    requires
        0 <= d <= s.len() <= usize::MAX,
        0 <= pos,
    ensures
        items_at(s.skip(d), pos) matches Ok((items, end)) ==> items_at(s, pos + d) == Ok::<
            (Seq<BModel>, int),
            BError,
        >((items, end + d)),
    decreases s.len() - d - pos, 1int,
{
    let t = s.skip(d);
    if pos < t.len() {
        assert(t[pos] == s[pos + d]);
        if t[pos] != LOWER_E {
            lemma_value_unshift(s, pos, d);
            crate::bencode::lemma_value_end(t, pos);
            if let Ok((v, next)) = value_at(t, pos) {
                lemma_items_unshift(s, next, d);
            }
        }
    }
}

proof fn lemma_pairs_unshift(s: Seq<u8>, pos: int, d: int)
    requires
        0 <= d <= s.len() <= usize::MAX,
        0 <= pos,
    ensures
        pairs_at(s.skip(d), pos) matches Ok((pairs, end)) ==> pairs_at(s, pos + d) == Ok::<
            (Seq<(Seq<u8>, BModel)>, int),
            BError,
        >((pairs, end + d)),
    decreases s.len() - d - pos, 1int,
{
    let t = s.skip(d);
    if pos < t.len() {
        assert(t[pos] == s[pos + d]);
        if t[pos] != LOWER_E {
            lemma_string_unshift(s, pos, d);
            crate::bencode::lemma_string_end(t, pos);
            if let Ok((key, mid)) = string_at(t, pos) {
                lemma_value_unshift(s, mid, d);
                crate::bencode::lemma_value_end(t, mid);
                if let Ok((v, next)) = value_at(t, mid) {
                    lemma_pairs_unshift(s, next, d);
                }
            }
        }
    }
}

/// Bytes that decode alone are read as the same value wherever they stand.
pub proof fn values_are_the_same_everywhere(before: Seq<u8>, part: Seq<u8>, behind: Seq<u8>)
    requires
        decoded(part) is Ok,
        (before + part + behind).len() <= usize::MAX,
    ensures
        value_at(before + part + behind, before.len() as int) == Ok::<(BModel, int), BError>(
            (decoded(part)->Ok_0, (before.len() + part.len()) as int),
        ),
{
    let s = before + part + behind;
    let t = s.skip(before.len() as int);
    assert(t.take(part.len() as int) =~= part);
    lemma_value_prefix(t, 0, part.len() as int);
    lemma_value_unshift(s, 0, before.len() as int);
}

/// Parts one behind another.
pub open spec fn joined(parts: Seq<Seq<u8>>) -> Seq<u8>
    decreases parts.len(),
{
    if parts.len() == 0 {
        Seq::empty()
    } else {
        joined(parts.drop_last()) + parts.last()
    }
}

proof fn lemma_items_of_parts(before: Seq<u8>, parts: Seq<Seq<u8>>, behind: Seq<u8>)
    requires
        forall|i: int| 0 <= i < parts.len() ==> decoded(#[trigger] parts[i]) is Ok,
        (before + joined(parts) + behind).len() <= usize::MAX,
    ensures
        items_at(before + joined(parts) + behind, before.len() as int) == after(
            Seq::new(parts.len(), |i: int| decoded(parts[i])->Ok_0),
            items_at(
                before + joined(parts) + behind,
                (before.len() + joined(parts).len()) as int,
            ),
        ),
    decreases parts.len(),
{
    let s = before + joined(parts) + behind;
    let at = before.len() as int;
    let values = Seq::new(parts.len(), |i: int| decoded(parts[i])->Ok_0);
    if parts.len() == 0 {
        if let Ok((tail, end)) = items_at(s, at) {
            assert(values + tail =~= tail);
        }
    } else {
        let front = parts.drop_last();
        let last = parts.last();
        assert(decoded(parts[parts.len() - 1]) is Ok);
        assert forall|i: int| 0 <= i < front.len() implies decoded(#[trigger] front[i]) is Ok by {
            assert(front[i] == parts[i]);
        }
        assert(before + joined(front) + (last + behind) =~= s);
        lemma_items_of_parts(before, front, last + behind);
        let mid = at + joined(front).len();
        assert((before + joined(front)) + last + behind =~= s);
        values_are_the_same_everywhere(before + joined(front), last, behind);
        crate::bencode::lemma_value_end(s, mid);
        lemma_value_starts_no_end(s, mid);
        let front_values = Seq::new(front.len(), |i: int| decoded(front[i])->Ok_0);
        let v = decoded(last)->Ok_0;
        assert(values =~= front_values.push(v));
        let next = mid + last.len();
        if let Ok((tail, end)) = items_at(s, next) {
            assert(front_values + (seq![v] + tail) =~= values + tail);
        }
    }
}

/// What is a value does not start with the `e` that ends a list.
proof fn lemma_value_starts_no_end(s: Seq<u8>, pos: int)
    requires
        value_at(s, pos) is Ok,
    ensures
        pos < s.len() && s[pos] != LOWER_E,
{
}

/// A list is read value by value: parts that each decode, between `l` and `e`,
/// decode to the list of what they decode to, in order.
pub proof fn lists_are_read_value_by_value(parts: Seq<Seq<u8>>)
    requires
        forall|i: int| 0 <= i < parts.len() ==> decoded(#[trigger] parts[i]) is Ok,
        joined(parts).len() + 2 <= usize::MAX,
    ensures
        decoded(seq![0x6cu8] + joined(parts) + seq![0x65u8]) matches Ok(BModel::List(items))
            && items.len() == parts.len() && forall|i: int|
            0 <= i < parts.len() ==> decoded(parts[i]) == Ok::<BModel, BError>(#[trigger] items[i]),
{
    let s = seq![0x6cu8] + joined(parts) + seq![0x65u8];
    lemma_items_of_parts(seq![0x6cu8], parts, seq![0x65u8]);
    let end = 1 + joined(parts).len() as int;
    assert(s[end] == LOWER_E);
    let values = Seq::new(parts.len(), |i: int| decoded(parts[i])->Ok_0);
    assert(items_at(s, end) == Ok::<(Seq<BModel>, int), BError>((seq![], end + 1)));
    assert(values + Seq::<BModel>::empty() =~= values);
}

/// What follows the values of a list and is neither a value nor the `e` that ends
/// the list makes the list fail for the same reason.
pub proof fn lists_fail_where_a_value_does(parts: Seq<Seq<u8>>, behind: Seq<u8>)
    requires
        forall|i: int| 0 <= i < parts.len() ==> decoded(#[trigger] parts[i]) is Ok,
        1 + joined(parts).len() + behind.len() <= usize::MAX,
        behind.len() > 0 ==> behind[0] != 0x65,
        value_at(
            seq![0x6cu8] + joined(parts) + behind,
            1 + joined(parts).len() as int,
        ) is Err,
    ensures
        decoded(seq![0x6cu8] + joined(parts) + behind) == Err::<BModel, BError>(
            value_at(
                seq![0x6cu8] + joined(parts) + behind,
                1 + joined(parts).len() as int,
            )->Err_0,
        ),
{
    let s = seq![0x6cu8] + joined(parts) + behind;
    lemma_items_of_parts(seq![0x6cu8], parts, behind);
    let at = 1 + joined(parts).len() as int;
    if behind.len() > 0 {
        assert(s[at] == behind[0]);
    }
}

/// Whether `part` is a byte string and decodes to `key`.
pub open spec fn is_key(part: Seq<u8>, key: Seq<u8>) -> bool {
    string_at(part, 0) == Ok::<(Seq<u8>, int), BError>((key, part.len() as int))
}

proof fn lemma_string_everywhere(before: Seq<u8>, part: Seq<u8>, behind: Seq<u8>)
    requires
        string_at(part, 0) matches Ok((_, end)) && end == part.len(),
        (before + part + behind).len() <= usize::MAX,
    ensures
        string_at(before + part + behind, before.len() as int) == Ok::<(Seq<u8>, int), BError>(
            (string_at(part, 0)->Ok_0.0, (before.len() + part.len()) as int),
        ),
{
    let s = before + part + behind;
    let t = s.skip(before.len() as int);
    assert(t.take(part.len() as int) =~= part);
    lemma_string_prefix(t, 0, part.len() as int);
    lemma_string_unshift(s, 0, before.len() as int);
}

/// A dictionary is read pair by pair, in whatever order the keys come: behind the
/// pairs so far, one more key and one more value between them and the `e` put the
/// value under the key and leave everything else as it was.
pub proof fn dictionaries_are_read_pair_by_pair(
    so_far: Seq<u8>,
    key_part: Seq<u8>,
    key: Seq<u8>,
    part: Seq<u8>,
    other: Seq<u8>,
)
    requires
        decoded(seq![0x64u8] + so_far + seq![0x65u8]) is Ok,
        is_key(key_part, key),
        key_part[0] != 0x65,
        decoded(part) is Ok,
        so_far.len() + key_part.len() + part.len() + 2 <= usize::MAX,
    ensures
        decoded(seq![0x64u8] + (so_far + key_part + part) + seq![0x65u8]) matches Ok(more) && more
            is Dict && more.get(other) == if other == key {
            Some(decoded(part)->Ok_0)
        } else {
            decoded(seq![0x64u8] + so_far + seq![0x65u8])->Ok_0.get(other)
        },
{
    let old = seq![0x64u8] + so_far + seq![0x65u8];
    let tail = key_part + part + seq![0x65u8];
    let new = seq![0x64u8] + (so_far + key_part + part) + seq![0x65u8];
    let at = 1 + so_far.len() as int;
    assert(new =~= (seq![0x64u8] + so_far) + tail);
    assert(old =~= (seq![0x64u8] + so_far) + seq![0x65u8]);
    assert((seq![0x64u8] + so_far) + key_part + (part + seq![0x65u8]) =~= new);
    lemma_string_everywhere(seq![0x64u8] + so_far, key_part, part + seq![0x65u8]);
    crate::bencode::lemma_string_end(key_part, 0);
    assert((seq![0x64u8] + so_far + key_part) + part + seq![0x65u8] =~= new);
    values_are_the_same_everywhere(seq![0x64u8] + so_far + key_part, part, seq![0x65u8]);
    let v = decoded(part)->Ok_0;
    crate::bencode::lemma_value_end(part, 0);
    let mid = at + key_part.len();
    let end = mid + part.len();
    assert(new[at] == key_part[0]);
    assert(new[end] == LOWER_E);
    assert(pairs_at(new, end) == Ok::<(Seq<(Seq<u8>, BModel)>, int), BError>((seq![], end + 1)));
    assert(seq![(key, v)] + Seq::<(Seq<u8>, BModel)>::empty() =~= seq![(key, v)]);
    assert(pairs_at(new, at) == Ok::<(Seq<(Seq<u8>, BModel)>, int), BError>(
        (seq![(key, v)], end + 1),
    ));
    lemma_pairs_go_on(seq![0x64u8] + so_far, tail, 1);
    let pairs = pairs_at(old, 1)->Ok_0.0;
    assert(pairs + seq![(key, v)] =~= pairs.push((key, v)));
    pairs_are_put_in_one_by_one(pairs, key, v, other);
}

/// Pairs that are all there up to the end of `front` are followed by the pairs of
/// whatever comes next.
proof fn lemma_pairs_go_on(front: Seq<u8>, tail: Seq<u8>, pos: int)
    requires
        0 <= pos <= front.len(),
        front.len() + tail.len() <= usize::MAX,
        front.len() < usize::MAX,
        pairs_at(front + seq![0x65u8], pos) matches Ok((_, end)) && end == front.len() + 1,
    ensures
        pairs_at(front + tail, pos) == after(
            pairs_at(front + seq![0x65u8], pos)->Ok_0.0,
            pairs_at(front + tail, front.len() as int),
        ),
    decreases front.len() - pos,
{
    let a = front + seq![0x65u8];
    let b = front + tail;
    let n = front.len() as int;
    if pos == n {
        if let Ok((rest, end)) = pairs_at(b, n) {
            assert(Seq::<(Seq<u8>, BModel)>::empty() + rest =~= rest);
        }
    } else {
        assert(a[pos] == front[pos] && b[pos] == front[pos]);
        if a[pos] == LOWER_E {
            assert(false);
        }
        crate::bencode::lemma_string_end(a, pos);
        let (key, mid) = string_at(a, pos)->Ok_0;
        crate::bencode::lemma_value_end(a, mid);
        let (v, next) = value_at(a, mid)->Ok_0;
        crate::bencode::lemma_pairs_end(a, next);
        assert(next <= n);
        assert(a.take(n) =~= front && b.take(n) =~= front);
        lemma_string_prefix(a, pos, n);
        lemma_string_prefix(b, pos, n);
        lemma_value_prefix(a, mid, n);
        lemma_value_prefix(b, mid, n);
        lemma_pairs_go_on(front, tail, next);
        let others = pairs_at(a, next)->Ok_0.0;
        if let Ok((rest, end)) = pairs_at(b, n) {
            assert(seq![(key, v)] + (others + rest) =~= (seq![(key, v)] + others) + rest);
        }
    }
}

/// An empty dictionary holds nothing.
pub proof fn empty_dictionaries_hold_nothing(key: Seq<u8>)
    ensures
        decoded(seq![0x64u8, 0x65u8]) matches Ok(d) && d is Dict && d.get(key) is None,
        span_of(seq![0x64u8, 0x65u8], key) is None,
{
    let s = seq![0x64u8, 0x65u8];
    assert(pairs_at(s, 1) == Ok::<(Seq<(Seq<u8>, BModel)>, int), BError>((seq![], 2)));
    assert(value_at(s, 0) == Ok::<(BModel, int), BError>((BModel::Dict(collected(seq![])), 2)));
    pairs_are_put_in_one_by_one(seq![], key, BModel::Int(0), key);
}

/// What follows the pairs of a dictionary and is neither a key with its value nor
/// the `e` that ends the dictionary makes the dictionary fail for the same reason.
pub proof fn dictionaries_fail_where_a_pair_does(so_far: Seq<u8>, behind: Seq<u8>)
    requires
        decoded(seq![0x64u8] + so_far + seq![0x65u8]) is Ok,
        so_far.len() + behind.len() + 2 <= usize::MAX,
        behind.len() > 0,
        behind[0] != 0x65,
    ensures
        ({
            let s = seq![0x64u8] + so_far + behind;
            let at = 1 + so_far.len() as int;
            match string_at(s, at) {
                Err(e) => decoded(s) == Err::<BModel, BError>(e),
                Ok((_, mid)) => value_at(s, mid) matches Err(e) ==> decoded(s) == Err::<
                    BModel,
                    BError,
                >(e),
            }
        }),
{
    let front = seq![0x64u8] + so_far;
    let s = front + behind;
    let at = 1 + so_far.len() as int;
    assert(s[at] == behind[0]);
    lemma_pairs_go_on(front, behind, 1);
    crate::bencode::lemma_string_end(s, at);
}

/// Where a value stands in a dictionary: behind the pairs so far, one more key and
/// one more value move the span of that key to just the bytes of that value, and
/// leave all other spans where they were.
pub proof fn spans_follow_the_last_pair(
    so_far: Seq<u8>,
    key_part: Seq<u8>,
    key: Seq<u8>,
    part: Seq<u8>,
    other: Seq<u8>,
)
    requires
        decoded(seq![0x64u8] + so_far + seq![0x65u8]) is Ok,
        is_key(key_part, key),
        key_part[0] != 0x65,
        decoded(part) is Ok,
        so_far.len() + key_part.len() + part.len() + 2 <= usize::MAX,
    ensures
        span_of(seq![0x64u8] + (so_far + key_part + part) + seq![0x65u8], other) == if other
            == key {
            Some(
                (
                    1 + so_far.len() + key_part.len() as int,
                    1 + so_far.len() + key_part.len() + part.len() as int,
                ),
            )
        } else {
            span_of(seq![0x64u8] + so_far + seq![0x65u8], other)
        },
{
    let old = seq![0x64u8] + so_far + seq![0x65u8];
    let tail = key_part + part + seq![0x65u8];
    let new = seq![0x64u8] + (so_far + key_part + part) + seq![0x65u8];
    let at = 1 + so_far.len() as int;
    assert(new =~= (seq![0x64u8] + so_far) + tail);
    assert((seq![0x64u8] + so_far) + key_part + (part + seq![0x65u8]) =~= new);
    lemma_string_everywhere(seq![0x64u8] + so_far, key_part, part + seq![0x65u8]);
    crate::bencode::lemma_string_end(key_part, 0);
    assert((seq![0x64u8] + so_far + key_part) + part + seq![0x65u8] =~= new);
    values_are_the_same_everywhere(seq![0x64u8] + so_far + key_part, part, seq![0x65u8]);
    crate::bencode::lemma_value_end(part, 0);
    let mid = at + key_part.len();
    let end = mid + part.len();
    assert(new[at] == key_part[0]);
    assert(new[end] == LOWER_E);
    assert(span_from(new, end, other) is None);
    lemma_spans_go_on(seq![0x64u8] + so_far, tail, 1, other);
}

proof fn lemma_spans_go_on(front: Seq<u8>, tail: Seq<u8>, pos: int, key: Seq<u8>)
    requires
        0 <= pos <= front.len(),
        front.len() + tail.len() <= usize::MAX,
        front.len() < usize::MAX,
        pairs_at(front + seq![0x65u8], pos) matches Ok((_, end)) && end == front.len() + 1,
    ensures
        span_from(front + tail, pos, key) == match span_from(
            front + tail,
            front.len() as int,
            key,
        ) {
            Some(span) => Some(span),
            None => span_from(front + seq![0x65u8], pos, key),
        },
    decreases front.len() - pos,
{
    let a = front + seq![0x65u8];
    let b = front + tail;
    let n = front.len() as int;
    if pos == n {
        assert(a[n] == LOWER_E);
    } else {
        assert(a[pos] == front[pos] && b[pos] == front[pos]);
        crate::bencode::lemma_string_end(a, pos);
        let (k, mid) = string_at(a, pos)->Ok_0;
        crate::bencode::lemma_value_end(a, mid);
        let (v, next) = value_at(a, mid)->Ok_0;
        crate::bencode::lemma_pairs_end(a, next);
        assert(a.take(n) =~= front && b.take(n) =~= front);
        lemma_string_prefix(a, pos, n);
        lemma_string_prefix(b, pos, n);
        lemma_value_prefix(a, mid, n);
        lemma_value_prefix(b, mid, n);
        lemma_spans_go_on(front, tail, next, key);
    }
}

/// A value stands for what it is: an integer for its number, a byte string for
/// its bytes, a list for what its items stand for, in order, and a dictionary for
/// its entries.
pub proof fn values_stand_for_what_they_are(v: BValue)
    ensures
        match v {
            BValue::Int(n) => v@ matches BModel::Int(m) && m == n,
            BValue::Bytes(b) => v@ matches BModel::Bytes(bytes) && bytes == b@,
            BValue::List(values) => v@ matches BModel::List(items) && items.len() == values@.len()
                && forall|i: int|
                0 <= i < values@.len() ==> items[i] == (#[trigger] values@[i])@,
            BValue::Dict(d) => v@ matches BModel::Dict(entries) && entries == d@,
        },
{
}

/// What a value answers when it is asked for something: only a dictionary holds
/// anything, and that what its entries say, and only a byte string in UTF-8 is
/// text.
pub proof fn what_values_answer(v: BModel, key: Seq<u8>)
    ensures
        v matches BModel::Dict(entries) ==> v.get(key) == lookup(entries, key),
        !(v is Dict) ==> v.get(key) is None,
        v matches BModel::Bytes(b) ==> (v.as_text() is Some <==> valid_utf8(b)),
        v matches BModel::Bytes(b) ==> (v.as_text() matches Some(text) ==> text == decode_utf8(b)),
        !(v is Bytes) ==> v.as_text() is None,
{
}

} // verus!
