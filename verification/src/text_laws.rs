//! What text for people to read looks like, character by character.

use crate::bencode::BError;
use crate::text::{char_debug, decimal_text, digit_char, hex_text};
use vstd::prelude::*;

verus! {

/// The characters for the digits, in order.
proof fn lemma_digit_chars(n: int)
    requires
        0 <= n < 16,
    ensures
        "0123456789abcdef"@.len() == 16,
        digit_char(n) == "0123456789abcdef"@[n],
{
    reveal_strlit("0123456789abcdef");
}

/// A number is shown with one character for each of its digits: those of a tenth
/// of it, and then its last one. Below ten it is just the character.
pub proof fn numbers_are_shown_digit_by_digit(n: nat, d: nat)
    requires
        d < 10,
    ensures
        decimal_text(d) == seq!["0123456789abcdef"@[d as int]],
        n > 0 ==> decimal_text(10 * n + d) == decimal_text(n).push(
            "0123456789abcdef"@[d as int],
        ),
{
    lemma_digit_chars(d as int);
    assert((10 * n + d) / 10 == n && (10 * n + d) % 10 == d);
}

/// Bytes are shown with two hexadecimal digits each, in order, the upper half of
/// a byte first.
pub proof fn bytes_are_shown_in_order(bytes: Seq<u8>)
    ensures
        hex_text(bytes).len() == 2 * bytes.len(),
        forall|i: int|
            0 <= i < bytes.len() ==> {
                &&& hex_text(bytes)[2 * i] == "0123456789abcdef"@[(#[trigger] bytes[i]) as int / 16]
                &&& hex_text(bytes)[2 * i + 1] == "0123456789abcdef"@[bytes[i] as int % 16]
            },
{
    assert forall|i: int| 0 <= i < bytes.len() implies {
        &&& hex_text(bytes)[2 * i] == "0123456789abcdef"@[(#[trigger] bytes[i]) as int / 16]
        &&& hex_text(bytes)[2 * i + 1] == "0123456789abcdef"@[bytes[i] as int % 16]
    } by {
        lemma_digit_chars(bytes[i] as int / 16);
        lemma_digit_chars(bytes[i] as int % 16);
        assert((2 * i) / 2 == i && (2 * i) % 2 == 0);
        assert((2 * i + 1) / 2 == i && (2 * i + 1) % 2 == 1);
    }
}

/// What the errors of decoding say to a user.
pub proof fn decoding_errors_say_what_is_wrong(e: BError)
    ensures
        match e {
            BError::UnexpectedEof => e.text() == "unexpected end of input"@,
            BError::InvalidInteger => e.text() == "invalid integer literal"@,
            BError::InvalidStringLength => e.text() == "invalid byte-string length prefix"@,
            BError::UnexpectedToken(b) => e.text() == "unexpected byte: "@ + char_debug(b as char),
            BError::TrailingData => e.text() == "trailing data after top-level value"@,
        },
{
}

} // verus!
