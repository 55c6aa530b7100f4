//! What decimal literals are, character by character: which are accepted, what
//! they stand for, and how numbers are written.

use crate::decimal::{
    digits, digits_value, is_number, signed_digits, signed_literal, unsigned_literal,
};
use vstd::prelude::*;

verus! {

/// The characters `0` to `9` are literals, and no other single character is one.
pub proof fn one_character_literals(b: u8)
    ensures
        unsigned_literal(seq![b]) == if 0x30 <= b <= 0x39 {
            Some(b - 0x30)
        } else {
            None::<int>
        },
        unsigned_literal(Seq::empty()) is None,
        unsigned_literal(seq![0x2bu8, b]) == unsigned_literal(seq![b]),
{
    let s = seq![b];
    assert(s.drop_last() =~= Seq::empty());
    assert(digits_value(s.drop_last()) == 0);
    assert(!is_number(s.skip(1)));
    if 0x30 <= b <= 0x39 {
        assert(is_number(s));
    } else {
        assert(!is_number(s)) by {
            assert(s[0] == b);
        }
    }
    let plus = seq![0x2bu8, b];
    assert(plus.skip(1) =~= s);
    assert(!is_number(plus)) by {
        assert(plus[0] == 0x2b);
    }
}

/// A literal stays one with a digit more, and stands for ten times as much and
/// that digit. With any other character it is none, and nothing but a lone `+`
/// becomes a literal by a digit more.
pub proof fn literals_grow_by_digits(s: Seq<u8>, b: u8)
    requires
        s.len() > 0,
    ensures
        !(0x30 <= b <= 0x39) ==> unsigned_literal(s.push(b)) is None,
        0x30 <= b <= 0x39 ==> match unsigned_literal(s) {
            Some(v) => unsigned_literal(s.push(b)) == Some(10 * v + (b - 0x30)),
            None => s != seq![0x2bu8] ==> unsigned_literal(s.push(b)) is None,
        },
{
    let t = s.push(b);
    assert(t.drop_last() =~= s);
    assert(t.last() == b);
    assert(t[s.len() as int] == b);
    assert(t[0] == s[0]);
    assert(is_number(t) ==> is_number(s)) by {
        assert(forall|i: int| 0 <= i < s.len() ==> #[trigger] s[i] == t[i]);
    }
    assert(t.skip(1) =~= s.skip(1).push(b));
    let u = s.skip(1);
    assert(u.push(b).drop_last() =~= u);
    assert(u.push(b)[u.len() as int] == b);
    assert(is_number(u.push(b)) && u.len() > 0 ==> is_number(u)) by {
        assert(forall|i: int| 0 <= i < u.len() ==> #[trigger] u[i] == u.push(b)[i]);
    }
    if u.len() == 0 && s[0] == 0x2b {
        assert(s =~= seq![0x2bu8]);
    }
    if is_number(s) && 0x30 <= b <= 0x39 {
        assert(is_number(t));
    }
    if is_number(u) && 0x30 <= b <= 0x39 {
        assert(is_number(u.push(b)));
    }
}

/// A signed literal may start with `-`, behind which digits follow at once, and
/// stands for what it stands for without, negated. Any other is as an unsigned
/// one.
pub proof fn signs_of_literals(s: Seq<u8>)
    ensures
        s.len() == 0 || s[0] != 0x2d ==> signed_literal(s) == unsigned_literal(s),
        s.len() > 0 && s[0] == 0x2d ==> signed_literal(s) == (match unsigned_literal(s.skip(1)) {
            Some(v) => if s[1] == 0x2b {
                None
            } else {
                Some(-v)
            },
            None => None,
        }),
{
    if s.len() > 0 && s[0] == 0x2d {
        assert(!is_number(s)) by {
            assert(s[0] == 0x2d);
        }
        let t = s.skip(1);
        if t.len() > 0 {
            assert(t[0] == s[1]);
            if is_number(t) {
                assert(t[0] != 0x2b);
            }
        }
    }
}

/// A number is written with one character for each of its digits: those of a
/// tenth of it, and then its last one. Below ten it is just the character.
pub proof fn numbers_are_written_digit_by_digit(n: nat, d: nat)
    requires
        d < 10,
    ensures
        digits(d) == seq![(0x30 + d) as u8],
        n > 0 ==> digits(10 * n + d) == digits(n).push((0x30 + d) as u8),
{
    assert((10 * n + d) / 10 == n && (10 * n + d) % 10 == d);
}

/// A number below zero is written as `-` and the number without its sign.
pub proof fn negative_numbers_have_a_sign(n: nat)
    ensures
        signed_digits(n as int) == digits(n),
        n > 0 ==> signed_digits(-n) == seq![0x2du8] + digits(n),
{
}

} // verus!
