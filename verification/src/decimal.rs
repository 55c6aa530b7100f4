//! Decimal literals: reading them from bytes and writing them out.
//!
//! The accepted literals are those of Rust's own integer parsing: an optional
//! sign followed by one or more ASCII digits. A plus sign is always allowed, a
//! minus sign only where the target type is signed, and leading zeros are
//! harmless.

use crate::ascii::{MINUS, NINE, PLUS, ZERO};
use vstd::prelude::*;

verus! {

/// Whether `b` is one of the ASCII characters `0` to `9`.
pub open spec fn is_digit(b: u8) -> bool {
    ZERO <= b <= NINE
}

/// Whether `s` is a non-empty run of ASCII digits.
pub open spec fn is_number(s: Seq<u8>) -> bool {
    s.len() > 0 && forall|i: int| 0 <= i < s.len() ==> is_digit(#[trigger] s[i])
}

/// The number that a run of ASCII digits stands for, most significant digit
/// first.
pub open spec fn digits_value(s: Seq<u8>) -> int
    decreases s.len(),
{
    if s.len() == 0 {
        0
    } else {
        digits_value(s.drop_last()) * 10 + (s.last() - ZERO)
    }
}

/// The value of an unsigned literal: digits with an optional leading `+`.
pub open spec fn unsigned_literal(s: Seq<u8>) -> Option<int> {
    if is_number(s) {
        Some(digits_value(s))
    } else if s.len() > 0 && s[0] == PLUS && is_number(s.skip(1)) {
        Some(digits_value(s.skip(1)))
    } else {
        None
    }
}

/// The value of a signed literal: digits with an optional leading `+` or `-`.
pub open spec fn signed_literal(s: Seq<u8>) -> Option<int> {
    if s.len() > 0 && s[0] == MINUS && is_number(s.skip(1)) {
        Some(-digits_value(s.skip(1)))
    } else {
        unsigned_literal(s)
    }
}

/// The shortest run of ASCII digits that stands for `n`.
pub open spec fn digits(n: nat) -> Seq<u8>
    decreases n,
{
    if n < 10 {
        seq![(ZERO + n) as u8]
    } else {
        digits(n / 10).push((ZERO + n % 10) as u8)
    }
}

/// The shortest signed literal that stands for `n`.
pub open spec fn signed_digits(n: int) -> Seq<u8> {
    if n < 0 {
        seq![MINUS] + digits((-n) as nat)
    } else {
        digits(n as nat)
    }
}

/// Writing a number and reading it back gives the number again.
pub proof fn digits_read_back(n: nat)
    ensures
        is_number(digits(n)),
        digits_value(digits(n)) == n,
    decreases n,
{
    if n < 10 {
        let s = digits(n);
        assert(s.drop_last() =~= Seq::<u8>::empty());
        assert(digits_value(s.drop_last()) == 0);
    } else {
        digits_read_back(n / 10);
        let s = digits(n);
        assert(s.drop_last() =~= digits(n / 10));
    }
}

/// Writing a signed number and reading it back gives the number again.
pub proof fn signed_digits_read_back(n: int)
    ensures
        signed_literal(signed_digits(n)) == Some(n),
        forall|i: int|
            0 <= i < signed_digits(n).len() ==> is_digit(#[trigger] signed_digits(n)[i])
                || signed_digits(n)[i] == MINUS,
{
    if n < 0 {
        digits_read_back((-n) as nat);
        assert(signed_digits(n).skip(1) =~= digits((-n) as nat));
    } else {
        digits_read_back(n as nat);
        assert(is_digit(signed_digits(n)[0]));
    }
}

/// No run of digits is shorter than the one that [`digits`] gives for its
/// value.
pub proof fn digits_are_shortest(s: Seq<u8>)
    requires
        is_number(s),
    ensures
        digits_value(s) >= 0,
        digits(digits_value(s) as nat).len() <= s.len(),
    decreases s.len(),
{
    let front = s.drop_last();
    assert(is_digit(s.last()));
    if front.len() == 0 {
        assert(digits_value(front) == 0);
    } else {
        assert(is_number(front)) by {
            assert forall|i: int| 0 <= i < front.len() implies is_digit(#[trigger] front[i]) by {
                assert(front[i] == s[i]);
            }
        }
        digits_are_shortest(front);
        assert(digits_value(s) / 10 == digits_value(front));
    }
}

/// A run of digits stands for a number that is not negative, and no prefix of
/// it stands for a larger one.
proof fn lemma_digits_value_grows(s: Seq<u8>, k: int)
    requires
        0 <= k <= s.len(),
        forall|i: int| 0 <= i < s.len() ==> is_digit(#[trigger] s[i]),
    ensures
        0 <= digits_value(s.take(k)) <= digits_value(s),
    decreases s.len(),
{
    if k == s.len() {
        assert(s.take(k) =~= s);
        if s.len() > 0 {
            lemma_digits_value_grows(s.drop_last(), s.len() - 1);
            assert(s.drop_last().take(s.len() - 1) =~= s.drop_last());
        }
    } else {
        lemma_digits_value_grows(s.drop_last(), k);
        assert(s.drop_last().take(k) =~= s.take(k));
    }
}

/// An unsigned literal stands for a number that is not negative.
pub(crate) proof fn lemma_unsigned_literal_nonnegative(s: Seq<u8>)
    ensures
        unsigned_literal(s) matches Some(v) ==> v >= 0,
{
    if is_number(s) {
        lemma_digits_value_grows(s, 0);
    } else if s.len() > 0 && is_number(s.skip(1)) {
        lemma_digits_value_grows(s.skip(1), 0);
    }
}

/// Reads `s[from..to]` as a run of digits whose value fits in a `u64`.
fn parse_number(s: &[u8], from: usize, to: usize) -> (r: Option<u64>)
    requires
        from <= to <= s@.len(),
    ensures
        r == (if is_number(s@.subrange(from as int, to as int)) && digits_value(
            s@.subrange(from as int, to as int),
        ) <= u64::MAX {
            Some(digits_value(s@.subrange(from as int, to as int)) as u64)
        } else {
            None
        }),
{
    let ghost run = s@.subrange(from as int, to as int);
    if from == to {
        return None;
    }
    let mut value: u64 = 0;
    let mut i: usize = from;
    assert(run.take(0) =~= Seq::<u8>::empty());
    while i < to
        invariant
            from <= i <= to <= s@.len(),
            run == s@.subrange(from as int, to as int),
            forall|j: int| 0 <= j < i - from ==> is_digit(#[trigger] run[j]),
            value == digits_value(run.take(i - from)),
        decreases to - i,
    {
        let b: u8 = s[i];
        assert(run[i - from] == b);
        if b < ZERO || b > NINE {
            return None;
        }
        let ghost next = run.take(i - from + 1);
        assert(next.drop_last() =~= run.take(i - from));
        assert(next.last() == b);
        let digit: u64 = (b - ZERO) as u64;
        if value > (u64::MAX - digit) / 10 {
            proof {
                if is_number(run) {
                    lemma_digits_value_grows(run, i - from + 1);
                }
            }
            return None;
        }
        value = value * 10 + digit;
        i += 1;
    }
    assert(run.take(i - from) =~= run);
    Some(value)
}

/// Reads `s[from..to]` as an unsigned literal that fits in a `usize`.
pub fn parse_usize(s: &[u8], from: usize, to: usize) -> (r: Option<usize>)
    requires
        from <= to <= s@.len(),
    ensures
        r == (match unsigned_literal(s@.subrange(from as int, to as int)) {
            Some(v) => if v <= usize::MAX {
                Some(v as usize)
            } else {
                None
            },
            None => None,
        }),
{
    let ghost lit = s@.subrange(from as int, to as int);
    let start: usize = if from < to && s[from] == PLUS {
        from + 1
    } else {
        from
    };
    proof {
        if start > from {
            assert(!is_digit(lit[0]));
            assert(lit.skip(1) =~= s@.subrange(start as int, to as int));
        }
        let run = s@.subrange(start as int, to as int);
        if is_number(run) {
            lemma_digits_value_grows(run, 0);
        }
    }
    match parse_number(s, start, to) {
        Some(v) => {
            if v > usize::MAX as u64 {
                None
            } else {
                Some(v as usize)
            }
        },
        None => None,
    }
}

/// Reads `s[from..to]` as a signed literal that fits in an `i64`.
pub fn parse_i64(s: &[u8], from: usize, to: usize) -> (r: Option<i64>)
    requires
        from <= to <= s@.len(),
    ensures
        r == (match signed_literal(s@.subrange(from as int, to as int)) {
            Some(v) => if i64::MIN <= v <= i64::MAX {
                Some(v as i64)
            } else {
                None
            },
            None => None,
        }),
{
    let ghost lit = s@.subrange(from as int, to as int);
    let negative: bool = from < to && s[from] == MINUS;
    let start: usize = if from < to && (s[from] == PLUS || s[from] == MINUS) {
        from + 1
    } else {
        from
    };
    proof {
        if start > from {
            assert(!is_digit(lit[0]));
            assert(lit.skip(1) =~= s@.subrange(start as int, to as int));
        }
        let run = s@.subrange(start as int, to as int);
        if is_number(run) {
            lemma_digits_value_grows(run, 0);
        }
    }
    match parse_number(s, start, to) {
        Some(v) => {
            if negative {
                if v > 0x8000_0000_0000_0000 {
                    None
                } else if v == 0x8000_0000_0000_0000 {
                    Some(i64::MIN)
                } else {
                    Some(-(v as i64))
                }
            } else if v > 0x7fff_ffff_ffff_ffff {
                None
            } else {
                Some(v as i64)
            }
        },
        None => None,
    }
}

/// Appends the digits of `n` to `out`.
pub fn push_u64(out: &mut Vec<u8>, n: u64)
    ensures
        final(out)@ == old(out)@ + digits(n as nat),
    decreases n,
{
    if n >= 10 {
        push_u64(out, n / 10);
    }
    let digit: u8 = (n % 10) as u8;
    out.push(ZERO + digit);
    assert(out@ =~= old(out)@ + digits(n as nat));
}

/// Appends the signed literal of `n` to `out`.
pub fn push_i64(out: &mut Vec<u8>, n: i64)
    ensures
        final(out)@ == old(out)@ + signed_digits(n as int),
{
    if n < 0 {
        out.push(MINUS);
        let magnitude: u64 = (-(n + 1)) as u64 + 1;
        push_u64(out, magnitude);
        assert(out@ =~= old(out)@ + signed_digits(n as int));
    } else {
        push_u64(out, n as u64);
    }
}

} // verus!
