//! Numbers and other short runs of bytes, as they travel over the wire.

use vstd::prelude::*;

verus! {

/// The four bytes of `n`, most significant first.
pub open spec fn be_bytes(n: u32) -> Seq<u8> {
    seq![
        (n as int / 0x100_0000) as u8,
        (n as int / 0x1_0000 % 0x100) as u8,
        (n as int / 0x100 % 0x100) as u8,
        (n as int % 0x100) as u8,
    ]
}

/// The number whose four bytes stand in `s` from `at` on, most significant
/// first.
pub open spec fn be_number(s: Seq<u8>, at: int) -> int {
    s[at] * 0x100_0000 + s[at + 1] * 0x1_0000 + s[at + 2] * 0x100 + s[at + 3]
}

/// Writing a number and reading it back gives the number again.
pub proof fn be_bytes_read_back(n: u32)
    ensures
        be_number(be_bytes(n), 0) == n,
{
}

/// Appends the four bytes of `n` to `out`.
pub fn push_be(out: &mut Vec<u8>, n: u32)
    ensures
        final(out)@ == old(out)@ + be_bytes(n),
{
    out.push((n / 0x100_0000) as u8);
    out.push((n / 0x1_0000 % 0x100) as u8);
    out.push((n / 0x100 % 0x100) as u8);
    out.push((n % 0x100) as u8);
    assert(out@ =~= old(out)@ + be_bytes(n));
}

/// Reads the number whose four bytes stand in `s` from `at` on.
pub fn read_be(s: &[u8], at: usize) -> (r: u32)
    requires
        at + 4 <= s@.len(),
    ensures
        r == be_number(s@, at as int),
{
    assert(at + 4 <= s.len());
    let high: u32 = s[at] as u32 * 0x100 + s[at + 1] as u32;
    let low: u32 = s[at + 2] as u32 * 0x100 + s[at + 3] as u32;
    high * 0x1_0000 + low
}

/// The twenty bytes of `s` from `at` on.
pub fn twenty_bytes(s: &[u8], at: usize) -> (r: [u8; 20])
    requires
        at + 20 <= s@.len(),
    ensures
        r@ == s@.subrange(at as int, at + 20),
{
    let mut out: [u8; 20] = [0u8;20];
    let mut i: usize = 0;
    while i < 20
        invariant
            i <= 20,
            at + 20 <= s.len(),
            forall|j: int| 0 <= j < i ==> out@[j] == s@[at + j],
        decreases 20 - i,
    {
        out[i] = s[at + i];
        i += 1;
    }
    assert(out@ =~= s@.subrange(at as int, at + 20));
    out
}

/// The four bytes of a number, most significant first, are its digits to the base
/// 256, and a number is read as what such digits stand for.
pub proof fn be_bytes_are_digits(n: u32, s: Seq<u8>, at: int)
    ensures
        be_bytes(n).len() == 4,
        be_bytes(n)[0] * 0x100_0000 + be_bytes(n)[1] * 0x1_0000 + be_bytes(n)[2] * 0x100
            + be_bytes(n)[3] == n,
        be_number(s, at) == s[at] * 0x100_0000 + s[at + 1] * 0x1_0000 + s[at + 2] * 0x100 + s[at
            + 3],
{
}

} // verus!
