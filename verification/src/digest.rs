//! SHA-1 digests.

use sha1::Digest;
use vstd::prelude::*;

verus! {

/// SHA-1 is defined for inputs of fewer than this many bytes: the length in
/// bits has to fit in 64 bits.
pub const HASH_INPUT_LIMIT: u64 = 0x2000_0000_0000_0000;

/// The SHA-1 digest of `data`. See [`sha1_digest`].
pub uninterp spec fn sha1_of(data: Seq<u8>) -> [u8; 20];

/// Calls `sha1::Sha1::digest`. The digest depends on the bytes alone and is
/// named [`sha1_of`]; nothing else is claimed of it.
#[verifier::external_body]
pub(crate) fn sha1_digest(data: &[u8]) -> (r: [u8; 20])
    requires
        data@.len() < HASH_INPUT_LIMIT,
    ensures
        r == sha1_of(data@),
{
    sha1::Sha1::digest(data).into()
}

/// Whether two digests are the same bytes.
pub fn same_digest(a: &[u8; 20], b: &[u8; 20]) -> (r: bool)
    ensures
        r == (*a == *b),
{
    let mut i: usize = 0;
    while i < 20
        invariant
            i <= 20,
            forall|j: int| 0 <= j < i ==> a[j] == b[j],
        decreases 20 - i,
    {
        if a[i] != b[i] {
            return false;
        }
        i += 1;
    }
    assert(*a =~= *b);
    true
}

} // verus!
