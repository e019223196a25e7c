//! Clearing of secret intermediate values.

use vstd::prelude::*;
use zeroize::Zeroize;

verus! {

/// Calls `zeroize::Zeroize::zeroize` on an array of bytes.
///
/// Claims that every byte is zero afterwards, and that the call does not
/// unwind. That the compiler does not elide the writes is what the call is made
/// for, and is not expressed here.
#[verifier::external_body]
pub(crate) fn wipe_bytes<const N: usize>(bytes: &mut [u8; N])
    ensures
        forall|i: int| 0 <= i < N ==> #[trigger] final(bytes)@[i] == 0,
    opens_invariants none
    no_unwind
{
    bytes.zeroize();
}

/// Calls `zeroize::Zeroize::zeroize` on a 16-bit integer.
///
/// Claims that the integer is zero afterwards, and that the call does not
/// unwind. That the compiler does not elide the write is what the call is made
/// for, and is not expressed here.
#[verifier::external_body]
pub(crate) fn wipe_word(word: &mut i16)
    ensures
        *final(word) == 0,
    opens_invariants none
    no_unwind
{
    word.zeroize();
}

/// Calls `zeroize::Zeroize::zeroize` on a 64-bit integer.
///
/// Claims that the integer is zero afterwards, and that the call does not
/// unwind. That the compiler does not elide the write is what the call is made
/// for, and is not expressed here.
#[verifier::external_body]
pub(crate) fn wipe_counter(counter: &mut u64)
    ensures
        *final(counter) == 0,
    opens_invariants none
    no_unwind
{
    counter.zeroize();
}

} // verus!
