//! Random bytes from the operating system.

use vstd::prelude::*;

use crate::wipe::wipe_bytes;

verus! {

/// The source of random bytes is unavailable.
#[derive(Clone, Copy, Debug, PartialEq, Eq, Structural)]
pub struct EntropyUnavailable;

/// Calls `getrandom::getrandom` on an array.
///
/// Claims that filling an empty array succeeds, since the source is not asked
/// then. Of a longer array it claims nothing: the bytes are random, and the
/// source may be unavailable.
#[verifier::external_body]
fn fill_random<const N: usize>(dest: &mut [u8; N]) -> (r: Result<(), EntropyUnavailable>)
    ensures
        N == 0 ==> r is Ok,
{
    getrandom::getrandom(dest).map_err(|_| EntropyUnavailable)
}

/// Whether the source of random bytes has filled the array `bytes`, with this
/// outcome.
///
/// Only a call of the source shows this: what the array holds afterwards is
/// then what the source has handed out.
pub closed spec fn is_draw<const N: usize>(
    bytes: &mut [u8; N],
    outcome: Result<(), EntropyUnavailable>,
) -> bool {
    call_ensures(fill_random::<N>, (bytes,), outcome)
}

/// Asks a source of random bytes.
fn ask<const N: usize, F: FnOnce(&mut [u8; N]) -> Result<(), EntropyUnavailable>>(
    source: F,
    bytes: &mut [u8; N],
) -> (r: Result<(), EntropyUnavailable>)
    requires
        forall|b: &mut [u8; N]| call_requires(source, (b,)),
    ensures
        exists|b: &mut [u8; N]| #[trigger]
            call_ensures(source, (b,), r) && *b == *old(bytes) && *final(b) == *final(bytes),
{
    source(bytes)
}

/// A draw of no bytes does not fail.
pub proof fn law_empty_draw(bytes: &mut [u8; 0], outcome: Result<(), EntropyUnavailable>)
    requires
        is_draw(bytes, outcome),
    ensures
        outcome is Ok,
{
}

/// Keeps the bytes that were drawn, or clears the array where drawing them
/// failed.
fn keep_drawn<const N: usize>(
    outcome: Result<(), EntropyUnavailable>,
    bytes: &mut [u8; N],
) -> (r: Result<(), EntropyUnavailable>)
    ensures
        match outcome {
            Ok(()) => r is Ok && final(bytes)@ == old(bytes)@,
            Err(e) => r == Err::<(), EntropyUnavailable>(e) && forall|i: int|
                0 <= i < N ==> #[trigger] final(bytes)@[i] == 0,
        },
{
    match outcome {
        Ok(()) => Ok(()),
        Err(e) => {
            wipe_bytes(bytes);
            Err(e)
        },
    }
}

/// Fills an array with random bytes, or clears it and fails where the source of
/// random bytes does; the source is not asked for no bytes.
pub(crate) fn random_bytes<const N: usize>(bytes: &mut [u8; N]) -> (r: Result<
    (),
    EntropyUnavailable,
>)
    ensures
        N == 0 ==> r is Ok,
        r is Err ==> forall|i: int| 0 <= i < N ==> #[trigger] final(bytes)@[i] == 0,
        exists|b: &mut [u8; N], outcome: Result<(), EntropyUnavailable>| #[trigger]
            is_draw(b, outcome) && match outcome {
                Ok(()) => r is Ok && final(bytes)@ == final(b)@,
                Err(e) => r == Err::<(), EntropyUnavailable>(e),
            },
{
    let outcome: Result<(), EntropyUnavailable> = ask(fill_random::<N>, bytes);
    let ghost drawn = bytes@;
    let r: Result<(), EntropyUnavailable> = keep_drawn(outcome, bytes);
    proof {
        let b = choose|b: &mut [u8; N]| #[trigger]
            call_ensures(fill_random::<N>, (b,), outcome) && final(b)@ == drawn;
        assert(is_draw(b, outcome));
    }
    r
}

} // verus!
