//! What holds of sampled elements, by the bytes that they are drawn from.

use vstd::prelude::*;

use super::{
    accepted, high_candidate, keep, low_candidate, sample_ntt_spec, xof_prefix, BLOCK_LIMIT,
};
use crate::algebraic::transform::is_poly;
use crate::functions::shake128_byte;

verus! {

/// Candidate `p` of a list of bytes: every three bytes hold two of twelve bits.
pub open spec fn candidate(bytes: Seq<u8>, p: int) -> int {
    let t = 3 * (p / 2);
    if p % 2 == 0 {
        bytes[t] + 256 * (bytes[t + 1] % 16)
    } else {
        bytes[t + 1] / 16 + 16 * bytes[t + 2]
    }
}

/// How many of the first `p` candidates are below `q`.
pub open spec fn rank(bytes: Seq<u8>, p: nat) -> nat
    decreases p,
{
    if p == 0 {
        0
    } else {
        rank(bytes, (p - 1) as nat) + if candidate(bytes, p - 1) < 3329 {
            1nat
        } else {
            0nat
        }
    }
}

/// The candidates below `q` are accepted, in order: the one that `r` such
/// candidates precede has the place `r`, and there are no others.
pub proof fn law_accepted(bytes: Seq<u8>, triples: nat, p: nat)
    requires
        p < 2 * triples,
    ensures
        accepted(bytes, triples).len() == rank(bytes, 2 * triples),
        candidate(bytes, p as int) < 3329 ==> rank(bytes, p) < rank(bytes, 2 * triples) && accepted(
            bytes,
            triples,
        )[rank(bytes, p) as int] == candidate(bytes, p as int),
    decreases triples,
{
    let t = (triples - 1) as nat;
    let (low, high) = (2 * t, (2 * t + 1) as nat);
    assert((low as int) / 2 == t && (low as int) % 2 == 0);
    assert((high as int) / 2 == t && (high as int) % 2 == 1);
    assert(low_candidate(bytes, t as int) == candidate(bytes, low as int));
    assert(high_candidate(bytes, t as int) == candidate(bytes, high as int));
    assert(rank(bytes, high) == rank(bytes, low) + keep(candidate(bytes, low as int)).len());
    assert(rank(bytes, 2 * triples) == rank(bytes, high) + keep(
        candidate(bytes, high as int),
    ).len());
    if t > 0 {
        if p < 2 * t {
            law_accepted(bytes, t, p);
        } else {
            law_accepted(bytes, t, 0);
        }
    } else {
        assert(accepted(bytes, 0).len() == 0);
        assert(rank(bytes, 0) == 0);
    }
}

/// Every accepted candidate is below `q`.
proof fn lemma_accepted_range(bytes: Seq<u8>, triples: nat)
    ensures
        forall|i: int|
            0 <= i < accepted(bytes, triples).len() ==> 0 <= #[trigger] accepted(bytes, triples)[i]
                < 3329,
    decreases triples,
{
    if triples > 0 {
        let t = (triples - 1) as nat;
        lemma_accepted_range(bytes, t);
        let (low, high) = (low_candidate(bytes, t as int), high_candidate(bytes, t as int));
        assert(0 <= low && 0 <= high);
        let (before, all) = (accepted(bytes, t), accepted(bytes, triples));
        assert forall|i: int| 0 <= i < all.len() implies 0 <= #[trigger] all[i] < 3329 by {
            if i < before.len() {
                assert(all[i] == before[i]);
            }
        }
    }
}

/// Rejection sampling draws 256 values below `q`.
pub proof fn law_sample_range(input: Seq<u8>)
    ensures
        is_poly(sample_ntt_spec(input)),
{
    lemma_accepted_range(
        xof_prefix(input, 168 * BLOCK_LIMIT as nat),
        56 * BLOCK_LIMIT as nat,
    );
}

/// Rejection sampling takes the candidates of a stream that are below `q`, in
/// order: the one that `r` such candidates precede is coefficient `r`.
pub proof fn law_sample_ntt(input: Seq<u8>, bytes: Seq<u8>, p: nat)
    requires
        bytes.len() == 168 * 0xffff_ffff_ffff_ffff,
        forall|n: int| 0 <= n < bytes.len() ==> #[trigger] bytes[n] == shake128_byte(input, n),
        p < 112 * 0xffff_ffff_ffff_ffff,
        candidate(bytes, p as int) < 3329,
        rank(bytes, p) < 256,
    ensures
        sample_ntt_spec(input).len() == 256,
        sample_ntt_spec(input)[rank(bytes, p) as int] == candidate(bytes, p as int),
{
    let blocks: nat = 0xffff_ffff_ffff_ffff;
    assert(bytes =~= xof_prefix(input, 168 * blocks));
    law_accepted(bytes, 56 * blocks, p);
}

} // verus!
