//! What holds of the bytes and the states of a generator.

use vstd::arithmetic::div_mod::lemma_mod_bound;
use vstd::arithmetic::power::pow;
use vstd::prelude::*;

use super::big_endian::{
    be_encode, be_value, law_be_decode, law_be_encode, law_be_injective, law_be_push, law_radix,
    lemma_be_range, radix,
};
use super::{
    advanced, hash_df_spec, hashgen_spec, next_state, one_shot, portable_sha3_256,
    portable_sha3_384, portable_sha3_512, DrbgHash, Sha3_256Hash, Sha3_384Hash, Sha3_512Hash,
};

verus! {

/// The generators are built on the hash functions that they are named for.
pub proof fn law_hash_functions(data: Seq<u8>)
    ensures
        Sha3_256Hash::OUTLEN == 32,
        Sha3_384Hash::OUTLEN == 48,
        Sha3_512Hash::OUTLEN == 64,
        Sha3_256Hash::digest(data) == portable_sha3_256(data),
        Sha3_384Hash::digest(data) == portable_sha3_384(data),
        Sha3_512Hash::digest(data) == portable_sha3_512(data),
{
}

/// A list whose integer is that of a state and an amount, modulo `256` to its
/// length, is the state advanced by the amount.
pub proof fn law_advanced(v: Seq<u8>, amount: int)
    ensures
        advanced(v, amount).len() == v.len(),
        be_value(advanced(v, amount)) == (be_value(v) + amount) % pow(256, v.len()),
{
    law_radix(v.len());
    lemma_be_range(v);
    lemma_mod_bound(be_value(v) + amount, radix(v.len()));
    law_be_decode((be_value(v) + amount) % radix(v.len()), v.len());
}

/// Block `i` of the output holds the first bytes of the digest of the list
/// whose integer is that of the state and `i`.
pub proof fn law_output_block<H: DrbgHash>(v: Seq<u8>, n: nat, t: int, w: Seq<u8>)
    requires
        0 <= t < n,
        w.len() == v.len(),
        be_value(w) == (be_value(v) + t / (H::OUTLEN as int)) % pow(256, v.len()),
    ensures
        hashgen_spec::<H>(v, n).len() == n,
        hashgen_spec::<H>(v, n)[t] == H::digest(w)[t % (H::OUTLEN as int)],
{
    law_advanced(v, t / (H::OUTLEN as int));
    law_be_injective(w, advanced(v, t / (H::OUTLEN as int)));
}

/// What follows the first block of the output is the output of the next state
/// of the counter.
pub proof fn law_output_shift<H: DrbgHash>(v: Seq<u8>, n: nat, t: int, w: Seq<u8>)
    requires
        0 <= t,
        t + H::OUTLEN < n,
        w.len() == v.len(),
        be_value(w) == (be_value(v) + 1) % pow(256, v.len()),
    ensures
        hashgen_spec::<H>(v, n)[t + H::OUTLEN] == hashgen_spec::<H>(
            w,
            (n - H::OUTLEN) as nat,
        )[t],
{
    H::lemma_outlen();
    law_radix(v.len());
    lemma_be_range(v);
    let m = H::OUTLEN as int;
    let i = t / m;
    vstd::arithmetic::div_mod::lemma_mod_add_multiples_vanish(t, m);
    vstd::arithmetic::div_mod::lemma_div_plus_one(t, m);
    let q = pow(256, v.len());
    vstd::arithmetic::div_mod::lemma_add_mod_noop_right(i, be_value(v) + 1, q);
    let x = advanced(w, i);
    law_advanced(w, i);
    law_output_block::<H>(v, n, t + m, x);
    law_output_block::<H>(w, (n - H::OUTLEN) as nat, t, x);
}

/// Asking a state for fewer bytes yields the first of the bytes.
pub proof fn law_output_prefix<H: DrbgHash>(v: Seq<u8>, n: nat, m: nat)
    requires
        n <= m,
    ensures
        hashgen_spec::<H>(v, n) == hashgen_spec::<H>(v, m).take(n as int),
{
    assert(hashgen_spec::<H>(v, n) =~= hashgen_spec::<H>(v, m).take(n as int));
}

/// Block `i` of derived bytes holds the first bytes of the digest of one byte
/// for `i + 1`, four bytes for the number of bits to derive, and the input.
pub proof fn law_derived<H: DrbgHash>(input: Seq<u8>, n: nat, t: int)
    requires
        0 <= t < n <= 0x1fff_ffff,
    ensures
        hash_df_spec::<H>(input, n).len() == n,
        hash_df_spec::<H>(input, n)[t] == H::digest(
            seq![
                ((t / (H::OUTLEN as int) + 1) % 256) as u8,
                ((8 * n) / 0x100_0000) as u8,
                ((8 * n) / 0x1_0000 % 256) as u8,
                ((8 * n) / 0x100 % 256) as u8,
                ((8 * n) % 256) as u8,
            ] + input,
        )[t % (H::OUTLEN as int)],
{
    let bits = 8 * n;
    let b0 = ((8 * n) / 0x100_0000) as u8;
    let b1 = ((8 * n) / 0x1_0000 % 256) as u8;
    let b2 = ((8 * n) / 0x100 % 256) as u8;
    let b3 = ((8 * n) % 256) as u8;
    let e = Seq::<u8>::empty();
    law_be_push(e, b0);
    law_be_push(e.push(b0), b1);
    law_be_push(e.push(b0).push(b1), b2);
    law_be_push(e.push(b0).push(b1).push(b2), b3);
    let s = e.push(b0).push(b1).push(b2).push(b3);
    assert(be_value(s) == bits);
    law_be_encode(s);
    assert(be_encode(8 * n as int, 4) == s);
    let first = ((t / (H::OUTLEN as int) + 1) % 256) as u8;
    assert(seq![first] + s + input =~= seq![first, b0, b1, b2, b3] + input);
}

/// A call moves the state on by the digest of the byte `0x03` and the state, by
/// the constant, and by the number of the call.
pub proof fn law_next_state<H: DrbgHash>(v: Seq<u8>, c: Seq<u8>, counter: int)
    ensures
        next_state::<H>(v, c, counter).len() == v.len(),
        be_value(next_state::<H>(v, c, counter)) == (be_value(v) + be_value(
            H::digest(seq![0x03u8] + v),
        ) + be_value(c) + counter) % pow(256, v.len()),
{
    law_advanced(v, be_value(H::digest(seq![0x03u8] + v)) + be_value(c) + counter);
}

/// A generator that is made from entropy and asked once yields digests of the
/// state that is derived from the entropy, and of its successors.
pub proof fn law_one_shot<H: DrbgHash>(
    entropy: Seq<u8>,
    seedlen: nat,
    n: nat,
    t: int,
    w: Seq<u8>,
)
    requires
        0 <= t < n,
        w.len() == seedlen,
        be_value(w) == (be_value(hash_df_spec::<H>(entropy, seedlen)) + t / (H::OUTLEN as int))
            % pow(256, seedlen),
    ensures
        one_shot::<H>(entropy, seedlen, n).len() == n,
        one_shot::<H>(entropy, seedlen, n)[t] == H::digest(w)[t % (H::OUTLEN as int)],
{
    law_output_block::<H>(hash_df_spec::<H>(entropy, seedlen), n, t, w);
}

} // verus!
