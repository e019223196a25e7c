//! A deterministic random bit generator over a hash function, for one use:
//! made from entropy, and asked for bytes.

pub mod big_endian;
pub mod laws;

use core::marker::PhantomData;

use libcrux_sha3::portable;
use vstd::arithmetic::div_mod::lemma_fundamental_div_mod_converse;
use vstd::prelude::*;
use vstd::slice::slice_subrange;

use self::big_endian::{
    add_be_slice, add_be_u8, be_bytes, be_encode, be_value, law_be_encode, le_u32, le_u64,
    lemma_be_range, radix,
};
use crate::entropy::{is_draw, random_bytes, EntropyUnavailable};
use crate::wipe::{wipe_bytes, wipe_counter};

verus! {

/// What `libcrux_sha3::portable::sha256` writes for the given data into 32
/// bytes.
pub uninterp spec fn portable_sha3_256(data: Seq<u8>) -> Seq<u8>;

/// What `libcrux_sha3::portable::sha384` writes for the given data into 48
/// bytes.
pub uninterp spec fn portable_sha3_384(data: Seq<u8>) -> Seq<u8>;

/// What `libcrux_sha3::portable::sha512` writes for the given data into 64
/// bytes.
pub uninterp spec fn portable_sha3_512(data: Seq<u8>) -> Seq<u8>;

/// Calls `libcrux_sha3::portable::sha256`.
///
/// Claims that the result depends on the data alone.
#[verifier::external_body]
fn digest_256(data: &[u8]) -> (r: [u8; 32])
    ensures
        r@ == portable_sha3_256(data@),
{
    let mut out = [0u8; 32];
    portable::sha256(&mut out, data);
    out
}

/// Calls `libcrux_sha3::portable::sha384`.
///
/// Claims that the result depends on the data alone.
#[verifier::external_body]
fn digest_384(data: &[u8]) -> (r: [u8; 48])
    ensures
        r@ == portable_sha3_384(data@),
{
    let mut out = [0u8; 48];
    portable::sha384(&mut out, data);
    out
}

/// Calls `libcrux_sha3::portable::sha512`.
///
/// Claims that the result depends on the data alone.
#[verifier::external_body]
fn digest_512(data: &[u8]) -> (r: [u8; 64])
    ensures
        r@ == portable_sha3_512(data@),
{
    let mut out = [0u8; 64];
    portable::sha512(&mut out, data);
    out
}

/// A hash function that a generator can be built on.
pub trait DrbgHash {
    /// The length of a digest in bytes.
    const OUTLEN: usize;

    /// The digest of a list of bytes.
    spec fn digest(data: Seq<u8>) -> Seq<u8>;

    /// The lengths that digests can have.
    proof fn lemma_outlen()
        ensures
            1 <= Self::OUTLEN <= 64,
    ;

    /// Writes the digest of a list of bytes.
    fn hash(out: &mut [u8], data: &[u8])
        requires
            old(out)@.len() == Self::OUTLEN,
        ensures
            final(out)@ == Self::digest(data@),
            final(out)@.len() == Self::OUTLEN,
    ;
}

/// Copies a digest of as many bytes as a list has into the list.
fn copy_digest(out: &mut [u8], digest: &[u8])
    requires
        old(out)@.len() == digest@.len(),
    ensures
        final(out)@ == digest@,
{
    let length: usize = out.len();
    let mut i: usize = 0;
    while i < length
        invariant
            i <= length,
            length == out@.len() == digest@.len(),
            forall|k: int| 0 <= k < i ==> #[trigger] out@[k] == digest@[k],
        decreases length - i,
    {
        out[i] = digest[i];
        i = i + 1;
    }
    proof {
        assert(out@ =~= digest@);
    }
}

/// The hash function with digests of 32 bytes.
pub struct Sha3_256Hash;

impl DrbgHash for Sha3_256Hash {
    const OUTLEN: usize = 32;

    open spec fn digest(data: Seq<u8>) -> Seq<u8> {
        portable_sha3_256(data)
    }

    proof fn lemma_outlen() {
    }

    fn hash(out: &mut [u8], data: &[u8]) {
        copy_digest(out, digest_256(data).as_slice());
    }
}

/// The hash function with digests of 48 bytes.
pub struct Sha3_384Hash;

impl DrbgHash for Sha3_384Hash {
    const OUTLEN: usize = 48;

    open spec fn digest(data: Seq<u8>) -> Seq<u8> {
        portable_sha3_384(data)
    }

    proof fn lemma_outlen() {
    }

    fn hash(out: &mut [u8], data: &[u8]) {
        copy_digest(out, digest_384(data).as_slice());
    }
}

/// The hash function with digests of 64 bytes.
pub struct Sha3_512Hash;

impl DrbgHash for Sha3_512Hash {
    const OUTLEN: usize = 64;

    open spec fn digest(data: Seq<u8>) -> Seq<u8> {
        portable_sha3_512(data)
    }

    proof fn lemma_outlen() {
    }

    fn hash(out: &mut [u8], data: &[u8]) {
        copy_digest(out, digest_512(data).as_slice());
    }
}

/// The first `n` lists of bytes, one after the other.
pub open spec fn joined(pieces: Seq<&[u8]>, n: nat) -> Seq<u8>
    decreases n,
{
    if n == 0 {
        Seq::empty()
    } else {
        joined(pieces, (n - 1) as nat) + pieces[n - 1]@
    }
}

/// What is hashed for block `i` of `n` derived bytes: the number of the block,
/// the number of bits to derive, and the input.
pub open spec fn derivation_input(input: Seq<u8>, n: nat, i: int) -> Seq<u8> {
    seq![((i + 1) % 256) as u8] + be_encode(8 * n as int, 4) + input
}

/// `n` bytes derived from an input.
pub open spec fn hash_df_spec<H: DrbgHash>(input: Seq<u8>, n: nat) -> Seq<u8> {
    Seq::new(
        n,
        |t: int|
            H::digest(derivation_input(input, n, t / (H::OUTLEN as int)))[t % (H::OUTLEN as int)],
    )
}

/// The state of a generator plus an integer, modulo `256` to its length.
pub open spec fn advanced(v: Seq<u8>, amount: int) -> Seq<u8> {
    be_encode((be_value(v) + amount) % radix(v.len()), v.len())
}

/// The `n` bytes that a state yields: the digests of the state and its
/// successors.
pub open spec fn hashgen_spec<H: DrbgHash>(v: Seq<u8>, n: nat) -> Seq<u8> {
    Seq::new(
        n,
        |t: int| H::digest(advanced(v, t / (H::OUTLEN as int)))[t % (H::OUTLEN as int)],
    )
}

/// The state after bytes have been generated.
pub open spec fn next_state<H: DrbgHash>(v: Seq<u8>, c: Seq<u8>, counter: int) -> Seq<u8> {
    advanced(v, be_value(H::digest(seq![0x03u8] + v)) + be_value(c) + counter)
}

/// A list is its own successor by nothing.
proof fn lemma_advanced(v: Seq<u8>, w: Seq<u8>, amount: int)
    requires
        v.len() == w.len(),
        be_value(w) == (be_value(v) + amount) % radix(v.len()),
    ensures
        w == advanced(v, amount),
{
    law_be_encode(w);
}

/// Writes one block of output at its place, as far as the output reaches.
fn put_block(out: &mut [u8], start: usize, take: usize, digest: &[u8])
    requires
        start + take <= old(out)@.len(),
        take <= digest@.len(),
    ensures
        final(out)@.len() == old(out)@.len(),
        forall|t: int|
            0 <= t < old(out)@.len() ==> #[trigger] final(out)@[t] == if start <= t < start
                + take {
                digest@[t - start]
            } else {
                old(out)@[t]
            },
{
    let ghost before = out@;
    let length: usize = out.len();
    let mut i: usize = 0;
    while i < take
        invariant
            i <= take,
            start + take <= length,
            take <= digest@.len(),
            start + take <= out@.len(),
            out@.len() == before.len(),
            forall|t: int|
                0 <= t < before.len() ==> #[trigger] out@[t] == if start <= t < start + i {
                    digest@[t - start]
                } else {
                    before[t]
                },
        decreases take - i,
    {
        out[start + i] = digest[i];
        i = i + 1;
    }
}

/// The place of a byte within its block.
proof fn lemma_block_place(t: int, i: int, outlen: int, start: int)
    requires
        0 < outlen,
        start == i * outlen,
        start <= t < start + outlen,
    ensures
        t / outlen == i,
        t % outlen == t - start,
{
    lemma_fundamental_div_mod_converse(t, outlen, i, t - start);
}

/// A generator over the hash function `H` with a state of `SEEDLEN` bytes.
pub struct HashDrbg<H, const SEEDLEN: usize> {
    v: [u8; SEEDLEN],
    c: [u8; SEEDLEN],
    reseed_counter: u64,
    hash: PhantomData<H>,
}

/// The generator of the lowest strength.
pub type HashDrbgSha3_256 = HashDrbg<Sha3_256Hash, 55>;

/// The generator of the middle strength.
pub type HashDrbgSha3_384 = HashDrbg<Sha3_384Hash, 111>;

/// The generator of the highest strength.
pub type HashDrbgSha3_512 = HashDrbg<Sha3_512Hash, 111>;

/// The room for what is hashed at once.
const HASH_INPUT_BUF: usize = 128;

/// The length of the longest digest.
const MAX_DIGEST: usize = 64;

impl<H, const SEEDLEN: usize> HashDrbg<H, SEEDLEN> {
    /// The state.
    pub closed spec fn v(&self) -> Seq<u8> {
        self.v@
    }

    /// The constant that is added to the state.
    pub closed spec fn c(&self) -> Seq<u8> {
        self.c@
    }

    /// How many times bytes have been asked for, and one more.
    pub closed spec fn counter(&self) -> int {
        self.reseed_counter as int
    }

    /// Overwrites the state with zeros.
    pub fn zeroize(&mut self)
        ensures
            forall|i: int| 0 <= i < SEEDLEN ==> #[trigger] final(self).v()[i] == 0,
            forall|i: int| 0 <= i < SEEDLEN ==> #[trigger] final(self).c()[i] == 0,
            final(self).counter() == 0,
        opens_invariants none
        no_unwind
    {
        wipe_bytes(&mut self.v);
        wipe_bytes(&mut self.c);
        wipe_counter(&mut self.reseed_counter);
    }
}

impl<H, const SEEDLEN: usize> Drop for HashDrbg<H, SEEDLEN> {
    /// Overwrites the state with zeros.
    fn drop(&mut self)
        ensures
            forall|i: int| 0 <= i < SEEDLEN ==> #[trigger] final(self).v()[i] == 0,
            forall|i: int| 0 <= i < SEEDLEN ==> #[trigger] final(self).c()[i] == 0,
            final(self).counter() == 0,
        opens_invariants none
        no_unwind
    {
        self.zeroize();
    }
}

impl<H: DrbgHash, const SEEDLEN: usize> HashDrbg<H, SEEDLEN> {
    /// Whether bytes have been asked for as often as they can be counted.
    pub fn is_exhausted(&self) -> (r: bool)
        ensures
            r == (self.counter() == u64::MAX),
    {
        self.reseed_counter == u64::MAX
    }

    /// Makes a generator from entropy.
    pub fn new(entropy_input: &[u8]) -> (r: Self)
        requires
            entropy_input@.len() <= 123,
            SEEDLEN <= 122,
        ensures
            r.v() == hash_df_spec::<H>(entropy_input@, SEEDLEN as nat),
            r.c() == hash_df_spec::<H>(seq![0x00u8] + r.v(), SEEDLEN as nat),
            r.counter() == 1,
    {
        let mut v: [u8; SEEDLEN] = [0u8; SEEDLEN];
        proof {
            reveal_with_fuel(joined, 3);
        }
        let pieces: [&[u8]; 1] = [entropy_input];
        assert(joined(pieces@, 1) =~= entropy_input@);
        Self::hash_df(pieces.as_slice(), &mut v);

        let mut c: [u8; SEEDLEN] = [0u8; SEEDLEN];
        let zero: [u8; 1] = [0x00];
        let pieces: [&[u8]; 2] = [zero.as_slice(), v.as_slice()];
        assert(joined(pieces@, 2) =~= seq![0x00u8] + v@);
        Self::hash_df(pieces.as_slice(), &mut c);

        HashDrbg { v, c, reseed_counter: 1, hash: PhantomData }
    }

    /// Derives bytes from lists of bytes, one after the other.
    fn hash_df(input_pieces: &[&[u8]], out: &mut [u8])
        requires
            joined(input_pieces@, input_pieces@.len()).len() <= 123,
            old(out)@.len() <= 0x0fff_ffff,
        ensures
            final(out)@ == hash_df_spec::<H>(
                joined(input_pieces@, input_pieces@.len()),
                old(out)@.len(),
            ),
    {
        proof {
            H::lemma_outlen();
        }
        let outlen: usize = H::OUTLEN;
        let length: usize = out.len();
        let ghost input = joined(input_pieces@, input_pieces@.len());
        let bits: [u8; 4] = be_bytes::<4>(8 * length as u64);
        proof {
            assert(radix(4) == 0x1_0000_0000) by {
                reveal_with_fuel(radix, 5);
            }
            assert(be_value(bits@) == 8 * length);
            law_be_encode(bits@);
        }

        let mut buf: [u8; HASH_INPUT_BUF] = [0u8; HASH_INPUT_BUF];
        let mut digest: [u8; MAX_DIGEST] = [0u8; MAX_DIGEST];
        put_block(&mut buf, 1, 4, bits.as_slice());
        let mut n: usize = 5;
        let mut p: usize = 0;
        while p < input_pieces.len()
            invariant
                p <= input_pieces@.len(),
                joined(input_pieces@, input_pieces@.len()).len() <= 123,
                n == 5 + joined(input_pieces@, p as nat).len(),
                forall|t: int| 0 <= t < 4 ==> buf@[1 + t] == #[trigger] bits@[t],
                forall|t: int|
                    5 <= t < n ==> #[trigger] buf@[t] == joined(input_pieces@, p as nat)[t - 5],
            decreases input_pieces@.len() - p,
        {
            let piece: &[u8] = input_pieces[p];
            let ghost before = buf@;
            proof {
                lemma_joined_length(input_pieces@, (p + 1) as nat, input_pieces@.len());
            }
            put_block(&mut buf, n, piece.len(), piece);
            n = n + piece.len();
            p = p + 1;
        }

        let mut counter: u8 = 1;
        let mut start: usize = 0;
        let ghost mut i: int = 0;
        while start < length
            invariant
                1 <= outlen <= 64,
                outlen == H::OUTLEN,
                length == out@.len(),
                start <= length,
                0 <= i,
                start == i * outlen || start == length,
                counter == (i + 1) % 256,
                n == 5 + input.len() <= 128,
                forall|t: int| 0 <= t < 4 ==> buf@[1 + t] == #[trigger] bits@[t],
                forall|t: int| 5 <= t < n ==> #[trigger] buf@[t] == input[t - 5],
                bits@ == be_encode(8 * (length as nat) as int, 4),
                forall|t: int|
                    0 <= t < start ==> #[trigger] out@[t] == hash_df_spec::<H>(
                        input,
                        length as nat,
                    )[t],
            decreases length - start,
        {
            buf[0] = counter;
            let hashed: &[u8] = slice_subrange(buf.as_slice(), 0, n);
            proof {
                assert(hashed@ =~= derivation_input(input, length as nat, i));
            }
            let space: &mut [u8] = &mut digest;
            let (block, _) = space.split_at_mut(outlen);
            H::hash(block, hashed);
            let ghost drawn = H::digest(derivation_input(input, length as nat, i));
            let take: usize = if length - start < outlen {
                length - start
            } else {
                outlen
            };
            let ghost done = out@;
            put_block(out, start, take, digest.as_slice());
            proof {
                assert forall|t: int| 0 <= t < start + take implies #[trigger] out@[t]
                    == hash_df_spec::<H>(input, length as nat)[t] by {
                    if t >= start {
                        lemma_block_place(t, i, outlen as int, start as int);
                        assert(digest@[t - start] == drawn[t - start]);
                    } else {
                        assert(out@[t] == done[t]);
                    }
                }
                assert((i + 1) * outlen == i * outlen + outlen) by (nonlinear_arith);
                i = i + 1;
            }
            start = start + take;
            counter = counter.wrapping_add(1);
        }
        proof {
            assert(out@ =~= hash_df_spec::<H>(input, length as nat));
        }
    }

    /// The bytes that the state yields.
    fn hashgen(&self, out: &mut [u8])
        ensures
            final(out)@ == hashgen_spec::<H>(self.v(), old(out)@.len()),
    {
        proof {
            H::lemma_outlen();
            lemma_be_range(self.v@);
            vstd::arithmetic::div_mod::lemma_small_mod(
                be_value(self.v@) as nat,
                radix(SEEDLEN as nat) as nat,
            );
        }
        let outlen: usize = H::OUTLEN;
        let length: usize = out.len();
        let mut data: [u8; SEEDLEN] = self.v;
        let mut digest: [u8; MAX_DIGEST] = [0u8; MAX_DIGEST];
        let mut start: usize = 0;
        let ghost mut i: int = 0;
        while start < length
            invariant
                1 <= outlen <= 64,
                outlen == H::OUTLEN,
                length == out@.len(),
                start <= length,
                0 <= i,
                start == i * outlen || start == length,
                be_value(data@) == (be_value(self.v@) + i) % radix(SEEDLEN as nat),
                forall|t: int|
                    0 <= t < start ==> #[trigger] out@[t] == hashgen_spec::<H>(
                        self.v@,
                        length as nat,
                    )[t],
            decreases length - start,
        {
            proof {
                lemma_advanced(self.v@, data@, i);
            }
            let ghost drawn = H::digest(data@);
            let space: &mut [u8] = &mut digest;
            let (block, _) = space.split_at_mut(outlen);
            H::hash(block, data.as_slice());
            let take: usize = if length - start < outlen {
                length - start
            } else {
                outlen
            };
            let ghost done = out@;
            put_block(out, start, take, digest.as_slice());
            proof {
                assert forall|t: int| 0 <= t < start + take implies #[trigger] out@[t]
                    == hashgen_spec::<H>(self.v@, length as nat)[t] by {
                    if t >= start {
                        lemma_block_place(t, i, outlen as int, start as int);
                        assert(digest@[t - start] == drawn[t - start]);
                    } else {
                        assert(out@[t] == done[t]);
                    }
                }
                assert((i + 1) * outlen == i * outlen + outlen) by (nonlinear_arith);
                lemma_be_range(data@);
                lemma_mod_sum(be_value(self.v@) + i, 1, radix(SEEDLEN as nat));
                i = i + 1;
            }
            start = start + take;
            add_be_u8(&mut data, 1);
        }
        proof {
            assert(out@ =~= hashgen_spec::<H>(self.v@, length as nat));
        }
    }

    /// Fills a list with the bytes that the state yields, and moves the state
    /// on.
    fn generate(&mut self, out: &mut [u8])
        requires
            SEEDLEN <= 127,
            old(self).counter() < u64::MAX,
        ensures
            final(out)@ == hashgen_spec::<H>(old(self).v(), old(out)@.len()),
            final(self).v() == next_state::<H>(old(self).v(), old(self).c(), old(self).counter()),
            final(self).c() == old(self).c(),
            final(self).counter() == old(self).counter() + 1,
    {
        self.hashgen(out);
        proof {
            H::lemma_outlen();
        }
        let ghost start = self.v@;
        let ghost m = radix(SEEDLEN as nat);
        let mut buf: [u8; HASH_INPUT_BUF] = [0u8; HASH_INPUT_BUF];
        buf[0] = 0x03;
        put_block(&mut buf, 1, SEEDLEN, self.v.as_slice());
        let hashed: &[u8] = slice_subrange(buf.as_slice(), 0, 1 + SEEDLEN);
        proof {
            assert(hashed@ =~= seq![0x03u8] + start);
        }
        let mut digest: [u8; MAX_DIGEST] = [0u8; MAX_DIGEST];
        let space: &mut [u8] = &mut digest;
        let (block, _) = space.split_at_mut(H::OUTLEN);
        H::hash(block, hashed);
        let ghost h = be_value(H::digest(seq![0x03u8] + start));
        let drawn: &[u8] = slice_subrange(digest.as_slice(), 0, H::OUTLEN);
        proof {
            assert(drawn@ =~= H::digest(seq![0x03u8] + start));
        }
        let mut v: [u8; SEEDLEN] = self.v;
        add_be_slice(&mut v, drawn);
        add_be_slice(&mut v, self.c.as_slice());
        let counter: [u8; 8] = be_bytes::<8>(self.reseed_counter);
        proof {
            assert(radix(8) == 0x1_0000_0000_0000_0000) by {
                reveal_with_fuel(radix, 9);
            }
            assert(be_value(counter@) == self.reseed_counter);
        }
        add_be_slice(&mut v, counter.as_slice());
        proof {
            let c = be_value(self.c@);
            lemma_be_range(start);
            lemma_mod_sum(be_value(start) + h, c, m);
            lemma_mod_sum(be_value(start) + h + c, self.reseed_counter as int, m);
            lemma_advanced(start, v@, h + c + self.reseed_counter);
        }
        self.v = v;
        self.reseed_counter = self.reseed_counter + 1;
    }

    /// The next four bytes as an integer, the least significant byte first.
    pub fn next_u32(&mut self) -> (r: u32)
        requires
            SEEDLEN <= 127,
            old(self).counter() < u64::MAX,
        ensures
            r == be_value(hashgen_spec::<H>(old(self).v(), 4).reverse()),
            final(self).v() == next_state::<H>(old(self).v(), old(self).c(), old(self).counter()),
            final(self).c() == old(self).c(),
            final(self).counter() == old(self).counter() + 1,
    {
        let mut bytes: [u8; 4] = [0u8; 4];
        self.generate(&mut bytes);
        le_u32(&bytes)
    }

    /// The next eight bytes as an integer, the least significant byte first.
    pub fn next_u64(&mut self) -> (r: u64)
        requires
            SEEDLEN <= 127,
            old(self).counter() < u64::MAX,
        ensures
            r == be_value(hashgen_spec::<H>(old(self).v(), 8).reverse()),
            final(self).v() == next_state::<H>(old(self).v(), old(self).c(), old(self).counter()),
            final(self).c() == old(self).c(),
            final(self).counter() == old(self).counter() + 1,
    {
        let mut bytes: [u8; 8] = [0u8; 8];
        self.generate(&mut bytes);
        le_u64(&bytes)
    }

    /// Fills a list with the next bytes.
    pub fn fill_bytes(&mut self, dest: &mut [u8])
        requires
            SEEDLEN <= 127,
            old(self).counter() < u64::MAX,
        ensures
            final(dest)@ == hashgen_spec::<H>(old(self).v(), old(dest)@.len()),
            final(self).v() == next_state::<H>(old(self).v(), old(self).c(), old(self).counter()),
            final(self).c() == old(self).c(),
            final(self).counter() == old(self).counter() + 1,
    {
        self.generate(dest);
    }

    /// Fills a list with the next bytes, and never fails.
    pub fn try_fill_bytes(&mut self, dest: &mut [u8]) -> (r: Result<(), EntropyUnavailable>)
        requires
            SEEDLEN <= 127,
            old(self).counter() < u64::MAX,
        ensures
            r is Ok,
            final(dest)@ == hashgen_spec::<H>(old(self).v(), old(dest)@.len()),
            final(self).v() == next_state::<H>(old(self).v(), old(self).c(), old(self).counter()),
            final(self).c() == old(self).c(),
            final(self).counter() == old(self).counter() + 1,
    {
        self.generate(dest);
        Ok(())
    }

    /// Fills a list with what a generator made from `N` random bytes yields, or
    /// leaves it and fails where the source of random bytes does.
    fn fill_from_entropy<const N: usize>(dst: &mut [u8]) -> (r: Result<(), EntropyUnavailable>)
        requires
            N <= 123,
            SEEDLEN <= 122,
        ensures
            final(dst)@.len() == old(dst)@.len(),
            r is Ok ==> is_one_shot::<H>(N as nat, SEEDLEN as nat, final(dst)@),
            r is Err ==> final(dst)@ == old(dst)@,
            N == 0 ==> r is Ok,
            exists|b: &mut [u8; N], outcome: Result<(), EntropyUnavailable>| #[trigger]
                is_draw(b, outcome) && match outcome {
                    Ok(()) => r is Ok && final(dst)@ == one_shot::<H>(
                        final(b)@,
                        SEEDLEN as nat,
                        old(dst)@.len(),
                    ),
                    Err(e) => r == Err::<(), EntropyUnavailable>(e),
                },
    {
        let mut entropy: [u8; N] = [0u8; N];
        let outcome: Result<(), EntropyUnavailable> = random_bytes(&mut entropy);
        let ghost used = entropy@;
        let r: Result<(), EntropyUnavailable> = Self::fill_drawn(outcome, &entropy, dst);
        wipe_bytes(&mut entropy);
        proof {
            if r is Ok {
                assert(used.len() == N);
                assert(dst@ == one_shot::<H>(used, SEEDLEN as nat, dst@.len()));
                assert(is_one_shot::<H>(N as nat, SEEDLEN as nat, dst@));
            }
        }
        r
    }

    /// Fills a list with what a generator made from entropy yields where
    /// drawing the entropy succeeded, and leaves it and fails as that did
    /// otherwise.
    pub fn fill_drawn<const N: usize>(
        outcome: Result<(), EntropyUnavailable>,
        entropy: &[u8; N],
        dst: &mut [u8],
    ) -> (r: Result<(), EntropyUnavailable>)
        requires
            N <= 123,
            SEEDLEN <= 122,
        ensures
            final(dst)@.len() == old(dst)@.len(),
            match outcome {
                Ok(()) => r is Ok && final(dst)@ == one_shot::<H>(
                    entropy@,
                    SEEDLEN as nat,
                    old(dst)@.len(),
                ),
                Err(e) => r == Err::<(), EntropyUnavailable>(e) && final(dst)@ == old(dst)@,
            },
    {
        match outcome {
            Ok(()) => {
                let mut drbg: Self = Self::new(entropy.as_slice());
                drbg.fill_bytes(dst);
                Ok(())
            },
            Err(e) => Err(e),
        }
    }
}

/// The first `n` bytes of a generator that is made from entropy, with a state
/// of `seedlen` bytes.
pub open spec fn one_shot<H: DrbgHash>(entropy: Seq<u8>, seedlen: nat, n: nat) -> Seq<u8> {
    hashgen_spec::<H>(hash_df_spec::<H>(entropy, seedlen), n)
}

/// Whether bytes are what a generator yields that is made from some `n` bytes
/// of entropy, with a state of `seedlen` bytes.
pub open spec fn is_one_shot<H: DrbgHash>(n: nat, seedlen: nat, bytes: Seq<u8>) -> bool {
    exists|entropy: Seq<u8>|
        entropy.len() == n && bytes == #[trigger] one_shot::<H>(entropy, seedlen, bytes.len())
}

/// Generators that draw their entropy from the operating system.
pub trait DrbgFor {
    /// Whether the generator yields these bytes for some entropy.
    spec fn is_output(bytes: Seq<u8>) -> bool;

    /// Fills a list with what a generator made from fresh entropy yields, or
    /// leaves it and fails where the source of random bytes does.
    fn fill_from_os(dst: &mut [u8]) -> (r: Result<(), EntropyUnavailable>)
        ensures
            final(dst)@.len() == old(dst)@.len(),
            r is Ok ==> Self::is_output(final(dst)@),
            r is Err ==> final(dst)@ == old(dst)@,
    ;
}

impl DrbgFor for HashDrbgSha3_256 {
    open spec fn is_output(bytes: Seq<u8>) -> bool {
        is_one_shot::<Sha3_256Hash>(24, 55, bytes)
    }

    /// The entropy is the 24 bytes that the source has handed out.
    fn fill_from_os(dst: &mut [u8]) -> (r: Result<(), EntropyUnavailable>)
        ensures
            exists|b: &mut [u8; 24], outcome: Result<(), EntropyUnavailable>| #[trigger]
                is_draw(b, outcome) && match outcome {
                    Ok(()) => r is Ok && final(dst)@ == one_shot::<Sha3_256Hash>(
                        final(b)@,
                        55,
                        old(dst)@.len(),
                    ),
                    Err(e) => r == Err::<(), EntropyUnavailable>(e),
                },
    {
        Self::fill_from_entropy::<24>(dst)
    }
}

impl DrbgFor for HashDrbgSha3_384 {
    open spec fn is_output(bytes: Seq<u8>) -> bool {
        is_one_shot::<Sha3_384Hash>(36, 111, bytes)
    }

    /// The entropy is the 36 bytes that the source has handed out.
    fn fill_from_os(dst: &mut [u8]) -> (r: Result<(), EntropyUnavailable>)
        ensures
            exists|b: &mut [u8; 36], outcome: Result<(), EntropyUnavailable>| #[trigger]
                is_draw(b, outcome) && match outcome {
                    Ok(()) => r is Ok && final(dst)@ == one_shot::<Sha3_384Hash>(
                        final(b)@,
                        111,
                        old(dst)@.len(),
                    ),
                    Err(e) => r == Err::<(), EntropyUnavailable>(e),
                },
    {
        Self::fill_from_entropy::<36>(dst)
    }
}

impl DrbgFor for HashDrbgSha3_512 {
    open spec fn is_output(bytes: Seq<u8>) -> bool {
        is_one_shot::<Sha3_512Hash>(48, 111, bytes)
    }

    /// The entropy is the 48 bytes that the source has handed out.
    fn fill_from_os(dst: &mut [u8]) -> (r: Result<(), EntropyUnavailable>)
        ensures
            exists|b: &mut [u8; 48], outcome: Result<(), EntropyUnavailable>| #[trigger]
                is_draw(b, outcome) && match outcome {
                    Ok(()) => r is Ok && final(dst)@ == one_shot::<Sha3_512Hash>(
                        final(b)@,
                        111,
                        old(dst)@.len(),
                    ),
                    Err(e) => r == Err::<(), EntropyUnavailable>(e),
                },
    {
        Self::fill_from_entropy::<48>(dst)
    }
}

/// A remainder may be taken before or after an addition.
proof fn lemma_mod_sum(x: int, y: int, m: int)
    requires
        0 < m,
    ensures
        (x % m + y) % m == (x + y) % m,
{
    vstd::arithmetic::div_mod::lemma_add_mod_noop_right(y, x, m);
}

/// More lists are longer together.
proof fn lemma_joined_length(pieces: Seq<&[u8]>, n: nat, m: nat)
    requires
        n <= m,
    ensures
        joined(pieces, n).len() <= joined(pieces, m).len(),
    decreases m,
{
    if n < m {
        lemma_joined_length(pieces, n, (m - 1) as nat);
    }
}

} // verus!
