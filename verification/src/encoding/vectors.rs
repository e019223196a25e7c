//! Serialization of vectors: the encodings of the components, one after the
//! other.

use vstd::prelude::*;
use vstd::slice::slice_subrange;

use super::bits::fits;
use super::{
    compress_poly, decode_values, decompress_poly, encode_bytes, law_decode_encode,
    law_encode_decode, law_modulus_check, reduce_poly,
};
use crate::algebraic::transform::is_poly;
use crate::algebraic::{RqElement, RqVector, TqElement, TqVector};
use crate::parameters::ParameterSet;

verus! {

/// `ByteEncode_d` of every component, one after the other.
pub open spec fn encode_vector(v: Seq<Seq<int>>, d: nat) -> Seq<u8>
    decreases v.len(),
{
    if v.len() == 0 {
        Seq::empty()
    } else {
        encode_vector(v.drop_last(), d) + encode_bytes(v.last(), d)
    }
}

/// Block `i` of a list of bytes, or nothing where the list is too short to hold
/// the whole of it.
pub open spec fn block(bytes: Seq<u8>, size: nat, i: int) -> Seq<u8> {
    if size * (i + 1) <= bytes.len() {
        bytes.subrange(size * i, size * (i + 1))
    } else {
        Seq::empty()
    }
}

/// `ByteDecode_d` of the first `k` blocks.
pub open spec fn decode_vector(bytes: Seq<u8>, d: nat, k: nat) -> Seq<Seq<int>> {
    Seq::new(k, |i: int| decode_values(block(bytes, 32 * d, i), d))
}

/// The residues of the components.
pub open spec fn reduce_vector(v: Seq<Seq<int>>) -> Seq<Seq<int>> {
    Seq::new(v.len(), |i: int| reduce_poly(v[i]))
}

/// `Compress_d` of every component.
pub open spec fn compress_vector(v: Seq<Seq<int>>, d: nat) -> Seq<Seq<int>> {
    Seq::new(v.len(), |i: int| compress_poly(v[i], d))
}

/// `Decompress_d` of every component.
pub open spec fn decompress_vector(v: Seq<Seq<int>>, d: nat) -> Seq<Seq<int>> {
    Seq::new(v.len(), |i: int| decompress_poly(v[i], d))
}

/// Whether every component of a vector consists of 256 canonical residues.
pub open spec fn all_polys(v: Seq<Seq<int>>) -> bool {
    forall|i: int| 0 <= i < v.len() ==> is_poly(#[trigger] v[i])
}

/// A vector takes as many bytes as its components together.
pub proof fn lemma_encoded_length(v: Seq<Seq<int>>, d: nat)
    ensures
        encode_vector(v, d).len() == (32 * d) * v.len(),
    decreases v.len(),
{
    if v.len() == 0 {
        assert((32 * d) * 0 == 0) by (nonlinear_arith);
    } else {
        lemma_encoded_length(v.drop_last(), d);
        let n = v.len();
        assert((32 * d) * n == (32 * d) * (n - 1) + 32 * d) by (nonlinear_arith);
    }
}

/// A block of an encoded vector is the encoding of a component, whatever
/// follows the vector.
pub proof fn lemma_encoded_block(v: Seq<Seq<int>>, d: nat, rest: Seq<u8>, i: int)
    requires
        0 <= i < v.len(),
    ensures
        block(encode_vector(v, d) + rest, 32 * d, i) == encode_bytes(v[i], d),
    decreases v.len(),
{
    let n = v.len() - 1;
    let whole = encode_vector(v, d) + rest;
    lemma_encoded_length(v, d);
    lemma_encoded_length(v.drop_last(), d);
    assert((32 * d) * v.len() == (32 * d) * n + 32 * d) by (nonlinear_arith)
        requires
            v.len() == n + 1,
    ;
    if i == n {
        assert(block(whole, 32 * d, i) =~= encode_bytes(v[i], d));
    } else {
        let tail = encode_bytes(v.last(), d) + rest;
        assert(whole =~= encode_vector(v.drop_last(), d) + tail);
        lemma_encoded_block(v.drop_last(), d, tail, i);
    }
}

/// Decoding gives back the vector that was encoded.
pub proof fn law_decode_encode_vector(v: Seq<Seq<int>>, d: nat)
    requires
        forall|i: int|
            0 <= i < v.len() ==> (#[trigger] v[i]).len() == 256 && fits(v[i], d, 256),
    ensures
        decode_vector(encode_vector(v, d), d, v.len()) == v,
{
    let bytes = encode_vector(v, d);
    assert(bytes + Seq::<u8>::empty() =~= bytes);
    assert forall|i: int| 0 <= i < v.len() implies decode_vector(bytes, d, v.len())[i] == v[i] by {
        lemma_encoded_block(v, d, Seq::empty(), i);
        law_decode_encode(v[i], d);
    }
    assert(decode_vector(bytes, d, v.len()) =~= v);
}

/// Encoding gives back the bytes that were decoded.
pub proof fn law_encode_decode_vector(bytes: Seq<u8>, d: nat, k: nat)
    requires
        bytes.len() == (32 * d) * k,
    ensures
        encode_vector(decode_vector(bytes, d, k), d) == bytes,
    decreases k,
{
    let v = decode_vector(bytes, d, k);
    if k == 0 {
        assert((32 * d) * 0 == 0) by (nonlinear_arith);
        assert(encode_vector(v, d) =~= bytes);
    } else {
        let n = (k - 1) as nat;
        let m = (32 * d) * n;
        assert((32 * d) * k == m + 32 * d) by (nonlinear_arith)
            requires
                k == n + 1,
                m == (32 * d) * n,
        ;
        let front = bytes.subrange(0, m as int);
        law_encode_decode_vector(front, d, n);
        assert forall|i: int| 0 <= i < n implies decode_vector(front, d, n)[i] == v[i] by {
            assert(0 <= (32 * d) * i <= (32 * d) * (i + 1) <= m) by (nonlinear_arith)
                requires
                    0 <= i < n,
                    m == (32 * d) * n,
                    0 <= d,
            ;
            assert(block(front, 32 * d, i) =~= block(bytes, 32 * d, i));
        }
        assert(decode_vector(front, d, n) =~= v.drop_last());
        law_encode_decode(block(bytes, 32 * d, n as int), d);
        assert(encode_vector(v, d) =~= bytes);
    }
}

/// Reducing the values that bytes hold changes the bytes if and only if one of
/// the values is not a canonical residue.
pub proof fn law_vector_modulus_check(bytes: Seq<u8>, k: nat)
    requires
        bytes.len() == 384 * k,
    ensures
        encode_vector(reduce_vector(decode_vector(bytes, 12, k)), 12) == bytes <==> all_polys(
            decode_vector(bytes, 12, k),
        ),
{
    let v = decode_vector(bytes, 12, k);
    let r = reduce_vector(v);
    law_encode_decode_vector(bytes, 12, k);
    if all_polys(v) {
        assert forall|i: int| 0 <= i < k implies r[i] == v[i] by {
            assert(is_poly(v[i]));
            assert(r[i] =~= v[i]);
        }
        assert(r =~= v);
    }
    if encode_vector(r, 12) == bytes {
        assert(bytes + Seq::<u8>::empty() =~= bytes);
        assert forall|i: int| 0 <= i < k implies is_poly(#[trigger] v[i]) by {
            let b = block(bytes, 384, i);
            lemma_encoded_block(r, 12, Seq::empty(), i);
            lemma_encoded_block(v, 12, Seq::empty(), i);
            law_modulus_check(b);
        }
    }
}

impl<P: ParameterSet> TqVector<P> {
    /// `ByteEncode_12` of every component.
    pub fn byte_encode(&self) -> (r: Vec<u8>)
        ensures
            r@ == encode_vector(self@, 12),
            r@.len() == 384 * P::K,
    {
        let polys: &[TqElement] = self.as_slice();
        let mut r: Vec<u8> = Vec::new();
        let mut i: usize = 0;
        proof {
            assert(self@.take(0) =~= Seq::empty());
        }
        while i < P::K
            invariant
                i <= P::K,
                polys@ == self.elements(),
                polys@.len() == P::K,
                r@ == encode_vector(self@.take(i as int), 12),
            decreases P::K - i,
        {
            let encoded: [u8; 384] = polys[i].byte_encode();
            r.extend_from_slice(encoded.as_slice());
            i = i + 1;
            proof {
                let v = self@.take(i as int);
                assert(v.drop_last() =~= self@.take(i - 1));
                assert(r@ =~= encode_vector(v, 12));
            }
        }
        proof {
            assert(self@.take(P::K as int) =~= self@);
            lemma_encoded_length(self@, 12);
        }
        r
    }

    /// `ByteDecode_12` of every block of 384 bytes; a block that is missing is
    /// taken for zeros.
    pub fn byte_decode(bytes: &[u8]) -> (r: Self)
        ensures
            r@ == reduce_vector(decode_vector(bytes@, 12, P::K as nat)),
            r.bounded(3328),
    {
        let mut polys: Vec<TqElement> = Vec::new();
        let mut i: usize = 0;
        proof {
            P::lemma_sizes();
        }
        while i < P::K
            invariant
                i <= P::K <= 4,
                polys@.len() == i,
                forall|k: int|
                    0 <= k < i ==> (#[trigger] polys@[k])@ == reduce_poly(
                        decode_values(block(bytes@, 384, k), 12),
                    ) && polys@[k].bounded(3328),
            decreases P::K - i,
        {
            let chunk: &[u8] = block_of(bytes, 384, i);
            polys.push(TqElement::byte_decode(chunk));
            i = i + 1;
        }
        let r: Self = TqVector::from_vec(polys);
        proof {
            assert(r@ =~= reduce_vector(decode_vector(bytes@, 12, P::K as nat)));
        }
        r
    }
}

/// Block `i` of a list of bytes, or nothing where the list is too short.
fn block_of(bytes: &[u8], size: usize, i: usize) -> (r: &[u8])
    requires
        i < 4,
        size <= 512,
    ensures
        r@ == block(bytes@, size as nat, i as int),
{
    proof {
        assert(size * (i + 1) <= 512 * 4) by (nonlinear_arith)
            requires
                i < 4,
                size <= 512,
        ;
        assert(0 <= size * i <= size * (i + 1)) by (nonlinear_arith);
    }
    if size * (i + 1) <= bytes.len() {
        slice_subrange(bytes, size * i, size * (i + 1))
    } else {
        let r: &[u8] = slice_subrange(bytes, 0, 0);
        proof {
            assert(r@ =~= Seq::empty());
        }
        r
    }
}

impl<P: ParameterSet> RqVector<P> {
    /// `ByteEncode_d` of `Compress_d` of every component.
    pub fn compress_encode(&self, d: usize) -> (r: Vec<u8>)
        requires
            1 <= d <= 11,
        ensures
            r@ == encode_vector(compress_vector(self@, d as nat), d as nat),
            r@.len() == 32 * d * P::K,
    {
        let polys: &[RqElement] = self.as_slice();
        let ghost all = compress_vector(self@, d as nat);
        let mut r: Vec<u8> = Vec::new();
        let mut i: usize = 0;
        proof {
            assert(all.take(0) =~= Seq::empty());
        }
        while i < P::K
            invariant
                1 <= d <= 11,
                i <= P::K,
                all == compress_vector(self@, d as nat),
                polys@ == self.elements(),
                polys@.len() == P::K,
                r@ == encode_vector(all.take(i as int), d as nat),
            decreases P::K - i,
        {
            let encoded: [u8; 352] = polys[i].compress_encode(d);
            let packed: &[u8] = slice_subrange(encoded.as_slice(), 0, 32 * d);
            r.extend_from_slice(packed);
            i = i + 1;
            proof {
                let v = all.take(i as int);
                assert(v.drop_last() =~= all.take(i - 1));
                assert(r@ =~= encode_vector(v, d as nat));
            }
        }
        proof {
            assert(all.take(P::K as int) =~= all);
            lemma_encoded_length(all, d as nat);
        }
        r
    }

    /// `Decompress_d` of `ByteDecode_d` of every block of `32 * d` bytes; a
    /// block that is missing is taken for zeros.
    pub fn decode_decompress(bytes: &[u8], d: usize) -> (r: Self)
        requires
            1 <= d <= 16,
        ensures
            r@ == decompress_vector(decode_vector(bytes@, d as nat, P::K as nat), d as nat),
            r@.len() == P::K,
            r.bounded(3328),
    {
        let mut polys: Vec<RqElement> = Vec::new();
        let mut i: usize = 0;
        proof {
            P::lemma_sizes();
        }
        while i < P::K
            invariant
                1 <= d <= 16,
                i <= P::K <= 4,
                polys@.len() == i,
                forall|k: int|
                    0 <= k < i ==> (#[trigger] polys@[k])@ == decompress_poly(
                        decode_values(block(bytes@, 32 * d as nat, k), d as nat),
                        d as nat,
                    ) && polys@[k].bounded(3328),
            decreases P::K - i,
        {
            let chunk: &[u8] = block_of(bytes, 32 * d, i);
            polys.push(RqElement::decode_decompress(chunk, d));
            i = i + 1;
        }
        let r: Self = RqVector::from_vec(polys);
        proof {
            assert(r@ =~= decompress_vector(
                decode_vector(bytes@, d as nat, P::K as nat),
                d as nat,
            ));
        }
        r
    }
}

} // verus!
