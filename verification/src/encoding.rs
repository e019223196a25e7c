//! Serialization and compression of ring elements.
//!
//! `ByteEncode_d` and `ByteDecode_d` pack and unpack lists of 256 integers of
//! `d` bits; `Compress_d` and `Decompress_d` map field elements to `d` bits and
//! back. For `d = 12` an element of the transform domain is encoded without
//! compression.

pub mod bits;
pub mod vectors;

use vstd::arithmetic::power2::{lemma2_to64, lemma_pow2_pos, pow2};
use vstd::prelude::*;

use self::bits::{
    digit, digit_sum, fits, integers, lemma_digit, lemma_digit_sum_range, lemma_digit_sum_same,
    lemma_digits, lemma_subdigit, pack, padded, unpack,
};
use crate::algebraic::field::{compress_spec, decompress_spec, FieldElement};
use crate::algebraic::modular::{
    lemma_pow2_at_most, lemma_residue_sub, lemma_round_div, lemma_round_div_unique, residue,
    round_div,
};
use crate::algebraic::transform::is_poly;
use crate::algebraic::{PolynomialRingElement, RqElement, TqElement};

verus! {

/// `ByteEncode_d`: the `32 * d` bytes that hold 256 values of `d` bits, least
/// significant bit first.
pub open spec fn encode_bytes(values: Seq<int>, d: nat) -> Seq<u8> {
    Seq::new(32 * d, |t: int| digit(digit_sum(values, d, 256), 8, t) as u8)
}

/// `ByteDecode_d`: the 256 values of `d` bits that the first `32 * d` bytes
/// hold, missing bytes being zero.
pub open spec fn decode_values(bytes: Seq<u8>, d: nat) -> Seq<int> {
    Seq::new(
        256,
        |i: int| digit(digit_sum(padded(bytes, 32 * d as int), 8, 32 * d), d, i),
    )
}

/// `Compress_d` of every coefficient.
pub open spec fn compress_poly(f: Seq<int>, d: nat) -> Seq<int> {
    Seq::new(256, |i: int| compress_spec(f[i], d))
}

/// `Decompress_d` of every value.
pub open spec fn decompress_poly(values: Seq<int>, d: nat) -> Seq<int> {
    Seq::new(256, |i: int| decompress_spec(values[i], d))
}

/// The residues of a list of values.
pub open spec fn reduce_poly(values: Seq<int>) -> Seq<int> {
    Seq::new(256, |i: int| residue(values[i]))
}

/// The digits of a width that fits a byte are bytes.
proof fn lemma_digit_range(x: int, w: nat, i: int)
    requires
        0 <= i,
    ensures
        0 <= digit(x, w, i) < pow2(w),
{
    lemma_pow2_pos(w);
    vstd::arithmetic::div_mod::lemma_mod_bound(x / (pow2(w * i as nat) as int), pow2(w) as int);
}

/// Decoding yields values of `d` bits.
pub proof fn lemma_decode_range(bytes: Seq<u8>, d: nat, i: int)
    requires
        0 <= i < 256,
    ensures
        0 <= decode_values(bytes, d)[i] < pow2(d),
{
    lemma_digit_range(digit_sum(padded(bytes, 32 * d as int), 8, 32 * d), d, i);
}

/// Compression yields values of `d` bits.
pub proof fn lemma_compress_range(x: int, d: nat)
    ensures
        0 <= compress_spec(x, d) < pow2(d),
{
    lemma_pow2_pos(d);
    vstd::arithmetic::div_mod::lemma_mod_bound(round_div(pow2(d) * x, 3329), pow2(d) as int);
}

/// Decoding undoes encoding, on values of `d` bits.
pub proof fn law_decode_encode(values: Seq<int>, d: nat)
    requires
        values.len() == 256,
        fits(values, d, 256),
    ensures
        decode_values(encode_bytes(values, d), d) == values,
{
    let bytes = encode_bytes(values, d);
    let x = digit_sum(values, d, 256);
    lemma_digit_sum_range(values, d, 256);
    assert(8 * (32 * d) == d * 256) by (nonlinear_arith);
    lemma_digits(x, 8, 32 * d);
    let y = Seq::new(32 * d, |t: int| digit(x, 8, t));
    let b = padded(bytes, 32 * d as int);
    assert forall|t: int| 0 <= t < 32 * d implies #[trigger] b[t] == y[t] by {
        lemma2_to64();
        lemma_digit_range(x, 8, t);
    }
    lemma_digit_sum_same(b, y, 8, 32 * d);
    assert forall|i: int| 0 <= i < 256 implies decode_values(bytes, d)[i] == values[i] by {
        lemma_digit(values, d, 256, i);
    }
    assert(decode_values(bytes, d) =~= values);
}

/// Encoding undoes decoding, on the right number of bytes.
pub proof fn law_encode_decode(bytes: Seq<u8>, d: nat)
    requires
        bytes.len() == 32 * d,
    ensures
        encode_bytes(decode_values(bytes, d), d) == bytes,
{
    let b = padded(bytes, 32 * d as int);
    let x = digit_sum(b, 8, 32 * d);
    lemma2_to64();
    assert(fits(b, 8, 32 * d));
    lemma_digit_sum_range(b, 8, 32 * d);
    assert(8 * (32 * d) == d * 256) by (nonlinear_arith);
    lemma_digits(x, d, 256);
    let v = decode_values(bytes, d);
    lemma_digit_sum_same(v, Seq::new(256, |i: int| digit(x, d, i)), d, 256);
    assert forall|t: int| 0 <= t < 32 * d implies encode_bytes(v, d)[t] == bytes[t] by {
        lemma_digit(b, 8, 32 * d, t);
    }
    assert(encode_bytes(v, d) =~= bytes);
}

/// Twelve-bit encoding survives a reduction modulo `q` exactly when every
/// encoded value is below `q`: the modulus check of an encapsulation key.
pub proof fn law_modulus_check(bytes: Seq<u8>)
    requires
        bytes.len() == 384,
    ensures
        encode_bytes(reduce_poly(decode_values(bytes, 12)), 12) == bytes <==> is_poly(
            decode_values(bytes, 12),
        ),
{
    let v = decode_values(bytes, 12);
    let r = reduce_poly(v);
    lemma2_to64();
    assert forall|i: int| 0 <= i < 256 implies 0 <= #[trigger] v[i] < pow2(12) by {
        lemma_decode_range(bytes, 12, i);
    }
    law_encode_decode(bytes, 12);
    if is_poly(v) {
        assert(r =~= v);
    }
    if encode_bytes(r, 12) == bytes {
        assert forall|i: int| 0 <= i < 256 implies 0 <= #[trigger] r[i] < pow2(12) by {}
        law_decode_encode(r, 12);
        assert forall|i: int| 0 <= i < 256 implies 0 <= #[trigger] v[i] < 3329 by {
            assert(v[i] == r[i]);
        }
    }
}

/// The integer that a list of bytes stands for, and its bytes.
proof fn lemma_list_digit(bytes: Seq<u8>, n: nat, t: int)
    requires
        bytes.len() == n,
        0 <= t < n,
    ensures
        0 <= digit_sum(padded(bytes, n as int), 8, n),
        digit(digit_sum(padded(bytes, n as int), 8, n), 8, t) == bytes[t],
{
    lemma2_to64();
    let p = padded(bytes, n as int);
    assert forall|i: int| 0 <= i < n implies 0 <= #[trigger] p[i] < pow2(8) by {
        assert(p[i] == bytes[i]);
    }
    lemma_digit_sum_range(p, 8, n);
    lemma_digit(p, 8, n, t);
}

/// Bit `k` of value `i` of decoded bytes is bit `d * i + k` of the bytes, the
/// least significant bit of every byte first.
pub proof fn law_decoded_bits(bytes: Seq<u8>, d: nat, i: int, k: int)
    requires
        bytes.len() == 32 * d,
        0 <= i < 256,
        0 <= k < d,
    ensures
        0 <= decode_values(bytes, d)[i] < pow2(d),
        ({
            let n = d * i + k;
            (decode_values(bytes, d)[i] / (pow2(k as nat) as int)) % 2 == (bytes[n / 8] as int / (
            pow2((n % 8) as nat) as int)) % 2
        }),
{
    lemma2_to64();
    lemma_decode_range(bytes, d, i);
    let x = digit_sum(padded(bytes, 32 * d as int), 8, 32 * d);
    let n = d * i + k;
    assert(0 <= n < 256 * d) by (nonlinear_arith)
        requires
            n == d * i + k,
            0 <= i <= 255,
            0 <= k < d,
    ;
    lemma_list_digit(bytes, 32 * d, n / 8);
    lemma_subdigit(x, 1, d, i, k);
    lemma_subdigit(x, 1, 8, n / 8, n % 8);
    assert(8 * (n / 8) + n % 8 == n);
    assert(1 * d == d && 1 * k == k);
}

/// Bit `n` of encoded values is bit `n % d` of value `n / d`.
pub proof fn law_encoded_bits(values: Seq<int>, d: nat, n: int)
    requires
        values.len() == 256,
        0 < d,
        fits(values, d, 256),
        0 <= n < 256 * d,
    ensures
        encode_bytes(values, d).len() == 32 * d,
        (encode_bytes(values, d)[n / 8] as int / (pow2((n % 8) as nat) as int)) % 2 == (values[n / (
        d as int)] / (pow2((n % (d as int)) as nat) as int)) % 2,
{
    let bytes = encode_bytes(values, d);
    let (i, k) = (n / (d as int), n % (d as int));
    vstd::arithmetic::div_mod::lemma_fundamental_div_mod(n, d as int);
    vstd::arithmetic::div_mod::lemma_mod_bound(n, d as int);
    assert(0 <= i < 256) by (nonlinear_arith)
        requires
            n == d * i + k,
            0 <= k < d,
            0 <= n < 256 * d,
    ;
    law_decode_encode(values, d);
    law_decoded_bits(bytes, d, i, k);
}

/// The bytes and the halves of an integer of 24 bits.
proof fn lemma_triple_bits(x: int)
    requires
        0 <= x < 0x100_0000,
    ensures
        (x / 1) % 4096 == (x / 1) % 256 + 256 * ((x / 256) % 256 % 16),
        (x / 4096) % 4096 == (x / 256) % 256 / 16 + 16 * ((x / 65536) % 256),
{
    let (a, r) = (x / 4096, x % 4096);
    let (b, s) = (a / 16, a % 16);
    let (c, t) = (r / 256, r % 256);
    assert(x == 65536 * b + 4096 * s + 256 * c + t);
    assert(x / 65536 == b);
    assert(x / 256 == 256 * b + 16 * s + c);
    assert((x / 256) % 256 == 16 * s + c);
}

/// Every three bytes hold two values of twelve bits.
pub proof fn law_decoded_pair(bytes: Seq<u8>, j: int)
    requires
        bytes.len() == 384,
        0 <= j < 128,
    ensures
        decode_values(bytes, 12)[2 * j] == bytes[3 * j] + 256 * (bytes[3 * j + 1] % 16),
        decode_values(bytes, 12)[2 * j + 1] == bytes[3 * j + 1] / 16 + 16 * bytes[3 * j + 2],
{
    lemma2_to64();
    let x = digit_sum(padded(bytes, 384), 8, 384);
    lemma_list_digit(bytes, 384, 3 * j);
    lemma_list_digit(bytes, 384, 3 * j + 1);
    lemma_list_digit(bytes, 384, 3 * j + 2);
    lemma_subdigit(x, 8, 3, j, 0);
    lemma_subdigit(x, 8, 3, j, 1);
    lemma_subdigit(x, 8, 3, j, 2);
    lemma_subdigit(x, 12, 2, j, 0);
    lemma_subdigit(x, 12, 2, j, 1);
    lemma_digit_range(x, 24, j);
    let triple = digit(x, 24, j);
    assert(pow2(0) == 1 && pow2(8) == 256 && pow2(12) == 4096 && pow2(16) == 65536 && pow2(24)
        == 0x100_0000);
    let (b0, b1, b2) = (bytes[3 * j] as int, bytes[3 * j + 1] as int, bytes[3 * j + 2] as int);
    assert(b0 == (triple / 1) % 256);
    assert(b1 == (triple / 256) % 256);
    assert(b2 == (triple / 65536) % 256);
    assert(decode_values(bytes, 12)[2 * j] == (triple / 1) % 4096);
    assert(decode_values(bytes, 12)[2 * j + 1] == (triple / 4096) % 4096);
    lemma_triple_bits(triple);
}

/// Compression undoes decompression on values of up to eleven bits.
pub proof fn law_compress_decompress(y: int, d: nat)
    requires
        1 <= d <= 11,
        0 <= y < pow2(d),
    ensures
        compress_spec(decompress_spec(y, d), d) == y,
{
    lemma2_to64();
    lemma_pow2_at_most(d, 11);
    let m = pow2(d) as int;
    let x = round_div(3329 * y, m);
    lemma_round_div(3329 * y, m);
    let mx = m * x;
    assert(2 * m * x == 2 * mx) by (nonlinear_arith)
        requires
            mx == m * x,
    ;
    assert(0 <= x < 3329) by (nonlinear_arith)
        requires
            2 * mx <= 2 * (3329 * y) + m < 2 * mx + 2 * m,
            mx == m * x,
            0 <= y <= m - 1,
            1 <= m <= 2048,
    ;
    lemma_round_div_unique(mx, 3329, y);
    vstd::arithmetic::div_mod::lemma_small_mod(y as nat, m as nat);
}

/// Whether the residue `e` is that of an integer of at most `bound` in
/// magnitude.
pub open spec fn near_zero(e: int, bound: int) -> bool {
    0 <= e <= bound || 3329 - bound <= e < 3329
}

/// Decompression after compression to up to eleven bits changes a residue by at
/// most the integer nearest to `q / 2^(d + 1)`.
pub proof fn law_decompress_compress(x: int, d: nat)
    requires
        1 <= d <= 11,
        0 <= x < 3329,
    ensures
        near_zero(
            residue(decompress_spec(compress_spec(x, d), d) - x),
            round_div(3329, pow2(d + 1) as int),
        ),
{
    lemma2_to64();
    lemma_pow2_at_most(1, d);
    lemma_pow2_at_most(d, 11);
    vstd::arithmetic::power2::lemma_pow2_unfold(d + 1);
    let m = pow2(d) as int;
    let bound = round_div(3329, 2 * m);
    let mx = m * x;
    let c = round_div(mx, 3329);
    lemma_round_div(mx, 3329);
    lemma_round_div(3329, 2 * m);
    let mb = m * bound;
    assert(2 * (2 * m) * bound == 4 * mb) by (nonlinear_arith)
        requires
            mb == m * bound,
    ;
    assert(0 <= c <= m) by (nonlinear_arith)
        requires
            2 * 3329 * c <= 2 * mx + 3329 < 2 * 3329 * c + 2 * 3329,
            mx == m * x,
            0 <= x <= 3328,
            2 <= m,
    ;
    if c == m {
        assert(c % m == 0) by (nonlinear_arith)
            requires
                c == m,
                2 <= m,
        ;
        lemma_round_div_unique(0, m, 0);
        assert(1 <= x && 3329 - x <= bound) by (nonlinear_arith)
            requires
                2 * 3329 * m <= 2 * mx + 3329,
                mx == m * x,
                6658 + 2 * m < 4 * mb + 4 * m,
                mb == m * bound,
                2 <= m <= 2048,
                0 <= x,
        ;
        assert(residue(0 - x) == 3329 - x);
    } else {
        vstd::arithmetic::div_mod::lemma_small_mod(c as nat, m as nat);
        let z = round_div(3329 * c, m);
        lemma_round_div(3329 * c, m);
        assert(-bound <= z - x <= bound) by (nonlinear_arith)
            requires
                2 * 3329 * c <= 2 * mx + 3329 < 2 * 3329 * c + 2 * 3329,
                2 * m * z <= 2 * (3329 * c) + m < 2 * m * z + 2 * m,
                mx == m * x,
                6658 + 2 * m < 4 * mb + 4 * m,
                mb == m * bound,
                2 <= m,
        ;
        lemma_residue_sub(residue(z), z, x, x);
    }
}

/// A message survives the way through a polynomial.
pub proof fn law_message_round_trip(message: Seq<u8>)
    requires
        message.len() == 32,
    ensures
        message_bytes(message_poly(message)) == message,
{
    let v = decode_values(message, 1);
    let p = message_poly(message);
    lemma2_to64();
    assert forall|i: int| 0 <= i < 256 implies compress_poly(p, 1)[i] == v[i] by {
        lemma_decode_range(message, 1, i);
        law_compress_decompress(v[i], 1);
    }
    assert(compress_poly(p, 1) =~= v);
    law_encode_decode(message, 1);
}

/// The polynomial of a message: each bit becomes a coefficient, zero or
/// `(q + 1) / 2`.
pub open spec fn message_poly(message: Seq<u8>) -> Seq<int> {
    decompress_poly(decode_values(message, 1), 1)
}

/// The message of a polynomial: each coefficient becomes the bit that it is
/// nearer to.
pub open spec fn message_bytes(f: Seq<int>) -> Seq<u8> {
    encode_bytes(compress_poly(f, 1), 1)
}

/// What packing yields, as a list of bytes.
proof fn lemma_packed(packed: Seq<u8>, values: Seq<u16>, f: Seq<int>, d: nat)
    requires
        values.len() == 256,
        f.len() == 256,
        packed.len() >= 32 * d,
        forall|i: int| 0 <= i < 256 ==> #[trigger] integers(values)[i] == f[i],
        forall|t: int|
            0 <= t < 32 * d ==> #[trigger] packed[t] == digit(
                digit_sum(integers(values), d, 256),
                8,
                t,
            ),
    ensures
        packed.subrange(0, 32 * d as int) == encode_bytes(f, d),
{
    lemma_digit_sum_same(integers(values), f, d, 256);
    assert(packed.subrange(0, 32 * d as int) =~= encode_bytes(f, d));
}

impl TqElement {
    /// `ByteEncode_12`: serializes the 256 coefficients as 384 bytes.
    pub fn byte_encode(&self) -> (r: [u8; 384])
        ensures
            r@ == encode_bytes(self@, 12),
    {
        let values: [u16; 256] = self.canonical();
        proof {
            lemma2_to64();
            self.lemma_is_poly();
            assert forall|i: int| 0 <= i < 256 implies 0 <= #[trigger] integers(values@)[i]
                < pow2(12) by {
                assert(values@[i] == self@[i]);
            }
        }
        let r: [u8; 384] = pack::<384>(&values, 12);
        proof {
            lemma_packed(r@, values@, self@, 12);
            assert(r@.subrange(0, 384) =~= r@);
        }
        r
    }

    /// `ByteDecode_12`: deserializes 384 bytes into 256 coefficients.
    ///
    /// Each value is reduced modulo `q`, so an input that encodes a value of
    /// `q` or more does not encode back to itself.
    pub fn byte_decode(bytes: &[u8]) -> (r: Self)
        ensures
            r@ == reduce_poly(decode_values(bytes@, 12)),
            r.bounded(3328),
    {
        let values: [u16; 256] = unpack(bytes, 12);
        let mut coefficients: [FieldElement; 256] = [FieldElement::zero(); 256];
        let mut i: usize = 0;
        while i < 256
            invariant
                i <= 256,
                forall|k: int|
                    0 <= k < i ==> (#[trigger] coefficients@[k]).rep() == values@[k] % 3329,
            decreases 256 - i,
        {
            coefficients[i] = FieldElement::new(values[i]);
            i = i + 1;
        }
        let r: TqElement = TqElement::new(coefficients);
        proof {
            assert forall|k: int| 0 <= k < 256 implies r@[k] == reduce_poly(
                decode_values(bytes@, 12),
            )[k] by {
                assert(r.elements()[k].rep() == values@[k] % 3329);
            }
            assert(r@ =~= reduce_poly(decode_values(bytes@, 12)));
        }
        r
    }
}

impl RqElement {
    /// The values of `Compress_d`, packed.
    fn compress_pack<const BYTES: usize>(&self, d: usize) -> (r: [u8; BYTES])
        requires
            1 <= d <= 12,
            32 * d <= BYTES,
        ensures
            r@.subrange(0, 32 * d) == encode_bytes(compress_poly(self@, d as nat), d as nat),
            forall|t: int| 32 * d <= t < BYTES ==> #[trigger] r@[t] == 0,
    {
        let values: [u16; 256] = self.compressed(d);
        let ghost f = compress_poly(self@, d as nat);
        proof {
            assert forall|i: int| 0 <= i < 256 implies 0 <= #[trigger] integers(values@)[i] < pow2(
                d as nat,
            ) && integers(values@)[i] == f[i] by {
                assert(values@[i] == compress_spec(self@[i], d as nat));
                lemma_compress_range(self@[i], d as nat);
            }
        }
        let r: [u8; BYTES] = pack::<BYTES>(&values, d);
        proof {
            lemma_packed(r@, values@, f, d as nat);
        }
        r
    }

    /// `ByteEncode_d` of `Compress_d`, in the leading `32 * d` bytes of the
    /// widest serialization; the tail stays zero.
    pub fn compress_encode(&self, d: usize) -> (r: [u8; 352])
        requires
            1 <= d <= 11,
        ensures
            r@.subrange(0, 32 * d) == encode_bytes(compress_poly(self@, d as nat), d as nat),
            forall|t: int| 32 * d <= t < 352 ==> #[trigger] r@[t] == 0,
    {
        self.compress_pack::<352>(d)
    }

    /// `Decompress_d` of `ByteDecode_d`.
    pub fn decode_decompress(bytes: &[u8], d: usize) -> (r: Self)
        requires
            1 <= d <= 16,
        ensures
            r@ == decompress_poly(decode_values(bytes@, d as nat), d as nat),
            r.bounded(3328),
    {
        let values: [u16; 256] = unpack(bytes, d);
        proof {
            assert forall|i: int| 0 <= i < 256 implies #[trigger] values@[i] < pow2(d as nat) by {
                assert(integers(values@)[i] < pow2(d as nat));
            }
        }
        let r: RqElement = RqElement::decompress(&values, d);
        proof {
            r.lemma_is_poly();
            assert(r@ =~= decompress_poly(decode_values(bytes@, d as nat), d as nat));
        }
        r
    }

    /// The polynomial of a 32-byte message.
    pub fn from_message(message: &[u8; 32]) -> (r: Self)
        ensures
            r@ == message_poly(message@),
            r.bounded(3328),
    {
        Self::decode_decompress(message, 1)
    }

    /// The 32-byte message of this polynomial.
    pub fn compress_message(&self) -> (r: [u8; 32])
        ensures
            r@ == message_bytes(self@),
    {
        let r: [u8; 32] = self.compress_pack::<32>(1);
        proof {
            assert(r@.subrange(0, 32) =~= r@);
        }
        r
    }
}

} // verus!
