//! Sampling from the centered binomial distribution.

use vstd::prelude::*;

use crate::algebraic::kernels::zeros;
use crate::algebraic::modular::residue;
use crate::algebraic::{FieldElement, PolynomialRingElement, RqElement};
use crate::parameters::Eta;

verus! {

/// Bit `n` of a list of bytes, the least significant bit of each byte first.
pub open spec fn bit(bytes: Seq<u8>, n: int) -> int {
    ((bytes[n / 8] >> ((n % 8) as u8)) & 1) as int
}

/// How many of the `count` bits from bit `start` on are set.
pub open spec fn bit_count(bytes: Seq<u8>, start: int, count: nat) -> int
    decreases count,
{
    if count == 0 {
        0
    } else {
        bit_count(bytes, start, (count - 1) as nat) + bit(bytes, start + count - 1)
    }
}

/// Coefficient `i` of a binomial sample: the difference of two sums of `eta`
/// consecutive bits.
pub open spec fn binomial(eta: Eta, bytes: Seq<u8>, i: int) -> int {
    let n = eta.number();
    bit_count(bytes, 2 * n * i, n) - bit_count(bytes, 2 * n * i + n, n)
}

/// The ring element that a list of bytes stands for in the centered binomial
/// distribution.
pub open spec fn cbd_spec(eta: Eta, bytes: Seq<u8>) -> Seq<int> {
    Seq::new(256, |i: int| residue(binomial(eta, bytes, i)))
}

/// A count of bits is at most the number of bits counted.
proof fn lemma_bit_count_range(bytes: Seq<u8>, start: int, count: nat)
    ensures
        0 <= bit_count(bytes, start, count) <= count,
    decreases count,
{
    if count > 0 {
        lemma_bit_count_range(bytes, start, (count - 1) as nat);
        let n = start + count - 1;
        lemma_bit_range(bytes[n / 8], (n % 8) as u8);
    }
}

proof fn lemma_bit_range(byte: u8, r: u8)
    by (bit_vector)
    ensures
        (byte >> r) & 1 <= 1,
{
}

/// Every coefficient of a binomial sample lies between `-eta` and `eta`.
pub proof fn law_binomial_range(eta: Eta, bytes: Seq<u8>, i: int)
    ensures
        -eta.number() <= binomial(eta, bytes, i) <= eta.number(),
{
    let n = eta.number();
    lemma_bit_count_range(bytes, 2 * n * i, n);
    lemma_bit_count_range(bytes, 2 * n * i + n, n);
}

/// The bits that a coefficient is made of at `eta = 2`.
proof fn lemma_binomial_two(bytes: Seq<u8>, i: int)
    ensures
        binomial(Eta::Two, bytes, i) == bit(bytes, 4 * i) + bit(bytes, 4 * i + 1) - bit(
            bytes,
            4 * i + 2,
        ) - bit(bytes, 4 * i + 3),
{
    let n = Eta::Two.number();
    assert(2 * n * i == 4 * i) by (nonlinear_arith)
        requires
            n == 2,
    ;
    reveal_with_fuel(bit_count, 3);
}

/// The bits that a coefficient is made of at `eta = 3`.
proof fn lemma_binomial_three(bytes: Seq<u8>, i: int)
    ensures
        binomial(Eta::Three, bytes, i) == bit(bytes, 6 * i) + bit(bytes, 6 * i + 1) + bit(
            bytes,
            6 * i + 2,
        ) - bit(bytes, 6 * i + 3) - bit(bytes, 6 * i + 4) - bit(bytes, 6 * i + 5),
{
    let n = Eta::Three.number();
    assert(2 * n * i == 6 * i) by (nonlinear_arith)
        requires
            n == 3,
    ;
    reveal_with_fuel(bit_count, 4);
}

/// A coefficient is the sum of `eta` bits minus the sum of the next `eta`, the
/// least significant bit of every byte first.
pub proof fn law_binomial_bits(bytes: Seq<u8>, i: int)
    requires
        0 <= i < 256,
    ensures
        ({
            let at = |n: int| ((bytes[n / 8] >> ((n % 8) as u8)) & 1) as int;
            &&& cbd_spec(Eta::Two, bytes).len() == 256
            &&& cbd_spec(Eta::Two, bytes)[i] == residue(
                at(4 * i) + at(4 * i + 1) - at(4 * i + 2) - at(4 * i + 3),
            )
            &&& cbd_spec(Eta::Three, bytes)[i] == residue(
                at(6 * i) + at(6 * i + 1) + at(6 * i + 2) - at(6 * i + 3) - at(6 * i + 4) - at(
                    6 * i + 5,
                ),
            )
        }),
{
    lemma_binomial_two(bytes, i);
    lemma_binomial_three(bytes, i);
}

/// Bytes without a set bit give the zero element.
pub proof fn law_binomial_zero(eta: Eta, bytes: Seq<u8>)
    requires
        bytes.len() == 64 * eta.number(),
        forall|i: int| 0 <= i < bytes.len() ==> #[trigger] bytes[i] == 0,
    ensures
        cbd_spec(eta, bytes) == Seq::new(256, |i: int| 0int),
{
    assert forall|i: int| 0 <= i < 256 implies cbd_spec(eta, bytes)[i] == 0 by {
        lemma_binomial_two(bytes, i);
        lemma_binomial_three(bytes, i);
        assert forall|n: int| 0 <= n < 8 * bytes.len() implies #[trigger] bit(bytes, n) == 0 by {
            assert(bytes[n / 8] == 0);
            let r = (n % 8) as u8;
            assert((0u8 >> r) & 1 == 0) by (bit_vector);
        }
    }
    assert(cbd_spec(eta, bytes) =~= Seq::new(256, |i: int| 0int));
}

/// The byte of a four-byte word that holds bit `n`.
spec fn word_byte(b0: u8, b1: u8, b2: u8, b3: u8, n: u32) -> u8 {
    if n < 8 {
        b0
    } else if n < 16 {
        b1
    } else if n < 24 {
        b2
    } else {
        b3
    }
}

/// The bits of a word are the bits of its bytes.
proof fn lemma_word_bit(b0: u8, b1: u8, b2: u8, b3: u8, t: u32, n: u32)
    by (bit_vector)
    requires
        n < 32,
        t == b0 as u32 | (b1 as u32) << 8 | (b2 as u32) << 16 | (b3 as u32) << 24,
    ensures
        (t >> n) & 1 == (word_byte(b0, b1, b2, b3, n) >> ((n % 8) as u8)) & 1,
{
}

/// Adding a word to its shifted copy counts the bits of every pair.
proof fn lemma_pair(t: u32, sums: u32, p: u32)
    by (bit_vector)
    requires
        p % 2 == 0,
        p < 32,
        sums == (t & 0x5555_5555) + ((t >> 1) & 0x5555_5555),
    ensures
        (sums >> p) & 3 <= 2,
        (sums >> p) & 3 == ((t >> p) & 1) + ((t >> (p + 1) as u32) & 1),
{
}

/// Adding a word to its two shifted copies counts the bits of every triple.
proof fn lemma_triple(t: u32, sums: u32, p: u32)
    by (bit_vector)
    requires
        p % 3 == 0,
        p < 24,
        sums == (t & 0x0024_9249) + ((t >> 1) & 0x0024_9249) + ((t >> 2) & 0x0024_9249),
    ensures
        (sums >> p) & 7 <= 3,
        (sums >> p) & 7 == ((t >> p) & 1) + ((t >> (p + 1) as u32) & 1) + ((t >> (p + 2) as u32)
            & 1),
{
}

proof fn lemma_masked(t: u32)
    by (bit_vector)
    ensures
        t & 0x5555_5555 <= 0x5555_5555,
        t & 0x0024_9249 <= 0x0024_9249,
{
}

/// Bit `n` of the word at byte `start` of a list.
proof fn lemma_list_bit(bytes: Seq<u8>, start: int, b3: u8, t: u32, n: u32)
    requires
        0 <= start,
        n < 24 || (n < 32 && start + 3 < bytes.len() && b3 == bytes[start + 3]),
        start + 2 < bytes.len(),
        t == bytes[start] as u32 | (bytes[start + 1] as u32) << 8 | (bytes[start + 2] as u32) << 16
            | (b3 as u32) << 24,
    ensures
        (t >> n) & 1 == bit(bytes, 8 * start + n),
{
    lemma_word_bit(bytes[start], bytes[start + 1], bytes[start + 2], b3, t, n);
    assert((8 * start + n) / 8 == start + n / 8);
    assert((8 * start + n) % 8 == (n % 8) as int);
}

/// The coefficient that the counted bits of a word of four bytes yield.
proof fn lemma_word_two(bytes: Seq<u8>, w: int, t: u32, sums: u32, j: u32)
    requires
        0 <= w,
        4 * w + 3 < bytes.len(),
        j < 8,
        t == bytes[4 * w] as u32 | (bytes[4 * w + 1] as u32) << 8 | (bytes[4 * w + 2] as u32) << 16
            | (bytes[4 * w + 3] as u32) << 24,
        sums == (t & 0x5555_5555) + ((t >> 1) & 0x5555_5555),
    ensures
        (sums >> (4 * j)) & 3 <= 2,
        (sums >> (4 * j + 2)) & 3 <= 2,
        ((sums >> (4 * j)) & 3) - ((sums >> (4 * j + 2)) & 3) == binomial(
            Eta::Two,
            bytes,
            8 * w + j,
        ),
{
    let p = (4 * j) as u32;
    let last = bytes[4 * w + 3];
    lemma_pair(t, sums, p);
    lemma_pair(t, sums, (p + 2) as u32);
    lemma_list_bit(bytes, 4 * w, last, t, p);
    lemma_list_bit(bytes, 4 * w, last, t, (p + 1) as u32);
    lemma_list_bit(bytes, 4 * w, last, t, (p + 2) as u32);
    lemma_list_bit(bytes, 4 * w, last, t, (p + 3) as u32);
    lemma_binomial_two(bytes, 8 * w + j);
}

/// The coefficient that the counted bits of a word of three bytes yield.
proof fn lemma_word_three(bytes: Seq<u8>, w: int, t: u32, sums: u32, j: u32)
    requires
        0 <= w,
        3 * w + 2 < bytes.len(),
        j < 4,
        t == bytes[3 * w] as u32 | (bytes[3 * w + 1] as u32) << 8 | (bytes[3 * w + 2] as u32) << 16
            | (0u8 as u32) << 24,
        sums == (t & 0x0024_9249) + ((t >> 1) & 0x0024_9249) + ((t >> 2) & 0x0024_9249),
    ensures
        (sums >> (6 * j)) & 7 <= 3,
        (sums >> (6 * j + 3)) & 7 <= 3,
        ((sums >> (6 * j)) & 7) - ((sums >> (6 * j + 3)) & 7) == binomial(
            Eta::Three,
            bytes,
            4 * w + j,
        ),
{
    let p = (6 * j) as u32;
    lemma_triple(t, sums, p);
    lemma_triple(t, sums, (p + 3) as u32);
    lemma_list_bit(bytes, 3 * w, 0, t, p);
    lemma_list_bit(bytes, 3 * w, 0, t, (p + 1) as u32);
    lemma_list_bit(bytes, 3 * w, 0, t, (p + 2) as u32);
    lemma_list_bit(bytes, 3 * w, 0, t, (p + 3) as u32);
    lemma_list_bit(bytes, 3 * w, 0, t, (p + 4) as u32);
    lemma_list_bit(bytes, 3 * w, 0, t, (p + 5) as u32);
    lemma_binomial_three(bytes, 4 * w + j);
}

impl RqElement {
    /// Draws an element from the centered binomial distribution.
    ///
    /// Reads `64 * eta` bytes as a list of bits; coefficient `i` is the
    /// difference of two sums of `eta` consecutive bits.
    pub fn sample_cbd(eta: Eta, bytes: &[u8]) -> (r: Self)
        requires
            bytes@.len() == 64 * eta.number(),
        ensures
            r@ == cbd_spec(eta, bytes@),
            r.bounded(3),
    {
        match eta {
            Eta::Two => Self::sample_cbd_eta2(bytes),
            Eta::Three => Self::sample_cbd_eta3(bytes),
        }
    }

    /// [`RqElement::sample_cbd`] at `eta = 2`: every word of four bytes yields
    /// eight coefficients.
    fn sample_cbd_eta2(bytes: &[u8]) -> (r: Self)
        requires
            bytes@.len() == 128,
        ensures
            r@ == cbd_spec(Eta::Two, bytes@),
            r.bounded(3),
    {
        let mut coefficients: [FieldElement; 256] = zeros();
        let mut w: usize = 0;
        while w < 32
            invariant
                w <= 32,
                bytes@.len() == 128,
                forall|i: int|
                    0 <= i < 8 * w ==> (#[trigger] coefficients@[i]).rep() == binomial(
                        Eta::Two,
                        bytes@,
                        i,
                    ),
            decreases 32 - w,
        {
            let t: u32 = bytes[4 * w] as u32 | (bytes[4 * w + 1] as u32) << 8 | (bytes[4 * w
                + 2] as u32) << 16 | (bytes[4 * w + 3] as u32) << 24;
            proof {
                lemma_masked(t);
                lemma_masked(t >> 1);
            }
            let sums: u32 = (t & 0x5555_5555) + ((t >> 1) & 0x5555_5555);
            let mut j: usize = 0;
            while j < 8
                invariant
                    w < 32,
                    j <= 8,
                    bytes@.len() == 128,
                    t == bytes@[4 * w as int] as u32 | (bytes@[4 * w + 1] as u32) << 8 | (bytes@[4
                        * w + 2] as u32) << 16 | (bytes@[4 * w + 3] as u32) << 24,
                    sums == (t & 0x5555_5555) + ((t >> 1) & 0x5555_5555),
                    forall|i: int|
                        0 <= i < 8 * w + j ==> (#[trigger] coefficients@[i]).rep() == binomial(
                            Eta::Two,
                            bytes@,
                            i,
                        ),
                decreases 8 - j,
            {
                let a: u32 = (sums >> (4 * j)) & 0x3;
                let b: u32 = (sums >> (4 * j + 2)) & 0x3;
                proof {
                    lemma_word_two(bytes@, w as int, t, sums, j as u32);
                    assert(a - b == binomial(Eta::Two, bytes@, 8 * w + j));
                }
                coefficients[8 * w + j] = FieldElement::from(a as u16) - FieldElement::from(
                    b as u16,
                );
                j = j + 1;
            }
            w = w + 1;
        }
        Self::from_binomial(coefficients, Ghost(Eta::Two), Ghost(bytes@))
    }

    /// [`RqElement::sample_cbd`] at `eta = 3`: every word of three bytes yields
    /// four coefficients.
    fn sample_cbd_eta3(bytes: &[u8]) -> (r: Self)
        requires
            bytes@.len() == 192,
        ensures
            r@ == cbd_spec(Eta::Three, bytes@),
            r.bounded(3),
    {
        let mut coefficients: [FieldElement; 256] = zeros();
        let mut w: usize = 0;
        while w < 64
            invariant
                w <= 64,
                bytes@.len() == 192,
                forall|i: int|
                    0 <= i < 4 * w ==> (#[trigger] coefficients@[i]).rep() == binomial(
                        Eta::Three,
                        bytes@,
                        i,
                    ),
            decreases 64 - w,
        {
            let t: u32 = bytes[3 * w] as u32 | (bytes[3 * w + 1] as u32) << 8 | (bytes[3 * w
                + 2] as u32) << 16 | (0u8 as u32) << 24;
            proof {
                lemma_masked(t);
                lemma_masked(t >> 1);
                lemma_masked(t >> 2);
            }
            let sums: u32 = (t & 0x0024_9249) + ((t >> 1) & 0x0024_9249) + ((t >> 2)
                & 0x0024_9249);
            let mut j: usize = 0;
            while j < 4
                invariant
                    w < 64,
                    j <= 4,
                    bytes@.len() == 192,
                    t == bytes@[3 * w as int] as u32 | (bytes@[3 * w + 1] as u32) << 8 | (bytes@[3
                        * w + 2] as u32) << 16 | (0u8 as u32) << 24,
                    sums == (t & 0x0024_9249) + ((t >> 1) & 0x0024_9249) + ((t >> 2) & 0x0024_9249),
                    forall|i: int|
                        0 <= i < 4 * w + j ==> (#[trigger] coefficients@[i]).rep() == binomial(
                            Eta::Three,
                            bytes@,
                            i,
                        ),
                decreases 4 - j,
            {
                let a: u32 = (sums >> (6 * j)) & 0x7;
                let b: u32 = (sums >> (6 * j + 3)) & 0x7;
                proof {
                    lemma_word_three(bytes@, w as int, t, sums, j as u32);
                    assert(a - b == binomial(Eta::Three, bytes@, 4 * w + j));
                }
                coefficients[4 * w + j] = FieldElement::from(a as u16) - FieldElement::from(
                    b as u16,
                );
                j = j + 1;
            }
            w = w + 1;
        }
        Self::from_binomial(coefficients, Ghost(Eta::Three), Ghost(bytes@))
    }

    /// The element whose coefficients have been sampled.
    fn from_binomial(
        coefficients: [FieldElement; 256],
        Ghost(eta): Ghost<Eta>,
        Ghost(bytes): Ghost<Seq<u8>>,
    ) -> (r: Self)
        requires
            forall|i: int|
                0 <= i < 256 ==> (#[trigger] coefficients@[i]).rep() == binomial(eta, bytes, i),
        ensures
            r@ == cbd_spec(eta, bytes),
            r.bounded(3),
    {
        let r: RqElement = RqElement::new(coefficients);
        proof {
            assert forall|i: int| 0 <= i < 256 implies (#[trigger] r.elements()[i]).bounded(3)
                && r@[i] == cbd_spec(eta, bytes)[i] by {
                assert(r.elements()[i] == coefficients@[i]);
                law_binomial_range(eta, bytes, i);
            }
            assert(r@ =~= cbd_spec(eta, bytes));
        }
        r
    }
}

} // verus!
