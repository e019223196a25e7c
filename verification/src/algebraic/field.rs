//! The prime field of integers modulo `q = 3329`.
//!
//! An element is held as a signed 16-bit representative of its residue class,
//! not necessarily the canonical one. Multiplication is Montgomery
//! multiplication with `R = 2^16`: the product of `a` and `b` stands for
//! `a * b * R^-1`. The operations neither branch on nor divide by the values
//! they work on.

use core::ops::{Add, Mul, Neg, Sub};

use vstd::arithmetic::div_mod::{lemma_fundamental_div_mod, lemma_mod_bound};
use vstd::arithmetic::power2::{lemma2_to64, lemma_pow2_unfold, pow2};
use vstd::bits::{lemma_u32_low_bits_mask_is_mod, lemma_u32_shl_is_mul, lemma_u32_shr_is_div};
use vstd::prelude::*;
use vstd::wrapping::i16_specs;
use vstd::wrapping::i16_specs::signed_crop;

use super::modular::{
    lemma_pow2_at_most, lemma_residue_add, lemma_residue_mul, lemma_residue_shift,
    lemma_residue_sub, lemma_round_div, lemma_round_div_unique, mont_r, mont_r_inverse, residue,
    round_div,
};
use crate::wipe::wipe_word;

verus! {

/// The modulus as a signed integer.
const Q: i16 = 3329;

/// The inverse of `q` modulo `2^16`, as a signed integer.
const QINV: i16 = -3327;

/// `2^26 / q` rounded, the multiplier of the Barrett reduction.
const BARRETT_V: i32 = 20159;

/// `2^33 / q` rounded up, the multiplier of the division by `q`.
const BARRETT_DIV_Q: u64 = 2_580_335;

/// An element of the field, held as a representative of its residue class.
#[derive(Clone, Copy, Debug)]
pub struct FieldElement(i16);

impl View for FieldElement {
    type V = int;

    /// The canonical representative.
    open spec fn view(&self) -> int {
        residue(self.rep())
    }
}

proof fn lemma_shr_26(x: i32)
    by (bit_vector)
    ensures
        (x >> 26) * 0x400_0000 <= x,
        x < (x >> 26) * 0x400_0000 + 0x400_0000,
{
}

proof fn lemma_shr_16(x: i32)
    by (bit_vector)
    ensures
        (x >> 16) * 0x1_0000 <= x,
        x < (x >> 16) * 0x1_0000 + 0x1_0000,
{
}

proof fn lemma_shr_15(x: i32)
    by (bit_vector)
    ensures
        (x >> 15) * 0x8000 <= x,
        x < (x >> 15) * 0x8000 + 0x8000,
{
}

proof fn lemma_shr_33(x: u64)
    by (bit_vector)
    ensures
        x >> 33 == x / 0x2_0000_0000,
{
}

proof fn lemma_sign_mask(r: i16)
    by (bit_vector)
    ensures
        (r >> 15) & 3329i16 == if r < 0 {
            3329i16
        } else {
            0i16
        },
{
}

/// The signed sixteen-bit factor `m` with `m * q` and `a` equal modulo `2^16`.
pub open spec fn montgomery_factor(a: int) -> int {
    signed_crop(signed_crop(a) * -3327) as int
}

/// The representative that Montgomery reduction takes `a` to.
pub open spec fn montgomery_spec(a: int) -> int {
    (a - montgomery_factor(a) * 3329) / 0x1_0000
}

/// The low sixteen bits of `x`, and those of `-3327 * x`, cancel `x` modulo
/// `2^16` once multiplied by `q`.
proof fn lemma_montgomery_factor(x: i32, m: i16)
    requires
        m == i16_specs::wrapping_mul(x as i16, -3327i16),
    ensures
        m == montgomery_factor(x as int),
        (x - m * 3329) % 0x1_0000 == 0,
{
    let low = x as i16;
    assert((x - low) % 0x1_0000 == 0) by (bit_vector)
        requires
            low == x as i16,
    ;
    assert(low == signed_crop(x as int));
    let product = low * -3327;
    let k = product / 0x1_0000;
    assert(m == product - k * 0x1_0000 || m == product - (k + 1) * 0x1_0000);
    let j = (x - low) / 0x1_0000;
    assert(x == low + j * 0x1_0000);
    if m == product - k * 0x1_0000 {
        assert(x - m * 3329 == (j + low * 169 + k * 3329) * 0x1_0000);
    } else {
        assert(x - m * 3329 == (j + low * 169 + (k + 1) * 3329) * 0x1_0000);
    }
}

/// A difference that fits sixteen bits is exact in wrapping arithmetic.
proof fn lemma_wrapping_difference(x: int, y: int, low: i16, high: i16, r: i16)
    requires
        low == signed_crop(x),
        high == signed_crop(y),
        r == i16_specs::wrapping_sub(low, high),
        within(x - y, 32767),
    ensures
        r == x - y,
{
    let k = x / 0x1_0000;
    let l = y / 0x1_0000;
    assert(low == x - k * 0x1_0000 || low == x - (k + 1) * 0x1_0000);
    assert(high == y - l * 0x1_0000 || high == y - (l + 1) * 0x1_0000);
}

/// The compression of the residue `x` to `d` bits.
pub open spec fn compress_spec(x: int, d: nat) -> int {
    round_div(pow2(d) * x, 3329) % (pow2(d) as int)
}

/// The residue that the `d`-bit value `y` decompresses to.
pub open spec fn decompress_spec(y: int, d: nat) -> int {
    residue(round_div(3329 * y, pow2(d) as int))
}

/// Whether `x` is at most `bound` in magnitude.
pub open spec fn within(x: int, bound: int) -> bool {
    -bound <= x <= bound
}

/// A product is at most the product of the bounds of its factors.
pub proof fn lemma_product_bound(x: int, bx: int, y: int, by: int)
    requires
        within(x, bx),
        within(y, by),
    ensures
        within(x * y, bx * by),
{
    assert(-(bx * by) <= x * y <= bx * by) by (nonlinear_arith)
        requires
            -bx <= x <= bx,
            -by <= y <= by,
    ;
}

/// The remainder left by the estimated quotient of a multiplication by a
/// constant is small.
proof fn lemma_barrett_const(a: int, b: int, b_bar: int, t: int)
    requires
        within(a, 32768),
        0 <= b < 3329,
        b_bar == round_div(b * 0x8000, 3329),
        t * 0x8000 <= a * b_bar + 0x4000 < t * 0x8000 + 0x8000,
    ensures
        within(a * b - t * 3329, 3328),
        forall|x: int|
            0 <= x && within(a, x) ==> #[trigger] within(a * b - t * 3329, x * 1664 / 0x8000 + 1665),
{
    // The defect of the constant, at most half of q.
    let delta = 0x8000 * b - 3329 * b_bar;
    lemma_round_div(b * 0x8000, 3329);
    assert(within(delta, 1664));
    let exact = a * b - t * 3329;
    assert(0x8000 * exact == a * delta + 3329 * (a * b_bar - 0x8000 * t)) by (nonlinear_arith)
        requires
            exact == a * b - t * 3329,
            delta == 0x8000 * b - 3329 * b_bar,
    ;
    lemma_product_bound(a, 32768, delta, 1664);
    assert forall|x: int| 0 <= x && within(a, x) implies #[trigger] within(
        exact,
        x * 1664 / 0x8000 + 1665,
    ) by {
        lemma_product_bound(a, x, delta, 1664);
    }
}

impl FieldElement {
    /// The stored representative.
    pub closed spec fn rep(self) -> int {
        self.0 as int
    }

    /// Whether the stored representative is at most `bound` in magnitude.
    pub open spec fn bounded(self, bound: int) -> bool {
        within(self.rep(), bound)
    }

    /// A representative fits sixteen bits.
    pub proof fn lemma_rep_range(self)
        ensures
            i16::MIN <= self.rep() <= i16::MAX,
    {
    }

    /// The additive identity.
    #[inline]
    pub fn zero() -> (r: Self)
        ensures
            r.rep() == 0,
    {
        FieldElement(0)
    }

    /// The element of an integer, held by its canonical representative.
    ///
    /// The quotient by `q` is a multiplication and a shift, exact for every
    /// 16-bit input.
    #[inline]
    pub fn new(value: u16) -> (r: Self)
        ensures
            r.rep() == value % 3329,
    {
        let v: u64 = value as u64;
        let quotient: u64 = (v * BARRETT_DIV_Q) >> 33;
        proof {
            lemma_shr_33((v * BARRETT_DIV_Q) as u64);
            assert(quotient == v / 3329);
        }
        FieldElement((v - quotient * 3329) as i16)
    }

    /// The canonical representative, in `0..q`.
    #[inline]
    pub fn value(self) -> (r: u16)
        ensures
            r == self@,
    {
        let r: i16 = Self::barrett(self.0);
        proof {
            lemma_sign_mask(r);
        }
        // The mask is q for a negative r and zero for any other.
        (r + ((r >> 15) & Q)) as u16
    }

    /// The representative of least magnitude, at most `(q - 1) / 2`.
    #[inline]
    pub fn reduce(self) -> (r: Self)
        ensures
            r@ == self@,
            r.bounded(1664),
    {
        FieldElement(Self::barrett(self.0))
    }

    /// Multiplies by `R`.
    ///
    /// Base multiplication leaves products scaled by `R^-1`; this restores
    /// them.
    #[inline]
    pub fn to_montgomery(self) -> (r: Self)
        ensures
            r@ == residue(self@ * mont_r()),
            r.bounded(2341),
    {
        // 1353 is R^2 modulo q.
        let product: i32 = self.0 as i32 * 1353;
        let r: i16 = Self::montgomery_reduce(product);
        proof {
            let x = self.rep();
            lemma_residue_mul(self@, x, mont_r(), mont_r());
            assert(within(r as int, 677int + 1664));
            assert(residue(x * 1353 * 169) == residue(x * 2285)) by {
                lemma_residue_shift(x * 1353 * 169, x * 2285, x * 68);
            }
        }
        FieldElement(r)
    }

    /// The element with the given representative.
    #[inline]
    pub fn from_montgomery_table(value: i16) -> (r: Self)
        ensures
            r.rep() == value,
    {
        FieldElement(value)
    }

    /// The Montgomery form of each of 128 constants.
    pub fn montgomery_table(raw: [u16; 128]) -> (r: [Self; 128])
        ensures
            forall|i: int|
                0 <= i < 128 ==> (#[trigger] r@[i])@ == residue(raw@[i] * mont_r()) && r@[i].bounded(
                    2341,
                ),
    {
        let mut table: [Self; 128] = [Self::zero(); 128];
        let mut i: usize = 0;
        while i < 128
            invariant
                i <= 128,
                forall|k: int|
                    0 <= k < i ==> (#[trigger] table@[k])@ == residue(raw@[k] * mont_r())
                        && table@[k].bounded(2341),
            decreases 128 - i,
        {
            table[i] = Self::new(raw[i]).to_montgomery();
            proof {
                lemma_residue_mul(
                    residue(raw@[i as int] as int),
                    raw@[i as int] as int,
                    mont_r(),
                    mont_r(),
                );
            }
            i = i + 1;
        }
        table
    }

    /// Overwrites the element with zero.
    pub fn zeroize(&mut self)
        ensures
            final(self).rep() == 0,
        opens_invariants none
        no_unwind
    {
        wipe_word(&mut self.0);
    }

    /// The stored representative.
    #[inline]
    pub fn representative(self) -> (r: i16)
        ensures
            r == self.rep(),
    {
        self.0
    }

    /// The exact product of two representatives.
    #[inline]
    pub(crate) fn widening_mul(self, rhs: Self) -> (r: i32)
        ensures
            r == self.rep() * rhs.rep(),
            within(r as int, 0x4000_0000),
    {
        proof {
            lemma_product_bound(self.rep(), 32768, rhs.rep(), 32768);
        }
        self.0 as i32 * rhs.0 as i32
    }

    /// The Montgomery reduction of a sum of products: its class times `R^-1`.
    #[inline]
    pub(crate) fn from_product_sum(sum: i32) -> (r: Self)
        requires
            -0x4000_0000 <= sum <= 0x4000_0000,
        ensures
            r@ == residue(sum * mont_r_inverse()),
            forall|b: int|
                0 <= b && -0x1_0000 * b <= sum <= 0x1_0000 * b ==> #[trigger] r.bounded(b + 1664),
    {
        FieldElement(Self::montgomery_reduce(sum))
    }

    /// Multiplies by a constant `b` of `0..q`, given with `b_bar`, the integer
    /// nearest to `b * 2^15 / q`.
    ///
    /// The quotient by `q` is estimated by a rounding high multiplication, and
    /// the remainder is exact in sixteen bits.
    #[inline]
    pub fn barrett_const_mul(self, b: i16, b_bar: i16) -> (r: Self)
        requires
            0 <= b < 3329,
            b_bar == round_div(b * 0x8000, 3329),
        ensures
            r@ == residue(self@ * b),
            r.bounded(3328),
            forall|x: int| 0 <= x && self.bounded(x) ==> #[trigger] r.bounded(x * 1664 / 0x8000 + 1665),
    {
        let a: i16 = self.0;
        proof {
            lemma_round_div(b * 0x8000, 3329);
            lemma_product_bound(a as int, 32768, b_bar as int, 32759);
        }
        let high: i32 = (a as i32 * b_bar as i32 + 0x4000) >> 15;
        proof {
            lemma_shr_15((a as i32 * b_bar as i32 + 0x4000) as i32);
            lemma_barrett_const(a as int, b as int, b_bar as int, high as int);
        }
        let t: i16 = high as i16;
        let low: i16 = a.wrapping_mul(b);
        let r: i16 = low.wrapping_sub(t.wrapping_mul(Q));
        proof {
            let exact = a * b - high * 3329;
            lemma_wrapping_difference(a * b, high * 3329, low, t.wrapping_mul(Q), r);
            lemma_residue_mul(self@, a as int, b as int, b as int);
            lemma_residue_shift(a * b, exact, high as int);
        }
        FieldElement(r)
    }

    /// Maps the element to `d` bits: the integer nearest to `2^d * x / q`,
    /// modulo `2^d`.
    #[inline]
    pub fn compress(self, d: usize) -> (r: u16)
        requires
            d <= 12,
        ensures
            r == compress_spec(self@, d as nat),
    {
        let value: u16 = self.value();
        proof {
            lemma2_to64();
            lemma_pow2_at_most(d as nat, 12);
            lemma_product_bound(value as int, 3328, pow2(d as nat) as int, 4096);
            lemma_u32_shl_is_mul(value as u32, d as u32);
            lemma_u32_shl_is_mul(1, d as u32);
        }
        let numerator: u32 = ((value as u32) << d) + 1664;
        let quotient: u32 = ((numerator as u64 * BARRETT_DIV_Q) >> 33) as u32;
        let mask: u32 = (1u32 << d) - 1;
        proof {
            lemma_shr_33((numerator as u64 * BARRETT_DIV_Q) as u64);
            let n = pow2(d as nat) * self@;
            assert(n == value * pow2(d as nat)) by (nonlinear_arith)
                requires
                    n == pow2(d as nat) * self@,
                    value == self@,
            ;
            lemma_round_div_unique(n, 3329, quotient as int);
            lemma_u32_low_bits_mask_is_mod(quotient, d as nat);
        }
        (quotient & mask) as u16
    }

    /// Maps a `d`-bit value back to the field: the integer nearest to
    /// `q * y / 2^d`.
    #[inline]
    pub fn decompress(value: u16, d: usize) -> (r: Self)
        requires
            1 <= d <= 31,
            value < pow2(d as nat),
        ensures
            r.rep() == decompress_spec(value as int, d as nat),
    {
        proof {
            lemma2_to64();
            lemma_pow2_at_most((d - 1) as nat, 30);
            lemma_pow2_unfold(d as nat);
            lemma_u32_shl_is_mul(1, (d - 1) as u32);
        }
        let half: u32 = 1u32 << (d - 1);
        let numerator: u32 = 3329 * value as u32 + half;
        let quotient: u32 = numerator >> d;
        proof {
            let m = pow2(d as nat) as int;
            lemma_u32_shr_is_div(numerator, d as u32);
            lemma_fundamental_div_mod(numerator as int, m);
            lemma_mod_bound(numerator as int, m);
            assert(2 * m * quotient == 2 * (m * quotient)) by (nonlinear_arith);
            lemma_round_div_unique(3329 * value, m, quotient as int);
            assert(quotient <= 3329) by (nonlinear_arith)
                requires
                    m * quotient <= 3329 * value + half,
                    value < m,
                    2 * half == m,
                    m >= 2,
            ;
        }
        Self::new(quotient as u16)
    }

    /// The product in the canonical domain, by plain integer arithmetic.
    pub fn mul_reference(self, rhs: Self) -> (r: Self)
        ensures
            r.rep() == residue(self@ * rhs@),
    {
        let a: u16 = self.value();
        let b: u16 = rhs.value();
        proof {
            lemma_product_bound(a as int, 3328, b as int, 3328);
            assert(a * b >= 0) by (nonlinear_arith)
                requires
                    a >= 0,
                    b >= 0,
            ;
        }
        let product: u32 = a as u32 * b as u32;
        Self::new((product % 3329) as u16)
    }

    /// Barrett reduction to the representative of least magnitude.
    #[inline]
    fn barrett(a: i16) -> (r: i16)
        ensures
            residue(r as int) == residue(a as int),
            -1664 <= r <= 1664,
    {
        let t: i32 = (BARRETT_V * a as i32 + 0x200_0000) >> 26;
        proof {
            lemma_shr_26((BARRETT_V * a as i32 + 0x200_0000) as i32);
        }
        let r: i16 = a.wrapping_sub((t as i16).wrapping_mul(Q));
        proof {
            assert(-1664 <= a - t * 3329 <= 1664);
            assert(-10 <= t <= 10);
            assert(r == a - t * 3329);
            lemma_residue_shift(a as int, r as int, t as int);
        }
        r
    }

    /// Montgomery reduction: the class of `a * R^-1`.
    #[inline]
    fn montgomery_reduce(a: i32) -> (r: i16)
        requires
            -0x4000_0000 <= a <= 0x4000_0000,
        ensures
            r == montgomery_spec(a as int),
            residue(r as int) == residue(a * mont_r_inverse()),
            forall|b: int|
                0 <= b && -0x1_0000 * b <= a <= 0x1_0000 * b ==> #[trigger] within(
                    r as int,
                    b + 1664,
                ),
    {
        let m: i16 = (a as i16).wrapping_mul(QINV);
        let difference: i32 = a - m as i32 * Q as i32;
        let r: i32 = difference >> 16;
        proof {
            lemma_montgomery_factor(a, m);
            lemma_shr_16(difference);
            assert(r * 0x1_0000 == a - m * 3329);
            lemma_residue_shift(a * 169, r as int, m * 169 + r * 3327);
        }
        r as i16
    }
}

impl Add for FieldElement {
    type Output = Self;

    /// The sum of the representatives, which must fit sixteen bits.
    #[inline]
    fn add(self, rhs: Self) -> (r: Self)
        ensures
            r.rep() == self.rep() + rhs.rep(),
            r@ == residue(self@ + rhs@),
    {
        proof {
            lemma_residue_add(self@, self.rep(), rhs@, rhs.rep());
        }
        FieldElement(self.0 + rhs.0)
    }
}

impl vstd::std_specs::ops::AddSpecImpl for FieldElement {
    open spec fn obeys_add_spec() -> bool {
        true
    }

    open spec fn add_req(self, rhs: Self) -> bool {
        i16::MIN <= self.rep() + rhs.rep() <= i16::MAX
    }

    closed spec fn add_spec(self, rhs: Self) -> Self {
        FieldElement((self.0 + rhs.0) as i16)
    }
}

impl Sub for FieldElement {
    type Output = Self;

    /// The difference of the representatives, which must fit sixteen bits.
    #[inline]
    fn sub(self, rhs: Self) -> (r: Self)
        ensures
            r.rep() == self.rep() - rhs.rep(),
            r@ == residue(self@ - rhs@),
    {
        proof {
            lemma_residue_sub(self@, self.rep(), rhs@, rhs.rep());
        }
        FieldElement(self.0 - rhs.0)
    }
}

impl vstd::std_specs::ops::SubSpecImpl for FieldElement {
    open spec fn obeys_sub_spec() -> bool {
        true
    }

    open spec fn sub_req(self, rhs: Self) -> bool {
        i16::MIN <= self.rep() - rhs.rep() <= i16::MAX
    }

    closed spec fn sub_spec(self, rhs: Self) -> Self {
        FieldElement((self.0 - rhs.0) as i16)
    }
}

impl Neg for FieldElement {
    type Output = Self;

    /// The negated representative, which must fit sixteen bits.
    #[inline]
    fn neg(self) -> (r: Self)
        ensures
            r.rep() == -self.rep(),
            r@ == residue(-self@),
    {
        FieldElement(-self.0)
    }
}

impl vstd::std_specs::ops::NegSpecImpl for FieldElement {
    open spec fn obeys_neg_spec() -> bool {
        true
    }

    open spec fn neg_req(self) -> bool {
        i16::MIN < self.rep()
    }

    closed spec fn neg_spec(self) -> Self {
        FieldElement((-self.0) as i16)
    }
}

impl Mul for FieldElement {
    type Output = Self;

    /// Montgomery multiplication: the class of `a * b * R^-1`.
    #[inline]
    fn mul(self, rhs: Self) -> (r: Self)
        ensures
            r@ == residue(self@ * rhs@ * mont_r_inverse()),
            forall|b: int|
                0 <= b && within(self.rep() * rhs.rep(), 0x1_0000 * b) ==> #[trigger] r.bounded(
                    b + 1664,
                ),
    {
        let product: i32 = self.widening_mul(rhs);
        let r: i16 = Self::montgomery_reduce(product);
        proof {
            lemma_residue_mul(self@, self.rep(), rhs@, rhs.rep());
            lemma_residue_mul(
                self@ * rhs@,
                self.rep() * rhs.rep(),
                mont_r_inverse(),
                mont_r_inverse(),
            );
        }
        FieldElement(r)
    }
}

impl vstd::std_specs::ops::MulSpecImpl for FieldElement {
    open spec fn obeys_mul_spec() -> bool {
        true
    }

    open spec fn mul_req(self, rhs: Self) -> bool {
        true
    }

    closed spec fn mul_spec(self, rhs: Self) -> Self {
        FieldElement(montgomery_spec(self.0 * rhs.0) as i16)
    }
}

impl PartialEq for FieldElement {
    /// Elements are equal when their canonical representatives are.
    #[inline]
    fn eq(&self, other: &Self) -> (r: bool) {
        self.value() == other.value()
    }
}

impl vstd::std_specs::cmp::PartialEqSpecImpl for FieldElement {
    open spec fn obeys_eq_spec() -> bool {
        true
    }

    open spec fn eq_spec(&self, other: &Self) -> bool {
        self@ == other@
    }
}

impl Eq for FieldElement {

}

impl From<u8> for FieldElement {
    #[inline]
    fn from(value: u8) -> (r: Self)
        ensures
            r.rep() == value,
    {
        Self::new(value as u16)
    }
}

impl vstd::std_specs::convert::FromSpecImpl<u8> for FieldElement {
    open spec fn obeys_from_spec() -> bool {
        true
    }

    closed spec fn from_spec(v: u8) -> Self {
        FieldElement(v as i16)
    }
}

impl From<u16> for FieldElement {
    #[inline]
    fn from(value: u16) -> (r: Self)
        ensures
            r.rep() == value % 3329,
    {
        Self::new(value)
    }
}

impl vstd::std_specs::convert::FromSpecImpl<u16> for FieldElement {
    open spec fn obeys_from_spec() -> bool {
        true
    }

    closed spec fn from_spec(v: u16) -> Self {
        FieldElement((v % 3329) as i16)
    }
}

impl From<FieldElement> for u16 {
    #[inline]
    fn from(value: FieldElement) -> (r: u16) {
        value.value()
    }
}

impl vstd::std_specs::convert::FromSpecImpl<FieldElement> for u16 {
    open spec fn obeys_from_spec() -> bool {
        true
    }

    open spec fn from_spec(v: FieldElement) -> u16 {
        v@ as u16
    }
}

/// Subtracting what was added gives the element back.
pub proof fn law_add_sub(a: int, b: int)
    requires
        0 <= a < 3329,
    ensures
        residue(residue(a + b) - b) == a,
{
    lemma_residue_sub(residue(a + b), a + b, b, b);
}

/// An element and its negation add up to zero.
pub proof fn law_negation(a: int)
    ensures
        residue(a + residue(-a)) == 0,
{
    lemma_residue_add(a, a, residue(-a), -a);
}

/// Subtraction is the addition of the negation.
pub proof fn law_sub_is_add_neg(a: int, b: int)
    ensures
        residue(a - b) == residue(a + residue(-b)),
{
    lemma_residue_add(a, a, residue(-b), -b);
}

/// Montgomery multiplication commutes.
pub proof fn law_mul_commutes(a: int, b: int)
    ensures
        residue(a * b * mont_r_inverse()) == residue(b * a * mont_r_inverse()),
{
    assert(a * b == b * a) by (nonlinear_arith);
}

/// Montgomery multiplication distributes over addition.
pub proof fn law_mul_distributes(a: int, b: int, c: int)
    ensures
        residue(a * residue(b + c) * mont_r_inverse()) == residue(
            residue(a * b * mont_r_inverse()) + residue(a * c * mont_r_inverse()),
        ),
{
    let r = mont_r_inverse();
    lemma_residue_mul(a, a, residue(b + c), b + c);
    lemma_residue_mul(a * residue(b + c), a * (b + c), r, r);
    assert(a * (b + c) * r == a * b * r + a * c * r) by (nonlinear_arith);
    lemma_residue_add(residue(a * b * r), a * b * r, residue(a * c * r), a * c * r);
}

} // verus!
