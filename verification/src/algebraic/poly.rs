//! The elements of the two rings, and the transform between them.
//!
//! [`RqElement`] is the standard domain; [`TqElement`] is the transform domain.
//! Keeping them distinct types makes the domain of every value visible: an
//! [`RqElement`] cannot be multiplied as though it were already transformed.

use core::ops::{Add, Index, Mul, Sub};

use vstd::arithmetic::power2::pow2;
use vstd::prelude::*;

use super::field::{compress_spec, decompress_spec, lemma_product_bound, FieldElement};
use super::kernels;
use super::kernels::{
    all_bounded, natural_order, product_within, residues, ProductAccumulator, MULTIPLY_BOUND,
    MUL_BOUND, NTT_BOUND,
    NTT_INVERSE_BOUND,
};
use super::modular::{
    lemma_residue_add, lemma_residue_mul, lemma_residue_shift, mont_r, mont_r_inverse, residue,
};
use super::ring::{
    inverse_ntt, lemma_inverse_ntt, poly_add, poly_scale, poly_sub, poly_zero, tq_dot, tq_mul,
};
use super::transform::{is_poly, ntt_spec};
use super::zetas::gamma;

verus! {

/// An element of either ring: 256 coefficients in the field.
pub trait PolynomialRingElement: Clone {
    /// The coefficients, in natural order.
    spec fn elements(&self) -> Seq<FieldElement>;

    /// The element all of whose coefficients are zero.
    fn zero() -> (r: Self)
        ensures
            r.elements().len() == 256,
            forall|i: int| 0 <= i < 256 ==> (#[trigger] r.elements()[i]).rep() == 0,
    ;

    /// The element with the given coefficients.
    fn new(coefficients: [FieldElement; 256]) -> (r: Self)
        ensures
            r.elements() == coefficients@,
    ;

    /// The coefficients, in natural order.
    fn coefficients(&self) -> (r: [FieldElement; 256])
        ensures
            r@ == self.elements(),
    ;
}

/// An element of the ring of polynomials modulo `X^256 + 1`.
///
/// It is overwritten with zeros when it is dropped.
#[derive(Debug)]
pub struct RqElement {
    coefficients: [FieldElement; 256],
}

impl View for RqElement {
    type V = Seq<int>;

    /// The residues of the coefficients.
    open spec fn view(&self) -> Seq<int> {
        residues(self.elements())
    }
}

impl Clone for RqElement {
    fn clone(&self) -> (r: Self)
        ensures
            r == *self,
    {
        RqElement { coefficients: self.coefficients }
    }
}

impl PolynomialRingElement for RqElement {
    closed spec fn elements(&self) -> Seq<FieldElement> {
        self.coefficients@
    }

    fn zero() -> (r: Self) {
        RqElement { coefficients: kernels::zeros() }
    }

    fn new(coefficients: [FieldElement; 256]) -> (r: Self) {
        RqElement { coefficients }
    }

    fn coefficients(&self) -> (r: [FieldElement; 256]) {
        self.coefficients
    }
}

impl RqElement {
    /// Whether every coefficient is at most `bound` in magnitude.
    pub open spec fn bounded(&self, bound: int) -> bool {
        all_bounded(self.elements(), bound)
    }

    /// A bound may be replaced by a larger one.
    pub proof fn lemma_weaken(&self, a: int, b: int)
        requires
            self.bounded(a),
            a <= b,
        ensures
            self.bounded(b),
    {
        assert forall|i: int| 0 <= i < self.elements().len() implies (
        #[trigger] self.elements()[i]).bounded(b) by {
            assert(self.elements()[i].bounded(a));
        }
    }

    /// The view is a list of 256 canonical residues.
    pub proof fn lemma_is_poly(&self)
        ensures
            is_poly(self@),
    {
    }

    /// Takes the element to the transform domain, with coefficients of least
    /// magnitude.
    pub fn ntt(&self) -> (r: TqElement)
        requires
            self.bounded(NTT_BOUND as int),
        ensures
            r@ == ntt_spec(self@),
            r.bounded(1664),
    {
        let mut coefficients: [FieldElement; 256] = self.coefficients;
        kernels::ntt(&mut coefficients);
        TqElement::new(coefficients)
    }

    /// `Compress_d` of every coefficient.
    pub(crate) fn compressed(&self, d: usize) -> (r: [u16; 256])
        requires
            d <= 12,
        ensures
            forall|i: int| 0 <= i < 256 ==> #[trigger] r@[i] == compress_spec(self@[i], d as nat),
    {
        kernels::compress(&self.coefficients, d)
    }

    /// The element whose coefficients are `Decompress_d` of the given values.
    pub(crate) fn decompress(values: &[u16; 256], d: usize) -> (r: Self)
        requires
            1 <= d <= 31,
            forall|i: int| 0 <= i < 256 ==> #[trigger] values@[i] < pow2(d as nat),
        ensures
            forall|i: int|
                0 <= i < 256 ==> #[trigger] r@[i] == decompress_spec(values@[i] as int, d as nat),
            r.bounded(3328),
    {
        let r: RqElement = RqElement { coefficients: kernels::decompress(values, d) };
        proof {
            assert forall|i: int| 0 <= i < 256 implies (#[trigger] r.elements()[i]).bounded(
                3328,
            ) by {
                assert(r.coefficients@[i].rep() == decompress_spec(values@[i] as int, d as nat));
            }
        }
        r
    }

    /// Adds another element, coefficient by coefficient; the sums must fit
    /// sixteen bits.
    pub fn add_assign(&mut self, rhs: &Self)
        requires
            addable(old(self).elements(), rhs.elements()),
        ensures
            final(self).elements().len() == 256,
            forall|i: int|
                0 <= i < 256 ==> (#[trigger] final(self).elements()[i]).rep()
                    == old(self).elements()[i].rep() + rhs.elements()[i].rep(),
            final(self)@ == poly_add(old(self)@, rhs@),
    {
        add_all(&mut self.coefficients, &rhs.coefficients);
        proof {
            assert(self@ =~= poly_add(old(self)@, rhs@));
        }
    }

    /// Subtracts another element, coefficient by coefficient; the differences
    /// must fit sixteen bits.
    pub fn sub_assign(&mut self, rhs: &Self)
        requires
            subtractable(old(self).elements(), rhs.elements()),
        ensures
            final(self).elements().len() == 256,
            forall|i: int|
                0 <= i < 256 ==> (#[trigger] final(self).elements()[i]).rep()
                    == old(self).elements()[i].rep() - rhs.elements()[i].rep(),
            final(self)@ == poly_sub(old(self)@, rhs@),
    {
        let ghost o = self.coefficients@;
        let mut i: usize = 0;
        while i < 256
            invariant
                i <= 256,
                o.len() == 256,
                subtractable(o, rhs.coefficients@),
                forall|k: int| i <= k < 256 ==> #[trigger] self.coefficients@[k] == o[k],
                forall|k: int|
                    0 <= k < i ==> (#[trigger] self.coefficients@[k]).rep() == o[k].rep()
                        - rhs.coefficients@[k].rep() && self.coefficients@[k]@ == residue(
                        o[k]@ - rhs.coefficients@[k]@,
                    ),
            decreases 256 - i,
        {
            proof {
                assert(i16::MIN <= o[i as int].rep() - rhs.coefficients@[i as int].rep()
                    <= i16::MAX);
            }
            self.coefficients[i] = self.coefficients[i] - rhs.coefficients[i];
            i = i + 1;
        }
        proof {
            assert(self@ =~= poly_sub(old(self)@, rhs@));
        }
    }

    /// Overwrites every coefficient with zero.
    pub fn zeroize(&mut self)
        ensures
            final(self)@ == poly_zero(),
            final(self).bounded(0),
        opens_invariants none
        no_unwind
    {
        wipe_all(&mut self.coefficients);
        proof {
            assert(self@ =~= poly_zero());
        }
    }
}

impl Drop for RqElement {
    /// Overwrites every coefficient with zero.
    fn drop(&mut self)
        ensures
            final(self)@ == poly_zero(),
            final(self).bounded(0),
        opens_invariants none
        no_unwind
    {
        self.zeroize();
    }
}

/// Whether the sums of two lists of elements fit sixteen bits.
pub open spec fn addable(f: Seq<FieldElement>, g: Seq<FieldElement>) -> bool {
    forall|i: int|
        0 <= i < 256 ==> i16::MIN <= (#[trigger] f[i]).rep() + (#[trigger] g[i]).rep() <= i16::MAX
}

/// Whether the differences of two lists of elements fit sixteen bits.
pub open spec fn subtractable(f: Seq<FieldElement>, g: Seq<FieldElement>) -> bool {
    forall|i: int|
        0 <= i < 256 ==> i16::MIN <= (#[trigger] f[i]).rep() - (#[trigger] g[i]).rep() <= i16::MAX
}

/// Adds two lists of elements, position by position.
fn add_all(f: &mut [FieldElement; 256], g: &[FieldElement; 256])
    requires
        addable(old(f)@, g@),
    ensures
        forall|i: int|
            0 <= i < 256 ==> (#[trigger] final(f)@[i]).rep() == old(f)@[i].rep() + g@[i].rep()
                && final(f)@[i]@ == residue(old(f)@[i]@ + g@[i]@),
{
    let ghost o = f@;
    let mut i: usize = 0;
    while i < 256
        invariant
            i <= 256,
            o.len() == 256,
            addable(o, g@),
            forall|k: int| i <= k < 256 ==> #[trigger] f@[k] == o[k],
            forall|k: int|
                0 <= k < i ==> (#[trigger] f@[k]).rep() == o[k].rep() + g@[k].rep() && f@[k]@
                    == residue(o[k]@ + g@[k]@),
        decreases 256 - i,
    {
        proof {
            assert(i16::MIN <= o[i as int].rep() + g@[i as int].rep() <= i16::MAX);
        }
        f[i] = f[i] + g[i];
        i = i + 1;
    }
}

/// Overwrites a list of elements with zeros.
fn wipe_all<const L: usize>(f: &mut [FieldElement; L])
    ensures
        forall|i: int| 0 <= i < L ==> (#[trigger] final(f)@[i]).rep() == 0,
    opens_invariants none
    no_unwind
{
    let mut i: usize = 0;
    while i < L
        invariant
            i <= L,
            forall|k: int| 0 <= k < i ==> (#[trigger] f@[k]).rep() == 0,
        decreases L - i,
    {
        let mut x: FieldElement = f[i];
        x.zeroize();
        f[i] = x;
        i = i + 1;
    }
}

/// Compares two lists of elements.
fn equal_all<const L: usize>(f: &[FieldElement; L], g: &[FieldElement; L]) -> (r: bool)
    ensures
        r == (forall|i: int| 0 <= i < L ==> (#[trigger] f@[i])@ == g@[i]@),
{
    let mut i: usize = 0;
    while i < L
        invariant
            i <= L,
            forall|k: int| 0 <= k < i ==> (#[trigger] f@[k])@ == g@[k]@,
        decreases L - i,
    {
        if f[i] != g[i] {
            return false;
        }
        i = i + 1;
    }
    true
}

impl Default for RqElement {
    fn default() -> (r: Self)
        ensures
            r@ == poly_zero(),
            r.bounded(0),
    {
        let r: RqElement = RqElement::zero();
        proof {
            assert(r@ =~= poly_zero());
        }
        r
    }
}

impl PartialEq for RqElement {
    fn eq(&self, other: &Self) -> (r: bool) {
        let r: bool = equal_all(&self.coefficients, &other.coefficients);
        proof {
            if r {
                assert(self@ =~= other@);
            } else {
                let i = choose|i: int|
                    0 <= i < 256 && (#[trigger] self.coefficients@[i])@ != other.coefficients@[i]@;
                assert(self@[i] != other@[i]);
            }
        }
        r
    }
}

impl vstd::std_specs::cmp::PartialEqSpecImpl for RqElement {
    open spec fn obeys_eq_spec() -> bool {
        true
    }

    open spec fn eq_spec(&self, other: &Self) -> bool {
        self@ == other@
    }
}

impl Eq for RqElement {

}

impl Index<usize> for RqElement {
    type Output = FieldElement;

    fn index(&self, index: usize) -> (r: &FieldElement)
        ensures
            *r == self.elements()[index as int],
    {
        &self.coefficients[index]
    }
}

impl vstd::std_specs::core::IndexSpecImpl<usize> for RqElement {
    open spec fn index_req(&self, index: &usize) -> bool {
        *index < 256
    }
}

impl Add for RqElement {
    type Output = Self;

    /// The sum, coefficient by coefficient; the sums must fit sixteen bits.
    fn add(self, rhs: Self) -> (r: Self)
        ensures
            r.elements().len() == 256,
            forall|i: int|
                0 <= i < 256 ==> (#[trigger] r.elements()[i]).rep() == self.elements()[i].rep()
                    + rhs.elements()[i].rep(),
            r@ == poly_add(self@, rhs@),
    {
        let mut r: Self = self;
        r.add_assign(&rhs);
        r
    }
}

impl vstd::std_specs::ops::AddSpecImpl for RqElement {
    open spec fn obeys_add_spec() -> bool {
        false
    }

    open spec fn add_req(self, rhs: Self) -> bool {
        addable(self.elements(), rhs.elements())
    }

    open spec fn add_spec(self, rhs: Self) -> Self {
        arbitrary()
    }
}

impl Sub for RqElement {
    type Output = Self;

    /// The difference, coefficient by coefficient; the differences must fit
    /// sixteen bits.
    fn sub(self, rhs: Self) -> (r: Self)
        ensures
            r.elements().len() == 256,
            forall|i: int|
                0 <= i < 256 ==> (#[trigger] r.elements()[i]).rep() == self.elements()[i].rep()
                    - rhs.elements()[i].rep(),
            r@ == poly_sub(self@, rhs@),
    {
        let mut r: Self = self;
        r.sub_assign(&rhs);
        r
    }
}

impl vstd::std_specs::ops::SubSpecImpl for RqElement {
    open spec fn obeys_sub_spec() -> bool {
        false
    }

    open spec fn sub_req(self, rhs: Self) -> bool {
        subtractable(self.elements(), rhs.elements())
    }

    open spec fn sub_spec(self, rhs: Self) -> Self {
        arbitrary()
    }
}

/// An element of the transform domain: a product of 128 quadratic extensions of
/// the field.
///
/// The coefficients are stored with the even positions first and the odd ones
/// after them, so that base multiplication reads each half as one run. Every
/// public surface speaks natural coefficient order.
///
/// It is overwritten with zeros when it is dropped.
#[derive(Debug)]
pub struct TqElement {
    halves: [FieldElement; 256],
}

impl View for TqElement {
    type V = Seq<int>;

    /// The residues of the coefficients, in natural order.
    open spec fn view(&self) -> Seq<int> {
        residues(self.elements())
    }
}

impl Clone for TqElement {
    fn clone(&self) -> (r: Self)
        ensures
            r == *self,
    {
        TqElement { halves: self.halves }
    }
}

impl PolynomialRingElement for TqElement {
    closed spec fn elements(&self) -> Seq<FieldElement> {
        Seq::new(256, |m: int| self.halves@[(m % 2) * 128 + m / 2])
    }

    fn zero() -> (r: Self) {
        TqElement { halves: kernels::zeros() }
    }

    fn new(coefficients: [FieldElement; 256]) -> (r: Self) {
        let r: TqElement = TqElement { halves: kernels::pack(&coefficients) };
        proof {
            assert forall|m: int| 0 <= m < 256 implies r.elements()[m] == coefficients@[m] by {}
            assert(r.elements() =~= coefficients@);
        }
        r
    }

    fn coefficients(&self) -> (r: [FieldElement; 256]) {
        let r: [FieldElement; 256] = kernels::unpack(&self.halves);
        proof {
            assert(r@ =~= self.elements());
        }
        r
    }
}

impl TqElement {
    /// Whether every coefficient is at most `bound` in magnitude.
    pub open spec fn bounded(&self, bound: int) -> bool {
        all_bounded(self.elements(), bound)
    }

    /// A bound may be replaced by a larger one.
    pub proof fn lemma_weaken(&self, a: int, b: int)
        requires
            self.bounded(a),
            a <= b,
        ensures
            self.bounded(b),
    {
        assert forall|i: int| 0 <= i < self.elements().len() implies (
        #[trigger] self.elements()[i]).bounded(b) by {
            assert(self.elements()[i].bounded(a));
        }
    }

    /// The view is a list of 256 canonical residues.
    pub proof fn lemma_is_poly(&self)
        ensures
            is_poly(self@),
    {
    }

    /// The stored halves hold the coefficients in natural order.
    proof fn lemma_halves(&self)
        ensures
            self@ == natural_order(self.halves@),
            forall|b: int| #[trigger] self.bounded(b) ==> all_bounded(self.halves@, b),
            forall|b: int| #[trigger] all_bounded(self.halves@, b) ==> self.bounded(b),
            forall|k: int|
                0 <= k < 256 ==> #[trigger] self.halves@[k] == self.elements()[if k < 128 {
                    2 * k
                } else {
                    2 * k - 255
                }],
    {
        assert(self@ =~= natural_order(self.halves@));
        assert forall|k: int| 0 <= k < 256 implies #[trigger] self.halves@[k]
            == self.elements()[if k < 128 {
            2 * k
        } else {
            2 * k - 255
        }] by {}
        assert forall|b: int| #[trigger] self.bounded(b) implies all_bounded(self.halves@, b) by {
            assert forall|k: int| 0 <= k < 256 implies (#[trigger] self.halves@[k]).bounded(b) by {
                let m = if k < 128 {
                    2 * k
                } else {
                    2 * k - 255
                };
                assert(self.elements()[m].bounded(b));
            }
        }
    }

    /// Takes the element back to the standard domain, times `R`.
    ///
    /// The factor makes up for the `R^-1` that multiplication leaves: the
    /// inverse of a product of transforms is the product of the elements, and
    /// the inverse of a transform is `R` times the element.
    pub fn ntt_inverse(&self) -> (r: RqElement)
        requires
            self.bounded(NTT_INVERSE_BOUND as int),
        ensures
            ntt_spec(r@) == poly_scale(mont_r(), self@),
            r@ == inverse_ntt(poly_scale(mont_r(), self@)),
            r.bounded(3328),
    {
        let mut coefficients: [FieldElement; 256] = kernels::unpack(&self.halves);
        proof {
            assert(coefficients@ =~= self.elements());
        }
        kernels::ntt_inverse(&mut coefficients);
        let r: RqElement = RqElement::new(coefficients);
        proof {
            lemma_inverse_ntt(r@);
        }
        r
    }

    /// Multiplies every coefficient by `R`, undoing the `R^-1` that
    /// multiplication leaves.
    pub fn to_montgomery(&self) -> (r: Self)
        ensures
            r@ == poly_scale(mont_r(), self@),
            r.bounded(2341),
    {
        let mut halves: [FieldElement; 256] = [FieldElement::zero(); 256];
        let mut i: usize = 0;
        while i < 256
            invariant
                i <= 256,
                forall|k: int|
                    0 <= k < i ==> (#[trigger] halves@[k])@ == residue(
                        self.halves@[k]@ * mont_r(),
                    ) && halves@[k].bounded(2341),
            decreases 256 - i,
        {
            halves[i] = self.halves[i].to_montgomery();
            i = i + 1;
        }
        let r: TqElement = TqElement { halves };
        proof {
            r.lemma_halves();
            self.lemma_halves();
            assert(r@ =~= poly_scale(mont_r(), self@));
        }
        r
    }

    /// Every coefficient replaced by its representative of least magnitude.
    fn reduced(&self) -> (r: Self)
        ensures
            r@ == self@,
            r.bounded(1664),
    {
        let mut halves: [FieldElement; 256] = [FieldElement::zero(); 256];
        let mut i: usize = 0;
        while i < 256
            invariant
                i <= 256,
                forall|k: int|
                    0 <= k < i ==> (#[trigger] halves@[k])@ == self.halves@[k]@
                        && halves@[k].bounded(1664),
            decreases 256 - i,
        {
            halves[i] = self.halves[i].reduce();
            i = i + 1;
        }
        let r: TqElement = TqElement { halves };
        proof {
            r.lemma_halves();
            self.lemma_halves();
            assert(r@ =~= self@);
        }
        r
    }

    /// The part of a multiplication by this element that depends on it alone.
    pub fn mul_cache(&self) -> (r: TqMulCache)
        ensures
            r.caches(self@),
    {
        let table: [FieldElement; 128] = kernels::gamma_mont();
        let mut entries: [FieldElement; 128] = [FieldElement::zero(); 128];
        let mut i: usize = 0;
        while i < 128
            invariant
                i <= 128,
                forall|k: int|
                    0 <= k < 128 ==> (#[trigger] table@[k])@ == residue(gamma(k) * mont_r())
                        && table@[k].bounded(2341),
                forall|k: int|
                    0 <= k < i ==> (#[trigger] entries@[k])@ == residue(gamma(k) * self@[2 * k + 1])
                        && entries@[k].bounded(MUL_BOUND as int),
            decreases 128 - i,
        {
            let x: FieldElement = self.halves[128 + i];
            let y: FieldElement = table[i];
            let z: FieldElement = x * y;
            proof {
                x.lemma_rep_range();
                lemma_product_bound(x.rep(), 32768, y.rep(), 2341);
                assert(z.bounded(1171int + 1664));
                lemma_montgomery_cancel(x@, gamma(i as int));
                assert(self@[2 * i + 1] == x@);
            }
            entries[i] = z;
            i = i + 1;
        }
        TqMulCache { entries }
    }

    /// The product, scaled by `R^-1`.
    pub(crate) fn product(&self, rhs: &Self) -> (r: Self)
        requires
            self.bounded(MULTIPLY_BOUND as int),
            rhs.bounded(MULTIPLY_BOUND as int),
        ensures
            r@ == poly_scale(mont_r_inverse(), tq_mul(self@, rhs@)),
            forall|b: int, t: int| #[trigger]
                product_within(b, t) && self.bounded(b) && rhs.bounded(b) ==> r.bounded(
                    2 * (t + 1664),
                ),
            self.bounded(MUL_BOUND as int) && rhs.bounded(MUL_BOUND as int) ==> r.bounded(4090),
    {
        proof {
            self.lemma_halves();
            rhs.lemma_halves();
        }
        let r: TqElement = TqElement { halves: kernels::multiply(&self.halves, &rhs.halves) };
        proof {
            r.lemma_halves();
            assert(product_within(MUL_BOUND as int, 381));
        }
        r
    }

    /// Adds the product of two elements to an accumulator.
    fn accumulate(
        acc: &mut ProductAccumulator,
        f: &Self,
        g: &Self,
        cache: &TqMulCache,
        Ghost(count): Ghost<int>,
    )
        requires
            0 <= count < 4,
            old(acc).holds(count),
            f.bounded(MUL_BOUND as int),
            g.bounded(MUL_BOUND as int),
            cache.caches(g@),
        ensures
            final(acc).holds(count + 1),
            forall|m: int|
                0 <= m < 256 ==> residue(#[trigger] final(acc).sum(m)) == residue(
                    old(acc).sum(m) + tq_mul(f@, g@)[m],
                ),
    {
        proof {
            f.lemma_halves();
            g.lemma_halves();
            assert forall|i: int| 0 <= i < 128 implies (#[trigger] cache.entries@[i])@ == residue(
                gamma(i) * g.halves@[128 + i]@,
            ) by {
                assert(g@[2 * i + 1] == g.halves@[128 + i]@);
            }
        }
        acc.accumulate(&f.halves, &g.halves, &cache.entries, Ghost(count));
    }

    /// The sum of the products of corresponding components, scaled by `R^-1`;
    /// `caches` holds the cache of each component of `g`.
    ///
    /// The exact products are added up first and reduced once.
    pub fn accumulated_dot(f: &[Self], g: &[Self], caches: &[TqMulCache]) -> (r: Self)
        requires
            f@.len() == g@.len() == caches@.len() <= 4,
            forall|j: int| 0 <= j < f@.len() ==> (#[trigger] f@[j]).bounded(MUL_BOUND as int),
            forall|j: int| 0 <= j < g@.len() ==> (#[trigger] g@[j]).bounded(MUL_BOUND as int),
            forall|j: int| 0 <= j < g@.len() ==> (#[trigger] caches@[j]).caches(g@[j]@),
        ensures
            r@ == poly_scale(mont_r_inverse(), tq_dot(views(f@), views(g@), f@.len())),
            r.bounded(4708),
    {
        let mut acc: ProductAccumulator = ProductAccumulator::new();
        let ghost (x, y) = (views(f@), views(g@));
        let mut j: usize = 0;
        while j < f.len()
            invariant
                j <= f@.len(),
                x == views(f@),
                y == views(g@),
                f@.len() == g@.len() == caches@.len() <= 4,
                forall|k: int| 0 <= k < f@.len() ==> (#[trigger] f@[k]).bounded(MUL_BOUND as int),
                forall|k: int| 0 <= k < g@.len() ==> (#[trigger] g@[k]).bounded(MUL_BOUND as int),
                forall|k: int| 0 <= k < g@.len() ==> (#[trigger] caches@[k]).caches(g@[k]@),
                acc.holds(j as int),
                forall|m: int|
                    0 <= m < 256 ==> residue(#[trigger] acc.sum(m)) == tq_dot(x, y, j as nat)[m],
            decreases f@.len() - j,
        {
            let ghost before = acc;
            proof {
                assert(f@[j as int].bounded(MUL_BOUND as int));
                assert(g@[j as int].bounded(MUL_BOUND as int));
                assert(caches@[j as int].caches(g@[j as int]@));
                assert(x[j as int] == f@[j as int]@ && y[j as int] == g@[j as int]@);
            }
            Self::accumulate(&mut acc, &f[j], &g[j], &caches[j], Ghost(j as int));
            proof {
                assert forall|m: int| 0 <= m < 256 implies residue(#[trigger] acc.sum(m)) == tq_dot(
                    x,
                    y,
                    (j + 1) as nat,
                )[m] by {
                    let p = tq_mul(x[j as int], y[j as int])[m];
                    assert(residue(before.sum(m)) == tq_dot(x, y, j as nat)[m]);
                    lemma_residue_add(before.sum(m), tq_dot(x, y, j as nat)[m], p, p);
                }
            }
            j = j + 1;
        }
        proof {
            acc.lemma_holds_more(j as int, 4);
        }
        let r: TqElement = TqElement { halves: acc.reduce() };
        proof {
            r.lemma_halves();
            let d = tq_dot(x, y, f@.len());
            assert forall|m: int| 0 <= m < 256 implies r@[m] == poly_scale(mont_r_inverse(), d)[m] by {
                let s = acc.sum(m);
                assert(residue(s) == d[m]);
                lemma_residue_mul(s, d[m], mont_r_inverse(), mont_r_inverse());
                assert(natural_order(r.halves@)[m] == residue(s * mont_r_inverse()));
            }
            assert(r@ =~= poly_scale(mont_r_inverse(), d));
        }
        r
    }

    /// The canonical representatives of the coefficients, in natural order.
    pub(crate) fn canonical(&self) -> (r: [u16; 256])
        ensures
            forall|m: int| 0 <= m < 256 ==> #[trigger] r@[m] == self@[m],
    {
        proof {
            self.lemma_halves();
        }
        kernels::canonical(&self.halves)
    }

    /// Adds another element, coefficient by coefficient; the sums must fit
    /// sixteen bits.
    pub fn add_assign(&mut self, rhs: &Self)
        requires
            addable(old(self).elements(), rhs.elements()),
        ensures
            final(self).elements().len() == 256,
            forall|i: int|
                0 <= i < 256 ==> (#[trigger] final(self).elements()[i]).rep()
                    == old(self).elements()[i].rep() + rhs.elements()[i].rep(),
            final(self)@ == poly_add(old(self)@, rhs@),
    {
        proof {
            self.lemma_halves();
            rhs.lemma_halves();
            let (x, y) = (self.elements(), rhs.elements());
            assert forall|k: int| 0 <= k < 256 implies i16::MIN <= (
            #[trigger] self.halves@[k]).rep() + (#[trigger] rhs.halves@[k]).rep() <= i16::MAX by {
                let m = if k < 128 {
                    2 * k
                } else {
                    2 * k - 255
                };
                assert(i16::MIN <= x[m].rep() + y[m].rep() <= i16::MAX);
            }
        }
        add_all(&mut self.halves, &rhs.halves);
        proof {
            assert(self@ =~= poly_add(old(self)@, rhs@));
        }
    }

    /// Overwrites every coefficient with zero.
    pub fn zeroize(&mut self)
        ensures
            final(self)@ == poly_zero(),
            final(self).bounded(0),
        opens_invariants none
        no_unwind
    {
        wipe_all(&mut self.halves);
        proof {
            assert(self@ =~= poly_zero());
        }
    }
}

impl Drop for TqElement {
    /// Overwrites every coefficient with zero.
    fn drop(&mut self)
        ensures
            final(self)@ == poly_zero(),
            final(self).bounded(0),
        opens_invariants none
        no_unwind
    {
        self.zeroize();
    }
}

/// The views of a list of elements.
pub open spec fn views(f: Seq<TqElement>) -> Seq<Seq<int>> {
    Seq::new(f.len(), |i: int| f[i]@)
}

/// A constant in Montgomery form cancels the `R^-1` of a product.
proof fn lemma_montgomery_cancel(x: int, g: int)
    ensures
        residue(x * residue(g * mont_r()) * mont_r_inverse()) == residue(g * x),
{
    let gr = g * mont_r();
    lemma_residue_mul(x, x, residue(gr), gr);
    lemma_residue_mul(x * residue(gr), x * gr, 169, 169);
    let gx = g * x;
    assert(x * gr * 169 == gx + (116 * gx) * 3329) by (nonlinear_arith)
        requires
            gr == g * 2285,
            gx == g * x,
    ;
    lemma_residue_shift(x * gr * 169, gx, 116 * gx);
}

impl From<TqElement> for RqElement {
    /// The inverse transform, times `R`.
    fn from(value: TqElement) -> (r: Self)
        ensures
            ntt_spec(r@) == poly_scale(mont_r(), value@),
            r.bounded(3328),
    {
        value.reduced().ntt_inverse()
    }
}

impl vstd::std_specs::convert::FromSpecImpl<TqElement> for RqElement {
    open spec fn obeys_from_spec() -> bool {
        false
    }

    open spec fn from_spec(v: TqElement) -> Self {
        arbitrary()
    }
}

impl Default for TqElement {
    fn default() -> (r: Self)
        ensures
            r@ == poly_zero(),
            r.bounded(0),
    {
        let r: TqElement = TqElement::zero();
        proof {
            assert(r@ =~= poly_zero());
        }
        r
    }
}

impl PartialEq for TqElement {
    fn eq(&self, other: &Self) -> (r: bool) {
        let r: bool = equal_all(&self.halves, &other.halves);
        proof {
            self.lemma_halves();
            other.lemma_halves();
            if r {
                assert(self@ =~= other@);
            } else {
                let k = choose|k: int|
                    0 <= k < 256 && (#[trigger] self.halves@[k])@ != other.halves@[k]@;
                let m = if k < 128 {
                    2 * k
                } else {
                    2 * k - 255
                };
                assert(self@[m] != other@[m]);
            }
        }
        r
    }
}

impl vstd::std_specs::cmp::PartialEqSpecImpl for TqElement {
    open spec fn obeys_eq_spec() -> bool {
        true
    }

    open spec fn eq_spec(&self, other: &Self) -> bool {
        self@ == other@
    }
}

impl Eq for TqElement {

}

impl Index<usize> for TqElement {
    type Output = FieldElement;

    /// Indexes by natural coefficient position.
    fn index(&self, index: usize) -> (r: &FieldElement)
        ensures
            *r == self.elements()[index as int],
    {
        &self.halves[(index % 2) * 128 + index / 2]
    }
}

impl vstd::std_specs::core::IndexSpecImpl<usize> for TqElement {
    open spec fn index_req(&self, index: &usize) -> bool {
        *index < 256
    }
}

impl Add for TqElement {
    type Output = Self;

    /// The sum, coefficient by coefficient; the sums must fit sixteen bits.
    fn add(self, rhs: Self) -> (r: Self)
        ensures
            r.elements().len() == 256,
            forall|i: int|
                0 <= i < 256 ==> (#[trigger] r.elements()[i]).rep() == self.elements()[i].rep()
                    + rhs.elements()[i].rep(),
            r@ == poly_add(self@, rhs@),
    {
        let mut r: Self = self;
        r.add_assign(&rhs);
        r
    }
}

impl vstd::std_specs::ops::AddSpecImpl for TqElement {
    open spec fn obeys_add_spec() -> bool {
        false
    }

    open spec fn add_req(self, rhs: Self) -> bool {
        addable(self.elements(), rhs.elements())
    }

    open spec fn add_spec(self, rhs: Self) -> Self {
        arbitrary()
    }
}

impl Mul for &TqElement {
    type Output = TqElement;

    /// The product in the transform domain, scaled by `R^-1`.
    fn mul(self, rhs: &TqElement) -> (r: TqElement)
        ensures
            r@ == poly_scale(mont_r_inverse(), tq_mul(self@, rhs@)),
            self.bounded(MUL_BOUND as int) && rhs.bounded(MUL_BOUND as int) ==> r.bounded(4090),
    {
        self.product(rhs)
    }
}

impl vstd::std_specs::ops::MulSpecImpl for &TqElement {
    open spec fn obeys_mul_spec() -> bool {
        false
    }

    open spec fn mul_req(self, rhs: Self) -> bool {
        self.bounded(MULTIPLY_BOUND as int) && rhs.bounded(MULTIPLY_BOUND as int)
    }

    open spec fn mul_spec(self, rhs: Self) -> TqElement {
        arbitrary()
    }
}

impl Mul for TqElement {
    type Output = Self;

    /// The product in the transform domain, scaled by `R^-1`.
    fn mul(self, rhs: Self) -> (r: Self)
        ensures
            r@ == poly_scale(mont_r_inverse(), tq_mul(self@, rhs@)),
            self.bounded(MUL_BOUND as int) && rhs.bounded(MUL_BOUND as int) ==> r.bounded(4090),
    {
        self.product(&rhs)
    }
}

impl vstd::std_specs::ops::MulSpecImpl for TqElement {
    open spec fn obeys_mul_spec() -> bool {
        false
    }

    open spec fn mul_req(self, rhs: Self) -> bool {
        self.bounded(MULTIPLY_BOUND as int) && rhs.bounded(MULTIPLY_BOUND as int)
    }

    open spec fn mul_spec(self, rhs: Self) -> Self {
        arbitrary()
    }
}

/// The part of a base multiplication by an element `g` that depends on `g`
/// alone: the products of its odd coefficients with the moduli.
///
/// It is overwritten with zeros when it is dropped.
#[derive(Debug)]
pub struct TqMulCache {
    entries: [FieldElement; 128],
}

impl View for TqMulCache {
    type V = Seq<int>;

    /// The residues of the entries.
    closed spec fn view(&self) -> Seq<int> {
        residues(self.entries@)
    }
}

impl TqMulCache {
    /// Whether this is the cache of an element with the coefficients `g`.
    pub closed spec fn caches(&self, g: Seq<int>) -> bool {
        &&& all_bounded(self.entries@, MUL_BOUND as int)
        &&& forall|i: int|
            0 <= i < 128 ==> (#[trigger] self.entries@[i])@ == residue(gamma(i) * g[2 * i + 1])
    }

    /// A cache holds the products that it is named for.
    pub proof fn lemma_caches(&self, g: Seq<int>)
        requires
            self.caches(g),
        ensures
            self@ == Seq::new(128, |i: int| residue(gamma(i) * g[2 * i + 1])),
    {
        assert(self@ =~= Seq::new(128, |i: int| residue(gamma(i) * g[2 * i + 1])));
    }

    /// The entries.
    pub fn entries(&self) -> (r: [FieldElement; 128])
        ensures
            residues(r@) == self@,
    {
        self.entries
    }

    /// Overwrites every entry with zero.
    pub fn zeroize(&mut self)
        ensures
            final(self)@ == Seq::new(128, |i: int| 0int),
            final(self).caches(poly_zero()),
        opens_invariants none
        no_unwind
    {
        wipe_all(&mut self.entries);
        proof {
            assert(self@ =~= Seq::new(128, |i: int| 0int));
        }
    }
}

impl Drop for TqMulCache {
    /// Overwrites every entry with zero.
    fn drop(&mut self)
        ensures
            final(self)@ == Seq::new(128, |i: int| 0int),
        opens_invariants none
        no_unwind
    {
        self.zeroize();
    }
}

impl Clone for TqMulCache {
    fn clone(&self) -> (r: Self)
        ensures
            r == *self,
    {
        TqMulCache { entries: self.entries }
    }
}

impl Default for TqMulCache {
    fn default() -> (r: Self)
        ensures
            r@ == Seq::new(128, |i: int| 0int),
    {
        let entries: [FieldElement; 128] = [FieldElement::zero(); 128];
        let r: TqMulCache = TqMulCache { entries };
        proof {
            assert(r@ =~= Seq::new(128, |i: int| 0int));
        }
        r
    }
}

impl PartialEq for TqMulCache {
    fn eq(&self, other: &Self) -> (r: bool) {
        let r: bool = equal_all(&self.entries, &other.entries);
        proof {
            if r {
                assert(self@ =~= other@);
            } else {
                let i = choose|i: int|
                    0 <= i < 128 && (#[trigger] self.entries@[i])@ != other.entries@[i]@;
                assert(self@[i] != other@[i]);
            }
        }
        r
    }
}

impl vstd::std_specs::cmp::PartialEqSpecImpl for TqMulCache {
    open spec fn obeys_eq_spec() -> bool {
        true
    }

    open spec fn eq_spec(&self, other: &Self) -> bool {
        self@ == other@
    }
}

impl Eq for TqMulCache {

}

} // verus!
