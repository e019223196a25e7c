//! Vectors of ring elements, as long as the parameter set says.

use core::marker::PhantomData;
use core::ops::{Add, Index, Mul};

use vstd::prelude::*;

use super::kernels::{product_within, MUL_BOUND, NTT_BOUND, NTT_INVERSE_BOUND};
use super::modular::{
    lemma_residue_add, lemma_residue_mul, mont_r, mont_r_inverse, residue,
};
use super::poly::{
    addable, views, PolynomialRingElement, RqElement, TqElement, TqMulCache,
};
use super::ring::{inverse_ntt, poly_add, poly_scale, poly_zero, tq_dot, tq_mul};
use super::transform::{is_poly, ntt_spec};
use crate::parameters::ParameterSet;

verus! {

/// The transforms of the components of a vector.
pub open spec fn vec_ntt(v: Seq<Seq<int>>) -> Seq<Seq<int>> {
    Seq::new(v.len(), |i: int| ntt_spec(v[i]))
}

/// The inverse transforms of the components of a vector.
pub open spec fn vec_inverse_ntt(v: Seq<Seq<int>>) -> Seq<Seq<int>> {
    Seq::new(v.len(), |i: int| inverse_ntt(v[i]))
}

/// The sum of two vectors.
pub open spec fn vec_add(v: Seq<Seq<int>>, w: Seq<Seq<int>>) -> Seq<Seq<int>> {
    Seq::new(v.len(), |i: int| poly_add(v[i], w[i]))
}

/// A vector times a constant.
pub open spec fn vec_scale(c: int, v: Seq<Seq<int>>) -> Seq<Seq<int>> {
    Seq::new(v.len(), |i: int| poly_scale(c, v[i]))
}

/// The views of a list of elements of the standard domain.
pub open spec fn rq_views(f: Seq<RqElement>) -> Seq<Seq<int>> {
    Seq::new(f.len(), |i: int| f[i]@)
}

/// Whether two vectors can be added without leaving sixteen bits.
pub open spec fn rq_addable(f: Seq<RqElement>, g: Seq<RqElement>) -> bool {
    forall|i: int|
        0 <= i < f.len() ==> addable((#[trigger] f[i]).elements(), g[i].elements())
}

/// Whether two vectors can be added without leaving sixteen bits.
pub open spec fn tq_addable(f: Seq<TqElement>, g: Seq<TqElement>) -> bool {
    forall|i: int|
        0 <= i < f.len() ==> addable((#[trigger] f[i]).elements(), g[i].elements())
}

/// The magnitude of the operands up to which a sum of `k` products fits sixteen
/// bits.
pub open spec fn dot_bound(k: int) -> int {
    if k <= 2 {
        20682
    } else if k == 3 {
        15774
    } else {
        12622
    }
}

/// How far a product of representatives of at most `dot_bound(k)` is above half
/// of `q`.
spec fn dot_step(k: int) -> int {
    if k <= 2 {
        6527
    } else if k == 3 {
        3797
    } else {
        2431
    }
}

/// The bounds of a sum of `k` products.
proof fn lemma_dot_step(k: int)
    requires
        2 <= k <= 4,
    ensures
        product_within(dot_bound(k), dot_step(k)),
        0 <= 2 * (dot_step(k) + 1664) * k <= 32767,
        product_within(MUL_BOUND as int, 381),
        0 <= 2 * (381 + 1664) * k <= NTT_INVERSE_BOUND,
{
    if k == 2 {
        assert(product_within(20682, 6527));
    } else if k == 3 {
        assert(product_within(15774, 3797));
    } else {
        assert(k == 4);
        assert(product_within(12622, 2431));
    }
}

/// The vector of `k` zeros.
pub open spec fn vec_zero(k: nat) -> Seq<Seq<int>> {
    Seq::new(k, |i: int| poly_zero())
}

/// Overwrites a list of elements with zeros.
fn wipe_rq(f: &mut Vec<RqElement>)
    ensures
        final(f)@.len() == old(f)@.len(),
        forall|i: int|
            0 <= i < final(f)@.len() ==> (#[trigger] final(f)@[i])@ == poly_zero()
                && final(f)@[i].bounded(0),
    no_unwind
{
    let mut i: usize = 0;
    while i < f.len()
        invariant
            i <= f@.len(),
            f@.len() == old(f)@.len(),
            forall|k: int|
                0 <= k < i ==> (#[trigger] f@[k])@ == poly_zero() && f@[k].bounded(0),
        decreases f@.len() - i,
    {
        f[i].zeroize();
        i = i + 1;
    }
}

/// Overwrites a list of elements with zeros.
fn wipe_tq(f: &mut Vec<TqElement>)
    ensures
        final(f)@.len() == old(f)@.len(),
        forall|i: int|
            0 <= i < final(f)@.len() ==> (#[trigger] final(f)@[i])@ == poly_zero()
                && final(f)@[i].bounded(0),
    no_unwind
{
    let mut i: usize = 0;
    while i < f.len()
        invariant
            i <= f@.len(),
            f@.len() == old(f)@.len(),
            forall|k: int|
                0 <= k < i ==> (#[trigger] f@[k])@ == poly_zero() && f@[k].bounded(0),
        decreases f@.len() - i,
    {
        f[i].zeroize();
        i = i + 1;
    }
}

/// A vector of `K` elements of the standard domain.
#[derive(Debug)]
pub struct RqVector<P: ParameterSet> {
    polys: Vec<RqElement>,
    set: PhantomData<P>,
}

impl<P: ParameterSet> View for RqVector<P> {
    type V = Seq<Seq<int>>;

    open spec fn view(&self) -> Seq<Seq<int>> {
        rq_views(self.elements())
    }
}

impl<P: ParameterSet> RqVector<P> {
    /// A vector has as many components as the parameter set says.
    #[verifier::type_invariant]
    pub open spec fn has_length(self) -> bool {
        self.elements().len() == P::K
    }

    /// The components.
    pub closed spec fn elements(&self) -> Seq<RqElement> {
        self.polys@
    }

    /// Whether every coefficient is at most `bound` in magnitude.
    pub open spec fn bounded(&self, bound: int) -> bool {
        forall|i: int|
            0 <= i < self.elements().len() ==> (#[trigger] self.elements()[i]).bounded(bound)
    }

    /// A bound may be replaced by a larger one.
    pub proof fn lemma_weaken(&self, a: int, b: int)
        requires
            self.bounded(a),
            a <= b,
        ensures
            self.bounded(b),
    {
        assert forall|i: int| 0 <= i < self.elements().len() implies (
        #[trigger] self.elements()[i]).bounded(b) by {
            self.elements()[i].lemma_weaken(a, b);
        }
    }

    /// The vector with the given components.
    pub fn from_vec(polys: Vec<RqElement>) -> (r: Self)
        requires
            polys@.len() == P::K,
        ensures
            r.elements() == polys@,
    {
        RqVector { polys, set: PhantomData }
    }

    /// The vector whose component `i` is what `f` gives for `i`.
    pub fn from_fn<F: FnMut(usize) -> RqElement>(f: F) -> (r: Self)
        requires
            forall|i: usize| i < P::K ==> #[trigger] f.requires((i,)),
        ensures
            r.elements().len() == P::K,
            forall|i: usize| i < P::K ==> f.ensures((i,), #[trigger] r.elements()[i as int]),
    {
        let ghost given = f;
        let mut f = f;
        let mut polys: Vec<RqElement> = Vec::new();
        let mut i: usize = 0;
        while i < P::K
            invariant
                f == given,
                i <= P::K,
                polys@.len() == i,
                forall|k: usize| k < P::K ==> #[trigger] f.requires((k,)),
                forall|k: usize| k < i ==> f.ensures((k,), #[trigger] polys@[k as int]),
            decreases P::K - i,
        {
            polys.push(f(i));
            i = i + 1;
        }
        RqVector { polys, set: PhantomData }
    }

    /// The components.
    pub fn as_slice(&self) -> (r: &[RqElement])
        ensures
            r@ == self.elements(),
            r@.len() == P::K,
    {
        proof {
            use_type_invariant(self);
        }
        self.polys.as_slice()
    }

    /// The transforms of the components.
    pub fn ntt(&self) -> (r: TqVector<P>)
        requires
            self.bounded(NTT_BOUND as int),
        ensures
            r@ == vec_ntt(self@),
            r@.len() == P::K,
            r.bounded(1664),
    {
        proof {
            use_type_invariant(self);
        }
        let mut polys: Vec<TqElement> = Vec::new();
        let mut i: usize = 0;
        while i < P::K
            invariant
                i <= P::K,
                self.polys@.len() == P::K,
                self.bounded(NTT_BOUND as int),
                polys@.len() == i,
                forall|k: int|
                    0 <= k < i ==> (#[trigger] polys@[k])@ == ntt_spec(self.polys@[k]@)
                        && polys@[k].bounded(1664),
            decreases P::K - i,
        {
            assert(self.elements()[i as int].bounded(NTT_BOUND as int));
            polys.push(self.polys[i].ntt());
            i = i + 1;
        }
        let r: TqVector<P> = TqVector { polys, set: PhantomData };
        proof {
            assert(r@ =~= vec_ntt(self@));
        }
        r
    }

    /// Overwrites every coefficient with zero.
    pub fn zeroize(&mut self)
        ensures
            final(self)@ == vec_zero(P::K as nat),
            final(self).bounded(0),
        no_unwind
    {
        proof {
            use_type_invariant(&*self);
        }
        wipe_rq(&mut self.polys);
        proof {
            assert(self@ =~= vec_zero(P::K as nat));
        }
    }
}

impl<P: ParameterSet> Clone for RqVector<P> {
    fn clone(&self) -> (r: Self)
        ensures
            r.elements() == self.elements(),
    {
        proof {
            use_type_invariant(self);
        }
        let mut polys: Vec<RqElement> = Vec::new();
        let mut i: usize = 0;
        while i < P::K
            invariant
                i <= P::K,
                self.polys@.len() == P::K,
                polys@ == self.polys@.take(i as int),
            decreases P::K - i,
        {
            polys.push(self.polys[i].clone());
            i = i + 1;
            proof {
                assert(polys@ =~= self.polys@.take(i as int));
            }
        }
        proof {
            assert(polys@ =~= self.polys@);
        }
        RqVector { polys, set: PhantomData }
    }
}

impl<P: ParameterSet> PartialEq for RqVector<P> {
    fn eq(&self, other: &Self) -> (r: bool) {
        proof {
            use_type_invariant(self);
            use_type_invariant(other);
        }
        let mut i: usize = 0;
        while i < P::K
            invariant
                i <= P::K,
                self.polys@.len() == P::K,
                other.polys@.len() == P::K,
                forall|k: int| 0 <= k < i ==> (#[trigger] self.polys@[k])@ == other.polys@[k]@,
            decreases P::K - i,
        {
            if self.polys[i] != other.polys[i] {
                assert(self@[i as int] != other@[i as int]);
                return false;
            }
            i = i + 1;
        }
        proof {
            assert(self@ =~= other@);
        }
        true
    }
}

impl<P: ParameterSet> vstd::std_specs::cmp::PartialEqSpecImpl for RqVector<P> {
    open spec fn obeys_eq_spec() -> bool {
        true
    }

    open spec fn eq_spec(&self, other: &Self) -> bool {
        self@ == other@
    }
}

impl<P: ParameterSet> Eq for RqVector<P> {

}

impl<P: ParameterSet> Index<usize> for RqVector<P> {
    type Output = RqElement;

    fn index(&self, index: usize) -> (r: &RqElement)
        ensures
            *r == self.elements()[index as int],
    {
        proof {
            use_type_invariant(self);
        }
        &self.polys[index]
    }
}

impl<P: ParameterSet> vstd::std_specs::core::IndexSpecImpl<usize> for RqVector<P> {
    open spec fn index_req(&self, index: &usize) -> bool {
        *index < P::K
    }
}

/// The coefficients of a sum are at most the sum of the bounds.
pub(crate) proof fn lemma_small_sum(r: &RqElement, f: &RqElement, a: int, g: &RqElement, b: int)
    requires
        f.bounded(a),
        g.bounded(b),
        forall|i: int|
            0 <= i < 256 ==> (#[trigger] r.elements()[i]).rep() == f.elements()[i].rep()
                + g.elements()[i].rep(),
    ensures
        r.bounded(a + b),
{
    f.lemma_is_poly();
    g.lemma_is_poly();
    r.lemma_is_poly();
    assert forall|i: int| 0 <= i < 256 implies (#[trigger] r.elements()[i]).bounded(a + b) by {
        assert(f.elements()[i].bounded(a));
        assert(g.elements()[i].bounded(b));
    }
}

impl<P: ParameterSet> Add for RqVector<P> {
    type Output = Self;

    /// The sum, component by component; the sums must fit sixteen bits.
    fn add(self, rhs: Self) -> (r: Self)
        ensures
            r@ == vec_add(self@, rhs@),
            r@.len() == P::K,
            forall|a: int, b: int| #[trigger]
                self.bounded(a) && #[trigger] rhs.bounded(b) ==> r.bounded(a + b),
    {
        proof {
            use_type_invariant(&self);
            use_type_invariant(&rhs);
        }
        let mut polys: Vec<RqElement> = Vec::new();
        let mut i: usize = 0;
        while i < P::K
            invariant
                i <= P::K,
                self.polys@.len() == P::K,
                rhs.polys@.len() == P::K,
                rq_addable(self.elements(), rhs.elements()),
                polys@.len() == i,
                forall|k: int|
                    0 <= k < i ==> (#[trigger] polys@[k])@ == poly_add(
                        self.polys@[k]@,
                        rhs.polys@[k]@,
                    ) && forall|a: int, b: int| #[trigger]
                        self.polys@[k].bounded(a) && #[trigger] rhs.polys@[k].bounded(b)
                            ==> polys@[k].bounded(a + b),
            decreases P::K - i,
        {
            let ghost (f, g) = (self.elements()[i as int], rhs.elements()[i as int]);
            assert(addable(f.elements(), g.elements()));
            let mut sum: RqElement = self.polys[i].clone();
            sum.add_assign(&rhs.polys[i]);
            proof {
                assert forall|a: int, b: int| #[trigger]
                    f.bounded(a) && #[trigger] g.bounded(b) implies sum.bounded(a + b) by {
                    lemma_small_sum(&sum, &f, a, &g, b);
                }
            }
            polys.push(sum);
            i = i + 1;
        }
        let r: Self = RqVector { polys, set: PhantomData };
        proof {
            assert(r@ =~= vec_add(self@, rhs@));
            assert forall|a: int, b: int| #[trigger]
                self.bounded(a) && #[trigger] rhs.bounded(b) implies r.bounded(a + b) by {
                assert forall|k: int| 0 <= k < r.elements().len() implies (
                #[trigger] r.elements()[k]).bounded(a + b) by {
                    assert(self.elements()[k].bounded(a));
                    assert(rhs.elements()[k].bounded(b));
                }
            }
        }
        r
    }
}

impl<P: ParameterSet> vstd::std_specs::ops::AddSpecImpl for RqVector<P> {
    open spec fn obeys_add_spec() -> bool {
        false
    }

    open spec fn add_req(self, rhs: Self) -> bool {
        rq_addable(self.elements(), rhs.elements())
    }

    open spec fn add_spec(self, rhs: Self) -> Self {
        arbitrary()
    }
}

/// A vector of `K` elements of the transform domain.
#[derive(Debug)]
pub struct TqVector<P: ParameterSet> {
    polys: Vec<TqElement>,
    set: PhantomData<P>,
}

impl<P: ParameterSet> View for TqVector<P> {
    type V = Seq<Seq<int>>;

    open spec fn view(&self) -> Seq<Seq<int>> {
        views(self.elements())
    }
}

impl<P: ParameterSet> TqVector<P> {
    /// A vector has as many components as the parameter set says.
    #[verifier::type_invariant]
    pub open spec fn has_length(self) -> bool {
        self.elements().len() == P::K
    }

    /// The components.
    pub closed spec fn elements(&self) -> Seq<TqElement> {
        self.polys@
    }

    /// Whether every coefficient is at most `bound` in magnitude.
    pub open spec fn bounded(&self, bound: int) -> bool {
        forall|i: int|
            0 <= i < self.elements().len() ==> (#[trigger] self.elements()[i]).bounded(bound)
    }

    /// A bound may be replaced by a larger one.
    pub proof fn lemma_weaken(&self, a: int, b: int)
        requires
            self.bounded(a),
            a <= b,
        ensures
            self.bounded(b),
    {
        assert forall|i: int| 0 <= i < self.elements().len() implies (
        #[trigger] self.elements()[i]).bounded(b) by {
            self.elements()[i].lemma_weaken(a, b);
        }
    }

    /// The view of every component is a list of 256 canonical residues.
    pub proof fn lemma_polys(&self)
        ensures
            forall|i: int| 0 <= i < self@.len() ==> is_poly(#[trigger] self@[i]),
    {
        assert forall|i: int| 0 <= i < self@.len() implies is_poly(#[trigger] self@[i]) by {
            self.elements()[i].lemma_is_poly();
        }
    }

    /// The vector with the given components.
    pub fn from_vec(polys: Vec<TqElement>) -> (r: Self)
        requires
            polys@.len() == P::K,
        ensures
            r.elements() == polys@,
    {
        TqVector { polys, set: PhantomData }
    }

    /// The vector whose component `i` is what `f` gives for `i`.
    pub fn from_fn<F: FnMut(usize) -> TqElement>(f: F) -> (r: Self)
        requires
            forall|i: usize| i < P::K ==> #[trigger] f.requires((i,)),
        ensures
            r.elements().len() == P::K,
            forall|i: usize| i < P::K ==> f.ensures((i,), #[trigger] r.elements()[i as int]),
    {
        let ghost given = f;
        let mut f = f;
        let mut polys: Vec<TqElement> = Vec::new();
        let mut i: usize = 0;
        while i < P::K
            invariant
                f == given,
                i <= P::K,
                polys@.len() == i,
                forall|k: usize| k < P::K ==> #[trigger] f.requires((k,)),
                forall|k: usize| k < i ==> f.ensures((k,), #[trigger] polys@[k as int]),
            decreases P::K - i,
        {
            polys.push(f(i));
            i = i + 1;
        }
        TqVector { polys, set: PhantomData }
    }

    /// The components.
    pub fn as_slice(&self) -> (r: &[TqElement])
        ensures
            r@ == self.elements(),
            r@.len() == P::K,
    {
        proof {
            use_type_invariant(self);
        }
        self.polys.as_slice()
    }

    /// The inverse transforms of the components, each times `R`.
    pub fn ntt_inverse(&self) -> (r: RqVector<P>)
        requires
            self.bounded(NTT_INVERSE_BOUND as int),
        ensures
            r@ == vec_inverse_ntt(vec_scale(mont_r(), self@)),
            r@.len() == P::K,
            r.bounded(3328),
    {
        proof {
            use_type_invariant(self);
        }
        let mut polys: Vec<RqElement> = Vec::new();
        let mut i: usize = 0;
        while i < P::K
            invariant
                i <= P::K,
                self.polys@.len() == P::K,
                self.bounded(NTT_INVERSE_BOUND as int),
                polys@.len() == i,
                forall|k: int|
                    0 <= k < i ==> (#[trigger] polys@[k])@ == inverse_ntt(
                        poly_scale(mont_r(), self.polys@[k]@),
                    ) && polys@[k].bounded(3328),
            decreases P::K - i,
        {
            assert(self.elements()[i as int].bounded(NTT_INVERSE_BOUND as int));
            polys.push(self.polys[i].ntt_inverse());
            i = i + 1;
        }
        let r: RqVector<P> = RqVector { polys, set: PhantomData };
        proof {
            assert(r@ =~= vec_inverse_ntt(vec_scale(mont_r(), self@)));
        }
        r
    }

    /// The components times `R`, which undoes the `R^-1` that products in the
    /// transform domain leave.
    pub fn to_montgomery(&self) -> (r: Self)
        ensures
            r@ == vec_scale(mont_r(), self@),
            r@.len() == P::K,
            r.bounded(2341),
    {
        proof {
            use_type_invariant(self);
        }
        let mut polys: Vec<TqElement> = Vec::new();
        let mut i: usize = 0;
        while i < P::K
            invariant
                i <= P::K,
                self.polys@.len() == P::K,
                polys@.len() == i,
                forall|k: int|
                    0 <= k < i ==> (#[trigger] polys@[k])@ == poly_scale(
                        mont_r(),
                        self.polys@[k]@,
                    ) && polys@[k].bounded(2341),
            decreases P::K - i,
        {
            polys.push(self.polys[i].to_montgomery());
            i = i + 1;
        }
        let r: Self = TqVector { polys, set: PhantomData };
        proof {
            assert(r@ =~= vec_scale(mont_r(), self@));
        }
        r
    }

    /// The dot product in the transform domain, scaled by `R^-1`.
    pub(crate) fn dot(&self, rhs: &Self) -> (r: TqElement)
        requires
            self.bounded(dot_bound(P::K as int)),
            rhs.bounded(dot_bound(P::K as int)),
        ensures
            r@ == poly_scale(mont_r_inverse(), tq_dot(self@, rhs@, P::K as nat)),
            self.bounded(MUL_BOUND as int) && rhs.bounded(MUL_BOUND as int) ==> r.bounded(
                NTT_INVERSE_BOUND as int,
            ),
    {
        proof {
            use_type_invariant(self);
            use_type_invariant(rhs);
            P::lemma_sizes();
        }
        let ghost small = self.bounded(MUL_BOUND as int) && rhs.bounded(MUL_BOUND as int);
        let ghost b: int = if small {
            MUL_BOUND as int
        } else {
            dot_bound(P::K as int)
        };
        let ghost t: int = if small {
            381
        } else {
            dot_step(P::K as int)
        };
        let mut result: TqElement = TqElement::zero();
        let mut i: usize = 0;
        proof {
            result.lemma_is_poly();
            assert(result@ =~= poly_scale(mont_r_inverse(), tq_dot(self@, rhs@, 0)));
            lemma_dot_step(P::K as int);
        }
        while i < P::K
            invariant
                i <= P::K,
                2 <= P::K <= 4,
                self.polys@.len() == P::K,
                rhs.polys@.len() == P::K,
                product_within(b, t),
                self.bounded(b),
                rhs.bounded(b),
                0 <= 2 * (t + 1664) * P::K <= 32767,
                result@ == poly_scale(mont_r_inverse(), tq_dot(self@, rhs@, i as nat)),
                result.bounded(2 * (t + 1664) * i),
            decreases P::K - i,
        {
            assert(self.elements()[i as int].bounded(b));
            assert(rhs.elements()[i as int].bounded(b));
            let term: TqElement = self.polys[i].product(&rhs.polys[i]);
            let ghost step = 2 * (t + 1664);
            proof {
                result.lemma_is_poly();
                term.lemma_is_poly();
                assert(step * i + step == step * (i + 1)) by (nonlinear_arith);
                assert(step * (i + 1) <= step * P::K) by (nonlinear_arith)
                    requires
                        0 <= step * P::K,
                        0 < P::K,
                        i + 1 <= P::K,
                ;
                lemma_bounded_addable(&result, step * i, &term, step);
            }
            let ghost before = result;
            result.add_assign(&term);
            proof {
                lemma_bounded_sum(&result, &before, step * i, &term, step);
                lemma_scaled_sum(
                    mont_r_inverse(),
                    tq_dot(self@, rhs@, i as nat),
                    tq_mul(self@[i as int], rhs@[i as int]),
                );
            }
            i = i + 1;
        }
        proof {
            if small {
                result.lemma_weaken(4090 * P::K, NTT_INVERSE_BOUND as int);
            }
        }
        result
    }

    /// The dot product in the transform domain with a vector that has its
    /// caches, scaled by `R^-1`.
    pub(crate) fn dot_cached(&self, rhs: &CachedTqVector<P>) -> (r: TqElement)
        requires
            self.bounded(MUL_BOUND as int),
            rhs.bounded(MUL_BOUND as int),
        ensures
            r@ == poly_scale(mont_r_inverse(), tq_dot(self@, rhs@, P::K as nat)),
            r.bounded(4708),
    {
        proof {
            use_type_invariant(self);
            use_type_invariant(rhs);
            P::lemma_sizes();
        }
        TqElement::accumulated_dot(
            self.polys.as_slice(),
            rhs.vector.polys.as_slice(),
            rhs.caches.as_slice(),
        )
    }

    /// Overwrites every coefficient with zero.
    pub fn zeroize(&mut self)
        ensures
            final(self)@ == vec_zero(P::K as nat),
            final(self).bounded(0),
        no_unwind
    {
        proof {
            use_type_invariant(&*self);
        }
        wipe_tq(&mut self.polys);
        proof {
            assert(self@ =~= vec_zero(P::K as nat));
        }
    }
}

/// A constant times a sum.
proof fn lemma_scaled_sum(c: int, f: Seq<int>, g: Seq<int>)
    ensures
        poly_scale(c, poly_add(f, g)) == poly_add(poly_scale(c, f), poly_scale(c, g)),
{
    assert forall|m: int| 0 <= m < 256 implies poly_scale(c, poly_add(f, g))[m] == poly_add(
        poly_scale(c, f),
        poly_scale(c, g),
    )[m] by {
        lemma_residue_mul(c, c, residue(f[m] + g[m]), f[m] + g[m]);
        lemma_residue_add(residue(c * f[m]), c * f[m], residue(c * g[m]), c * g[m]);
        assert(c * (f[m] + g[m]) == c * f[m] + c * g[m]) by (nonlinear_arith);
    }
    assert(poly_scale(c, poly_add(f, g)) =~= poly_add(poly_scale(c, f), poly_scale(c, g)));
}

/// Elements with small coefficients can be added.
pub(crate) proof fn lemma_bounded_addable(f: &TqElement, a: int, g: &TqElement, b: int)
    requires
        f.bounded(a),
        g.bounded(b),
        f.elements().len() == g.elements().len() == 256,
        a + b <= 32767,
    ensures
        addable(f.elements(), g.elements()),
{
}

/// The coefficients of a sum are at most the sum of the bounds.
pub(crate) proof fn lemma_bounded_sum(r: &TqElement, f: &TqElement, a: int, g: &TqElement, b: int)
    requires
        f.bounded(a),
        g.bounded(b),
        f.elements().len() == g.elements().len() == r.elements().len() == 256,
        forall|i: int|
            0 <= i < 256 ==> (#[trigger] r.elements()[i]).rep() == f.elements()[i].rep()
                + g.elements()[i].rep(),
    ensures
        r.bounded(a + b),
{
    assert forall|i: int| 0 <= i < 256 implies (#[trigger] r.elements()[i]).bounded(a + b) by {
        assert(f.elements()[i].bounded(a));
        assert(g.elements()[i].bounded(b));
    }
}

impl<P: ParameterSet> Clone for TqVector<P> {
    fn clone(&self) -> (r: Self)
        ensures
            r.elements() == self.elements(),
    {
        proof {
            use_type_invariant(self);
        }
        let mut polys: Vec<TqElement> = Vec::new();
        let mut i: usize = 0;
        while i < P::K
            invariant
                i <= P::K,
                self.polys@.len() == P::K,
                polys@ == self.polys@.take(i as int),
            decreases P::K - i,
        {
            polys.push(self.polys[i].clone());
            i = i + 1;
            proof {
                assert(polys@ =~= self.polys@.take(i as int));
            }
        }
        proof {
            assert(polys@ =~= self.polys@);
        }
        TqVector { polys, set: PhantomData }
    }
}

impl<P: ParameterSet> PartialEq for TqVector<P> {
    fn eq(&self, other: &Self) -> (r: bool) {
        proof {
            use_type_invariant(self);
            use_type_invariant(other);
        }
        let mut i: usize = 0;
        while i < P::K
            invariant
                i <= P::K,
                self.polys@.len() == P::K,
                other.polys@.len() == P::K,
                forall|k: int| 0 <= k < i ==> (#[trigger] self.polys@[k])@ == other.polys@[k]@,
            decreases P::K - i,
        {
            if self.polys[i] != other.polys[i] {
                assert(self@[i as int] != other@[i as int]);
                return false;
            }
            i = i + 1;
        }
        proof {
            assert(self@ =~= other@);
        }
        true
    }
}

impl<P: ParameterSet> vstd::std_specs::cmp::PartialEqSpecImpl for TqVector<P> {
    open spec fn obeys_eq_spec() -> bool {
        true
    }

    open spec fn eq_spec(&self, other: &Self) -> bool {
        self@ == other@
    }
}

impl<P: ParameterSet> Eq for TqVector<P> {

}

impl<P: ParameterSet> Index<usize> for TqVector<P> {
    type Output = TqElement;

    fn index(&self, index: usize) -> (r: &TqElement)
        ensures
            *r == self.elements()[index as int],
    {
        proof {
            use_type_invariant(self);
        }
        &self.polys[index]
    }
}

impl<P: ParameterSet> vstd::std_specs::core::IndexSpecImpl<usize> for TqVector<P> {
    open spec fn index_req(&self, index: &usize) -> bool {
        *index < P::K
    }
}

impl<P: ParameterSet> Add for TqVector<P> {
    type Output = Self;

    /// The sum, component by component; the sums must fit sixteen bits.
    fn add(self, rhs: Self) -> (r: Self)
        ensures
            r@ == vec_add(self@, rhs@),
            r@.len() == P::K,
            forall|a: int, b: int| #[trigger]
                self.bounded(a) && #[trigger] rhs.bounded(b) ==> r.bounded(a + b),
    {
        proof {
            use_type_invariant(&self);
            use_type_invariant(&rhs);
        }
        let mut polys: Vec<TqElement> = Vec::new();
        let mut i: usize = 0;
        while i < P::K
            invariant
                i <= P::K,
                self.polys@.len() == P::K,
                rhs.polys@.len() == P::K,
                tq_addable(self.elements(), rhs.elements()),
                polys@.len() == i,
                forall|k: int|
                    0 <= k < i ==> (#[trigger] polys@[k])@ == poly_add(
                        self.polys@[k]@,
                        rhs.polys@[k]@,
                    ) && forall|a: int, b: int| #[trigger]
                        self.polys@[k].bounded(a) && #[trigger] rhs.polys@[k].bounded(b)
                            ==> polys@[k].bounded(a + b),
            decreases P::K - i,
        {
            let ghost (f, g) = (self.elements()[i as int], rhs.elements()[i as int]);
            assert(addable(f.elements(), g.elements()));
            let mut sum: TqElement = self.polys[i].clone();
            sum.add_assign(&rhs.polys[i]);
            proof {
                f.lemma_is_poly();
                g.lemma_is_poly();
                assert forall|a: int, b: int| #[trigger]
                    f.bounded(a) && #[trigger] g.bounded(b) implies sum.bounded(a + b) by {
                    lemma_bounded_sum(&sum, &f, a, &g, b);
                }
            }
            polys.push(sum);
            i = i + 1;
        }
        let r: Self = TqVector { polys, set: PhantomData };
        proof {
            assert(r@ =~= vec_add(self@, rhs@));
            assert forall|a: int, b: int| #[trigger]
                self.bounded(a) && #[trigger] rhs.bounded(b) implies r.bounded(a + b) by {
                assert forall|k: int| 0 <= k < r.elements().len() implies (
                #[trigger] r.elements()[k]).bounded(a + b) by {
                    assert(self.elements()[k].bounded(a));
                    assert(rhs.elements()[k].bounded(b));
                }
            }
        }
        r
    }
}

impl<P: ParameterSet> vstd::std_specs::ops::AddSpecImpl for TqVector<P> {
    open spec fn obeys_add_spec() -> bool {
        false
    }

    open spec fn add_req(self, rhs: Self) -> bool {
        tq_addable(self.elements(), rhs.elements())
    }

    open spec fn add_spec(self, rhs: Self) -> Self {
        arbitrary()
    }
}

impl<P: ParameterSet> Mul for &TqVector<P> {
    type Output = TqElement;

    /// The dot product in the transform domain, scaled by `R^-1`.
    fn mul(self, rhs: &TqVector<P>) -> (r: TqElement)
        ensures
            r@ == poly_scale(mont_r_inverse(), tq_dot(self@, rhs@, P::K as nat)),
            self.bounded(MUL_BOUND as int) && rhs.bounded(MUL_BOUND as int) ==> r.bounded(
                NTT_INVERSE_BOUND as int,
            ),
    {
        self.dot(rhs)
    }
}

impl<P: ParameterSet> vstd::std_specs::ops::MulSpecImpl for &TqVector<P> {
    open spec fn obeys_mul_spec() -> bool {
        false
    }

    open spec fn mul_req(self, rhs: Self) -> bool {
        self.bounded(dot_bound(P::K as int)) && rhs.bounded(dot_bound(P::K as int))
    }

    open spec fn mul_spec(self, rhs: Self) -> TqElement {
        arbitrary()
    }
}

/// A vector of the transform domain together with the part of a base
/// multiplication by its components that depends on them alone.
///
/// The vector that occurs in several products is held in this form.
#[derive(Debug)]
pub struct CachedTqVector<P: ParameterSet> {
    vector: TqVector<P>,
    caches: Vec<TqMulCache>,
}

impl<P: ParameterSet> View for CachedTqVector<P> {
    type V = Seq<Seq<int>>;

    /// The vector.
    open spec fn view(&self) -> Seq<Seq<int>> {
        views(self.elements())
    }
}

impl<P: ParameterSet> CachedTqVector<P> {
    /// A cached vector has as many components as the parameter set says, and
    /// the caches are those of its components.
    #[verifier::type_invariant]
    pub open spec fn is_cached(self) -> bool {
        &&& self.elements().len() == P::K
        &&& self.caches().len() == P::K
        &&& forall|i: int|
            0 <= i < P::K ==> (#[trigger] self.caches()[i]).caches(self.elements()[i]@)
    }

    /// The caches of the components.
    pub closed spec fn caches(&self) -> Seq<TqMulCache> {
        self.caches@
    }

    /// The components of the vector.
    pub closed spec fn elements(&self) -> Seq<TqElement> {
        self.vector.elements()
    }

    /// Whether every coefficient is at most `bound` in magnitude.
    pub open spec fn bounded(&self, bound: int) -> bool {
        forall|i: int|
            0 <= i < self.elements().len() ==> (#[trigger] self.elements()[i]).bounded(bound)
    }

    /// A bound may be replaced by a larger one.
    pub proof fn lemma_weaken(&self, a: int, b: int)
        requires
            self.bounded(a),
            a <= b,
        ensures
            self.bounded(b),
    {
        assert forall|i: int| 0 <= i < self.elements().len() implies (
        #[trigger] self.elements()[i]).bounded(b) by {
            self.elements()[i].lemma_weaken(a, b);
        }
    }

    /// The view of every component is a list of 256 canonical residues.
    pub proof fn lemma_polys(&self)
        ensures
            forall|i: int| 0 <= i < self@.len() ==> is_poly(#[trigger] self@[i]),
    {
        assert forall|i: int| 0 <= i < self@.len() implies is_poly(#[trigger] self@[i]) by {
            self.elements()[i].lemma_is_poly();
        }
    }

    /// The vector without its caches.
    pub fn vector(&self) -> (r: &TqVector<P>)
        ensures
            r.elements() == self.elements(),
            r@.len() == P::K,
    {
        proof {
            use_type_invariant(self);
        }
        &self.vector
    }

    /// Overwrites the vector and its caches with zero.
    pub fn zeroize(&mut self)
        ensures
            final(self)@ == vec_zero(P::K as nat),
            final(self).bounded(0),
        no_unwind
    {
        proof {
            use_type_invariant(&*self);
        }
        wipe_cached(&mut self.vector, &mut self.caches);
        proof {
            assert(self@ =~= vec_zero(P::K as nat));
        }
    }
}

/// Overwrites a vector and the caches of its components with zeros.
fn wipe_cached<P: ParameterSet>(vector: &mut TqVector<P>, caches: &mut Vec<TqMulCache>)
    ensures
        final(vector).elements().len() == P::K,
        forall|i: int|
            0 <= i < P::K ==> (#[trigger] final(vector).elements()[i])@ == poly_zero(),
        final(vector).bounded(0),
        final(caches)@.len() == old(caches)@.len(),
        forall|i: int|
            0 <= i < final(caches)@.len() ==> (#[trigger] final(caches)@[i]).caches(poly_zero()),
    no_unwind
{
    vector.zeroize();
    proof {
        use_type_invariant(&*vector);
        assert forall|i: int| 0 <= i < P::K implies (#[trigger] vector.elements()[i])@
            == poly_zero() by {
            assert(vector@[i] == poly_zero());
        }
    }
    let mut i: usize = 0;
    while i < caches.len()
        invariant
            i <= caches@.len(),
            caches@.len() == old(caches)@.len(),
            forall|k: int| 0 <= k < i ==> (#[trigger] caches@[k]).caches(poly_zero()),
        decreases caches@.len() - i,
    {
        caches[i].zeroize();
        i = i + 1;
    }
}

impl<P: ParameterSet> From<TqVector<P>> for CachedTqVector<P> {
    fn from(vector: TqVector<P>) -> (r: Self)
        ensures
            r.elements() == vector.elements(),
            r@.len() == P::K,
    {
        proof {
            use_type_invariant(&vector);
        }
        let mut caches: Vec<TqMulCache> = Vec::new();
        let mut i: usize = 0;
        while i < P::K
            invariant
                i <= P::K,
                vector.polys@.len() == P::K,
                caches@.len() == i,
                forall|k: int|
                    0 <= k < i ==> (#[trigger] caches@[k]).caches(vector.polys@[k]@),
            decreases P::K - i,
        {
            caches.push(vector.polys[i].mul_cache());
            i = i + 1;
        }
        CachedTqVector { vector, caches }
    }
}

impl<P: ParameterSet> vstd::std_specs::convert::FromSpecImpl<TqVector<P>> for CachedTqVector<P> {
    open spec fn obeys_from_spec() -> bool {
        false
    }

    open spec fn from_spec(v: TqVector<P>) -> Self {
        arbitrary()
    }
}

impl<'a, P: ParameterSet> Mul<&'a CachedTqVector<P>> for &'a TqVector<P> {
    type Output = TqElement;

    /// The dot product in the transform domain, scaled by `R^-1`.
    fn mul(self, rhs: &'a CachedTqVector<P>) -> (r: TqElement)
        ensures
            r@ == poly_scale(mont_r_inverse(), tq_dot(self@, rhs@, P::K as nat)),
            r.bounded(4708),
    {
        self.dot_cached(rhs)
    }
}

impl<'a, P: ParameterSet> vstd::std_specs::ops::MulSpecImpl<&'a CachedTqVector<P>>
    for &'a TqVector<P> {
    open spec fn obeys_mul_spec() -> bool {
        false
    }

    open spec fn mul_req(self, rhs: &'a CachedTqVector<P>) -> bool {
        self.bounded(MUL_BOUND as int) && rhs.bounded(MUL_BOUND as int)
    }

    open spec fn mul_spec(self, rhs: &'a CachedTqVector<P>) -> TqElement {
        arbitrary()
    }
}

} // verus!
