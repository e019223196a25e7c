//! Square matrices of elements of the transform domain.

use core::marker::PhantomData;
use core::ops::{Index, Mul};

use vstd::prelude::*;

use super::kernels::{MUL_BOUND, NTT_INVERSE_BOUND};
use super::modular::mont_r_inverse;
use super::poly::{views, TqElement};
use super::ring::{poly_scale, tq_dot};
use super::vector::{dot_bound, vec_scale, CachedTqVector, TqVector};
use crate::parameters::ParameterSet;

verus! {

/// The transpose of a square matrix.
pub open spec fn transposed<T>(a: Seq<Seq<T>>) -> Seq<Seq<T>> {
    Seq::new(a.len(), |j: int| Seq::new(a.len(), |i: int| a[i][j]))
}

/// Whether every row of a matrix is as long as the matrix is high.
pub open spec fn is_square<T>(a: Seq<Seq<T>>) -> bool {
    forall|i: int| 0 <= i < a.len() ==> (#[trigger] a[i]).len() == a.len()
}

/// The product of a matrix and a column vector in the transform domain.
pub open spec fn mat_vec(a: Seq<Seq<Seq<int>>>, v: Seq<Seq<int>>) -> Seq<Seq<int>> {
    Seq::new(a.len(), |i: int| tq_dot(a[i], v, v.len()))
}

/// Transposing a square matrix twice gives the matrix back.
pub proof fn law_transpose_involution<T>(a: Seq<Seq<T>>)
    requires
        is_square(a),
    ensures
        transposed(transposed(a)) == a,
{
    let t = transposed(transposed(a));
    assert forall|i: int| 0 <= i < a.len() implies #[trigger] t[i] == a[i] by {
        assert(a[i].len() == a.len());
        assert(t[i] =~= a[i]);
    }
    assert(t =~= a);
}

/// The components of a list of rows.
pub open spec fn row_elements<P: ParameterSet>(rows: Seq<TqVector<P>>) -> Seq<Seq<TqElement>> {
    Seq::new(rows.len(), |i: int| rows[i].elements())
}

/// The views of a list of lists of elements.
pub open spec fn matrix_views(a: Seq<Seq<TqElement>>) -> Seq<Seq<Seq<int>>> {
    Seq::new(a.len(), |i: int| views(a[i]))
}

/// A matrix of `K` rows and `K` columns over the transform domain, held row by
/// row.
#[derive(Debug)]
pub struct TqMatrix<P: ParameterSet> {
    rows: Vec<TqVector<P>>,
    set: PhantomData<P>,
}

impl<P: ParameterSet> View for TqMatrix<P> {
    type V = Seq<Seq<Seq<int>>>;

    open spec fn view(&self) -> Seq<Seq<Seq<int>>> {
        matrix_views(self.elements())
    }
}

impl<P: ParameterSet> TqMatrix<P> {
    /// A matrix has as many rows and columns as the parameter set says.
    #[verifier::type_invariant]
    pub open spec fn has_shape(self) -> bool {
        &&& self.elements().len() == P::K
        &&& forall|i: int| 0 <= i < P::K ==> (#[trigger] self.elements()[i]).len() == P::K
    }

    /// The rows.
    pub closed spec fn rows(&self) -> Seq<TqVector<P>> {
        self.rows@
    }

    /// The entries, row by row.
    pub open spec fn elements(&self) -> Seq<Seq<TqElement>> {
        row_elements(self.rows())
    }

    /// Whether every coefficient of every entry is at most `bound` in
    /// magnitude.
    pub open spec fn bounded(&self, bound: int) -> bool {
        forall|i: int, j: int|
            0 <= i < P::K && 0 <= j < P::K ==> (#[trigger] self.elements()[i][j]).bounded(bound)
    }

    /// A bound may be replaced by a larger one.
    pub proof fn lemma_weaken(&self, a: int, b: int)
        requires
            self.bounded(a),
            a <= b,
        ensures
            self.bounded(b),
    {
        assert forall|i: int, j: int| 0 <= i < P::K && 0 <= j < P::K implies (
        #[trigger] self.elements()[i][j]).bounded(b) by {
            self.elements()[i][j].lemma_weaken(a, b);
        }
    }

    /// The matrix with the given rows.
    pub fn from_rows(rows: Vec<TqVector<P>>) -> (r: Self)
        requires
            rows@.len() == P::K,
        ensures
            r.rows() == rows@,
            r.has_shape(),
    {
        let mut i: usize = 0;
        while i < P::K
            invariant
                i <= P::K,
                rows@.len() == P::K,
                forall|k: int| 0 <= k < i ==> (#[trigger] rows@[k]).elements().len() == P::K,
            decreases P::K - i,
        {
            let row: &TqVector<P> = &rows[i];
            proof {
                use_type_invariant(row);
            }
            i = i + 1;
        }
        proof {
            assert forall|k: int| 0 <= k < P::K implies (#[trigger] row_elements(rows@)[k]).len()
                == P::K by {
                assert(rows@[k].elements().len() == P::K);
            }
        }
        TqMatrix { rows, set: PhantomData }
    }

    /// The matrix whose row `i` is what `f` gives for `i`.
    pub fn from_fn<F: FnMut(usize) -> TqVector<P>>(f: F) -> (r: Self)
        requires
            forall|i: usize| i < P::K ==> #[trigger] f.requires((i,)),
        ensures
            r.has_shape(),
            forall|i: usize| i < P::K ==> f.ensures((i,), #[trigger] r.rows()[i as int]),
    {
        let ghost given = f;
        let mut f = f;
        let mut rows: Vec<TqVector<P>> = Vec::new();
        let mut i: usize = 0;
        while i < P::K
            invariant
                f == given,
                i <= P::K,
                rows@.len() == i,
                forall|k: usize| k < P::K ==> #[trigger] f.requires((k,)),
                forall|k: usize| k < i ==> f.ensures((k,), #[trigger] rows@[k as int]),
            decreases P::K - i,
        {
            rows.push(f(i));
            i = i + 1;
        }
        Self::from_rows(rows)
    }

    /// The transpose.
    pub fn transpose(&self) -> (r: Self)
        ensures
            r.elements() == transposed(self.elements()),
            r@ == transposed(self@),
            r.has_shape(),
            forall|b: int| #[trigger] self.bounded(b) ==> r.bounded(b),
    {
        proof {
            use_type_invariant(self);
        }
        let ghost t = transposed(self.elements());
        let mut rows: Vec<TqVector<P>> = Vec::new();
        let mut j: usize = 0;
        while j < P::K
            invariant
                j <= P::K,
                self.has_shape(),
                t == transposed(self.elements()),
                rows@.len() == j,
                forall|k: int| 0 <= k < j ==> (#[trigger] rows@[k]).elements() == t[k],
            decreases P::K - j,
        {
            let mut row: Vec<TqElement> = Vec::new();
            let mut i: usize = 0;
            while i < P::K
                invariant
                    i <= P::K,
                    j < P::K,
                    self.has_shape(),
                    row@.len() == i,
                    forall|k: int|
                        0 <= k < i ==> #[trigger] row@[k] == self.elements()[k][j as int],
                decreases P::K - i,
            {
                assert(self.elements()[i as int].len() == P::K);
                row.push(self.rows[i].as_slice()[j].clone());
                i = i + 1;
            }
            proof {
                assert(row@ =~= t[j as int]);
            }
            rows.push(TqVector::from_vec(row));
            j = j + 1;
        }
        proof {
            assert(row_elements(rows@) =~= t);
        }
        let r: Self = Self::from_rows(rows);
        proof {
            assert forall|k: int| 0 <= k < P::K implies #[trigger] r@[k] == transposed(self@)[k] by {
                assert(r@[k] =~= transposed(self@)[k]);
            }
            assert(r@ =~= transposed(self@));
            assert forall|b: int| #[trigger] self.bounded(b) implies r.bounded(b) by {
                assert forall|i: int, k: int| 0 <= i < P::K && 0 <= k < P::K implies (
                #[trigger] r.elements()[i][k]).bounded(b) by {
                    assert(self.elements()[k][i].bounded(b));
                }
            }
        }
        r
    }

    /// The product with a column vector, scaled by `R^-1`.
    pub(crate) fn times(&self, rhs: &TqVector<P>) -> (r: TqVector<P>)
        requires
            self.bounded(dot_bound(P::K as int)),
            rhs.bounded(dot_bound(P::K as int)),
        ensures
            r@ == vec_scale(mont_r_inverse(), mat_vec(self@, rhs@)),
            r@.len() == P::K,
            self.bounded(MUL_BOUND as int) && rhs.bounded(MUL_BOUND as int) ==> r.bounded(
                NTT_INVERSE_BOUND as int,
            ),
    {
        proof {
            use_type_invariant(self);
            use_type_invariant(rhs);
        }
        let mut polys: Vec<TqElement> = Vec::new();
        let mut i: usize = 0;
        while i < P::K
            invariant
                i <= P::K,
                self.has_shape(),
                rhs.has_length(),
                self.bounded(dot_bound(P::K as int)),
                rhs.bounded(dot_bound(P::K as int)),
                polys@.len() == i,
                forall|k: int|
                    0 <= k < i ==> (#[trigger] polys@[k])@ == poly_scale(
                        mont_r_inverse(),
                        tq_dot(self@[k], rhs@, P::K as nat),
                    ),
                self.bounded(MUL_BOUND as int) && rhs.bounded(MUL_BOUND as int) ==> forall|k: int|
                    0 <= k < i ==> (#[trigger] polys@[k]).bounded(NTT_INVERSE_BOUND as int),
            decreases P::K - i,
        {
            proof {
                self.lemma_row_bounded(i as int, dot_bound(P::K as int));
                if self.bounded(MUL_BOUND as int) {
                    self.lemma_row_bounded(i as int, MUL_BOUND as int);
                }
            }
            polys.push(self.rows[i].dot(rhs));
            i = i + 1;
        }
        let r: TqVector<P> = TqVector::from_vec(polys);
        proof {
            assert(r@ =~= vec_scale(mont_r_inverse(), mat_vec(self@, rhs@)));
        }
        r
    }

    /// The product with a column vector that has its caches, scaled by `R^-1`.
    pub(crate) fn times_cached(&self, rhs: &CachedTqVector<P>) -> (r: TqVector<P>)
        requires
            self.bounded(MUL_BOUND as int),
            rhs.bounded(MUL_BOUND as int),
        ensures
            r@ == vec_scale(mont_r_inverse(), mat_vec(self@, rhs@)),
            r@.len() == P::K,
            r.bounded(4708),
    {
        proof {
            use_type_invariant(self);
            use_type_invariant(rhs);
        }
        let mut polys: Vec<TqElement> = Vec::new();
        let mut i: usize = 0;
        while i < P::K
            invariant
                i <= P::K,
                self.has_shape(),
                rhs@.len() == P::K,
                self.bounded(MUL_BOUND as int),
                rhs.bounded(MUL_BOUND as int),
                polys@.len() == i,
                forall|k: int|
                    0 <= k < i ==> (#[trigger] polys@[k])@ == poly_scale(
                        mont_r_inverse(),
                        tq_dot(self@[k], rhs@, P::K as nat),
                    ) && polys@[k].bounded(4708),
            decreases P::K - i,
        {
            proof {
                self.lemma_row_bounded(i as int, MUL_BOUND as int);
            }
            polys.push(self.rows[i].dot_cached(rhs));
            i = i + 1;
        }
        let r: TqVector<P> = TqVector::from_vec(polys);
        proof {
            assert(r@ =~= vec_scale(mont_r_inverse(), mat_vec(self@, rhs@)));
        }
        r
    }

    /// The rows are bounded when the matrix is.
    proof fn lemma_row_bounded(&self, i: int, bound: int)
        requires
            self.has_shape(),
            self.bounded(bound),
            0 <= i < P::K,
        ensures
            self.rows@[i].bounded(bound),
    {
        let row = self.rows@[i];
        assert(self.elements()[i].len() == P::K);
        assert forall|k: int| 0 <= k < row.elements().len() implies (
        #[trigger] row.elements()[k]).bounded(bound) by {
            assert(self.elements()[i][k].bounded(bound));
        }
    }
}

impl<P: ParameterSet> Clone for TqMatrix<P> {
    fn clone(&self) -> (r: Self)
        ensures
            r.elements() == self.elements(),
    {
        proof {
            use_type_invariant(self);
        }
        let mut rows: Vec<TqVector<P>> = Vec::new();
        let mut i: usize = 0;
        while i < P::K
            invariant
                i <= P::K,
                self.has_shape(),
                rows@.len() == i,
                forall|k: int|
                    0 <= k < i ==> (#[trigger] rows@[k]).elements() == self.elements()[k],
            decreases P::K - i,
        {
            rows.push(self.rows[i].clone());
            i = i + 1;
        }
        proof {
            assert(row_elements(rows@) =~= self.elements());
        }
        Self::from_rows(rows)
    }
}

impl<P: ParameterSet> PartialEq for TqMatrix<P> {
    fn eq(&self, other: &Self) -> (r: bool) {
        proof {
            use_type_invariant(self);
            use_type_invariant(other);
        }
        let mut i: usize = 0;
        while i < P::K
            invariant
                i <= P::K,
                self.has_shape(),
                other.has_shape(),
                forall|k: int| 0 <= k < i ==> #[trigger] self@[k] == other@[k],
            decreases P::K - i,
        {
            if self.rows[i] != other.rows[i] {
                assert(self@[i as int] != other@[i as int]);
                return false;
            }
            i = i + 1;
        }
        proof {
            assert(self@ =~= other@);
        }
        true
    }
}

impl<P: ParameterSet> vstd::std_specs::cmp::PartialEqSpecImpl for TqMatrix<P> {
    open spec fn obeys_eq_spec() -> bool {
        true
    }

    open spec fn eq_spec(&self, other: &Self) -> bool {
        self@ == other@
    }
}

impl<P: ParameterSet> Eq for TqMatrix<P> {

}

impl<P: ParameterSet> Index<usize> for TqMatrix<P> {
    type Output = TqVector<P>;

    fn index(&self, index: usize) -> (r: &TqVector<P>)
        ensures
            *r == self.rows()[index as int],
    {
        proof {
            use_type_invariant(self);
        }
        &self.rows[index]
    }
}

impl<P: ParameterSet> vstd::std_specs::core::IndexSpecImpl<usize> for TqMatrix<P> {
    open spec fn index_req(&self, index: &usize) -> bool {
        *index < P::K
    }
}

impl<'a, P: ParameterSet> Mul<&'a TqVector<P>> for &'a TqMatrix<P> {
    type Output = TqVector<P>;

    /// The product with a column vector, scaled by `R^-1`.
    fn mul(self, rhs: &'a TqVector<P>) -> (r: TqVector<P>)
        ensures
            r@ == vec_scale(mont_r_inverse(), mat_vec(self@, rhs@)),
            r@.len() == P::K,
            self.bounded(MUL_BOUND as int) && rhs.bounded(MUL_BOUND as int) ==> r.bounded(
                NTT_INVERSE_BOUND as int,
            ),
    {
        self.times(rhs)
    }
}

impl<'a, P: ParameterSet> vstd::std_specs::ops::MulSpecImpl<&'a TqVector<P>> for &'a TqMatrix<P> {
    open spec fn obeys_mul_spec() -> bool {
        false
    }

    open spec fn mul_req(self, rhs: &'a TqVector<P>) -> bool {
        self.bounded(dot_bound(P::K as int)) && rhs.bounded(dot_bound(P::K as int))
    }

    open spec fn mul_spec(self, rhs: &'a TqVector<P>) -> TqVector<P> {
        arbitrary()
    }
}

impl<'a, P: ParameterSet> Mul<&'a CachedTqVector<P>> for &'a TqMatrix<P> {
    type Output = TqVector<P>;

    /// The product with a column vector, scaled by `R^-1`; every row reuses the
    /// caches of the column.
    fn mul(self, rhs: &'a CachedTqVector<P>) -> (r: TqVector<P>)
        ensures
            r@ == vec_scale(mont_r_inverse(), mat_vec(self@, rhs@)),
            r@.len() == P::K,
            r.bounded(4708),
    {
        self.times_cached(rhs)
    }
}

impl<'a, P: ParameterSet> vstd::std_specs::ops::MulSpecImpl<&'a CachedTqVector<P>>
    for &'a TqMatrix<P> {
    open spec fn obeys_mul_spec() -> bool {
        false
    }

    open spec fn mul_req(self, rhs: &'a CachedTqVector<P>) -> bool {
        self.bounded(MUL_BOUND as int) && rhs.bounded(MUL_BOUND as int)
    }

    open spec fn mul_spec(self, rhs: &'a CachedTqVector<P>) -> TqVector<P> {
        arbitrary()
    }
}

} // verus!
