//! Laws of the two rings and of vectors over them.

use vstd::prelude::*;

use super::matrix::{is_square, mat_vec, transposed};
use super::modular::{
    lemma_residue_add, lemma_residue_mul, lemma_residue_shift, lemma_residue_sub, residue,
};
use super::ring::{
    inverse_ntt, lemma_ntt_add, lemma_ntt_mul, lemma_ntt_scale, poly_add, poly_scale, poly_sub,
    poly_zero, rq_mul, tq_dot, tq_mul,
};
use super::transform::{
    block_size, inverse_layer, is_poly, lemma_inverse_layer, lemma_lifted_end, lemma_lifted_start,
    lemma_ntt_injective, lifted, ntt_spec,
};
use super::vector::{vec_add, vec_ntt};
use super::zetas::gamma;

verus! {

/// One layer of the inverse transform, for blocks of size `h`.
#[verifier::opaque]
spec fn raised(c: Seq<int>, h: int) -> Seq<int> {
    Seq::new(256, |m: int| inverse_layer(c, h, m))
}

/// Whether blocks of size `n` have been lifted.
#[verifier::opaque]
spec fn all_lifted(c: Seq<int>, t: Seq<int>, n: int) -> bool {
    forall|m: int| 0 <= m < 256 ==> #[trigger] lifted(c, t, n, m)
}

/// A layer of the inverse transform lifts blocks of twice the size.
proof fn lemma_raised(t: Seq<int>, c: Seq<int>, h: int, n: int)
    requires
        block_size(h),
        h < 256,
        n == 2 * h,
        all_lifted(c, t, h),
    ensures
        all_lifted(raised(c, h), t, n),
{
    reveal(raised);
    reveal(all_lifted);
    assert forall|m: int| 0 <= m < 256 implies #[trigger] lifted(raised(c, h), t, n, m) by {
        assert(lifted(c, t, h, m));
        lemma_inverse_layer(t, c, raised(c, h), h, m);
    }
}

/// 3303 is the inverse of 128.
proof fn lemma_undo_factor(x: int, y: int)
    requires
        residue(x) == residue(128 * y),
        0 <= y < 3329,
    ensures
        residue(3303 * x) == y,
{
    lemma_residue_mul(3303, 3303, x, 128 * y);
    assert(3303 * (128 * y) == y + (127 * y) * 3329);
    lemma_residue_shift(3303 * (128 * y), y, 127 * y);
}

/// Lifted blocks of the full size have the given transform, up to the factor.
proof fn lemma_raised_coefficient(t: Seq<int>, c: Seq<int>, m: int)
    requires
        0 <= m < 256,
        all_lifted(c, t, 256),
    ensures
        residue(ntt_spec(c)[m]) == residue(128 * t[m]),
{
    reveal(all_lifted);
    assert(lifted(c, t, 256, m));
    lemma_lifted_end(c, t, m);
}

/// Blocks of the full size yield the inverse transform.
proof fn lemma_raised_end(t: Seq<int>, c: Seq<int>)
    requires
        is_poly(t),
        all_lifted(c, t, 256),
    ensures
        ntt_spec(poly_scale(3303, c)) == t,
{
    lemma_ntt_scale(3303, c);
    let n = ntt_spec(c);
    let r = poly_scale(3303, n);
    assert forall|m: int| 0 <= m < 256 implies #[trigger] r[m] == t[m] by {
        lemma_raised_coefficient(t, c, m);
        assert(0 <= t[m] < 3329);
        lemma_undo_factor(n[m], t[m]);
    }
    assert(r =~= t);
}

/// Every element of the transform domain is the transform of its inverse
/// transform.
pub proof fn law_inverse_ntt(t: Seq<int>)
    requires
        is_poly(t),
    ensures
        is_poly(inverse_ntt(t)),
        ntt_spec(inverse_ntt(t)) == t,
{
    assert(all_lifted(t, t, 2)) by {
        reveal(all_lifted);
        assert forall|m: int| 0 <= m < 256 implies #[trigger] lifted(t, t, 2, m) by {
            lemma_lifted_start(t, m);
        }
    }
    let c4 = raised(t, 2);
    let c8 = raised(c4, 4);
    let c16 = raised(c8, 8);
    let c32 = raised(c16, 16);
    let c64 = raised(c32, 32);
    let c128 = raised(c64, 64);
    let c256 = raised(c128, 128);
    lemma_raised(t, t, 2, 4);
    lemma_raised(t, c4, 4, 8);
    lemma_raised(t, c8, 8, 16);
    lemma_raised(t, c16, 16, 32);
    lemma_raised(t, c32, 32, 64);
    lemma_raised(t, c64, 64, 128);
    lemma_raised(t, c128, 128, 256);
    let f = poly_scale(3303, c256);
    lemma_raised_end(t, c256);
    assert(is_poly(f) && ntt_spec(f) == t);
}

/// Sums commute.
pub proof fn law_add_commutes(f: Seq<int>, g: Seq<int>)
    ensures
        poly_add(f, g) == poly_add(g, f),
{
    assert(poly_add(f, g) =~= poly_add(g, f));
}

/// Sums associate.
pub proof fn law_add_associates(f: Seq<int>, g: Seq<int>, h: Seq<int>)
    ensures
        poly_add(poly_add(f, g), h) == poly_add(f, poly_add(g, h)),
{
    assert forall|m: int| 0 <= m < 256 implies poly_add(poly_add(f, g), h)[m] == poly_add(
        f,
        poly_add(g, h),
    )[m] by {
        lemma_residue_add(residue(f[m] + g[m]), f[m] + g[m], h[m], h[m]);
        lemma_residue_add(f[m], f[m], residue(g[m] + h[m]), g[m] + h[m]);
    }
    assert(poly_add(poly_add(f, g), h) =~= poly_add(f, poly_add(g, h)));
}

/// Products in the transform domain commute.
pub proof fn law_mul_commutes(f: Seq<int>, g: Seq<int>)
    ensures
        tq_mul(f, g) == tq_mul(g, f),
{
    assert forall|m: int| 0 <= m < 256 implies tq_mul(f, g)[m] == tq_mul(g, f)[m] by {
        if m % 2 == 0 {
            let (a, b, c, d) = (f[m], g[m], f[m + 1], g[m + 1]);
            assert(a * b == b * a) by (nonlinear_arith);
            assert(c * d == d * c) by (nonlinear_arith);
        } else {
            let (a, b, c, d) = (f[m - 1], g[m], f[m], g[m - 1]);
            assert(a * b == b * a) by (nonlinear_arith);
            assert(c * d == d * c) by (nonlinear_arith);
        }
    }
    assert(tq_mul(f, g) =~= tq_mul(g, f));
}

/// Residues may be taken inside a sum of two products.
proof fn lemma_inner_residues(x: int, a: int, y: int, b: int, g: int)
    ensures
        residue(residue(x) * a + g * (residue(y) * b)) == residue(x * a + g * (y * b)),
{
    lemma_residue_mul(residue(x), x, a, a);
    lemma_residue_mul(residue(y), y, b, b);
    lemma_residue_mul(g, g, residue(y) * b, y * b);
    lemma_residue_add(residue(x) * a, x * a, g * (residue(y) * b), g * (y * b));
}

/// Products in the transform domain distribute over sums.
pub proof fn law_mul_distributes(f: Seq<int>, g: Seq<int>, h: Seq<int>)
    ensures
        tq_mul(poly_add(f, g), h) == poly_add(tq_mul(f, h), tq_mul(g, h)),
{
    let (l, r) = (tq_mul(poly_add(f, g), h), poly_add(tq_mul(f, h), tq_mul(g, h)));
    assert forall|m: int| 0 <= m < 256 implies l[m] == r[m] by {
        let z = gamma(m / 2);
        if m % 2 == 0 {
            let (a, b, c, d) = (f[m], g[m], f[m + 1], g[m + 1]);
            let (x, y) = (h[m], h[m + 1]);
            lemma_inner_residues(a + b, x, c + d, y, z);
            assert((a + b) * x + z * ((c + d) * y) == (a * x + z * (c * y)) + (b * x + z * (d * y)))
                by (nonlinear_arith);
            lemma_residue_add(
                residue(a * x + z * (c * y)),
                a * x + z * (c * y),
                residue(b * x + z * (d * y)),
                b * x + z * (d * y),
            );
        } else {
            let (a, b, c, d) = (f[m - 1], g[m - 1], f[m], g[m]);
            let (x, y) = (h[m], h[m - 1]);
            lemma_inner_residues(a + b, x, c + d, y, 1);
            assert(1 * (residue(c + d) * y) == residue(c + d) * y);
            assert(1 * ((c + d) * y) == (c + d) * y);
            assert((a + b) * x + (c + d) * y == (a * x + c * y) + (b * x + d * y))
                by (nonlinear_arith);
            lemma_residue_add(
                residue(a * x + c * y),
                a * x + c * y,
                residue(b * x + d * y),
                b * x + d * y,
            );
        }
    }
    assert(l =~= r);
}

/// The two coefficients of a product of three linear polynomials, whichever
/// pair is multiplied first.
proof fn lemma_triple_product(a: int, b: int, c: int, d: int, x: int, y: int, z: int)
    ensures
        (a * c + z * (b * d)) * x + z * ((a * d + b * c) * y) == a * (c * x + z * (d * y)) + z * (b
            * (c * y + d * x)),
        (a * c + z * (b * d)) * y + (a * d + b * c) * x == a * (c * y + d * x) + b * (c * x + z * (d
            * y)),
{
    let (ac, bd, ad, bc) = (a * c, b * d, a * d, b * c);
    let (cx, dy, cy, dx) = (c * x, d * y, c * y, d * x);
    assert((ac + z * bd) * x == ac * x + z * (bd * x)) by (nonlinear_arith);
    assert((ac + z * bd) * y == ac * y + z * (bd * y)) by (nonlinear_arith);
    assert(z * ((ad + bc) * y) == z * (ad * y) + z * (bc * y)) by (nonlinear_arith);
    assert((ad + bc) * x == ad * x + bc * x) by (nonlinear_arith);
    assert(a * (cx + z * dy) == a * cx + z * (a * dy)) by (nonlinear_arith);
    assert(z * (b * (cy + dx)) == z * (b * cy) + z * (b * dx)) by (nonlinear_arith);
    assert(a * (cy + dx) == a * cy + a * dx) by (nonlinear_arith);
    assert(b * (cx + z * dy) == b * cx + z * (b * dy)) by (nonlinear_arith);
    assert((a * c) * x == a * (c * x)) by (nonlinear_arith);
    assert((b * d) * x == b * (d * x)) by (nonlinear_arith);
    assert((a * d) * y == a * (d * y)) by (nonlinear_arith);
    assert((b * c) * y == b * (c * y)) by (nonlinear_arith);
    assert((a * c) * y == a * (c * y)) by (nonlinear_arith);
    assert((b * d) * y == b * (d * y)) by (nonlinear_arith);
    assert((a * d) * x == a * (d * x)) by (nonlinear_arith);
    assert((b * c) * x == b * (c * x)) by (nonlinear_arith);
}

/// Products in the transform domain associate.
pub proof fn law_mul_associates(f: Seq<int>, g: Seq<int>, h: Seq<int>)
    ensures
        tq_mul(tq_mul(f, g), h) == tq_mul(f, tq_mul(g, h)),
{
    let (l, r) = (tq_mul(tq_mul(f, g), h), tq_mul(f, tq_mul(g, h)));
    assert forall|m: int| 0 <= m < 256 implies l[m] == r[m] by {
        let i = m - m % 2;
        let z = gamma(m / 2);
        assert(i % 2 == 0 && (i + 1) % 2 == 1 && i / 2 == m / 2 && (i + 1) / 2 == m / 2);
        let (a, b, c, d) = (f[i], f[i + 1], g[i], g[i + 1]);
        let (x, y) = (h[i], h[i + 1]);
        lemma_triple_product(a, b, c, d, x, y, z);
        let (p, q) = (a * c + z * (b * d), a * d + b * c);
        let (s, t) = (c * x + z * (d * y), c * y + d * x);
        assert(tq_mul(f, g)[i] == residue(p) && tq_mul(f, g)[i + 1] == residue(q));
        assert(tq_mul(g, h)[i] == residue(s) && tq_mul(g, h)[i + 1] == residue(t));
        if m == i {
            lemma_inner_residues(p, x, q, y, z);
            lemma_inner_residues(s, a, t, b, z);
            assert(residue(s) * a == a * residue(s)) by (nonlinear_arith);
            assert(residue(t) * b == b * residue(t)) by (nonlinear_arith);
            assert(s * a == a * s) by (nonlinear_arith);
            assert(t * b == b * t) by (nonlinear_arith);
        } else {
            lemma_inner_residues(p, y, q, x, 1);
            lemma_inner_residues(t, a, s, b, 1);
            assert(residue(t) * a == a * residue(t)) by (nonlinear_arith);
            assert(residue(s) * b == b * residue(s)) by (nonlinear_arith);
            assert(t * a == a * t) by (nonlinear_arith);
            assert(s * b == b * s) by (nonlinear_arith);
        }
    }
    assert(l =~= r);
}

/// The sum of the products of the first `count` components of two vectors, in
/// the standard domain.
pub open spec fn rq_dot(f: Seq<Seq<int>>, g: Seq<Seq<int>>, count: nat) -> Seq<int>
    decreases count,
{
    if count == 0 {
        poly_zero()
    } else {
        poly_add(rq_dot(f, g, (count - 1) as nat), rq_mul(f[count - 1], g[count - 1]))
    }
}

/// Adding zero changes nothing.
proof fn lemma_add_zero(f: Seq<int>)
    requires
        is_poly(f),
    ensures
        poly_add(poly_zero(), f) == f,
{
    assert forall|m: int| 0 <= m < 256 implies poly_add(poly_zero(), f)[m] == f[m] by {
        assert(0 <= f[m] < 3329);
    }
    assert(poly_add(poly_zero(), f) =~= f);
}

/// Zero times anything is zero.
proof fn lemma_zero_mul(g: Seq<int>)
    ensures
        tq_mul(poly_zero(), g) == poly_zero(),
{
    assert forall|m: int| 0 <= m < 256 implies tq_mul(poly_zero(), g)[m] == 0 by {
        if m % 2 == 0 {
            let (x, y, z) = (g[m], g[m + 1], gamma(m / 2));
            assert(0 * x + z * (0 * y) == 0) by (nonlinear_arith);
        } else {
            let (x, y) = (g[m], g[m - 1]);
            assert(0 * x + 0 * y == 0) by (nonlinear_arith);
        }
    }
    assert(tq_mul(poly_zero(), g) =~= poly_zero());
}

/// The transform of zero is zero.
proof fn lemma_ntt_zero()
    ensures
        ntt_spec(poly_zero()) == poly_zero(),
{
    let t = ntt_spec(poly_zero());
    assert(poly_scale(0, poly_zero()) =~= poly_zero());
    lemma_ntt_scale(0, poly_zero());
    assert(poly_scale(0, t) =~= poly_zero());
}

/// The transform takes dot products to dot products.
pub proof fn law_ntt_dot(f: Seq<Seq<int>>, g: Seq<Seq<int>>, count: nat)
    requires
        count <= f.len(),
        count <= g.len(),
    ensures
        ntt_spec(rq_dot(f, g, count)) == tq_dot(vec_ntt(f), vec_ntt(g), count),
    decreases count,
{
    if count == 0 {
        lemma_ntt_zero();
    } else {
        let n = (count - 1) as nat;
        law_ntt_dot(f, g, n);
        lemma_ntt_add(rq_dot(f, g, n), rq_mul(f[count - 1], g[count - 1]));
        lemma_ntt_mul(f[count - 1], g[count - 1]);
    }
}

/// Four terms may be added in either order of the middle two.
proof fn lemma_interchange(a: Seq<int>, b: Seq<int>, c: Seq<int>, d: Seq<int>)
    ensures
        poly_add(poly_add(a, b), poly_add(c, d)) == poly_add(poly_add(a, c), poly_add(b, d)),
{
    law_add_associates(a, b, poly_add(c, d));
    law_add_associates(b, c, d);
    law_add_commutes(b, c);
    law_add_associates(c, b, d);
    law_add_associates(a, c, poly_add(b, d));
}

/// Dot products commute.
pub proof fn law_dot_commutes(f: Seq<Seq<int>>, g: Seq<Seq<int>>, count: nat)
    ensures
        tq_dot(f, g, count) == tq_dot(g, f, count),
    decreases count,
{
    if count > 0 {
        law_dot_commutes(f, g, (count - 1) as nat);
        law_mul_commutes(f[count - 1], g[count - 1]);
    }
}

/// Dot products distribute over sums.
pub proof fn law_dot_distributes(f: Seq<Seq<int>>, g: Seq<Seq<int>>, s: Seq<Seq<int>>, count: nat)
    requires
        count <= f.len(),
    ensures
        tq_dot(vec_add(f, g), s, count) == poly_add(tq_dot(f, s, count), tq_dot(g, s, count)),
    decreases count,
{
    if count == 0 {
        lemma_add_zero(poly_zero());
    } else {
        let n = (count - 1) as nat;
        law_dot_distributes(f, g, s, n);
        law_mul_distributes(f[n as int], g[n as int], s[n as int]);
        lemma_interchange(
            tq_dot(f, s, n),
            tq_dot(g, s, n),
            tq_mul(f[n as int], s[n as int]),
            tq_mul(g[n as int], s[n as int]),
        );
    }
}

/// A vector times an element of the transform domain.
spec fn vec_times(c: Seq<int>, f: Seq<Seq<int>>) -> Seq<Seq<int>> {
    Seq::new(f.len(), |j: int| tq_mul(f[j], c))
}

/// A factor may be taken out of a dot product.
proof fn lemma_dot_times(c: Seq<int>, f: Seq<Seq<int>>, s: Seq<Seq<int>>, count: nat)
    requires
        count <= f.len(),
    ensures
        tq_dot(vec_times(c, f), s, count) == tq_mul(tq_dot(f, s, count), c),
    decreases count,
{
    if count == 0 {
        lemma_zero_mul(c);
    } else {
        let n = (count - 1) as nat;
        lemma_dot_times(c, f, s, n);
        let (x, y) = (f[n as int], s[n as int]);
        law_mul_associates(x, c, y);
        law_mul_commutes(c, y);
        law_mul_associates(x, y, c);
        law_mul_distributes(tq_dot(f, s, n), tq_mul(x, y), c);
    }
}

/// A dot product with zeros is zero.
proof fn lemma_dot_zero(f: Seq<Seq<int>>, s: Seq<Seq<int>>, count: nat)
    requires
        count <= f.len(),
        forall|j: int| 0 <= j < count ==> #[trigger] f[j] == poly_zero(),
    ensures
        tq_dot(f, s, count) == poly_zero(),
    decreases count,
{
    if count > 0 {
        lemma_dot_zero(f, s, (count - 1) as nat);
        lemma_zero_mul(s[count - 1]);
        lemma_add_zero(poly_zero());
    }
}

/// The product of the transpose of a matrix with the first `n` components of a
/// vector.
spec fn column_dots(a: Seq<Seq<Seq<int>>>, y: Seq<Seq<int>>, n: nat) -> Seq<Seq<int>> {
    Seq::new(a.len(), |j: int| tq_dot(transposed(a)[j], y, n))
}

/// The first `n` rows of a matrix can be moved to the other factor of a dot
/// product.
proof fn lemma_transpose_dot(
    a: Seq<Seq<Seq<int>>>,
    s: Seq<Seq<int>>,
    y: Seq<Seq<int>>,
    n: nat,
)
    requires
        is_square(a),
        s.len() == a.len(),
        n <= a.len(),
    ensures
        tq_dot(mat_vec(a, s), y, n) == tq_dot(column_dots(a, y, n), s, a.len()),
    decreases n,
{
    let k = a.len();
    if n == 0 {
        lemma_dot_zero(column_dots(a, y, 0), s, k);
    } else {
        let m = (n - 1) as nat;
        lemma_transpose_dot(a, s, y, m);
        let row = a[m as int];
        let c = y[m as int];
        assert(row.len() == k);
        lemma_dot_times(c, row, s, k);
        law_dot_distributes(column_dots(a, y, m), vec_times(c, row), s, k);
        assert(column_dots(a, y, n) =~= vec_add(column_dots(a, y, m), vec_times(c, row)));
    }
}

/// A matrix can be moved to the other factor of a dot product by transposing
/// it.
pub proof fn law_transpose_dot(a: Seq<Seq<Seq<int>>>, s: Seq<Seq<int>>, y: Seq<Seq<int>>)
    requires
        is_square(a),
        s.len() == a.len(),
        y.len() == a.len(),
    ensures
        tq_dot(mat_vec(a, s), y, a.len()) == tq_dot(mat_vec(transposed(a), y), s, a.len()),
{
    lemma_transpose_dot(a, s, y, a.len());
    assert(column_dots(a, y, a.len()) =~= mat_vec(transposed(a), y));
}

/// The transform takes differences to differences.
pub proof fn lemma_ntt_sub(f: Seq<int>, g: Seq<int>)
    ensures
        ntt_spec(poly_sub(f, g)) == poly_sub(ntt_spec(f), ntt_spec(g)),
{
    let n = poly_scale(-1, g);
    assert forall|m: int| 0 <= m < 256 implies poly_sub(f, g)[m] == poly_add(f, n)[m] by {
        lemma_residue_add(f[m], f[m], residue(-1 * g[m]), -1 * g[m]);
    }
    assert(poly_sub(f, g) =~= poly_add(f, n));
    lemma_ntt_add(f, n);
    lemma_ntt_scale(-1, g);
    let (x, y) = (ntt_spec(f), ntt_spec(g));
    assert forall|m: int| 0 <= m < 256 implies poly_add(x, poly_scale(-1, y))[m] == poly_sub(
        x,
        y,
    )[m] by {
        lemma_residue_add(x[m], x[m], residue(-1 * y[m]), -1 * y[m]);
    }
    assert(poly_add(x, poly_scale(-1, y)) =~= poly_sub(x, y));
}

/// A common term drops out of a difference.
proof fn lemma_common_term(a: Seq<int>, b: Seq<int>, c: Seq<int>)
    ensures
        poly_sub(poly_add(a, b), poly_add(a, c)) == poly_sub(b, c),
{
    assert forall|m: int| 0 <= m < 256 implies poly_sub(poly_add(a, b), poly_add(a, c))[m]
        == poly_sub(b, c)[m] by {
        lemma_residue_sub(
            residue(a[m] + b[m]),
            a[m] + b[m],
            residue(a[m] + c[m]),
            a[m] + c[m],
        );
    }
    assert(poly_sub(poly_add(a, b), poly_add(a, c)) =~= poly_sub(b, c));
}

/// The noise that is left when two products of a key pair and an ephemeral pair
/// are compared.
///
/// The key pair is the secret `s` and the public vector `A s + e`; the
/// ephemeral pair is the secret `y` and a vector whose transform is
/// `A^T y` plus the transform of `x`.
pub proof fn law_key_agreement(
    a: Seq<Seq<Seq<int>>>,
    s: Seq<Seq<int>>,
    e: Seq<Seq<int>>,
    y: Seq<Seq<int>>,
    x: Seq<Seq<int>>,
)
    requires
        is_square(a),
        s.len() == a.len(),
        e.len() == a.len(),
        y.len() == a.len(),
        x.len() == a.len(),
    ensures
        ({
            let k = a.len();
            let t = vec_add(mat_vec(a, vec_ntt(s)), vec_ntt(e));
            let u = vec_add(mat_vec(transposed(a), vec_ntt(y)), vec_ntt(x));
            poly_sub(
                inverse_ntt(tq_dot(t, vec_ntt(y), k)),
                inverse_ntt(tq_dot(u, vec_ntt(s), k)),
            ) == poly_sub(rq_dot(e, y, k), rq_dot(s, x, k))
        }),
{
    let k = a.len();
    let (sh, eh, yh, xh) = (vec_ntt(s), vec_ntt(e), vec_ntt(y), vec_ntt(x));
    let t = vec_add(mat_vec(a, sh), eh);
    let u = vec_add(mat_vec(transposed(a), yh), xh);
    let (p, q) = (tq_dot(t, yh, k), tq_dot(u, sh, k));
    let common = tq_dot(mat_vec(a, sh), yh, k);
    law_dot_distributes(mat_vec(a, sh), eh, yh, k);
    law_dot_distributes(mat_vec(transposed(a), yh), xh, sh, k);
    law_transpose_dot(a, sh, yh);
    lemma_common_term(common, tq_dot(eh, yh, k), tq_dot(xh, sh, k));
    assert(poly_sub(p, q) == poly_sub(tq_dot(eh, yh, k), tq_dot(xh, sh, k)));
    law_inverse_ntt(p);
    law_inverse_ntt(q);
    let left = poly_sub(inverse_ntt(p), inverse_ntt(q));
    let right = poly_sub(rq_dot(e, y, k), rq_dot(s, x, k));
    lemma_ntt_sub(inverse_ntt(p), inverse_ntt(q));
    lemma_ntt_sub(rq_dot(e, y, k), rq_dot(s, x, k));
    law_ntt_dot(e, y, k);
    law_ntt_dot(s, x, k);
    law_dot_commutes(xh, sh, k);
    lemma_ntt_injective(left, right);
}

} // verus!
