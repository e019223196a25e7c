//! The two rings as mathematics: operations on lists of 256 residues, and the
//! laws that tie the standard domain to the transform domain.

use vstd::arithmetic::power::{lemma_pow0, lemma_pow1, lemma_pow_adds, pow};
use vstd::prelude::*;

use super::modular::{
    lemma_residue_add, lemma_residue_mul, lemma_residue_shift, mont_r, mont_r_inverse, residue,
};
use super::transform::{
    combines, is_poly, lemma_gamma_power, lemma_ntt_injective, lemma_strided_combination,
    lemma_strided_concat, ntt_spec, strided_sum,
};
use super::zetas::{gamma, lemma_zeta_square, root, zeta};

verus! {

/// The sum of two ring elements.
pub open spec fn poly_add(f: Seq<int>, g: Seq<int>) -> Seq<int> {
    Seq::new(256, |m: int| residue(f[m] + g[m]))
}

/// The difference of two ring elements.
pub open spec fn poly_sub(f: Seq<int>, g: Seq<int>) -> Seq<int> {
    Seq::new(256, |m: int| residue(f[m] - g[m]))
}

/// A ring element times a constant.
pub open spec fn poly_scale(c: int, f: Seq<int>) -> Seq<int> {
    Seq::new(256, |m: int| residue(c * f[m]))
}

/// The zero element of either ring.
pub open spec fn poly_zero() -> Seq<int> {
    Seq::new(256, |m: int| 0)
}

/// Coefficient `k` of `X^i * g` modulo `X^256 + 1`.
pub open spec fn turned(g: Seq<int>, i: int, k: int) -> int {
    if i <= k {
        g[k - i]
    } else {
        -g[256 + k - i]
    }
}

/// Coefficient `k` of the product of the first `count` terms of `f` with `g`,
/// modulo `X^256 + 1`.
pub open spec fn product_sum(f: Seq<int>, g: Seq<int>, count: nat, k: int) -> int
    decreases count,
{
    if count == 0 {
        0
    } else {
        product_sum(f, g, (count - 1) as nat, k) + f[count - 1] * turned(g, count - 1, k)
    }
}

/// The product of two polynomials modulo `X^256 + 1`.
pub open spec fn rq_mul(f: Seq<int>, g: Seq<int>) -> Seq<int> {
    Seq::new(256, |k: int| residue(product_sum(f, g, 256, k)))
}

/// The product in the transform domain: for each `i`, the coefficients `2i` and
/// `2i + 1` are those of a product of linear polynomials modulo
/// `X^2 - gamma(i)`.
pub open spec fn tq_mul(f: Seq<int>, g: Seq<int>) -> Seq<int> {
    Seq::new(
        256,
        |m: int|
            if m % 2 == 0 {
                residue(f[m] * g[m] + gamma(m / 2) * (f[m + 1] * g[m + 1]))
            } else {
                residue(f[m - 1] * g[m] + f[m] * g[m - 1])
            },
    )
}

/// The sum of the products of the first `count` components of two vectors, in
/// the transform domain.
pub open spec fn tq_dot(f: Seq<Seq<int>>, g: Seq<Seq<int>>, count: nat) -> Seq<int>
    decreases count,
{
    if count == 0 {
        poly_zero()
    } else {
        poly_add(tq_dot(f, g, (count - 1) as nat), tq_mul(f[count - 1], g[count - 1]))
    }
}

/// The element of the standard domain whose transform is `t`.
pub open spec fn inverse_ntt(t: Seq<int>) -> Seq<int> {
    choose|f: Seq<int>| is_poly(f) && ntt_spec(f) == t
}

/// The inverse of a transform is the element that was transformed.
pub proof fn lemma_inverse_ntt(f: Seq<int>)
    requires
        is_poly(f),
    ensures
        inverse_ntt(ntt_spec(f)) == f,
{
    let g = inverse_ntt(ntt_spec(f));
    assert(is_poly(f) && ntt_spec(f) == ntt_spec(f));
    lemma_ntt_injective(f, g);
}

/// A strided sum depends on the coefficients only through their residues.
proof fn lemma_strided_residues(x: Seq<int>, f: Seq<int>, o: int, r: int)
    requires
        0 <= o < 2,
        forall|m: int| 0 <= m < 256 ==> residue(#[trigger] x[m]) == residue(f[m]),
    ensures
        residue(strided_sum(x, o, 2, 128, r)) == residue(strided_sum(f, o, 2, 128, r)),
{
    assert forall|j: int| 0 <= j < 128 implies #[trigger] combines(x, o, f, o, 1, f, o, 0, 2, j) by {
        let m = o + j * 2;
        assert(residue(x[m]) == residue(f[m]));
        assert(0 * f[m] == 0);
    }
    lemma_strided_combination(x, o, f, o, 1, f, o, 0, 2, 128, r);
    assert(0 * strided_sum(f, o, 2, 128, r) == 0);
}

/// The transform takes sums to sums.
pub proof fn lemma_ntt_add(f: Seq<int>, g: Seq<int>)
    ensures
        ntt_spec(poly_add(f, g)) == poly_add(ntt_spec(f), ntt_spec(g)),
{
    let x = poly_add(f, g);
    assert forall|m: int| 0 <= m < 256 implies ntt_spec(x)[m] == poly_add(
        ntt_spec(f),
        ntt_spec(g),
    )[m] by {
        let o = m % 2;
        let r = gamma(m / 2);
        assert forall|j: int| 0 <= j < 128 implies #[trigger] combines(
            x,
            o,
            f,
            o,
            1,
            g,
            o,
            1,
            2,
            j,
        ) by {
            assert(x[o + j * 2] == residue(f[o + j * 2] + g[o + j * 2]));
        }
        lemma_strided_combination(x, o, f, o, 1, g, o, 1, 2, 128, r);
        lemma_residue_add(
            strided_sum(f, o, 2, 128, r),
            ntt_spec(f)[m],
            strided_sum(g, o, 2, 128, r),
            ntt_spec(g)[m],
        );
    }
    assert(ntt_spec(x) =~= poly_add(ntt_spec(f), ntt_spec(g)));
}

/// The transform takes constant multiples to constant multiples.
pub proof fn lemma_ntt_scale(c: int, f: Seq<int>)
    ensures
        ntt_spec(poly_scale(c, f)) == poly_scale(c, ntt_spec(f)),
{
    let x = poly_scale(c, f);
    assert forall|m: int| 0 <= m < 256 implies ntt_spec(x)[m] == poly_scale(c, ntt_spec(f))[m] by {
        let o = m % 2;
        let r = gamma(m / 2);
        assert forall|j: int| 0 <= j < 128 implies #[trigger] combines(
            x,
            o,
            f,
            o,
            c,
            f,
            o,
            0,
            2,
            j,
        ) by {
            assert(x[o + j * 2] == residue(c * f[o + j * 2]));
            assert(0 * f[o + j * 2] == 0);
        }
        lemma_strided_combination(x, o, f, o, c, f, o, 0, 2, 128, r);
        let s = strided_sum(f, o, 2, 128, r);
        assert(0 * s == 0);
        lemma_residue_mul(c, c, s, ntt_spec(f)[m]);
    }
    assert(ntt_spec(x) =~= poly_scale(c, ntt_spec(f)));
}

/// The 128th power of each modulus is minus one.
proof fn lemma_gamma_half_turn(i: int)
    requires
        0 <= i < 128,
    ensures
        residue(pow(gamma(i), 128)) == residue(-1),
{
    let g = gamma(i);
    let m = 2 * i;
    lemma_gamma_power(128, m);
    lemma_pow_adds(g, 64, 64);
    let z = zeta(1);
    let k = 2 + m / 128;
    assert(k == 2 || k == 3);
    assert(k / 2 == 1);
    lemma_residue_mul(pow(g, 64), root(k), pow(g, 64), root(k));
    lemma_zeta_square(1);
    assert((-z) * (-z) == z * z) by (nonlinear_arith);
}

/// `X^i * g` modulo `X^256 + 1`.
spec fn turn(g: Seq<int>, i: int) -> Seq<int> {
    Seq::new(256, |k: int| turned(g, i, k))
}

/// One more turn exchanges the even and the odd part.
proof fn lemma_turn_step(g: Seq<int>, i: int, r: int)
    requires
        0 <= i < 255,
        residue(pow(r, 128)) == residue(-1),
    ensures
        residue(strided_sum(turn(g, i + 1), 0, 2, 128, r)) == residue(
            r * strided_sum(turn(g, i), 1, 2, 128, r),
        ),
        residue(strided_sum(turn(g, i + 1), 1, 2, 128, r)) == residue(
            strided_sum(turn(g, i), 0, 2, 128, r),
        ),
{
    let t = turn(g, i);
    let x = turn(g, i + 1);
    assert forall|j: int| 0 <= j < 128 implies #[trigger] combines(x, 1, t, 0, 1, t, 0, 0, 2, j) by {
        assert(x[1 + j * 2] == t[0 + j * 2]);
        assert(0 * t[0 + j * 2] == 0);
    }
    lemma_strided_combination(x, 1, t, 0, 1, t, 0, 0, 2, 128, r);
    assert(0 * strided_sum(t, 0, 2, 128, r) == 0);
    assert forall|j: int| 0 <= j < 127 implies #[trigger] combines(x, 2, t, 1, 1, t, 1, 0, 2, j) by {
        assert(x[2 + j * 2] == t[1 + j * 2]);
        assert(0 * t[1 + j * 2] == 0);
    }
    lemma_strided_combination(x, 2, t, 1, 1, t, 1, 0, 2, 127, r);
    let tail = strided_sum(t, 1, 2, 127, r);
    assert(0 * tail == 0);
    let last = t[255];
    assert(x[0] == -last);
    lemma_strided_concat(x, 0, 2, 1, 127, r);
    reveal_with_fuel(strided_sum, 2);
    lemma_pow0(r);
    lemma_pow1(r);
    lemma_pow_adds(r, 1, 127);
    assert(strided_sum(x, 0, 2, 1, r) == -last);
    assert(strided_sum(x, 0, 2, 128, r) == -last + r * strided_sum(x, 2, 2, 127, r));
    assert(strided_sum(t, 1, 2, 128, r) == tail + last * pow(r, 127));
    assert(r * (tail + last * pow(r, 127)) == r * tail + last * (r * pow(r, 127)))
        by (nonlinear_arith);
    lemma_residue_mul(last, last, pow(r, 128), -1);
    lemma_residue_mul(r, r, strided_sum(x, 2, 2, 127, r), tail);
    lemma_residue_add(-last, last * pow(r, 128), r * strided_sum(x, 2, 2, 127, r), r * tail);
}

/// An even number of turns multiplies by a power of the modulus.
proof fn lemma_turn_power(g: Seq<int>, j: nat, r: int)
    requires
        j < 128,
        residue(pow(r, 128)) == residue(-1),
    ensures
        residue(strided_sum(turn(g, 2 * j as int), 0, 2, 128, r)) == residue(
            pow(r, j) * strided_sum(g, 0, 2, 128, r),
        ),
        residue(strided_sum(turn(g, 2 * j as int), 1, 2, 128, r)) == residue(
            pow(r, j) * strided_sum(g, 1, 2, 128, r),
        ),
    decreases j,
{
    let (e, o) = (strided_sum(g, 0, 2, 128, r), strided_sum(g, 1, 2, 128, r));
    if j == 0 {
        lemma_pow0(r);
        assert forall|m: int| 0 <= m < 256 implies residue(#[trigger] turn(g, 0)[m]) == residue(
            g[m],
        ) by {}
        lemma_strided_residues(turn(g, 0), g, 0, r);
        lemma_strided_residues(turn(g, 0), g, 1, r);
        assert(1 * e == e && 1 * o == o);
    } else {
        let d = (j - 1) as nat;
        let p = pow(r, d);
        lemma_turn_power(g, d, r);
        lemma_turn_step(g, 2 * d as int, r);
        lemma_turn_step(g, 2 * d as int + 1, r);
        lemma_pow_adds(r, 1, d);
        lemma_pow1(r);
        assert(2 * d as int + 1 + 1 == 2 * j as int);
        let t = turn(g, 2 * d as int);
        let u = turn(g, 2 * d as int + 1);
        lemma_residue_mul(r, r, strided_sum(u, 1, 2, 128, r), p * e);
        assert(r * (p * e) == (r * p) * e) by (nonlinear_arith);
        lemma_residue_mul(r, r, strided_sum(t, 1, 2, 128, r), p * o);
        assert(r * (p * o) == (r * p) * o) by (nonlinear_arith);
    }
}

/// The product of the first `count` terms of `f` with `g`.
spec fn partial_product(f: Seq<int>, g: Seq<int>, count: nat) -> Seq<int> {
    Seq::new(256, |k: int| product_sum(f, g, count, k))
}

/// One more term of the product.
proof fn lemma_partial_step(f: Seq<int>, g: Seq<int>, count: nat, o: int, r: int)
    requires
        0 <= o < 2,
    ensures
        residue(strided_sum(partial_product(f, g, count + 1), o, 2, 128, r)) == residue(
            strided_sum(partial_product(f, g, count), o, 2, 128, r) + f[count as int] * strided_sum(
                turn(g, count as int),
                o,
                2,
                128,
                r,
            ),
        ),
{
    let x = partial_product(f, g, count + 1);
    let y = partial_product(f, g, count);
    let t = turn(g, count as int);
    let c = f[count as int];
    assert forall|j: int| 0 <= j < 128 implies #[trigger] combines(x, o, y, o, 1, t, o, c, 2, j) by {
        assert(x[o + j * 2] == y[o + j * 2] + c * t[o + j * 2]);
    }
    lemma_strided_combination(x, o, y, o, 1, t, o, c, 2, 128, r);
}

/// The remainder of a product is the product of the remainders, up to the terms
/// that have been multiplied out.
proof fn lemma_product_remainder(f: Seq<int>, g: Seq<int>, j: nat, r: int)
    requires
        j <= 128,
        residue(pow(r, 128)) == residue(-1),
    ensures
        ({
            let (a, b) = (strided_sum(f, 0, 2, j, r), strided_sum(f, 1, 2, j, r));
            let (e, o) = (strided_sum(g, 0, 2, 128, r), strided_sum(g, 1, 2, 128, r));
            let x = partial_product(f, g, 2 * j);
            &&& residue(strided_sum(x, 0, 2, 128, r)) == residue(a * e + r * (b * o))
            &&& residue(strided_sum(x, 1, 2, 128, r)) == residue(a * o + b * e)
        }),
    decreases j,
{
    let (e, o) = (strided_sum(g, 0, 2, 128, r), strided_sum(g, 1, 2, 128, r));
    if j == 0 {
        let x = partial_product(f, g, 0);
        assert forall|i: int| 0 <= i < 128 implies #[trigger] combines(
            x,
            0,
            x,
            0,
            0,
            x,
            0,
            0,
            2,
            i,
        ) by {
            assert(0 * x[0 + i * 2] == 0);
        }
        assert forall|i: int| 0 <= i < 128 implies #[trigger] combines(
            x,
            1,
            x,
            1,
            0,
            x,
            1,
            0,
            2,
            i,
        ) by {
            assert(0 * x[1 + i * 2] == 0);
        }
        lemma_strided_combination(x, 0, x, 0, 0, x, 0, 0, 2, 128, r);
        lemma_strided_combination(x, 1, x, 1, 0, x, 1, 0, 2, 128, r);
        assert(0 * e + r * (0 * o) == 0) by (nonlinear_arith);
        assert(0 * o + 0 * e == 0) by (nonlinear_arith);
        assert(0 * strided_sum(x, 0, 2, 128, r) == 0);
        assert(0 * strided_sum(x, 1, 2, 128, r) == 0);
    } else {
        let d = (j - 1) as nat;
        let p = pow(r, d);
        let c = 2 * d as int;
        let (u, v) = (f[c], f[c + 1]);
        let (a, b) = (strided_sum(f, 0, 2, d, r), strided_sum(f, 1, 2, d, r));
        lemma_product_remainder(f, g, d, r);
        lemma_partial_step(f, g, 2 * d, 0, r);
        lemma_partial_step(f, g, 2 * d, 1, r);
        lemma_partial_step(f, g, 2 * d + 1, 0, r);
        lemma_partial_step(f, g, 2 * d + 1, 1, r);
        lemma_turn_power(g, d, r);
        lemma_turn_step(g, c, r);
        assert(2 * d + 1 + 1 == 2 * j);
        let (t, w) = (turn(g, c), turn(g, c + 1));
        let (te, to) = (strided_sum(t, 0, 2, 128, r), strided_sum(t, 1, 2, 128, r));
        let (we, wo) = (strided_sum(w, 0, 2, 128, r), strided_sum(w, 1, 2, 128, r));
        lemma_residue_mul(r, r, to, p * o);
        lemma_join_terms(
            strided_sum(partial_product(f, g, 2 * d), 0, 2, 128, r),
            a * e + r * (b * o),
            u,
            te,
            p * e,
            v,
            we,
            r * (p * o),
        );
        lemma_join_terms(
            strided_sum(partial_product(f, g, 2 * d), 1, 2, 128, r),
            a * o + b * e,
            u,
            to,
            p * o,
            v,
            wo,
            p * e,
        );
        lemma_residue_add(
            strided_sum(partial_product(f, g, 2 * d + 1), 0, 2, 128, r),
            strided_sum(partial_product(f, g, 2 * d), 0, 2, 128, r) + u * te,
            v * we,
            v * we,
        );
        lemma_residue_add(
            strided_sum(partial_product(f, g, 2 * d + 1), 1, 2, 128, r),
            strided_sum(partial_product(f, g, 2 * d), 1, 2, 128, r) + u * to,
            v * wo,
            v * wo,
        );
        assert((a + u * p) * e == a * e + u * (p * e)) by (nonlinear_arith);
        assert((b + v * p) * o == b * o + v * (p * o)) by (nonlinear_arith);
        assert((a + u * p) * o == a * o + u * (p * o)) by (nonlinear_arith);
        assert((b + v * p) * e == b * e + v * (p * e)) by (nonlinear_arith);
        let po = p * o;
        let bo = b * o;
        assert(r * (bo + v * po) == r * bo + v * (r * po)) by (nonlinear_arith);
    }
}

/// Congruent terms have congruent sums.
proof fn lemma_join_terms(
    x: int,
    y: int,
    u: int,
    s: int,
    s1: int,
    v: int,
    t: int,
    t1: int,
)
    requires
        residue(x) == residue(y),
        residue(s) == residue(s1),
        residue(t) == residue(t1),
    ensures
        residue(x + u * s + v * t) == residue(y + u * s1 + v * t1),
{
    lemma_residue_mul(u, u, s, s1);
    lemma_residue_mul(v, v, t, t1);
    lemma_residue_add(x, y, u * s, u * s1);
    lemma_residue_add(x + u * s, y + u * s1, v * t, v * t1);
}

/// The transform takes the product modulo `X^256 + 1` to the product of the
/// transform domain.
pub proof fn lemma_ntt_mul(f: Seq<int>, g: Seq<int>)
    ensures
        ntt_spec(rq_mul(f, g)) == tq_mul(ntt_spec(f), ntt_spec(g)),
{
    let x = rq_mul(f, g);
    let (fh, gh) = (ntt_spec(f), ntt_spec(g));
    assert forall|m: int| 0 <= m < 256 implies #[trigger] ntt_spec(x)[m] == tq_mul(fh, gh)[m] by {
        let i = m / 2;
        let r = gamma(i);
        lemma_gamma_half_turn(i);
        lemma_product_remainder(f, g, 128, r);
        let y = partial_product(f, g, 256);
        assert forall|k: int| 0 <= k < 256 implies residue(#[trigger] x[k]) == residue(y[k]) by {}
        lemma_strided_residues(x, y, m % 2, r);
        let (a, b) = (strided_sum(f, 0, 2, 128, r), strided_sum(f, 1, 2, 128, r));
        let (e, o) = (strided_sum(g, 0, 2, 128, r), strided_sum(g, 1, 2, 128, r));
        if m % 2 == 0 {
            assert((m + 1) / 2 == i && (m + 1) % 2 == 1);
            lemma_residue_mul(a, fh[m], e, gh[m]);
            lemma_residue_mul(b, fh[m + 1], o, gh[m + 1]);
            lemma_residue_mul(r, r, b * o, fh[m + 1] * gh[m + 1]);
            lemma_residue_add(a * e, fh[m] * gh[m], r * (b * o), r * (fh[m + 1] * gh[m + 1]));
        } else {
            assert((m - 1) / 2 == i && (m - 1) % 2 == 0);
            lemma_residue_mul(a, fh[m - 1], o, gh[m]);
            lemma_residue_mul(b, fh[m], e, gh[m - 1]);
            lemma_residue_add(a * o, fh[m - 1] * gh[m], b * e, fh[m] * gh[m - 1]);
        }
    }
    assert(ntt_spec(x) =~= tq_mul(fh, gh));
}

/// Scaling by `R^-1` and then by `R` changes nothing.
pub proof fn lemma_scale_round_trip(t: Seq<int>)
    requires
        is_poly(t),
    ensures
        poly_scale(mont_r(), poly_scale(mont_r_inverse(), t)) == t,
{
    assert forall|m: int| 0 <= m < 256 implies poly_scale(
        mont_r(),
        poly_scale(mont_r_inverse(), t),
    )[m] == t[m] by {
        let x = t[m];
        assert(0 <= x < 3329);
        lemma_residue_mul(2285, 2285, residue(169 * x), 169 * x);
        lemma_residue_shift(2285 * (169 * x), x, 116 * x);
    }
    assert(poly_scale(mont_r(), poly_scale(mont_r_inverse(), t)) =~= t);
}

/// The product of two elements is the inverse transform of the product of their
/// transforms: what [`RqElement::ntt`](super::RqElement::ntt), multiplication in
/// the transform domain and
/// [`TqElement::ntt_inverse`](super::TqElement::ntt_inverse) compute together is
/// the product modulo `X^256 + 1`.
pub proof fn law_product(f: Seq<int>, g: Seq<int>)
    requires
        is_poly(f),
        is_poly(g),
    ensures
        inverse_ntt(
            poly_scale(
                mont_r(),
                poly_scale(mont_r_inverse(), tq_mul(ntt_spec(f), ntt_spec(g))),
            ),
        ) == rq_mul(f, g),
{
    lemma_scale_round_trip(tq_mul(ntt_spec(f), ntt_spec(g)));
    lemma_ntt_mul(f, g);
    lemma_inverse_ntt(rq_mul(f, g));
}

/// The inverse transform of a transform is the element times `R`.
pub proof fn law_round_trip(f: Seq<int>)
    requires
        is_poly(f),
    ensures
        inverse_ntt(poly_scale(mont_r(), ntt_spec(f))) == poly_scale(mont_r(), f),
{
    lemma_ntt_scale(mont_r(), f);
    lemma_inverse_ntt(poly_scale(mont_r(), f));
}

} // verus!
