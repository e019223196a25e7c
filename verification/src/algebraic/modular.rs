//! Arithmetic of residues modulo `q`, the mathematical side of the field.

use vstd::arithmetic::div_mod::{
    lemma_fundamental_div_mod, lemma_fundamental_div_mod_converse, lemma_mod_bound,
};
use vstd::arithmetic::power2::{lemma_pow2_pos, lemma_pow2_strictly_increases, pow2};
use vstd::prelude::*;

verus! {

/// The canonical representative of `x` modulo `q`, in `0..q`.
pub open spec fn residue(x: int) -> int {
    x % 3329
}

/// `R = 2^16` modulo `q`, the Montgomery radix.
pub open spec fn mont_r() -> int {
    2285
}

/// The inverse of `R` modulo `q`.
pub open spec fn mont_r_inverse() -> int {
    169
}

/// The integer nearest to `n / m` for positive `m`, halves rounding up.
pub open spec fn round_div(n: int, m: int) -> int {
    (2 * n + m) / (2 * m)
}

/// Powers of two grow with the exponent.
pub proof fn lemma_pow2_at_most(d: nat, e: nat)
    requires
        d <= e,
    ensures
        1 <= pow2(d) <= pow2(e),
{
    lemma_pow2_pos(d);
    if d < e {
        lemma_pow2_strictly_increases(d, e);
    }
}

/// What it is to be nearest to a quotient.
pub proof fn lemma_round_div(n: int, m: int)
    requires
        m > 0,
    ensures
        2 * m * round_div(n, m) <= 2 * n + m < 2 * m * round_div(n, m) + 2 * m,
{
    lemma_fundamental_div_mod(2 * n + m, 2 * m);
    lemma_mod_bound(2 * n + m, 2 * m);
}

/// Only one integer is nearest to a quotient, halves rounding up.
pub proof fn lemma_round_div_unique(n: int, m: int, r: int)
    requires
        m > 0,
        2 * m * r <= 2 * n + m < 2 * m * r + 2 * m,
    ensures
        r == round_div(n, m),
{
    assert(2 * n + m == r * (2 * m) + (2 * n + m - 2 * m * r)) by (nonlinear_arith);
    lemma_fundamental_div_mod_converse(2 * n + m, 2 * m, r, 2 * n + m - 2 * m * r);
}

/// Two integers that differ by a multiple of `q` have the same residue.
pub proof fn lemma_residue_shift(a: int, b: int, k: int)
    requires
        a == b + k * 3329,
    ensures
        residue(a) == residue(b),
{
}

/// A common residue yields the multiple of `q` by which two integers differ.
pub proof fn lemma_residue_quotient(a: int, b: int) -> (k: int)
    requires
        residue(a) == residue(b),
    ensures
        a == b + k * 3329,
{
    a / 3329 - b / 3329
}

/// Residues respect sums.
pub proof fn lemma_residue_add(a: int, b: int, c: int, d: int)
    requires
        residue(a) == residue(b),
        residue(c) == residue(d),
    ensures
        residue(a + c) == residue(b + d),
{
}

/// Residues respect differences.
pub proof fn lemma_residue_sub(a: int, b: int, c: int, d: int)
    requires
        residue(a) == residue(b),
        residue(c) == residue(d),
    ensures
        residue(a - c) == residue(b - d),
{
}

/// Residues respect products.
pub proof fn lemma_residue_mul(a: int, b: int, c: int, d: int)
    requires
        residue(a) == residue(b),
        residue(c) == residue(d),
    ensures
        residue(a * c) == residue(b * d),
{
    let k = lemma_residue_quotient(a, b);
    let l = lemma_residue_quotient(c, d);
    assert(a * c == b * d + (k * d + b * l + k * l * 3329) * 3329) by (nonlinear_arith)
        requires
            a == b + k * 3329,
            c == d + l * 3329,
    ;
    lemma_residue_shift(a * c, b * d, k * d + b * l + k * l * 3329);
}

/// A factor that has an inverse modulo `q` cancels.
pub proof fn lemma_residue_cancel(u: int, v: int, a: int, b: int)
    requires
        residue(u * v) == 1,
        residue(v * a) == residue(v * b),
    ensures
        residue(a) == residue(b),
{
    lemma_residue_mul(u, u, v * a, v * b);
    lemma_residue_mul(u * v, 1, a, a);
    lemma_residue_mul(u * v, 1, b, b);
    assert(u * (v * a) == (u * v) * a) by (nonlinear_arith);
    assert(u * (v * b) == (u * v) * b) by (nonlinear_arith);
}

} // verus!
