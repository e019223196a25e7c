//! The number-theoretic transform as mathematics: what it computes, and the
//! laws that the kernels and the ring elements rest on.

use vstd::arithmetic::div_mod::{
    lemma_div_denominator, lemma_fundamental_div_mod, lemma_fundamental_div_mod_converse,
    lemma_mod_bound,
};
use vstd::arithmetic::power::{lemma_pow0, lemma_pow1, lemma_pow_adds, lemma_pow_multiplies, pow};
use vstd::prelude::*;

use super::modular::{
    lemma_residue_add, lemma_residue_cancel, lemma_residue_mul, lemma_residue_sub, residue,
};
use super::zetas::{
    gamma, lemma_gamma_root, lemma_zeta_mirror, lemma_zeta_square, root, zeta,
};

verus! {

/// The sum of `f[i + j * n] * r^j` over `j` in `0..count`.
pub open spec fn strided_sum(f: Seq<int>, i: int, n: int, count: nat, r: int) -> int
    decreases count,
{
    if count == 0 {
        0
    } else {
        strided_sum(f, i, n, (count - 1) as nat, r) + f[i + (count - 1) * n] * pow(
            r,
            (count - 1) as nat,
        )
    }
}

/// Powers of congruent bases are congruent.
pub proof fn lemma_pow_residue(r: int, s: int, e: nat)
    requires
        residue(r) == residue(s),
    ensures
        residue(pow(r, e)) == residue(pow(s, e)),
    decreases e,
{
    if e == 0 {
        lemma_pow0(r);
        lemma_pow0(s);
    } else {
        let d = (e - 1) as nat;
        lemma_pow_residue(r, s, d);
        lemma_pow_adds(r, 1, d);
        lemma_pow_adds(s, 1, d);
        lemma_pow1(r);
        lemma_pow1(s);
        lemma_residue_mul(r, s, pow(r, d), pow(s, d));
    }
}

/// Whether, at step `j`, `x` is the combination of `f` and `g` with the
/// coefficients `u` and `v`.
pub open spec fn combines(
    x: Seq<int>,
    xi: int,
    f: Seq<int>,
    fi: int,
    u: int,
    g: Seq<int>,
    gi: int,
    v: int,
    n: int,
    j: int,
) -> bool {
    residue(x[xi + j * n]) == residue(u * f[fi + j * n] + v * g[gi + j * n])
}

/// Strided sums are linear.
pub proof fn lemma_strided_combination(
    x: Seq<int>,
    xi: int,
    f: Seq<int>,
    fi: int,
    u: int,
    g: Seq<int>,
    gi: int,
    v: int,
    n: int,
    count: nat,
    r: int,
)
    requires
        forall|j: int| 0 <= j < count ==> #[trigger] combines(x, xi, f, fi, u, g, gi, v, n, j),
    ensures
        residue(strided_sum(x, xi, n, count, r)) == residue(
            u * strided_sum(f, fi, n, count, r) + v * strided_sum(g, gi, n, count, r),
        ),
    decreases count,
{
    if count == 0 {
        assert(u * 0 + v * 0 == 0) by (nonlinear_arith);
    } else {
        let d = (count - 1) as nat;
        let p = pow(r, d);
        lemma_strided_combination(x, xi, f, fi, u, g, gi, v, n, d, r);
        assert(combines(x, xi, f, fi, u, g, gi, v, n, d as int));
        let (a, b, c) = (x[xi + d * n], f[fi + d * n], g[gi + d * n]);
        let (sx, sf, sg) = (
            strided_sum(x, xi, n, d, r),
            strided_sum(f, fi, n, d, r),
            strided_sum(g, gi, n, d, r),
        );
        lemma_residue_mul(a, u * b + v * c, p, p);
        lemma_residue_add(sx, u * sf + v * sg, a * p, (u * b + v * c) * p);
        assert(u * (sf + b * p) == u * sf + (u * b) * p) by (nonlinear_arith);
        assert(v * (sg + c * p) == v * sg + (v * c) * p) by (nonlinear_arith);
        assert((u * b + v * c) * p == (u * b) * p + (v * c) * p) by (nonlinear_arith);
    }
}

/// Strided sums of congruent coefficients at congruent points are congruent.
pub proof fn lemma_strided_congruent(f: Seq<int>, i: int, n: int, count: nat, r: int, s: int)
    requires
        residue(r) == residue(s),
    ensures
        residue(strided_sum(f, i, n, count, r)) == residue(strided_sum(f, i, n, count, s)),
    decreases count,
{
    if count > 0 {
        let d = (count - 1) as nat;
        lemma_strided_congruent(f, i, n, d, r, s);
        lemma_pow_residue(r, s, d);
        let a = f[i + d * n];
        lemma_residue_mul(a, a, pow(r, d), pow(s, d));
        lemma_residue_add(
            strided_sum(f, i, n, d, r),
            strided_sum(f, i, n, d, s),
            a * pow(r, d),
            a * pow(s, d),
        );
    }
}

/// Even and odd steps of a strided sum come apart.
pub proof fn lemma_strided_split(f: Seq<int>, i: int, h: int, count: nat, z: int)
    ensures
        strided_sum(f, i, h, 2 * count, z) == strided_sum(f, i, 2 * h, count, z * z) + z
            * strided_sum(f, i + h, 2 * h, count, z * z),
    decreases count,
{
    if count == 0 {
        assert(z * 0 == 0) by (nonlinear_arith);
    } else {
        let d = (count - 1) as nat;
        let r = z * z;
        lemma_strided_split(f, i, h, d, z);
        let low = strided_sum(f, i, 2 * h, d, r);
        let high = strided_sum(f, i + h, 2 * h, d, r);
        let a = f[i + d * (2 * h)];
        let b = f[i + h + d * (2 * h)];
        let p = pow(r, d);
        assert(2 * d * h == d * (2 * h)) by (nonlinear_arith);
        assert((2 * d + 1) * h == h + d * (2 * h)) by (nonlinear_arith);
        assert(pow(z, (2 * d) as nat) == p && pow(z, (2 * d + 1) as nat) == z * p) by {
            lemma_pow_adds(z, 1, 1);
            lemma_pow1(z);
            lemma_pow_multiplies(z, 2, d);
            lemma_pow_adds(z, 1, 2 * d);
        }
        let whole = strided_sum(f, i, h, (2 * d) as nat, z);
        assert(strided_sum(f, i, h, (2 * d + 1) as nat, z) == whole + a * p);
        assert(strided_sum(f, i, h, (2 * d + 2) as nat, z) == whole + a * p + b * (z * p));
        assert(2 * count == 2 * d + 2);
        assert(low + a * p + z * (high + b * p) == low + z * high + a * p + b * (z * p))
            by (nonlinear_arith);
    }
}

/// A strided sum comes apart at any step.
pub proof fn lemma_strided_concat(f: Seq<int>, i: int, n: int, a: nat, b: nat, r: int)
    ensures
        strided_sum(f, i, n, a + b, r) == strided_sum(f, i, n, a, r) + pow(r, a) * strided_sum(
            f,
            i + a * n,
            n,
            b,
            r,
        ),
    decreases b,
{
    let p = pow(r, a);
    if b == 0 {
        assert(p * 0 == 0) by (nonlinear_arith);
    } else {
        let d = (b - 1) as nat;
        lemma_strided_concat(f, i, n, a, d, r);
        lemma_pow_adds(r, a, d);
        let x = f[i + (a + d) * n];
        assert(i + a * n + d * n == i + (a + d) * n) by (nonlinear_arith);
        let w = pow(r, d);
        let tail = strided_sum(f, i + a * n, n, d, r);
        assert(p * (tail + x * w) == p * tail + x * (p * w)) by (nonlinear_arith);
    }
}

/// Whether `f` is a list of 256 canonical residues: the coefficients of a ring
/// element.
pub open spec fn is_poly(f: Seq<int>) -> bool {
    &&& f.len() == 256
    &&& forall|m: int| 0 <= m < 256 ==> 0 <= #[trigger] f[m] < 3329
}

/// The transform: the coefficients `2i` and `2i + 1` of the result are those of
/// the remainder of `f` modulo `X^2 - gamma(i)`.
pub open spec fn ntt_spec(f: Seq<int>) -> Seq<int> {
    Seq::new(256, |m: int| residue(strided_sum(f, m % 2, 2, 128, gamma(m / 2))))
}

/// The sizes of the blocks that the transform passes through.
pub open spec fn block_size(n: int) -> bool {
    n == 2 || n == 4 || n == 8 || n == 16 || n == 32 || n == 64 || n == 128 || n == 256
}

/// The coefficient at position `m` once the transform has reached blocks of
/// size `n`: block `b` is the remainder of `f` modulo `X^n - root(256 / n + b)`.
#[verifier::opaque]
pub open spec fn node_value(f: Seq<int>, n: int, m: int) -> int {
    residue(strided_sum(f, m % n, n, (256int / n) as nat, root(256int / n + m / n)))
}

/// How many blocks there are of each size.
proof fn lemma_block_count(h: int)
    requires
        block_size(h),
        h < 256,
    ensures
        (128int / h) * (2 * h) == 256,
        256int / h == 2 * (128int / h),
        256int / (2 * h) == 128int / h,
        1 <= 128int / h <= 64,
        block_size(2 * h),
        ({
            let blocks = 128int / h;
            blocks == 1 || blocks == 2 || blocks == 4 || blocks == 8 || blocks == 16 || blocks == 32
                || blocks == 64
        }),
{
    let blocks: int = if h == 2 {
        64
    } else if h == 4 {
        32
    } else if h == 8 {
        16
    } else if h == 16 {
        8
    } else if h == 32 {
        4
    } else if h == 64 {
        2
    } else {
        1
    };
    assert(blocks * h == 128);
    assert((2 * blocks) * h == 256 && blocks * (2 * h) == 256) by (nonlinear_arith)
        requires
            blocks * h == 128,
    ;
    lemma_fundamental_div_mod_converse(128, h, blocks, 0);
    lemma_fundamental_div_mod_converse(256, h, 2 * blocks, 0);
    lemma_fundamental_div_mod_converse(256, 2 * h, blocks, 0);
}

/// Where the halves of a block of size `2h` stand.
proof fn lemma_block_positions(h: int, m: int)
    requires
        block_size(h),
        h < 256,
        0 <= m < 256,
        m % (2 * h) < h,
    ensures
        m + h < 256,
        256int / h == 2 * (128int / h),
        256int / (2 * h) == 128int / h,
        m % h == m % (2 * h),
        (m + h) % h == m % (2 * h),
        (m + h) % (2 * h) == m % (2 * h) + h,
        m / h == 2 * (m / (2 * h)),
        (m + h) / h == 2 * (m / (2 * h)) + 1,
        (m + h) / (2 * h) == m / (2 * h),
        0 <= m / (2 * h) < 128int / h,
        1 <= 128int / h <= 64,
        block_size(2 * h),
{
    lemma_block_count(h);
    let blocks = 128int / h;
    let n = 2 * h;
    let b = m / n;
    let i = m % n;
    lemma_fundamental_div_mod(m, n);
    lemma_mod_bound(m, n);
    assert(n * b == (2 * b) * h) by (nonlinear_arith)
        requires
            n == 2 * h,
    ;
    assert((2 * b + 1) * h == (2 * b) * h + h) by (nonlinear_arith);
    assert(n * b == b * n) by (nonlinear_arith);
    lemma_fundamental_div_mod_converse(m, h, 2 * b, i);
    lemma_fundamental_div_mod_converse(m + h, h, 2 * b + 1, i);
    lemma_fundamental_div_mod_converse(m + h, n, b, i + h);
    assert(0 <= b < blocks) by (nonlinear_arith)
        requires
            m == n * b + i,
            0 <= i < n,
            0 <= m < blocks * n,
    ;
    assert(b * n + n <= blocks * n) by (nonlinear_arith)
        requires
            b < blocks,
            n > 0,
    ;
}

/// One butterfly of the transform.
pub proof fn lemma_butterfly(f: Seq<int>, h: int, m: int)
    requires
        block_size(h),
        h < 256,
        0 <= m < 256,
        m % (2 * h) < h,
    ensures
        node_value(f, h, m) == residue(
            node_value(f, 2 * h, m) + zeta(128int / h + m / (2 * h)) * node_value(f, 2 * h, m + h),
        ),
        node_value(f, h, m + h) == residue(
            node_value(f, 2 * h, m) - zeta(128int / h + m / (2 * h)) * node_value(f, 2 * h, m + h),
        ),
{
    reveal(node_value);
    lemma_block_positions(h, m);
    let blocks = 128int / h;
    let b = m / (2 * h);
    let i = m % (2 * h);
    let k = blocks + b;
    let z = zeta(k);
    let r = root(k);
    let count = blocks as nat;
    let low = strided_sum(f, i, 2 * h, count, r);
    let high = strided_sum(f, i + h, 2 * h, count, r);
    lemma_zeta_square(k);
    assert((-z) * (-z) == z * z) by (nonlinear_arith);
    lemma_strided_congruent(f, i, 2 * h, count, z * z, r);
    lemma_strided_congruent(f, i + h, 2 * h, count, z * z, r);
    let low_z = strided_sum(f, i, 2 * h, count, z * z);
    let high_z = strided_sum(f, i + h, 2 * h, count, z * z);
    lemma_strided_split(f, i, h, count, z);
    lemma_strided_split(f, i, h, count, -z);
    assert(root(2 * k) == z && root(2 * k + 1) == -z);
    assert((-z) * high_z == -(z * high_z)) by (nonlinear_arith);
    lemma_residue_mul(z, z, high_z, residue(high));
    lemma_residue_add(low_z, residue(low), z * high_z, z * residue(high));
    lemma_residue_sub(low_z, residue(low), z * high_z, z * residue(high));
}

/// At the largest block size nothing has happened yet.
pub proof fn lemma_node_root(f: Seq<int>, m: int)
    requires
        0 <= m < 256,
    ensures
        node_value(f, 256, m) == residue(f[m]),
{
    reveal(node_value);
    reveal_with_fuel(strided_sum, 2);
    lemma_pow0(root(1));
    assert(f[m] * 1 == f[m]);
}

/// At the smallest block size the transform is done.
pub proof fn lemma_node_leaf(f: Seq<int>, m: int)
    requires
        0 <= m < 256,
    ensures
        node_value(f, 2, m) == ntt_spec(f)[m],
{
    reveal(node_value);
    lemma_gamma_root(m / 2);
    lemma_strided_congruent(f, m % 2, 2, 128, gamma(m / 2), root(128 + m / 2));
}

/// One layer of the transform, from blocks of size `2h` to blocks of size `h`.
pub open spec fn forward_layer(c: Seq<int>, h: int, m: int) -> int {
    if m % (2 * h) < h {
        residue(c[m] + zeta(128int / h + m / (2 * h)) * c[m + h])
    } else {
        residue(c[m - h] - zeta(128int / h + m / (2 * h)) * c[m])
    }
}

/// A layer takes each block to its two remainders.
pub proof fn lemma_forward_layer(f: Seq<int>, c: Seq<int>, h: int, m: int)
    requires
        block_size(h),
        h < 256,
        0 <= m < 256,
        forall|j: int| 0 <= j < 256 ==> #[trigger] c[j] == node_value(f, 2 * h, j),
    ensures
        forward_layer(c, h, m) == node_value(f, h, m),
{
    if m % (2 * h) < h {
        lemma_block_positions(h, m);
        lemma_butterfly(f, h, m);
    } else {
        lemma_high_position(h, m);
        lemma_block_positions(h, m - h);
        lemma_butterfly(f, h, m - h);
    }
}

/// The high half of a block lies above its low half.
proof fn lemma_high_position(h: int, m: int)
    requires
        block_size(h),
        h < 256,
        0 <= m < 256,
        m % (2 * h) >= h,
    ensures
        0 <= m - h,
        (m - h) % (2 * h) == m % (2 * h) - h,
        (m - h) / (2 * h) == m / (2 * h),
{
    let n = 2 * h;
    let b = m / n;
    let i = m % n;
    lemma_fundamental_div_mod(m, n);
    lemma_mod_bound(m, n);
    assert(n * b == b * n) by (nonlinear_arith);
    assert(0 <= b) by (nonlinear_arith)
        requires
            m == n * b + i,
            0 <= i < n,
            0 <= m,
    ;
    assert(0 <= b * n) by (nonlinear_arith)
        requires
            0 <= b,
            0 <= n,
    ;
    lemma_fundamental_div_mod_converse(m - h, n, b, i - h);
}

/// A sum and a difference determine their terms.
proof fn lemma_sum_and_difference(fl: int, fh: int, gl: int, gh: int, z: int, w: int)
    requires
        residue(fl + z * fh) == residue(gl + z * gh),
        residue(fl - z * fh) == residue(gl - z * gh),
        residue(z * w) == residue(-1),
    ensures
        residue(fl) == residue(gl),
        residue(fh) == residue(gh),
{
    lemma_residue_add(fl + z * fh, gl + z * gh, fl - z * fh, gl - z * gh);
    lemma_residue_cancel(1665, 2, fl, gl);
    lemma_residue_sub(fl + z * fh, gl + z * gh, fl - z * fh, gl - z * gh);
    lemma_residue_cancel(1665, 2, z * fh, z * gh);
    assert((-w) * z == -(z * w)) by (nonlinear_arith);
    lemma_residue_sub(0, 0, z * w, -1);
    lemma_residue_cancel(-w, z, fh, gh);
}

/// Two blocks whose halves agree after a butterfly agreed before it.
proof fn lemma_butterfly_back(f: Seq<int>, g: Seq<int>, h: int, m: int)
    requires
        block_size(h),
        h < 256,
        0 <= m < 256,
        m % (2 * h) < h,
        node_value(f, h, m) == node_value(g, h, m),
        node_value(f, h, m + h) == node_value(g, h, m + h),
    ensures
        node_value(f, 2 * h, m) == node_value(g, 2 * h, m),
        node_value(f, 2 * h, m + h) == node_value(g, 2 * h, m + h),
{
    lemma_block_positions(h, m);
    lemma_block_count(h);
    lemma_butterfly(f, h, m);
    lemma_butterfly(g, h, m);
    let blocks = 128int / h;
    let b = m / (2 * h);
    let z = zeta(blocks + b);
    let w = zeta(2 * blocks - 1 - b);
    lemma_zeta_mirror(blocks, b);
    lemma_sum_and_difference(
        node_value(f, 2 * h, m),
        node_value(f, 2 * h, m + h),
        node_value(g, 2 * h, m),
        node_value(g, 2 * h, m + h),
        z,
        w,
    );
    reveal(node_value);
}

/// Blocks that agree after a layer agreed before it.
proof fn lemma_layer_back(f: Seq<int>, g: Seq<int>, h: int, n: int)
    requires
        block_size(h),
        h < 256,
        n == 2 * h,
        forall|m: int|
            0 <= m < 256 ==> #[trigger] node_value(f, h, m) == node_value(g, h, m),
    ensures
        forall|m: int|
            0 <= m < 256 ==> #[trigger] node_value(f, n, m) == node_value(g, n, m),
{
    assert forall|m: int| 0 <= m < 256 implies #[trigger] node_value(f, n, m) == node_value(
        g,
        n,
        m,
    ) by {
        if m % (2 * h) < h {
            lemma_block_positions(h, m);
            lemma_butterfly_back(f, g, h, m);
        } else {
            lemma_high_position(h, m);
            lemma_block_positions(h, m - h);
            lemma_butterfly_back(f, g, h, m - h);
        }
    }
}

/// A ring element is determined by its transform.
pub proof fn lemma_ntt_injective(f: Seq<int>, g: Seq<int>)
    requires
        is_poly(f),
        is_poly(g),
        ntt_spec(f) == ntt_spec(g),
    ensures
        f == g,
{
    assert forall|m: int| 0 <= m < 256 implies #[trigger] node_value(f, 2, m) == node_value(
        g,
        2,
        m,
    ) by {
        lemma_node_leaf(f, m);
        lemma_node_leaf(g, m);
    }
    lemma_layer_back(f, g, 2, 4);
    lemma_layer_back(f, g, 4, 8);
    lemma_layer_back(f, g, 8, 16);
    lemma_layer_back(f, g, 16, 32);
    lemma_layer_back(f, g, 32, 64);
    lemma_layer_back(f, g, 64, 128);
    lemma_layer_back(f, g, 128, 256);
    assert forall|m: int| 0 <= m < 256 implies f[m] == g[m] by {
        lemma_node_root(f, m);
        lemma_node_root(g, m);
        assert(node_value(f, 256, m) == node_value(g, 256, m));
    }
    assert(f =~= g);
}

/// The powers of a leaf's modulus are the constants of the nodes above it.
pub proof fn lemma_gamma_power(h: int, m: int)
    requires
        block_size(h),
        h < 256,
        0 <= m < 256,
    ensures
        residue(pow(gamma(m / 2), (h / 2) as nat)) == residue(root(256int / h + m / h)),
    decreases h,
{
    let g = gamma(m / 2);
    if h == 2 {
        lemma_pow1(g);
        lemma_gamma_root(m / 2);
    } else {
        let w = h / 2;
        assert(block_size(w));
        lemma_gamma_power(w, m);
        lemma_block_count(w);
        lemma_div_denominator(m, w, 2);
        let k = 256int / w + m / w;
        let half = (w / 2) as nat;
        lemma_pow_adds(g, half, half);
        lemma_residue_mul(pow(g, half), root(k), pow(g, half), root(k));
        lemma_fundamental_div_mod(m, h);
        lemma_mod_bound(m, h);
        let blocks = 256int / h;
        assert(0 <= m / h < blocks) by (nonlinear_arith)
            requires
                m == h * (m / h) + m % h,
                0 <= m % h < h,
                0 <= m < blocks * h,
        ;
        lemma_zeta_square(k / 2);
        let z = zeta(k / 2);
        assert((-z) * (-z) == z * z) by (nonlinear_arith);
    }
}

/// One layer of the inverse transform, from blocks of size `h` to blocks of
/// size `2h`, up to a factor of two.
pub open spec fn inverse_layer(c: Seq<int>, h: int, m: int) -> int {
    if m % (2 * h) < h {
        residue(c[m] + c[m + h])
    } else {
        residue(zeta(2 * (128int / h) - 1 - m / (2 * h)) * (c[m] - c[m - h]))
    }
}

/// Whether each block of size `n` of `c` has the coefficients of `t` in its
/// place for remainders, up to the factor `n / 2`.
pub open spec fn lifted(c: Seq<int>, t: Seq<int>, n: int, m: int) -> bool {
    residue(strided_sum(c, (m / n) * n + m % 2, 2, (n / 2) as nat, gamma(m / 2))) == residue(
        (n / 2) * t[m],
    )
}

/// Nothing has to be lifted to blocks of size two.
pub proof fn lemma_lifted_start(t: Seq<int>, m: int)
    requires
        0 <= m < 256,
    ensures
        lifted(t, t, 2, m),
{
    let g = gamma(m / 2);
    lemma_pow0(g);
    assert((m / 2) * 2 + m % 2 == m);
    assert(strided_sum(t, m, 2, 0, g) == 0);
    assert(strided_sum(t, m, 2, 1, g) == 0 + t[m + 0 * 2] * pow(g, 0));
    assert(t[m] * 1 == t[m] && (2int / 2) * t[m] == t[m]);
}

/// Blocks lifted to the full size have the given transform, up to the factor.
pub proof fn lemma_lifted_end(c: Seq<int>, t: Seq<int>, m: int)
    requires
        0 <= m < 256,
        lifted(c, t, 256, m),
    ensures
        residue(ntt_spec(c)[m]) == residue(128 * t[m]),
{
    assert((m / 256) * 256 + m % 2 == m % 2);
}

/// What a layer of the inverse transform does to the strided sums of the two
/// halves of a block.
proof fn lemma_inverse_sums(c: Seq<int>, d: Seq<int>, h: int, b: int, odd: int, g: int)
    requires
        block_size(h),
        h < 256,
        0 <= b < 128int / h,
        0 <= odd < 2,
        forall|j: int| 0 <= j < 256 ==> #[trigger] d[j] == inverse_layer(c, h, j),
    ensures
        ({
            let o = b * (2 * h) + odd;
            let count = (h / 2) as nat;
            let w = zeta(2 * (128int / h) - 1 - b);
            let low = strided_sum(c, o, 2, count, g);
            let high = strided_sum(c, o + h, 2, count, g);
            &&& residue(strided_sum(d, o, 2, count, g)) == residue(low + high)
            &&& residue(strided_sum(d, o + h, 2, count, g)) == residue(w * (high - low))
        }),
{
    lemma_block_count(h);
    let blocks = 128int / h;
    let n = 2 * h;
    let base = b * n;
    let o = base + odd;
    let count = (h / 2) as nat;
    let w = zeta(2 * blocks - 1 - b);
    assert(0 <= base && base + n <= 256) by (nonlinear_arith)
        requires
            0 <= b < blocks,
            base == b * n,
            blocks * n == 256,
            n > 0,
    ;
    assert forall|j: int| 0 <= j < count implies #[trigger] combines(
        d,
        o,
        c,
        o,
        1,
        c,
        o + h,
        1,
        2,
        j,
    ) by {
        let p = o + j * 2;
        lemma_fundamental_div_mod_converse(p, n, b, odd + j * 2);
        assert(d[p] == inverse_layer(c, h, p));
        assert(o + h + j * 2 == p + h);
    }
    assert forall|j: int| 0 <= j < count implies #[trigger] combines(
        d,
        o + h,
        c,
        o,
        -w,
        c,
        o + h,
        w,
        2,
        j,
    ) by {
        let p = o + j * 2;
        lemma_fundamental_div_mod_converse(p + h, n, b, odd + j * 2 + h);
        assert(d[p + h] == inverse_layer(c, h, p + h));
        assert((-w) * c[p] + w * c[p + h] == w * (c[p + h] - c[p])) by (nonlinear_arith);
        assert(o + h + j * 2 == p + h);
    }
    lemma_strided_combination(d, o, c, o, 1, c, o + h, 1, 2, count, g);
    lemma_strided_combination(d, o + h, c, o, -w, c, o + h, w, 2, count, g);
    let low = strided_sum(c, o, 2, count, g);
    let high = strided_sum(c, o + h, 2, count, g);
    assert((-w) * low + w * high == w * (high - low)) by (nonlinear_arith);
}

/// The halves of a block recombine to twice one of them, by the sign of the
/// point at which they are joined.
proof fn lemma_inverse_join(p: int, z: int, w: int, s: int, t: int, low: int, high: int)
    requires
        residue(z * w) == residue(-1),
        residue(s) == residue(low + high),
        residue(t) == residue(w * (high - low)),
    ensures
        residue(p) == residue(z) ==> residue(s + p * t) == residue(2 * low),
        residue(p) == residue(-z) ==> residue(s + p * t) == residue(2 * high),
{
    let delta = high - low;
    lemma_residue_mul(z * w, -1, delta, delta);
    if residue(p) == residue(z) {
        lemma_residue_mul(p, z, t, w * delta);
        assert(z * (w * delta) == (z * w) * delta) by (nonlinear_arith);
        lemma_residue_add(s, low + high, p * t, -delta);
    }
    if residue(p) == residue(-z) {
        lemma_residue_mul(p, -z, t, w * delta);
        assert((-z) * (w * delta) == -((z * w) * delta)) by (nonlinear_arith);
        lemma_residue_sub(0, 0, (z * w) * delta, -delta);
        lemma_residue_add(s, low + high, p * t, delta);
    }
}

/// A layer of the inverse transform lifts the blocks to the next size.
pub proof fn lemma_inverse_layer(t: Seq<int>, c: Seq<int>, d: Seq<int>, h: int, m: int)
    requires
        block_size(h),
        h < 256,
        0 <= m < 256,
        lifted(c, t, h, m),
        forall|j: int| 0 <= j < 256 ==> #[trigger] d[j] == inverse_layer(c, h, j),
    ensures
        lifted(d, t, 2 * h, m),
{
    lemma_block_count(h);
    let blocks = 128int / h;
    let n = 2 * h;
    let b = m / n;
    let o = b * n + m % 2;
    let g = gamma(m / 2);
    let count = (h / 2) as nat;
    let z = zeta(blocks + b);
    let w = zeta(2 * blocks - 1 - b);
    let low = strided_sum(c, o, 2, count, g);
    let high = strided_sum(c, o + h, 2, count, g);
    let joined = strided_sum(d, o, 2, count, g) + pow(g, count) * strided_sum(
        d,
        o + h,
        2,
        count,
        g,
    );
    assert(0 <= b < blocks && (m % n < h ==> m / h == 2 * b) && (m % n >= h ==> m / h == 2 * b + 1))
        by {
        if m % n < h {
            lemma_block_positions(h, m);
        } else {
            lemma_high_position(h, m);
            lemma_block_positions(h, m - h);
        }
    }
    assert((2 * b) * h == b * n && (2 * b + 1) * h == b * n + h) by (nonlinear_arith)
        requires
            n == 2 * h,
    ;
    assert(m % n < h ==> residue(low) == residue((h / 2) * t[m]));
    assert(m % n >= h ==> residue(high) == residue((h / 2) * t[m]));
    assert(residue(pow(g, count)) == residue(
        if m % n < h {
            z
        } else {
            -z
        },
    )) by {
        lemma_gamma_power(h, m);
    }
    assert(residue(joined) == residue(
        if m % n < h {
            2 * low
        } else {
            2 * high
        },
    )) by {
        lemma_inverse_sums(c, d, h, b, m % 2, g);
        lemma_zeta_mirror(blocks, b);
        lemma_inverse_join(
            pow(g, count),
            z,
            w,
            strided_sum(d, o, 2, count, g),
            strided_sum(d, o + h, 2, count, g),
            low,
            high,
        );
    }
    assert(strided_sum(d, o, 2, h as nat, g) == joined) by {
        lemma_strided_concat(d, o, 2, count, count, g);
        assert(count + count == h as nat);
        assert(o + count * 2 == o + h);
    }
    let part = if m % n < h {
        low
    } else {
        high
    };
    lemma_residue_mul(2, 2, part, (h / 2) * t[m]);
    assert(2 * ((h / 2) * t[m]) == h * t[m]) by (nonlinear_arith)
        requires
            2 * (h / 2) == h,
    ;
    assert(residue(joined) == residue(h * t[m]));
    assert(n / 2 == h);
}

} // verus!
