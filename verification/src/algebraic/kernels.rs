//! The loops over 256 coefficients: the transform and its inverse, base
//! multiplication, and the change of coefficient order between the two rings.

use vstd::arithmetic::div_mod::lemma_fundamental_div_mod_converse;
use vstd::arithmetic::power2::pow2;
use vstd::prelude::*;

use super::field::{compress_spec, decompress_spec, lemma_product_bound, within, FieldElement};
use super::modular::{
    lemma_residue_add, lemma_residue_mul, lemma_residue_shift, lemma_residue_sub, mont_r,
    mont_r_inverse, residue, round_div,
};
use super::ring::{lemma_ntt_scale, poly_scale, tq_mul};
use super::transform::{
    block_size, forward_layer, inverse_layer, lemma_forward_layer, lemma_inverse_layer,
    lemma_lifted_end, lemma_lifted_start, lemma_node_leaf, lemma_node_root, lifted, node_value,
    ntt_spec,
};
use super::zetas::{gamma, lemma_gamma_root, lemma_zeta_raw, GAMMA_RAW, ZETA_BARRETT, ZETA_RAW};

verus! {

/// The residues of a list of elements.
pub open spec fn residues(c: Seq<FieldElement>) -> Seq<int> {
    Seq::new(c.len(), |i: int| c[i]@)
}

/// Whether every element of a list is at most `bound` in magnitude.
pub open spec fn all_bounded(c: Seq<FieldElement>, bound: int) -> bool {
    forall|i: int| 0 <= i < c.len() ==> (#[trigger] c[i]).bounded(bound)
}

/// The magnitude that the transform accepts: the largest for which no sum of a
/// butterfly leaves sixteen bits.
pub const NTT_BOUND: i16 = 13561;

/// How large the coefficients have grown once the transform has reached blocks
/// of size `n`.
spec fn forward_bound(n: int) -> int {
    if n == 256 {
        13561
    } else if n == 128 {
        15914
    } else if n == 64 {
        18387
    } else if n == 32 {
        20985
    } else if n == 16 {
        23715
    } else if n == 8 {
        26584
    } else if n == 4 {
        29598
    } else {
        32766
    }
}

/// The transform, in place.
pub(crate) fn ntt(c: &mut [FieldElement; 256])
    requires
        all_bounded(old(c)@, NTT_BOUND as int),
    ensures
        residues(final(c)@) == ntt_spec(residues(old(c)@)),
        all_bounded(final(c)@, 1664),
{
    let ghost f = residues(c@);
    let mut first: usize = 1;
    let mut len: usize = 128;
    proof {
        assert forall|m: int| 0 <= m < 256 implies (#[trigger] c@[m])@ == node_value(f, 256, m) by {
            lemma_node_root(f, m);
            assert(f[m] == c@[m]@);
        }
    }
    while len >= 2
        invariant
            len == 1 || block_size(len as int),
            len <= 128,
            first * len == 128,
            forall|m: int|
                0 <= m < 256 ==> (#[trigger] c@[m])@ == node_value(f, 2 * len as int, m),
            all_bounded(c@, forward_bound(2 * len as int)),
        decreases len,
    {
        let ghost r = residues(c@);
        ntt_layer(c, len, first);
        proof {
            assert forall|m: int| 0 <= m < 256 implies (#[trigger] c@[m])@ == node_value(
                f,
                len as int,
                m,
            ) by {
                lemma_forward_layer(f, r, len as int, m);
            }
            assert((2 * first) * (len / 2) == 128) by (nonlinear_arith)
                requires
                    first * len == 128,
                    2 * (len / 2) == len,
            ;
            assert(first <= 64) by (nonlinear_arith)
                requires
                    first * len == 128,
                    len >= 2,
            ;
        }
        len = len / 2;
        first = 2 * first;
    }
    let mut i: usize = 0;
    while i < 256
        invariant
            i <= 256,
            forall|m: int| 0 <= m < 256 ==> (#[trigger] c@[m])@ == node_value(f, 2, m),
            forall|m: int| 0 <= m < i ==> (#[trigger] c@[m]).bounded(1664),
        decreases 256 - i,
    {
        c[i] = c[i].reduce();
        i = i + 1;
    }
    proof {
        assert forall|m: int| 0 <= m < 256 implies residues(c@)[m] == ntt_spec(f)[m] by {
            lemma_node_leaf(f, m);
            assert(c@[m]@ == node_value(f, 2, m));
        }
        assert(residues(c@) =~= ntt_spec(f));
    }
}

/// Where the butterflies of block `b` stand.
proof fn lemma_butterfly_position(len: int, first: int, b: int, i: int)
    requires
        block_size(len),
        len < 256,
        first * len == 128,
        0 <= b < first,
        0 <= i < len,
    ensures
        128int / len == first,
        0 <= b * (2 * len),
        b * (2 * len) + 2 * len <= 256,
        (b * (2 * len) + i) % (2 * len) == i,
        (b * (2 * len) + i) / (2 * len) == b,
        (b * (2 * len) + i + len) % (2 * len) == i + len,
        (b * (2 * len) + i + len) / (2 * len) == b,
{
    lemma_fundamental_div_mod_converse(128, len, first, 0);
    lemma_fundamental_div_mod_converse(b * (2 * len) + i, 2 * len, b, i);
    lemma_fundamental_div_mod_converse(b * (2 * len) + i + len, 2 * len, b, i + len);
    assert(0 <= b * (2 * len) && b * (2 * len) + 2 * len <= 256) by (nonlinear_arith)
        requires
            0 <= b < first,
            first * len == 128,
            0 < len,
    ;
}

/// One layer of the transform: splits each block of size `2 * len`, the first
/// of which has the twiddle factor `first`.
fn ntt_layer(c: &mut [FieldElement; 256], len: usize, first: usize)
    requires
        block_size(len as int),
        len < 256,
        first * len == 128,
        all_bounded(old(c)@, forward_bound(2 * len as int)),
    ensures
        forall|m: int|
            0 <= m < 256 ==> (#[trigger] final(c)@[m])@ == forward_layer(
                residues(old(c)@),
                len as int,
                m,
            ),
        all_bounded(final(c)@, forward_bound(len as int)),
{
    let ghost o = c@;
    let ghost r = residues(c@);
    let mut start: usize = 0;
    let mut b: usize = 0;
    while b < first
        invariant
            block_size(len as int),
            len < 256,
            first * len == 128,
            b <= first,
            start == b * (2 * len),
            r == residues(o),
            o.len() == 256,
            all_bounded(o, forward_bound(2 * len as int)),
            forall|m: int|
                0 <= m < start ==> (#[trigger] c@[m])@ == forward_layer(r, len as int, m)
                    && c@[m].bounded(forward_bound(len as int)),
            forall|m: int| start <= m < 256 ==> #[trigger] c@[m] == o[m],
        decreases first - b,
    {
        proof {
            lemma_butterfly_position(len as int, first as int, b as int, 0);
            assert(first <= 64) by (nonlinear_arith)
                requires
                    first * len == 128,
                    len >= 2,
            ;
            lemma_zeta_raw(first + b);
        }
        let zeta: i16 = ZETA_RAW[first + b] as i16;
        let zeta_bar: i16 = ZETA_BARRETT[first + b];
        let mut j: usize = start;
        while j < start + len
            invariant
                block_size(len as int),
                len < 256,
                first * len == 128,
                b < first,
                start == b * (2 * len),
                start + 2 * len <= 256,
                start <= j <= start + len,
                zeta == super::zetas::zeta(first + b),
                0 <= zeta < 3329,
                zeta_bar == round_div(zeta * 0x8000, 3329),
                r == residues(o),
                o.len() == 256,
                all_bounded(o, forward_bound(2 * len as int)),
                forall|m: int|
                    0 <= m < j || start + len <= m < j + len ==> (#[trigger] c@[m])@
                        == forward_layer(r, len as int, m) && c@[m].bounded(
                        forward_bound(len as int),
                    ),
                forall|m: int|
                    j <= m < start + len || j + len <= m < 256 ==> #[trigger] c@[m] == o[m],
            decreases start + len - j,
        {
            let low: FieldElement = c[j];
            let high: FieldElement = c[j + len];
            let t: FieldElement = high.barrett_const_mul(zeta, zeta_bar);
            proof {
                lemma_butterfly_position(len as int, first as int, b as int, j - start);
                let bound = forward_bound(2 * len as int);
                assert(o[j as int].bounded(bound) && o[j + len].bounded(bound));
                assert(t.bounded(bound * 1664 / 0x8000 + 1665));
                assert(r[j as int] == low@ && r[j + len] == high@);
                lemma_residue_sub(low@, low@, t@, high@ * zeta);
                lemma_residue_add(low@, low@, t@, high@ * zeta);
                assert(high@ * zeta == zeta * high@) by (nonlinear_arith);
            }
            c[j + len] = low - t;
            c[j] = low + t;
            j = j + 1;
        }
        start = start + 2 * len;
        b = b + 1;
        proof {
            assert(b * (2 * len) == (b - 1) * (2 * len) + 2 * len) by (nonlinear_arith);
        }
    }
    proof {
        assert(first * (2 * len) == 256) by (nonlinear_arith)
            requires
                first * len == 128,
        ;
    }
}

/// The magnitude that the inverse transform accepts: the largest for which the
/// first sums fit sixteen bits.
pub const NTT_INVERSE_BOUND: i16 = 16383;

/// How large the coefficients are once the inverse transform has reached
/// blocks of size `n`.
spec fn inverse_bound(n: int) -> int {
    if n == 2 {
        16383
    } else if n == 4 || n == 32 {
        3328
    } else if n == 8 || n == 64 {
        6656
    } else if n == 16 || n == 128 {
        13312
    } else {
        26624
    }
}

/// The inverse transform, in place: yields the element whose transform is `R`
/// times the input.
///
/// The factor `R` makes up for the `R^-1` that base multiplication leaves.
pub(crate) fn ntt_inverse(c: &mut [FieldElement; 256])
    requires
        all_bounded(old(c)@, NTT_INVERSE_BOUND as int),
    ensures
        ntt_spec(residues(final(c)@)) == poly_scale(mont_r(), residues(old(c)@)),
        all_bounded(final(c)@, 3328),
{
    let ghost t = residues(c@);
    let mut blocks: usize = 64;
    let mut len: usize = 2;
    proof {
        assert forall|m: int| 0 <= m < 256 implies #[trigger] lifted(residues(c@), t, 2, m) by {
            lemma_lifted_start(t, m);
        }
    }
    while len <= 128
        invariant
            len == 256 && blocks == 0 || block_size(len as int) && blocks * len == 128,
            2 <= len <= 256,
            t.len() == 256,
            forall|m: int| 0 <= m < 256 ==> #[trigger] lifted(residues(c@), t, len as int, m),
            all_bounded(c@, inverse_bound(len as int)),
        decreases 256 - len,
    {
        let ghost r = residues(c@);
        ntt_inverse_layer(c, len, blocks);
        proof {
            assert forall|m: int| 0 <= m < 256 implies #[trigger] lifted(
                residues(c@),
                t,
                2 * len,
                m,
            ) by {
                assert(lifted(r, t, len as int, m));
                assert forall|j: int| 0 <= j < 256 implies #[trigger] residues(c@)[j]
                    == inverse_layer(r, len as int, j) by {
                    assert(c@[j]@ == inverse_layer(r, len as int, j));
                }
                lemma_inverse_layer(t, r, residues(c@), len as int, m);
            }
            if len < 128 {
                assert((blocks / 2) * (2 * len) == 128) by {
                    lemma_even_blocks(len as int, blocks as int);
                }
            } else {
                assert(blocks == 1) by (nonlinear_arith)
                    requires
                        blocks * len == 128,
                        len == 128,
                ;
            }
        }
        len = 2 * len;
        blocks = blocks / 2;
    }
    let ghost r = residues(c@);
    let mut i: usize = 0;
    while i < 256
        invariant
            i <= 256,
            r.len() == 256,
            forall|m: int| i <= m < 256 ==> (#[trigger] c@[m])@ == r[m] && c@[m].bounded(26624),
            forall|m: int|
                0 <= m < i ==> (#[trigger] c@[m])@ == residue(512 * r[m]) && c@[m].bounded(3328),
        decreases 256 - i,
    {
        c[i] = inverse_scale(c[i]);
        i = i + 1;
    }
    proof {
        assert(residues(c@) =~= poly_scale(512, r));
        lemma_inverse_end(r, t);
    }
}

/// Blocks lifted to the full size, scaled by `128^-1 * R`, have `R` times the
/// given transform.
proof fn lemma_inverse_end(r: Seq<int>, t: Seq<int>)
    requires
        t.len() == 256,
        forall|m: int| 0 <= m < 256 ==> #[trigger] lifted(r, t, 256, m),
    ensures
        ntt_spec(poly_scale(512, r)) == poly_scale(mont_r(), t),
{
    lemma_ntt_scale(512, r);
    assert forall|m: int| 0 <= m < 256 implies poly_scale(512, ntt_spec(r))[m] == poly_scale(
        mont_r(),
        t,
    )[m] by {
        assert(lifted(r, t, 256, m));
        lemma_lifted_end(r, t, m);
        lemma_residue_mul(512, 512, ntt_spec(r)[m], 128 * t[m]);
        lemma_residue_shift(512 * (128 * t[m]), mont_r() * t[m], 19 * t[m]);
    }
    assert(poly_scale(512, ntt_spec(r)) =~= poly_scale(mont_r(), t));
}

proof fn lemma_inverse_factor(v: int)
    ensures
        residue(v * 1441 * 169) == residue(512 * v),
{
    lemma_residue_shift(v * 1441 * 169, 512 * v, 73 * v);
}

/// The last step of the inverse transform: multiplies by `128^-1 * R`.
fn inverse_scale(x: FieldElement) -> (r: FieldElement)
    requires
        x.bounded(26624),
    ensures
        r@ == residue(512 * x@),
        r.bounded(3328),
{
    // 128^-1 * R^2 modulo q; the multiplication takes one factor R away.
    let scale: FieldElement = FieldElement::from_montgomery_table(1441);
    let r: FieldElement = x * scale;
    proof {
        let (a, b) = (x.rep(), scale.rep());
        assert(a * b == a * 1441);
        assert(r.bounded(586int + 1664));
        let v = x@;
        assert(v * scale@ == v * 1441);
        lemma_inverse_factor(v);
    }
    r
}

/// There is an even number of blocks until the last layer.
proof fn lemma_even_blocks(len: int, blocks: int)
    requires
        block_size(len),
        len < 128,
        blocks * len == 128,
    ensures
        (blocks / 2) * (2 * len) == 128,
{
    let half: int = if len == 2 {
        32
    } else if len == 4 {
        16
    } else if len == 8 {
        8
    } else if len == 16 {
        4
    } else if len == 32 {
        2
    } else {
        1
    };
    assert(blocks == 2 * half) by (nonlinear_arith)
        requires
            blocks * len == 128,
            half * len == 64,
            len > 0,
    ;
    assert(half * (2 * len) == 128) by (nonlinear_arith)
        requires
            half * len == 64,
    ;
}

/// One layer of the inverse transform: joins each pair of blocks of size
/// `len`, of which there are `blocks`.
///
/// The sums are reduced only where the next layers would let them overflow.
fn ntt_inverse_layer(c: &mut [FieldElement; 256], len: usize, blocks: usize)
    requires
        block_size(len as int),
        len < 256,
        blocks * len == 128,
        all_bounded(old(c)@, inverse_bound(len as int)),
    ensures
        forall|m: int|
            0 <= m < 256 ==> (#[trigger] final(c)@[m])@ == inverse_layer(
                residues(old(c)@),
                len as int,
                m,
            ),
        all_bounded(final(c)@, inverse_bound(2 * len as int)),
{
    let ghost o = c@;
    let ghost r = residues(c@);
    let mut start: usize = 0;
    let mut b: usize = 0;
    while b < blocks
        invariant
            block_size(len as int),
            len < 256,
            blocks * len == 128,
            b <= blocks,
            start == b * (2 * len),
            r == residues(o),
            o.len() == 256,
            all_bounded(o, inverse_bound(len as int)),
            forall|m: int|
                0 <= m < start ==> (#[trigger] c@[m])@ == inverse_layer(r, len as int, m)
                    && c@[m].bounded(inverse_bound(2 * len as int)),
            forall|m: int| start <= m < 256 ==> #[trigger] c@[m] == o[m],
        decreases blocks - b,
    {
        proof {
            lemma_butterfly_position(len as int, blocks as int, b as int, 0);
            assert(blocks <= 64) by (nonlinear_arith)
                requires
                    blocks * len == 128,
                    len >= 2,
            ;
            lemma_zeta_raw(2 * blocks - 1 - b);
        }
        let zeta: i16 = ZETA_RAW[2 * blocks - 1 - b] as i16;
        let zeta_bar: i16 = ZETA_BARRETT[2 * blocks - 1 - b];
        let mut j: usize = start;
        while j < start + len
            invariant
                block_size(len as int),
                len < 256,
                blocks * len == 128,
                b < blocks,
                start == b * (2 * len),
                start + 2 * len <= 256,
                start <= j <= start + len,
                zeta == super::zetas::zeta(2 * blocks - 1 - b),
                0 <= zeta < 3329,
                zeta_bar == round_div(zeta * 0x8000, 3329),
                r == residues(o),
                o.len() == 256,
                all_bounded(o, inverse_bound(len as int)),
                forall|m: int|
                    0 <= m < j || start + len <= m < j + len ==> (#[trigger] c@[m])@
                        == inverse_layer(r, len as int, m) && c@[m].bounded(
                        inverse_bound(2 * len as int),
                    ),
                forall|m: int|
                    j <= m < start + len || j + len <= m < 256 ==> #[trigger] c@[m] == o[m],
            decreases start + len - j,
        {
            let low: FieldElement = c[j];
            let high: FieldElement = c[j + len];
            proof {
                lemma_butterfly_position(len as int, blocks as int, b as int, j - start);
                let bound = inverse_bound(len as int);
                assert(o[j as int].bounded(bound) && o[j + len].bounded(bound));
                assert(r[j as int] == low@ && r[j + len] == high@);
            }
            let sum: FieldElement = low + high;
            let joined: FieldElement = if len == 2 || len == 16 {
                sum.reduce()
            } else {
                sum
            };
            let difference: FieldElement = high - low;
            let product: FieldElement = difference.barrett_const_mul(zeta, zeta_bar);
            proof {
                lemma_residue_mul(difference@, high@ - low@, zeta as int, zeta as int);
                assert((high@ - low@) * zeta == zeta * (high@ - low@)) by (nonlinear_arith);
            }
            c[j] = joined;
            c[j + len] = product;
            j = j + 1;
        }
        start = start + 2 * len;
        b = b + 1;
        proof {
            assert(b * (2 * len) == (b - 1) * (2 * len) + 2 * len) by (nonlinear_arith);
        }
    }
    proof {
        assert(blocks * (2 * len) == 256) by (nonlinear_arith)
            requires
                blocks * len == 128,
        ;
    }
}

/// The coefficients, in natural order, of a list that holds the even positions
/// first and the odd ones after them.
pub open spec fn natural_order(halves: Seq<FieldElement>) -> Seq<int> {
    Seq::new(256, |m: int| halves[(m % 2) * 128 + m / 2]@)
}

/// The bound of `3q / 2` on the operands of accumulated base multiplication.
pub const MUL_BOUND: i16 = 4993;

/// The magnitude up to which base multiplication fits sixteen bits.
pub const MULTIPLY_BOUND: i16 = 31057;

/// Whether the Montgomery product of two representatives of at most `b` in
/// magnitude is at most `t` above half of `q`.
pub open spec fn product_within(b: int, t: int) -> bool {
    &&& MUL_BOUND <= b <= MULTIPLY_BOUND
    &&& b * b <= 0x1_0000 * t
    &&& t <= 14718
}

/// `Compress_d` of every coefficient.
pub(crate) fn compress(c: &[FieldElement; 256], d: usize) -> (r: [u16; 256])
    requires
        d <= 12,
    ensures
        forall|i: int| 0 <= i < 256 ==> #[trigger] r@[i] == compress_spec(c@[i]@, d as nat),
{
    let mut r: [u16; 256] = [0; 256];
    let mut i: usize = 0;
    while i < 256
        invariant
            i <= 256,
            d <= 12,
            forall|k: int| 0 <= k < i ==> #[trigger] r@[k] == compress_spec(c@[k]@, d as nat),
        decreases 256 - i,
    {
        r[i] = c[i].compress(d);
        i = i + 1;
    }
    r
}

/// `Decompress_d` of every value.
pub(crate) fn decompress(values: &[u16; 256], d: usize) -> (r: [FieldElement; 256])
    requires
        1 <= d <= 31,
        forall|i: int| 0 <= i < 256 ==> #[trigger] values@[i] < pow2(d as nat),
    ensures
        forall|i: int|
            0 <= i < 256 ==> (#[trigger] r@[i]).rep() == decompress_spec(
                values@[i] as int,
                d as nat,
            ),
{
    let mut r: [FieldElement; 256] = [FieldElement::zero(); 256];
    let mut i: usize = 0;
    while i < 256
        invariant
            i <= 256,
            1 <= d <= 31,
            forall|k: int| 0 <= k < 256 ==> #[trigger] values@[k] < pow2(d as nat),
            forall|k: int|
                0 <= k < i ==> (#[trigger] r@[k]).rep() == decompress_spec(
                    values@[k] as int,
                    d as nat,
                ),
        decreases 256 - i,
    {
        r[i] = FieldElement::decompress(values[i], d);
        i = i + 1;
    }
    r
}

/// The canonical representatives, in natural order, of a list in halves.
pub(crate) fn canonical(halves: &[FieldElement; 256]) -> (r: [u16; 256])
    ensures
        forall|m: int| 0 <= m < 256 ==> #[trigger] r@[m] == natural_order(halves@)[m],
{
    let mut r: [u16; 256] = [0; 256];
    let mut i: usize = 0;
    while i < 128
        invariant
            i <= 128,
            forall|m: int| 0 <= m < 2 * i ==> #[trigger] r@[m] == natural_order(halves@)[m],
        decreases 128 - i,
    {
        r[2 * i] = halves[i].value();
        r[2 * i + 1] = halves[128 + i].value();
        i = i + 1;
    }
    r
}

/// Splits natural coefficient order into halves.
pub(crate) fn pack(natural: &[FieldElement; 256]) -> (r: [FieldElement; 256])
    ensures
        forall|m: int| 0 <= m < 256 ==> r@[(m % 2) * 128 + m / 2] == #[trigger] natural@[m],
{
    let mut r: [FieldElement; 256] = [FieldElement::zero(); 256];
    let mut i: usize = 0;
    while i < 128
        invariant
            i <= 128,
            forall|m: int| 0 <= m < 2 * i ==> r@[(m % 2) * 128 + m / 2] == #[trigger] natural@[m],
        decreases 128 - i,
    {
        r[i] = natural[2 * i];
        r[128 + i] = natural[2 * i + 1];
        i = i + 1;
    }
    r
}

/// Brings halves back to natural coefficient order.
pub(crate) fn unpack(halves: &[FieldElement; 256]) -> (r: [FieldElement; 256])
    ensures
        forall|m: int| 0 <= m < 256 ==> #[trigger] r@[m] == halves@[(m % 2) * 128 + m / 2],
{
    let mut r: [FieldElement; 256] = [FieldElement::zero(); 256];
    let mut i: usize = 0;
    while i < 128
        invariant
            i <= 128,
            forall|m: int| 0 <= m < 2 * i ==> #[trigger] r@[m] == halves@[(m % 2) * 128 + m / 2],
        decreases 128 - i,
    {
        r[2 * i] = halves[i];
        r[2 * i + 1] = halves[128 + i];
        i = i + 1;
    }
    r
}

/// The moduli of the base multiplication in Montgomery form.
pub fn gamma_mont() -> (r: [FieldElement; 128])
    ensures
        forall|i: int|
            0 <= i < 128 ==> (#[trigger] r@[i])@ == residue(gamma(i) * mont_r()) && r@[i].bounded(
                2341,
            ),
{
    let table: [FieldElement; 128] = FieldElement::montgomery_table(GAMMA_RAW);
    proof {
        assert forall|i: int| 0 <= i < 128 implies (#[trigger] table@[i])@ == residue(
            gamma(i) * mont_r(),
        ) by {
            lemma_gamma_root(i);
        }
    }
    table
}

/// Scaling by `R^-1` commutes with a Montgomery product by a constant in
/// Montgomery form.
proof fn lemma_montgomery_twist(x: int, y: int, g: int)
    requires
        residue(x) == residue(y * mont_r_inverse()),
    ensures
        residue(x * residue(g * mont_r()) * mont_r_inverse()) == residue(
            mont_r_inverse() * (g * y),
        ),
{
    let gr = g * mont_r();
    lemma_residue_mul(x, y * 169, residue(gr), gr);
    lemma_residue_mul(x * residue(gr), y * 169 * gr, 169, 169);
    let gy = g * y;
    assert(y * 169 * gr * 169 == 169 * gy + (116 * 169 * gy) * 3329) by (nonlinear_arith)
        requires
            gr == g * 2285,
            gy == g * y,
    ;
    lemma_residue_shift(y * 169 * gr * 169, 169 * gy, 116 * 169 * gy);
}

/// The product of two linear polynomials modulo `X^2 - g`, scaled by `R^-1`;
/// `gamma` is `g` in Montgomery form.
fn base_multiply(
    fe: FieldElement,
    fo: FieldElement,
    ge: FieldElement,
    go: FieldElement,
    gamma: FieldElement,
    Ghost(g): Ghost<int>,
) -> (r: (FieldElement, FieldElement))
    requires
        gamma@ == residue(g * mont_r()),
        gamma.bounded(2341),
        fe.bounded(MULTIPLY_BOUND as int),
        fo.bounded(MULTIPLY_BOUND as int),
        ge.bounded(MULTIPLY_BOUND as int),
        go.bounded(MULTIPLY_BOUND as int),
    ensures
        r.0@ == residue(mont_r_inverse() * (fe@ * ge@ + g * (fo@ * go@))),
        r.1@ == residue(mont_r_inverse() * (fe@ * go@ + fo@ * ge@)),
        forall|b: int, t: int| #[trigger]
            product_within(b, t) && fe.bounded(b) && fo.bounded(b) && ge.bounded(b) && go.bounded(b)
                ==> r.0.bounded(2 * (t + 1664)) && r.1.bounded(2 * (t + 1664)),
{
    let a: FieldElement = fe * ge;
    let b: FieldElement = fo * go;
    let c: FieldElement = b * gamma;
    let d: FieldElement = fe * go;
    let e: FieldElement = fo * ge;
    proof {
        lemma_product_bound(fe.rep(), 31057, ge.rep(), 31057);
        lemma_product_bound(fo.rep(), 31057, go.rep(), 31057);
        lemma_product_bound(fe.rep(), 31057, go.rep(), 31057);
        lemma_product_bound(fo.rep(), 31057, ge.rep(), 31057);
        assert(a.bounded(14718int + 1664) && b.bounded(14718int + 1664) && d.bounded(
            14718int + 1664,
        ) && e.bounded(14718int + 1664));
        lemma_product_bound(b.rep(), 16382, gamma.rep(), 2341);
        assert(c.bounded(586int + 1664));
    }
    let even: FieldElement = a + c;
    let odd: FieldElement = d + e;
    proof {
        let (x, y) = (fe@ * ge@, fo@ * go@);
        lemma_montgomery_twist(b@, y, g);
        lemma_residue_add(a@, x * 169, c@, 169 * (g * y));
        assert(x * 169 + 169 * (g * y) == 169 * (x + g * y));
        let (u, v) = (fe@ * go@, fo@ * ge@);
        lemma_residue_add(d@, u * 169, e@, v * 169);
        assert(u * 169 + v * 169 == 169 * (u + v));
        assert forall|x: int, t: int| #[trigger]
            product_within(x, t) && fe.bounded(x) && fo.bounded(x) && ge.bounded(x) && go.bounded(
                x,
            ) implies even.bounded(2 * (t + 1664)) && odd.bounded(2 * (t + 1664)) by {
            lemma_product_bound(4993, x, 4993, x);
            lemma_product_bound(fe.rep(), x, ge.rep(), x);
            lemma_product_bound(fo.rep(), x, go.rep(), x);
            lemma_product_bound(fe.rep(), x, go.rep(), x);
            lemma_product_bound(fo.rep(), x, ge.rep(), x);
            assert(a.bounded(t + 1664) && b.bounded(t + 1664) && d.bounded(t + 1664) && e.bounded(
                t + 1664,
            ));
            lemma_product_bound(b.rep(), t + 1664, gamma.rep(), 2341);
            assert(c.bounded(t + 1664));
        }
    }
    (even, odd)
}

/// Base multiplication of two lists in halves: the product in the transform
/// domain, scaled by `R^-1`.
pub(crate) fn multiply(f: &[FieldElement; 256], g: &[FieldElement; 256]) -> (h: [FieldElement; 256])
    requires
        all_bounded(f@, MULTIPLY_BOUND as int),
        all_bounded(g@, MULTIPLY_BOUND as int),
    ensures
        natural_order(h@) == poly_scale(
            mont_r_inverse(),
            tq_mul(natural_order(f@), natural_order(g@)),
        ),
        forall|b: int, t: int| #[trigger]
            product_within(b, t) && all_bounded(f@, b) && all_bounded(g@, b) ==> all_bounded(
                h@,
                2 * (t + 1664),
            ),
{
    let table: [FieldElement; 128] = gamma_mont();
    let mut h: [FieldElement; 256] = [FieldElement::zero(); 256];
    let ghost (x, y) = (natural_order(f@), natural_order(g@));
    let mut i: usize = 0;
    while i < 128
        invariant
            i <= 128,
            all_bounded(f@, MULTIPLY_BOUND as int),
            all_bounded(g@, MULTIPLY_BOUND as int),
            x == natural_order(f@),
            y == natural_order(g@),
            forall|k: int|
                0 <= k < 128 ==> (#[trigger] table@[k])@ == residue(gamma(k) * mont_r())
                    && table@[k].bounded(2341),
            forall|k: int|
                0 <= k < i ==> (#[trigger] h@[k])@ == residue(
                    mont_r_inverse() * (x[2 * k] * y[2 * k] + gamma(k) * (x[2 * k + 1] * y[2 * k
                        + 1])),
                ),
            forall|k: int|
                128 <= k < 128 + i ==> (#[trigger] h@[k])@ == residue(
                    mont_r_inverse() * (x[2 * k - 256] * y[2 * k - 255] + x[2 * k - 255] * y[2 * k
                        - 256]),
                ),
            forall|b: int, t: int| #[trigger]
                product_within(b, t) && all_bounded(f@, b) && all_bounded(g@, b) ==> all_bounded(
                    h@,
                    2 * (t + 1664),
                ),
        decreases 128 - i,
    {
        proof {
            assert(f@[i as int].bounded(MULTIPLY_BOUND as int) && f@[128 + i].bounded(
                MULTIPLY_BOUND as int,
            ) && g@[i as int].bounded(MULTIPLY_BOUND as int) && g@[128 + i].bounded(
                MULTIPLY_BOUND as int,
            ));
            assert(x[2 * i as int] == f@[i as int]@ && x[2 * i + 1] == f@[128 + i]@);
            assert(y[2 * i as int] == g@[i as int]@ && y[2 * i + 1] == g@[128 + i]@);
        }
        let (even, odd) = base_multiply(
            f[i],
            f[128 + i],
            g[i],
            g[128 + i],
            table[i],
            Ghost(gamma(i as int)),
        );
        h[i] = even;
        h[128 + i] = odd;
        i = i + 1;
    }
    proof {
        let z = tq_mul(x, y);
        assert forall|m: int| 0 <= m < 256 implies natural_order(h@)[m] == poly_scale(
            mont_r_inverse(),
            z,
        )[m] by {
            let k = m / 2;
            if m % 2 == 0 {
                assert(2 * k == m);
                assert(h@[k]@ == natural_order(h@)[m]);
                let w = x[m] * y[m] + gamma(k) * (x[m + 1] * y[m + 1]);
                lemma_residue_mul(mont_r_inverse(), mont_r_inverse(), w, residue(w));
            } else {
                assert(2 * (128 + k) - 256 == m - 1);
                assert(h@[128 + k]@ == natural_order(h@)[m]);
                let w = x[m - 1] * y[m] + x[m] * y[m - 1];
                lemma_residue_mul(mont_r_inverse(), mont_r_inverse(), w, residue(w));
            }
        }
        assert(natural_order(h@) =~= poly_scale(mont_r_inverse(), z));
    }
    h
}

/// Exact sums of coefficient products, not yet reduced: one for each pair of
/// coefficients of degree zero and one for each of degree one.
pub struct ProductAccumulator {
    even: [i32; 128],
    odd: [i32; 128],
}

/// How much one product adds to an accumulator at most: twice `4993^2`.
spec fn product_step() -> int {
    49_860_098
}

/// Whether `cache` holds the odd half of `g` times the moduli.
pub open spec fn caches_odd_half(cache: Seq<FieldElement>, g: Seq<FieldElement>) -> bool {
    forall|i: int| 0 <= i < 128 ==> (#[trigger] cache[i])@ == residue(gamma(i) * g[128 + i]@)
}

impl ProductAccumulator {
    /// The sums, in natural coefficient order.
    pub closed spec fn sum(self, m: int) -> int {
        if m % 2 == 0 {
            self.even@[m / 2] as int
        } else {
            self.odd@[m / 2] as int
        }
    }

    /// Whether at most `count` products have been added up.
    pub closed spec fn holds(self, count: int) -> bool {
        forall|m: int| 0 <= m < 256 ==> within(#[trigger] self.sum(m), count * product_step())
    }

    /// An accumulator that holds some products holds no more than a larger
    /// number of them.
    pub(crate) proof fn lemma_holds_more(&self, count: int, more: int)
        requires
            self.holds(count),
            count <= more,
        ensures
            self.holds(more),
    {
    }

    /// The empty accumulator.
    pub(crate) fn new() -> (r: Self)
        ensures
            r.holds(0),
            forall|m: int| 0 <= m < 256 ==> #[trigger] r.sum(m) == 0,
    {
        ProductAccumulator { even: [0; 128], odd: [0; 128] }
    }

    /// Adds the raw products of the halves of `f` and `g`, with `cache` in the
    /// place of the odd half of `g` times the moduli; nothing is reduced.
    ///
    /// Where that is what `cache` holds, the product of `f` and `g` in the
    /// transform domain is added, modulo `q`.
    pub(crate) fn accumulate(
        &mut self,
        f: &[FieldElement; 256],
        g: &[FieldElement; 256],
        cache: &[FieldElement; 128],
        Ghost(count): Ghost<int>,
    )
        requires
            0 <= count < 4,
            old(self).holds(count),
            all_bounded(f@, MUL_BOUND as int),
            all_bounded(g@, MUL_BOUND as int),
            all_bounded(cache@, MUL_BOUND as int),
        ensures
            final(self).holds(count + 1),
            forall|i: int|
                #![trigger cache@[i]]
                0 <= i < 128 ==> final(self).sum(2 * i) == old(self).sum(2 * i) + f@[i].rep()
                    * g@[i].rep() + f@[128 + i].rep() * cache@[i].rep(),
            forall|i: int|
                #![trigger f@[i]]
                0 <= i < 128 ==> final(self).sum(2 * i + 1) == old(self).sum(2 * i + 1)
                    + f@[i].rep() * g@[128 + i].rep() + f@[128 + i].rep() * g@[i].rep(),
            caches_odd_half(cache@, g@) ==> forall|m: int|
                0 <= m < 256 ==> residue(#[trigger] final(self).sum(m)) == residue(
                    old(self).sum(m) + tq_mul(natural_order(f@), natural_order(g@))[m],
                ),
    {
        let ghost o = *self;
        let mut i: usize = 0;
        while i < 128
            invariant
                i <= 128,
                0 <= count < 4,
                o.holds(count),
                all_bounded(f@, MUL_BOUND as int),
                all_bounded(g@, MUL_BOUND as int),
                all_bounded(cache@, MUL_BOUND as int),
                forall|m: int| 2 * i <= m < 256 ==> #[trigger] self.sum(m) == o.sum(m),
                forall|m: int|
                    0 <= m < 2 * i ==> within(
                        #[trigger] self.sum(m),
                        (count + 1) * product_step(),
                    ),
                forall|k: int|
                    #![trigger cache@[k]]
                    0 <= k < i ==> self.sum(2 * k) == o.sum(2 * k) + f@[k].rep() * g@[k].rep()
                        + f@[128 + k].rep() * cache@[k].rep(),
                forall|k: int|
                    #![trigger f@[k]]
                    0 <= k < i ==> self.sum(2 * k + 1) == o.sum(2 * k + 1) + f@[k].rep()
                        * g@[128 + k].rep() + f@[128 + k].rep() * g@[k].rep(),
            decreases 128 - i,
        {
            let (fe, fo) = (f[i], f[128 + i]);
            let (ge, go) = (g[i], g[128 + i]);
            let c: FieldElement = cache[i];
            let ghost before = *self;
            proof {
                assert(f@[i as int].bounded(4993) && f@[128 + i].bounded(4993));
                assert(g@[i as int].bounded(4993) && g@[128 + i].bounded(4993));
                assert(cache@[i as int].bounded(4993));
                lemma_product_bound(fe.rep(), 4993, ge.rep(), 4993);
                lemma_product_bound(fo.rep(), 4993, c.rep(), 4993);
                lemma_product_bound(fe.rep(), 4993, go.rep(), 4993);
                lemma_product_bound(fo.rep(), 4993, ge.rep(), 4993);
                assert(self.sum(2 * i as int) == self.even@[i as int]);
                assert(self.sum(2 * i + 1) == self.odd@[i as int]);
                assert(within(o.sum(2 * i as int), count * product_step()));
                assert(within(o.sum(2 * i + 1), count * product_step()));
            }
            let even: i32 = fe.widening_mul(ge) + fo.widening_mul(c);
            let odd: i32 = fe.widening_mul(go) + fo.widening_mul(ge);
            self.even[i] = self.even[i] + even;
            self.odd[i] = self.odd[i] + odd;
            proof {
                assert(self.sum(2 * i as int) == o.sum(2 * i as int) + even);
                assert(self.sum(2 * i + 1) == o.sum(2 * i + 1) + odd);
                assert forall|m: int| 0 <= m < 256 && m / 2 != i implies #[trigger] self.sum(m)
                    == before.sum(m) by {}
            }
            i = i + 1;
        }
        proof {
            if caches_odd_half(cache@, g@) {
                let z = tq_mul(natural_order(f@), natural_order(g@));
                assert forall|m: int| 0 <= m < 256 implies residue(#[trigger] self.sum(m))
                    == residue(o.sum(m) + z[m]) by {
                    lemma_accumulated(o, *self, f@, g@, cache@, m / 2);
                }
            }
        }
    }

    /// Reduces every sum once, yielding halves scaled by `R^-1`.
    pub(crate) fn reduce(&self) -> (h: [FieldElement; 256])
        requires
            self.holds(4),
        ensures
            forall|m: int|
                0 <= m < 256 ==> #[trigger] natural_order(h@)[m] == residue(
                    self.sum(m) * mont_r_inverse(),
                ),
            all_bounded(h@, 4708),
    {
        let mut h: [FieldElement; 256] = [FieldElement::zero(); 256];
        let mut i: usize = 0;
        while i < 128
            invariant
                i <= 128,
                self.holds(4),
                forall|m: int|
                    0 <= m < 2 * i ==> #[trigger] natural_order(h@)[m] == residue(
                        self.sum(m) * mont_r_inverse(),
                    ),
                all_bounded(h@, 4708),
            decreases 128 - i,
        {
            let ghost before = natural_order(h@);
            proof {
                assert(within(self.sum(2 * i as int), 4 * product_step()));
                assert(within(self.sum(2 * i + 1), 4 * product_step()));
            }
            let even: FieldElement = FieldElement::from_product_sum(self.even[i]);
            let odd: FieldElement = FieldElement::from_product_sum(self.odd[i]);
            proof {
                assert(even.bounded(3044int + 1664) && odd.bounded(3044int + 1664));
            }
            h[i] = even;
            h[128 + i] = odd;
            proof {
                assert forall|m: int| 0 <= m < 2 * i implies #[trigger] natural_order(h@)[m]
                    == before[m] by {}
            }
            i = i + 1;
        }
        h
    }
}

/// The products of a pair of coefficients, by their residues.
proof fn lemma_pair_products(
    fe: FieldElement,
    fo: FieldElement,
    ge: FieldElement,
    go: FieldElement,
    c: FieldElement,
    g: int,
)
    requires
        c@ == residue(g * go@),
    ensures
        residue(fe.rep() * ge.rep() + fo.rep() * c.rep()) == residue(
            fe@ * ge@ + g * (fo@ * go@),
        ),
        residue(fe.rep() * go.rep() + fo.rep() * ge.rep()) == residue(fe@ * go@ + fo@ * ge@),
{
    lemma_residue_mul(fe.rep(), fe@, ge.rep(), ge@);
    lemma_residue_mul(fo.rep(), fo@, c.rep(), g * go@);
    let (a, b) = (fo@, go@);
    assert(a * (g * b) == g * (a * b)) by (nonlinear_arith);
    lemma_residue_add(fe.rep() * ge.rep(), fe@ * ge@, fo.rep() * c.rep(), g * (a * b));
    lemma_residue_mul(fe.rep(), fe@, go.rep(), go@);
    lemma_residue_mul(fo.rep(), fo@, ge.rep(), ge@);
    lemma_residue_add(fe.rep() * go.rep(), fe@ * go@, fo.rep() * ge.rep(), fo@ * ge@);
}

/// What a pair of raw products adds to the sums, modulo `q`.
proof fn lemma_accumulated(
    o: ProductAccumulator,
    s: ProductAccumulator,
    f: Seq<FieldElement>,
    g: Seq<FieldElement>,
    cache: Seq<FieldElement>,
    i: int,
)
    requires
        0 <= i < 128,
        f.len() == 256,
        g.len() == 256,
        cache[i]@ == residue(gamma(i) * g[128 + i]@),
        s.sum(2 * i) == o.sum(2 * i) + f[i].rep() * g[i].rep() + f[128 + i].rep() * cache[i].rep(),
        s.sum(2 * i + 1) == o.sum(2 * i + 1) + f[i].rep() * g[128 + i].rep() + f[128 + i].rep()
            * g[i].rep(),
    ensures
        ({
            let z = tq_mul(natural_order(f), natural_order(g));
            &&& residue(s.sum(2 * i)) == residue(o.sum(2 * i) + z[2 * i])
            &&& residue(s.sum(2 * i + 1)) == residue(o.sum(2 * i + 1) + z[2 * i + 1])
        }),
{
    let z = tq_mul(natural_order(f), natural_order(g));
    let (fe, fo, ge, go, c) = (f[i], f[128 + i], g[i], g[128 + i], cache[i]);
    let (even, odd) = (o.sum(2 * i), o.sum(2 * i + 1));
    lemma_pair_products(fe, fo, ge, go, c, gamma(i));
    assert(z[2 * i] == residue(fe@ * ge@ + gamma(i) * (fo@ * go@)));
    assert(z[2 * i + 1] == residue(fe@ * go@ + fo@ * ge@));
    lemma_residue_add(even, even, fe.rep() * ge.rep() + fo.rep() * c.rep(), z[2 * i]);
    lemma_residue_add(odd, odd, fe.rep() * go.rep() + fo.rep() * ge.rep(), z[2 * i + 1]);
}

/// A list of zeros.
pub(crate) fn zeros() -> (r: [FieldElement; 256])
    ensures
        forall|i: int| 0 <= i < 256 ==> (#[trigger] r@[i]).rep() == 0,
{
    let mut r: [FieldElement; 256] = [FieldElement::zero(); 256];
    let mut i: usize = 0;
    while i < 256
        invariant
            i <= 256,
            forall|k: int| 0 <= k < i ==> (#[trigger] r@[k]).rep() == 0,
        decreases 256 - i,
    {
        r[i] = FieldElement::zero();
        i = i + 1;
    }
    r
}

} // verus!
