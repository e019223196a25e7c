//! The polynomial rings and the transform.

use core::array;

use mlkem_selkie::algebraic::kernels::gamma_mont;
use mlkem_selkie::algebraic::zetas::{ZETA_BARRETT, ZETA_RAW};
use mlkem_selkie::algebraic::{
    FieldElement, PolynomialRingElement, RqElement, TqElement, TqMulCache,
};
use mlkem_selkie::parameters::{N, Q};

/// Reverses the low 7 bits of an integer.
fn bit_rev_7(i: u8) -> u8 {
    let mut reversed: u8 = 0;

    for bit in 0..7 {
        reversed <<= 1;
        reversed |= (i >> bit) & 1;
    }

    reversed
}

/// `bit_rev_7` reverses the low 7 bits of its input.
#[test]
fn bit_rev_7_known_values() {
    assert_eq!(bit_rev_7(0), 0);
    assert_eq!(bit_rev_7(1), 64);
    assert_eq!(bit_rev_7(64), 1);
    assert_eq!(bit_rev_7(127), 127);
    assert_eq!(bit_rev_7(3), 96);
}

/// The table of roots holds the powers of 17 in bit-reversed order.
#[test]
fn zeta_table_is_bit_reversed() {
    for (k, &zeta) in ZETA_RAW.iter().enumerate() {
        let mut power = 1u32;
        for _ in 0..bit_rev_7(k as u8) {
            power = power * 17 % u32::from(Q);
        }
        assert_eq!(u32::from(zeta), power, "k = {k}");
    }
}

/// Every quotient of the table of roots is the nearest one.
#[test]
fn tests_zeta_barrett_matches_reference() {
    let q: u32 = Q as u32;
    let pairs = ZETA_RAW.iter().zip(ZETA_BARRETT.iter());

    for (i, (&zeta, &bar)) in pairs.enumerate() {
        let zeta_u = u32::from(zeta);
        let reference = ((zeta_u * 32_768 + q / 2) / q) as i16;

        assert_eq!(
            bar, reference,
            "ZETA_BARRETT[{i}] mismatch: got {bar}, expected {reference} (zeta={zeta})",
        );
    }
}

/// The inverse transform of a transform is the element times `R`.
#[test]
fn ntt_round_trip_scales_by_montgomery_r() {
    let coeffs = array::from_fn(|i| FieldElement::new((7 * i as u16 + 1) % Q));
    let f = RqElement::new(coeffs);

    let expected = RqElement::new(coeffs.map(FieldElement::to_montgomery));

    assert_eq!(f.ntt().ntt_inverse(), expected);
}

/// Multiplication in the transform domain agrees with schoolbook
/// multiplication modulo `X^256 + 1`.
#[test]
fn ntt_multiplication_matches_schoolbook() {
    let f_coeffs = array::from_fn(|i| FieldElement::new((i as u16) % Q));
    let g_coeffs = array::from_fn(|i| FieldElement::new((2 * i as u16 + 3) % Q));
    let f = RqElement::new(f_coeffs);
    let g = RqElement::new(g_coeffs);

    let via_ntt = (f.ntt() * g.ntt()).ntt_inverse();

    assert_eq!(via_ntt, schoolbook_multiply(f, g));
}

/// A cache holds the products of the odd coefficients with the moduli.
#[test]
fn mul_cache_matches_definition() {
    let g = TqElement::new(array::from_fn(|i| {
        FieldElement::new((5 * i as u16 + 2) % Q)
    }));

    let cache = g.mul_cache();

    for (i, (entry, &gamma)) in cache.entries().iter().zip(gamma_mont().iter()).enumerate() {
        assert_eq!(entry.value(), (g[2 * i + 1] * gamma).value());
    }
}

/// An accumulated dot product agrees with the sum of the products.
#[test]
fn accumulated_dot_matches_componentwise_sum() {
    let f: [TqElement; 4] = array::from_fn(|j| {
        TqElement::new(array::from_fn(|i| {
            FieldElement::new((3 * i as u16 + 7 * j as u16 + 1) % Q)
        }))
    });
    let g: [TqElement; 4] = array::from_fn(|j| {
        TqElement::new(array::from_fn(|i| {
            FieldElement::new((11 * i as u16 + 13 * j as u16 + 5) % Q)
        }))
    });
    let caches = array::from_fn::<_, 4, _>(|j| g[j].mul_cache());

    for k in 1..=4 {
        let accumulated = TqElement::accumulated_dot(&f[..k], &g[..k], &caches[..k]);

        let mut componentwise = TqElement::zero();
        for j in 0..k {
            componentwise.add_assign(&(&f[j] * &g[j]));
        }

        assert_eq!(accumulated, componentwise, "dot length {k}");
    }
}

/// Reference multiplication modulo `X^256 + 1`.
fn schoolbook_multiply(f: RqElement, g: RqElement) -> RqElement {
    let mut result = [FieldElement::zero(); N];

    for i in 0..N {
        for j in 0..N {
            let product = f[i].mul_reference(g[j]);
            let k = i + j;

            if k < N {
                result[k] = (result[k] + product).reduce();
            } else {
                result[k - N] = (result[k - N] - product).reduce();
            }
        }
    }

    RqElement::new(result)
}

/// An element of the transform domain presents its coefficients in natural
/// order.
#[test]
fn tq_split_storage_preserves_natural_order_semantics() {
    let natural: [FieldElement; N] =
        array::from_fn(|i| FieldElement::new((13 * i as u16 + 7) % Q));

    let tq = TqElement::new(natural);

    assert_eq!(tq.coefficients(), natural);
    for (i, &expected) in natural.iter().enumerate() {
        assert_eq!(tq[i], expected, "index {i}");
    }
}

/// Clearing leaves zeros, and the default is zero.
#[test]
fn zeroize_and_default_are_zero() {
    let mut f = RqElement::new(array::from_fn(|i| FieldElement::new(i as u16 + 1)));
    f.zeroize();
    assert_eq!(f, RqElement::default());
    assert_eq!(
        RqElement::default().coefficients(),
        [FieldElement::zero(); N]
    );

    let mut g = TqElement::new(array::from_fn(|i| FieldElement::new(i as u16 + 1)));
    let mut cache = g.mul_cache();
    g.zeroize();
    assert_eq!(g, TqElement::default());
    assert_eq!(
        TqElement::default().coefficients(),
        [FieldElement::zero(); N]
    );

    cache.zeroize();
    assert_eq!(cache, TqMulCache::default());
}

/// Adding values agrees with adding in place.
#[test]
fn value_add_matches_assign() {
    let f = TqElement::new(array::from_fn(|i| FieldElement::new(i as u16)));
    let g = TqElement::new(array::from_fn(|i| FieldElement::new(2 * i as u16 + 1)));

    let mut assigned = f.clone();
    assigned.add_assign(&g);

    assert_eq!(f + g, assigned);
}

/// The transform of the constant one has ones at the even positions.
#[test]
fn transform_of_one() {
    let mut coeffs = [FieldElement::zero(); N];
    coeffs[0] = FieldElement::new(1);
    let t = RqElement::new(coeffs).ntt();
    for i in 0..N {
        assert_eq!(t[i].value(), if i % 2 == 0 { 1 } else { 0 });
    }
}

/// Products in the transform domain commute, associate and distribute.
#[test]
fn transform_domain_ring_laws() {
    let element = |a: u16, b: u16| {
        TqElement::new(array::from_fn(|i| FieldElement::new((a * i as u16 + b) % Q)))
    };
    let (f, g, h) = (element(3, 1), element(5, 2), element(7, 4));

    assert_eq!(&f * &g, &g * &f);
    assert_eq!(
        &(f.clone() + g.clone()) * &h,
        (&f * &h) + (&g * &h)
    );
    assert_eq!(&(&f * &g) * &h, &f * &(&g * &h));
}

/// Subtracting takes the difference of the coefficients.
#[test]
fn difference_of_elements() {
    let f = RqElement::new(array::from_fn(|i| FieldElement::new(i as u16)));
    let g = RqElement::new(array::from_fn(|_| FieldElement::new(1)));
    let d = f - g;
    assert_eq!(d[0].value(), Q - 1);
    assert_eq!(d[255].value(), 254);
}
