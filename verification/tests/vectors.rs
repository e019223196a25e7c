//! Vectors and matrices.

use core::array;

use mlkem_selkie::algebraic::{
    CachedTqVector, FieldElement, PolynomialRingElement, RqElement, RqVector, TqElement, TqMatrix,
    TqVector,
};
use mlkem_selkie::parameters::{ParameterSet, MLKEM1024, MLKEM512, Q};

/// A dot product is the sum of the products of the components.
#[test]
fn dot_product_matches_componentwise() {
    let mut counter = 0u16;
    let mut next = || {
        let coeffs = array::from_fn(|_| {
            counter = counter.wrapping_add(3);
            FieldElement::new(counter)
        });
        TqElement::new(coeffs)
    };

    let f = TqVector::<MLKEM512>::from_fn(|_| next());
    let g = TqVector::<MLKEM512>::from_fn(|_| next());

    let mut componentwise = TqElement::zero();
    for i in 0..2 {
        componentwise.add_assign(&(&f[i] * &g[i]));
    }

    assert_eq!(&f * &g, componentwise);
}

/// Transposing a matrix twice is the identity.
#[test]
fn matrix_transpose_involution() {
    let mut counter = 0u16;
    let mut next = || {
        let coeffs = core::array::from_fn(|_| {
            counter = counter.wrapping_add(1);
            FieldElement::new(counter)
        });
        TqElement::new(coeffs)
    };

    let rows = (0..MLKEM512::K)
        .map(|_| TqVector::<MLKEM512>::from_vec((0..MLKEM512::K).map(|_| next()).collect()))
        .collect();
    let matrix = TqMatrix::<MLKEM512>::from_rows(rows);

    assert_eq!(matrix.transpose().transpose(), matrix);
    assert_ne!(matrix.transpose(), matrix);
    assert_eq!(matrix.transpose()[0][1], matrix[1][0]);
}

fn element(a: u16, b: u16) -> TqElement {
    TqElement::new(array::from_fn(|i| FieldElement::new((a * i as u16 + b) % Q)))
}

/// Products with and without caches agree.
#[test]
fn cached_products_agree() {
    let a = TqMatrix::<MLKEM1024>::from_fn(|i| {
        TqVector::from_fn(|j| element(3 + i as u16, 7 * j as u16))
    });
    let v = TqVector::<MLKEM1024>::from_fn(|j| element(11, j as u16));
    let cached = CachedTqVector::from(v.clone());

    assert_eq!(&a * &v, &a * &cached);
    assert_eq!(&v * &v, &v * &cached);
    assert_eq!(cached.vector(), &v);
}

/// A matrix moves to the other factor of a dot product by transposing it.
#[test]
fn transposed_dot_product() {
    let a = TqMatrix::<MLKEM512>::from_fn(|i| {
        TqVector::from_fn(|j| element(3 + i as u16, 7 * j as u16 + 1))
    });
    let s = TqVector::<MLKEM512>::from_fn(|j| element(5, j as u16));
    let y = TqVector::<MLKEM512>::from_fn(|j| element(9, 3 * j as u16));

    let product = |m: &TqMatrix<MLKEM512>, v: &TqVector<MLKEM512>| (m * v).to_montgomery();
    assert_eq!(
        &product(&a, &s) * &y,
        &product(&a.transpose(), &y) * &s
    );
}

/// Sums and transforms act on every component.
#[test]
fn componentwise_operations() {
    let f = RqVector::<MLKEM512>::from_fn(|p| {
        RqElement::new(array::from_fn(|i| FieldElement::new((i + p) as u16)))
    });
    let g = RqVector::<MLKEM512>::from_vec(vec![f[1].clone(), f[0].clone()]);
    assert_ne!(f, g);
    let sum = f.clone() + g.clone();
    assert_eq!(sum[0], f[0].clone() + g[0].clone());
    assert_eq!(sum[0], sum[1]);

    let t = f.ntt();
    assert_eq!(t[1], f[1].ntt());
    assert_eq!(t.ntt_inverse()[1], f[1].ntt().ntt_inverse());
    let u = t.clone() + g.ntt();
    assert_eq!(u[0], f[0].ntt() + g[0].ntt());
    assert_eq!(f.as_slice().len(), 2);
    assert_eq!(t.as_slice().len(), 2);
}

/// Cleared vectors hold zeros.
#[test]
fn vectors_are_cleared() {
    let mut v = RqVector::<MLKEM512>::from_fn(|i| {
        RqElement::new(array::from_fn(|j| FieldElement::new((i + j) as u16)))
    });
    v.zeroize();
    assert!((0..2).all(|i| v[i] == RqElement::zero()));

    let mut w = TqVector::<MLKEM512>::from_fn(|_| element(5, 9));
    let mut cached = CachedTqVector::from(w.clone());
    w.zeroize();
    assert!((0..2).all(|i| w[i] == TqElement::zero()));

    cached.zeroize();
    let ones = TqVector::<MLKEM512>::from_fn(|_| element(1, 1));
    assert_eq!(cached.vector(), &w);
    assert_eq!(&ones * &cached, TqElement::zero());
}

/// Products of unreduced vectors agree with those of reduced ones.
#[test]
fn unreduced_products_agree() {
    let small = element(200, 3000);
    let mut large = small.clone();
    large.add_assign(&small);
    large.add_assign(&small);
    let reduced = TqElement::new(array::from_fn(|i| FieldElement::new(large[i].value())));

    let v = TqVector::<MLKEM1024>::from_fn(|_| large.clone());
    let w = TqVector::<MLKEM1024>::from_fn(|_| reduced.clone());
    assert_eq!(&v * &v, &w * &w);

    let a = TqMatrix::<MLKEM1024>::from_fn(|_| v.clone());
    let b = TqMatrix::<MLKEM1024>::from_fn(|_| w.clone());
    assert_eq!(&a * &v, &b * &w);
}
