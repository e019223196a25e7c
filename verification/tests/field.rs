//! Prime-field arithmetic.

use mlkem_selkie::algebraic::FieldElement;
use mlkem_selkie::parameters::Q;

/// Field subtraction is the additive inverse of addition.
#[test]
fn field_add_sub_roundtrip() {
    for a in 0..Q {
        for b in (0..Q).step_by(97) {
            let (a, b) = (FieldElement::new(a), FieldElement::new(b));

            assert_eq!((a + b) - b, a);
        }
    }
}

/// Negation followed by addition yields zero.
#[test]
fn field_neg_is_additive_inverse() {
    for a in (0..Q).step_by(13) {
        let a = FieldElement::new(a);

        assert_eq!(a + (-a), FieldElement::zero());
    }
}

/// `decompress` then `compress` is the identity on `d`-bit values.
#[test]
fn compress_decompress_roundtrip() {
    for &d in &[1usize, 4, 5, 10, 11] {
        for y in 0..(1u16 << d) {
            let decompressed = FieldElement::decompress(y, d);

            assert_eq!(decompressed.compress(d), y, "d = {d}, y = {y}");
        }
    }
}

/// `new` agrees with the remainder for every input.
#[test]
fn new_matches_mod_q() {
    for value in 0u16..=u16::MAX {
        let oracle = value % Q;
        let actual = FieldElement::new(value).value();

        assert_eq!(actual, oracle, "value = {value}");
    }
}

/// `compress` agrees with a division for every value and width.
#[test]
fn compress_matches_textbook_division() {
    for d in 1usize..=12 {
        let mask = (1u32 << d) - 1;
        for value in 0..Q {
            let element = FieldElement::new(value);
            let actual = element.compress(d);

            let numerator = (u32::from(value) << d) + u32::from(Q / 2);
            let textbook_quotient = numerator / u32::from(Q);
            let oracle = (textbook_quotient & mask) as u16;

            assert_eq!(actual, oracle, "d = {d}, value = {value}");
        }
    }
}

/// Equality distinguishes elements that are not congruent.
#[test]
fn partial_eq_distinguishes_and_agrees() {
    let zero = FieldElement::zero();
    let one = FieldElement::from(1u8);

    assert_ne!(zero, one);
    assert_eq!(zero, FieldElement::zero());
    assert_eq!(one, FieldElement::from(1u8));

    // Two representatives of the same class compare equal.
    assert_eq!(FieldElement::new(0), FieldElement::new(Q));

    for v in 0..Q {
        let a = FieldElement::new(v);
        let b = FieldElement::new((v + 1) % Q);

        assert_eq!(a, a);
        assert_ne!(a, b);
    }
}

/// The conversions agree with `new` and `value`.
#[test]
fn from_u8_and_to_u16_roundtrip() {
    for raw in 0u16..=u16::from(u8::MAX) {
        let from_u8 = FieldElement::from(raw as u8);
        let from_u16 = FieldElement::from(raw);

        assert_eq!(from_u8, from_u16);
        assert_eq!(u16::from(from_u16), raw % Q);
    }
}

/// `montgomery_table` agrees with `to_montgomery` element by element.
#[test]
fn montgomery_table_matches_element_wise() {
    let raw: [u16; 128] = core::array::from_fn(|i| ((i as u16).wrapping_mul(57) + 11) % Q);

    let table = FieldElement::montgomery_table(raw);

    for (i, (entry, source)) in table.iter().zip(raw.iter()).enumerate() {
        assert_eq!(
            *entry,
            FieldElement::new(*source).to_montgomery(),
            "i = {i}"
        );
    }
}

/// Reduction is total on sixteen bits.
#[test]
fn field_element_boundary_values_no_overflow() {
    let q = Q as i16;
    let boundary = [
        i16::MIN,
        i16::MIN + 1,
        i16::MIN / 2,
        -q - 1,
        -q,
        -q + 1,
        -1,
        0,
        1,
        q - 1,
        q,
        q + 1,
        i16::MAX / 2,
        i16::MAX - 1,
        i16::MAX,
    ];
    for &raw in &boundary {
        let fe = FieldElement::from_montgomery_table(raw);
        let canonical = fe.value();

        assert!(
            u32::from(canonical) < u32::from(Q),
            "value = {canonical} not in [0, Q) for raw = {raw}",
        );
        assert_eq!(
            fe.reduce().reduce(),
            fe.reduce(),
            "reduce not idempotent at raw = {raw}",
        );
    }
}

/// Multiplication by a constant with its quotient agrees with the remainder of
/// the product.
#[test]
fn barrett_const_mul_matches_reference() {
    let q = i32::from(Q);
    for a in (-4 * Q as i16..=4 * Q as i16).step_by(31) {
        for b in (0..Q).step_by(29) {
            let b_bar = ((u32::from(b) * 32_768 + u32::from(Q) / 2) / u32::from(Q)) as i16;

            let got = FieldElement::from_montgomery_table(a)
                .barrett_const_mul(b as i16, b_bar)
                .reduce()
                .value();

            let want = (i32::from(a) * i32::from(b)).rem_euclid(q) as u16;

            assert_eq!(got, want, "a = {a}, b = {b}");
        }
    }
}

/// Multiplication commutes, distributes over addition, and subtraction is the
/// addition of the negation.
#[test]
fn field_laws() {
    let fe = FieldElement::new;
    for a in (0..Q).step_by(101) {
        for b in (0..Q).step_by(103) {
            assert_eq!(fe(a) * fe(b), fe(b) * fe(a));
            assert_eq!(fe(a) - fe(b), fe(a) + (-fe(b)));
            for c in (0..Q).step_by(107) {
                assert_eq!(
                    fe(a) * (fe(b) + fe(c)),
                    fe(a) * fe(b) + fe(a) * fe(c)
                );
            }
        }
    }
}

/// Exact values of the formulas.
#[test]
fn known_values() {
    // R = 2^16 is 2285 modulo q, and its inverse is 169.
    assert_eq!(FieldElement::new(1).to_montgomery().value(), 2285);
    assert_eq!((FieldElement::new(1) * FieldElement::new(1)).value(), 169);
    assert_eq!(FieldElement::new(1000).mul_reference(FieldElement::new(1000)).value(), 1300);
    // The halfway points of one-bit compression.
    assert_eq!(FieldElement::new(832).compress(1), 0);
    assert_eq!(FieldElement::new(833).compress(1), 1);
    assert_eq!(FieldElement::new(2496).compress(1), 1);
    assert_eq!(FieldElement::new(2497).compress(1), 0);
    assert_eq!(FieldElement::decompress(1, 1).value(), 1665);
    assert_eq!(FieldElement::decompress(1023, 10).value(), 3326);
    let mut e = FieldElement::new(7);
    e.zeroize();
    assert_eq!(e.value(), 0);
}

/// Compression moves a value by at most the integer nearest to `q / 2^(d + 1)`.
#[test]
fn compression_error_is_small() {
    let mut largest = Vec::new();
    for d in 1..=11 {
        let moved = (0..3329u16).map(|x| {
            let y = FieldElement::decompress(FieldElement::new(x).compress(d), d).value();
            let distance = x.abs_diff(y);
            distance.min(3329 - distance)
        });
        largest.push(moved.max().unwrap());
    }

    let bounds = [832, 416, 208, 104, 52, 26, 13, 7, 3, 2, 1];
    assert!(largest.iter().zip(bounds).all(|(&e, b)| e <= b), "{largest:?}");
    assert_eq!(largest[0], 832);
    assert_eq!(largest[9], 2);
}
