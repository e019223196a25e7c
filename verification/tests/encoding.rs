//! Serialization and compression.

use mlkem_selkie::algebraic::{
    FieldElement, PolynomialRingElement, RqElement, RqVector, TqElement, TqVector,
};
use mlkem_selkie::encoding::bits::{pack, unpack};
use mlkem_selkie::parameters::{ParameterSet, MLKEM512, N, Q};

/// Packing and unpacking are inverse for every width in use.
#[test]
fn pack_unpack_roundtrip() {
    for &d in &[1usize, 4, 5, 10, 11, 12] {
        let values: [u16; N] = core::array::from_fn(|i| (i as u16) & ((1 << d) - 1));

        let packed: [u8; 384] = pack(&values, d);

        assert!(packed[N * d / 8..].iter().all(|&b| b == 0));
        assert_eq!(unpack(&packed[..N * d / 8], d), values);
    }

    let values: [u16; N] = core::array::from_fn(|i| (i as u16) & 0xFFF);
    let words: [u8; 384] = pack(&values, 12);
    let element = TqElement::new(values.map(FieldElement::new));

    assert_eq!(words.as_slice(), element.byte_encode().as_slice());
}

/// Canonical coefficients survive encoding.
#[test]
fn byte_encode_12_roundtrip() {
    let coeffs = core::array::from_fn(|i| FieldElement::new((31 * i as u16 + 5) % Q));
    let poly = TqElement::new(coeffs);

    let encoded = poly.byte_encode();

    assert_eq!(TqElement::byte_decode(&encoded), poly);
}

/// A value that is not below `q` does not survive decoding and encoding.
#[test]
fn byte_decode_12_reduces_mod_q() {
    let mut values = [0u16; N];
    if let Some(first) = values.first_mut() {
        *first = Q;
    }

    let bytes: [u8; 384] = pack(&values, 12);

    let decoded = TqElement::byte_decode(&bytes);

    assert_ne!(decoded.byte_encode(), bytes);
}

/// A message survives its polynomial.
#[test]
fn message_polynomial_roundtrip() {
    let message: [u8; 32] = core::array::from_fn(|i| (13 * i + 1) as u8);

    let polynomial = RqElement::from_message(&message);

    assert_eq!(polynomial.compress_message(), message);
}

/// A decompressed vector survives compression.
#[test]
fn vector_compress_roundtrip() {
    let d = MLKEM512::D_U;
    let vector = RqVector::<MLKEM512>::from_fn(|p| {
        let coeffs = core::array::from_fn(|i| {
            FieldElement::decompress(((i + p) as u16) & ((1 << d) - 1), d)
        });

        RqElement::new(coeffs)
    });

    let encoded: Vec<u8> = vector.compress_encode(d);

    assert_eq!(RqVector::<MLKEM512>::decode_decompress(&encoded, d), vector);
}

/// A short input is taken to end in zeros.
#[test]
fn unpack_zero_pads_short_input() {
    let values = unpack(&[0xFF; 9], 12);

    assert_eq!(values[4], 0xFFF);
    assert_eq!(values[5], 0xFFF);
    assert_eq!(values[6], 0);
}

/// Values are packed with the least significant bit first.
#[test]
fn packing_order() {
    let mut values = [0u16; N];
    values[0] = 0xABC;
    values[1] = 0x123;
    let packed: [u8; 384] = pack(&values, 12);
    assert_eq!(&packed[..4], &[0xBC, 0x3A, 0x12, 0x00]);
}

/// The bits of a message become zero or half of the modulus.
#[test]
fn message_coefficients() {
    let mut message = [0u8; 32];
    message[0] = 0b0000_0101;
    let p = RqElement::from_message(&message);
    assert_eq!(p[0].value(), 1665);
    assert_eq!(p[1].value(), 0);
    assert_eq!(p[2].value(), 1665);
}

/// The widest serialization of an element ends in zeros.
#[test]
fn compressed_tail_is_zero() {
    let f = RqElement::new(core::array::from_fn(|i| FieldElement::new(13 * i as u16)));
    let encoded = f.compress_encode(4);
    assert!(encoded[128..].iter().all(|&b| b == 0));
    assert_eq!(
        RqElement::decode_decompress(&encoded[..128], 4).compress_encode(4),
        encoded
    );
}

/// Vectors of the transform domain survive encoding.
#[test]
fn vector_encode_roundtrip() {
    let vector = TqVector::<MLKEM512>::from_fn(|p| {
        TqElement::new(core::array::from_fn(|i| {
            FieldElement::new((17 * i as u16 + p as u16) % Q)
        }))
    });
    let encoded = vector.byte_encode();
    assert_eq!(encoded.len(), 768);
    assert_eq!(TqVector::<MLKEM512>::byte_decode(&encoded), vector);

    // A block that is missing is taken for zeros.
    let short = TqVector::<MLKEM512>::byte_decode(&encoded[..384]);
    assert_eq!(short[0], vector[0]);
    assert_eq!(short[1], TqElement::zero());
}
