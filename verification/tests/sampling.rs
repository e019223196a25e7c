//! Sampling of ring elements.

use mlkem_selkie::algebraic::{FieldElement, PolynomialRingElement, RqElement, TqElement};
use mlkem_selkie::functions::{PRF, XOF};
use mlkem_selkie::parameters::{Eta, MLKEM768, N, Q};
use mlkem_selkie::sampling::noise::CbdSampler;
use mlkem_selkie::sampling::reject;

/// All-zero input yields the zero polynomial.
#[test]
fn sample_poly_cbd_zero_input() {
    for eta in [Eta::Two, Eta::Three] {
        let poly = RqElement::sample_cbd(eta, &vec![0u8; 64 * usize::from(eta)]);

        assert_eq!(poly, RqElement::zero());
    }
}

/// Coefficients land between `-eta` and `eta`.
#[test]
fn sample_poly_cbd_range() {
    let eta = Eta::Three;
    let n = usize::from(eta);

    let bytes: Vec<u8> = (0..64 * n).map(|i| (i as u8).wrapping_mul(37)).collect();

    let poly = RqElement::sample_cbd(eta, &bytes);

    for coeff in poly.coefficients() {
        let v = coeff.value();
        let centered = if v <= n as u16 {
            i32::from(v)
        } else {
            i32::from(v) - i32::from(Q)
        };

        assert!(
            (-(n as i32)..=(n as i32)).contains(&centered),
            "coefficient {v} out of CBD range",
        );
    }
}

/// Rejection sampling is deterministic and yields canonical coefficients.
#[test]
fn sample_ntt_deterministic_and_canonical() {
    let a = TqElement::sample_ntt(&[7u8; 32], 7, 7);
    let b = TqElement::sample_ntt(&[7u8; 32], 7, 7);

    assert_eq!(a, b);

    for coeff in a.coefficients() {
        assert!(coeff.value() < Q);
    }
}

/// Rejection sampling keeps the candidates below `q` of the stream, in order.
#[test]
fn sample_ntt_matches_manual_unpack() {
    let rho = [0x42u8; 32];
    let (i, j) = (3u8, 5u8);

    let sampled = TqElement::sample_ntt(&rho, i, j);

    let mut reader = XOF(&rho, i, j);
    let mut expected: Vec<u16> = Vec::with_capacity(N);
    let mut triple = [0u8; 3];
    while expected.len() < N {
        reader.read(&mut triple);

        let d1 = u16::from(triple[0]) | (u16::from(triple[1] & 0x0F) << 8);
        let d2 = (u16::from(triple[1]) >> 4) | (u16::from(triple[2]) << 4);

        if d1 < Q {
            expected.push(d1);
        }
        if d2 < Q && expected.len() < N {
            expected.push(d2);
        }
    }

    for (idx, (got, want)) in sampled
        .coefficients()
        .iter()
        .zip(expected.iter())
        .enumerate()
    {
        assert_eq!(got.value(), *want, "coefficient {idx}");
    }
}

/// Four elements at once are the same as one at a time.
#[test]
fn sample_ntt_x4_matches_serial() {
    let rho = [0x91u8; 32];
    let indices: [(u8, u8); 4] = core::array::from_fn(|k| (k as u8, 2 * k as u8));

    let batched = TqElement::sample_ntt_x4(&rho, indices);

    for (k, (lane, &(i, j))) in batched.iter().zip(indices.iter()).enumerate() {
        let serial = TqElement::sample_ntt(&rho, i, j);
        assert_eq!(*lane, serial, "lane {k}");
    }
}

/// Bytes of ones hold no candidate below `q`.
#[test]
fn reject_all_rejected() {
    let mut buffer = [FieldElement::zero(); N];
    let mut count = 0;

    reject(&[0xFF; 168], &mut buffer, &mut count);

    assert_eq!(count, 0);
}

/// Bytes of zeros hold only candidates below `q`.
#[test]
fn reject_all_accepted() {
    let mut buffer = [FieldElement::zero(); N];
    let mut count = 0;

    reject(&[0u8; 168], &mut buffer, &mut count);

    assert_eq!(count, 112);
}

/// A full buffer takes no more candidates, and the largest residue is kept.
#[test]
fn reject_stops_when_full() {
    let mut buffer = [FieldElement::zero(); N];
    let mut count = 255;

    // 3328 and 3329.
    reject(&[0x00, 0x1D, 0xD0], &mut buffer, &mut count);
    assert_eq!(count, 256);
    assert_eq!(buffer[255].value(), 3328);

    reject(&[0x01, 0x10, 0x00], &mut buffer, &mut count);
    assert_eq!(count, 256);
    assert_eq!(buffer[255].value(), 3328);
}

/// The sums of bits that coefficients are made of.
#[test]
fn binomial_coefficients() {
    let mut bytes = [0u8; 128];
    bytes[0] = 0b1100_0011;
    let p = RqElement::sample_cbd(Eta::Two, &bytes);
    assert_eq!(p[0].value(), 2);
    assert_eq!(p[1].value(), Q - 2);

    let mut bytes = [0u8; 192];
    bytes[0] = 0b0011_1000;
    bytes[1] = 0b0000_0111;
    let p = RqElement::sample_cbd(Eta::Three, &bytes);
    assert_eq!(p[0].value(), Q - 3);
    assert_eq!(p[1].value(), Q - 1);
}

/// A run of samples is made of consecutive streams, whatever the widths of the
/// squeezes.
#[test]
fn sampler_streams_are_consecutive() {
    let seed = [0x5Cu8; 32];
    for count in 1..=9u8 {
        let mut sampler = CbdSampler::new(Eta::Two, &seed, 3, count);
        for i in 0..count {
            let expected = RqElement::sample_cbd(Eta::Two, &PRF(Eta::Two, &seed, 3 + i));
            assert_eq!(sampler.sample_element(), expected, "count {count}, stream {i}");
        }
    }

    let mut sampler = CbdSampler::new(Eta::Three, &seed, 0, 3);
    let vector = sampler.sample_vector::<MLKEM768>();
    for i in 0..3u8 {
        let expected = RqElement::sample_cbd(Eta::Three, &PRF(Eta::Three, &seed, i));
        assert_eq!(vector[i as usize], expected);
    }
}
