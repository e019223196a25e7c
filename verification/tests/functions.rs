//! The symmetric primitives.

use mlkem_selkie::functions::{PRF_x2, PRF_x4, XOF_x4, G, H, J, PRF, XOF};
use mlkem_selkie::parameters::Eta;
use sha3_selkie::Shake128X4;

/// Every stream of a batch of four matches the single stream.
#[test]
fn prf_x4_matches_scalar() {
    let seed = [7u8; 32];

    for eta in [Eta::Two, Eta::Three] {
        for (lane, bytes) in PRF_x4(eta, &seed, 5).lanes().into_iter().enumerate() {
            assert_eq!(
                bytes,
                &*PRF(eta, &seed, 5 + lane as u8),
                "eta {eta:?}, lane {lane}"
            );
        }
    }
}

/// Both streams of a batch of two match the single stream.
#[test]
fn prf_x2_matches_scalar() {
    let seed = [11u8; 32];

    for eta in [Eta::Two, Eta::Three] {
        for (lane, bytes) in PRF_x2(eta, &seed, 200).lanes().into_iter().enumerate() {
            assert_eq!(
                bytes,
                &*PRF(eta, &seed, 200 + lane as u8),
                "eta {eta:?}, lane {lane}"
            );
        }
    }
}

/// The streams of a batch have exactly `64 * eta` bytes.
#[test]
fn prf_batch_lanes_are_exactly_sized() {
    let seed = [3u8; 32];

    for (eta, len) in [(Eta::Two, 128), (Eta::Three, 192)] {
        assert!(PRF_x4(eta, &seed, 0).lanes().iter().all(|l| l.len() == len));
        assert!(PRF_x2(eta, &seed, 0).lanes().iter().all(|l| l.len() == len));
    }
}

/// Every stream of a batch of four matches the single stream, over a squeeze
/// of three blocks and one more.
#[test]
fn xof_x4_matches_scalar() {
    let rho = [0x5Au8; 32];
    let indices = [(0u8, 0u8), (1, 0), (0, 1), (3, 2)];

    let mut state = XOF_x4(&rho, indices);

    let mut first = [[0u8; 3 * Shake128X4::RATE]; 4];
    let [f0, f1, f2, f3] = &mut first;
    state.squeeze([f0, f1, f2, f3]);

    let mut next = [[0u8; Shake128X4::RATE]; 4];
    let [n0, n1, n2, n3] = &mut next;
    state.squeeze([n0, n1, n2, n3]);

    for (lane, ((&(i, j), lane_first), lane_next)) in
        indices.iter().zip(&first).zip(&next).enumerate()
    {
        let mut reader = XOF(&rho, i, j);

        let mut scalar_first = [0u8; 3 * Shake128X4::RATE];
        let mut scalar_next = [0u8; Shake128X4::RATE];
        reader.read(&mut scalar_first);
        reader.read(&mut scalar_next);

        assert_eq!(lane_first, &scalar_first, "lane {lane}");
        assert_eq!(lane_next, &scalar_next, "lane {lane}");
    }
}

/// Digests of the empty input.
#[test]
fn digests_of_nothing() {
    assert_eq!(
        H(&[])[..8],
        [0xa7, 0xff, 0xc6, 0xf8, 0xbf, 0x1e, 0xd7, 0x66]
    );
    let (a, b) = G(&[]);
    assert_eq!(a[..8], [0xa6, 0x9f, 0x73, 0xcc, 0xa2, 0x3a, 0x9a, 0xc5]);
    assert_eq!(b[28..], [0x28, 0x1d, 0xcd, 0x26]);
}

/// The rejection secret is absorbed in two parts, as one list.
#[test]
fn rejection_secret_is_of_the_joined_input() {
    let a = J(&[1u8; 32], &[2u8; 5]);
    let b = J(&[1u8; 32], &[2u8; 6]);
    let c = J(&[3u8; 32], &[2u8; 5]);
    assert_ne!(a, b);
    assert_ne!(a, c);
    assert_eq!(a, J(&[1u8; 32], &[2u8; 5]));
}

/// The domain separator wraps within a batch.
#[test]
fn prf_batch_wraps() {
    let seed = [9u8; 32];
    let batch = PRF_x4(Eta::Two, &seed, 254);
    assert_eq!(batch.lane(2), &*PRF(Eta::Two, &seed, 0));
}
