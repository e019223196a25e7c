//! The deterministic random bit generator.

use mlkem_selkie::drbg::big_endian::{add_be_slice, add_be_u8, be_bytes};
use mlkem_selkie::drbg::{
    DrbgFor, DrbgHash, HashDrbgSha3_256, HashDrbgSha3_384, HashDrbgSha3_512, Sha3_256Hash,
};
use mlkem_selkie::EntropyUnavailable;

/// The same entropy gives the same stream.
#[test]
fn same_entropy_produces_same_stream() {
    let entropy = [0xA5u8; 24];
    let mut a = HashDrbgSha3_256::new(&entropy);
    let mut b = HashDrbgSha3_256::new(&entropy);

    let mut a_buf = [0u8; 128];
    let mut b_buf = [0u8; 128];
    a.fill_bytes(&mut a_buf);
    b.fill_bytes(&mut b_buf);

    assert_eq!(a_buf, b_buf);
}

/// Other entropy gives another stream.
#[test]
fn different_entropy_diverges() {
    let mut a = HashDrbgSha3_256::new(&[0x00u8; 24]);
    let mut b = HashDrbgSha3_256::new(&[0xFFu8; 24]);

    let mut a_buf = [0u8; 128];
    let mut b_buf = [0u8; 128];
    a.fill_bytes(&mut a_buf);
    b.fill_bytes(&mut b_buf);

    assert_ne!(a_buf, b_buf);
}

/// Outputs of less than a block, of a block, and of several blocks are filled.
#[test]
fn covers_partial_full_and_multiblock_output_sizes() {
    let entropy = [0x11u8; 24];
    for &len in &[1usize, 16, 32, 33, 128, 512] {
        let mut drbg = HashDrbgSha3_256::new(&entropy);
        let mut buf = vec![0u8; len];
        drbg.fill_bytes(&mut buf);
        assert!(
            buf.iter().any(|&b| b != 0),
            "output is all-zero at len={len}"
        );
    }
}

/// The three strengths give distinct streams.
#[test]
fn all_three_strengths_produce_distinct_streams() {
    let entropy = [0x77u8; 48];

    let mut buf_256 = [0u8; 64];
    HashDrbgSha3_256::new(&entropy[..24]).fill_bytes(&mut buf_256);

    let mut buf_384 = [0u8; 64];
    HashDrbgSha3_384::new(&entropy[..36]).fill_bytes(&mut buf_384);

    let mut buf_512 = [0u8; 64];
    HashDrbgSha3_512::new(&entropy).fill_bytes(&mut buf_512);

    assert_ne!(buf_256, buf_384);
    assert_ne!(buf_384, buf_512);
    assert_ne!(buf_256, buf_512);
}

/// The other ways to ask for bytes are deterministic too.
#[test]
fn rng_core_helpers_are_deterministic_from_seed() {
    let entropy = [0xC3u8; 48];

    let mut a = HashDrbgSha3_512::new(&entropy);
    let mut b = HashDrbgSha3_512::new(&entropy);

    assert_eq!(a.next_u32(), b.next_u32());
    assert_eq!(a.next_u64(), b.next_u64());

    let mut a_buf = [0u8; 20];
    let mut b_buf = [0u8; 20];
    a.try_fill_bytes(&mut a_buf)
        .expect("try_fill_bytes is infallible for HashDrbg");
    b.try_fill_bytes(&mut b_buf)
        .expect("try_fill_bytes is infallible for HashDrbg");
    assert_eq!(a_buf, b_buf);
}

/// A carry crosses the boundary of a byte.
#[test]
fn add_be_u8_propagates_carry_across_boundary() {
    let mut v = [0u8; 4];
    v[3] = 0xFF;
    add_be_u8(&mut v, 1);
    assert_eq!(v, [0, 0, 1, 0]);

    let mut v = [0u8; 3];
    v[2] = 0xFF;
    v[1] = 0xFF;
    add_be_u8(&mut v, 1);
    assert_eq!(v, [1, 0, 0]);
}

/// Additions wrap, and ignore what does not fit.
#[test]
fn big_endian_addition() {
    let mut v = [0xFFu8; 3];
    add_be_u8(&mut v, 1);
    assert_eq!(v, [0, 0, 0]);
    add_be_u8(&mut v, 0);
    assert_eq!(v, [0, 0, 0]);

    let mut v = [1u8, 2, 3];
    add_be_slice(&mut v, &[0xFF]);
    assert_eq!(v, [1, 3, 2]);
    add_be_slice(&mut v, &[9, 0xFF, 0xFF, 0xFF]);
    assert_eq!(v, [1, 3, 1]);
    add_be_slice(&mut v, &[]);
    assert_eq!(v, [1, 3, 1]);

    assert_eq!(be_bytes::<4>(0x0102_0304), [1, 2, 3, 4]);
    assert_eq!(be_bytes::<2>(0x0102_0304), [3, 4]);
}

fn digest(data: &[u8]) -> [u8; 32] {
    let mut out = [0u8; 32];
    Sha3_256Hash::hash(&mut out, data);
    out
}

/// The first bytes follow from the digests of the state.
#[test]
fn stream_follows_from_digests() {
    // The digest of nothing.
    assert_eq!(
        digest(&[])[..8],
        [0xa7, 0xff, 0xc6, 0xf8, 0xbf, 0x1e, 0xd7, 0x66]
    );

    let entropy = [0x3Cu8; 24];
    let derive = |input: &[u8]| {
        let mut state = Vec::new();
        for counter in 1..=2u8 {
            let mut block = vec![counter, 0, 0, 1, 0xB8];
            block.extend_from_slice(input);
            state.extend_from_slice(&digest(&block));
        }
        state.truncate(55);
        state
    };
    let v = derive(&entropy);

    let mut expected = digest(&v).to_vec();
    let mut next: [u8; 55] = v.clone().try_into().unwrap();
    add_be_u8(&mut next, 1);
    expected.extend_from_slice(&digest(&next));

    let mut drbg = HashDrbgSha3_256::new(&entropy);
    let mut first = [0u8; 40];
    drbg.fill_bytes(&mut first);
    assert_eq!(&first, &expected[..40]);

    let mut prefixed = vec![0u8];
    prefixed.extend_from_slice(&v);
    let c = derive(&prefixed);
    prefixed[0] = 3;
    let mut state: [u8; 55] = v.try_into().unwrap();
    add_be_slice(&mut state, &digest(&prefixed));
    add_be_slice(&mut state, &c);
    add_be_slice(&mut state, &[1]);
    let second = drbg.next_u32();
    assert_eq!(second.to_le_bytes(), digest(&state)[..4]);
}

/// Integers hold the first bytes, the least significant one first.
#[test]
fn integers_are_little_endian() {
    let entropy = [0x21u8; 48];
    let mut bytes = [0u8; 8];
    HashDrbgSha3_512::new(&entropy).fill_bytes(&mut bytes);
    assert_eq!(
        HashDrbgSha3_512::new(&entropy).next_u64(),
        u64::from_le_bytes(bytes)
    );
}

/// Generators draw fresh entropy.
#[test]
fn fill_from_os_is_fresh() {
    fn check<D: DrbgFor>() {
        let (mut a, mut b) = ([0u8; 32], [0u8; 32]);
        D::fill_from_os(&mut a).expect("entropy");
        D::fill_from_os(&mut b).expect("entropy");
        assert_ne!(a, b);
    }
    check::<HashDrbgSha3_256>();
    check::<HashDrbgSha3_384>();
    check::<HashDrbgSha3_512>();
}

/// Nothing of the entropy is left in a cleared generator.
#[test]
fn cleared_generators_agree() {
    let mut a = HashDrbgSha3_384::new(&[1u8; 36]);
    let mut b = HashDrbgSha3_384::new(&[2u8; 36]);
    a.next_u64();
    a.zeroize();
    b.zeroize();

    let mut a_buf = [0u8; 64];
    let mut b_buf = [0u8; 64];
    a.fill_bytes(&mut a_buf);
    b.fill_bytes(&mut b_buf);

    assert_eq!(a_buf, b_buf);
}

/// Drawn entropy decides what a list is filled with, and a failure leaves it.
#[test]
fn drawn_entropy_decides() {
    let mut filled = [0u8; 100];
    assert_eq!(HashDrbgSha3_256::fill_drawn(Ok(()), &[4u8; 24], &mut filled), Ok(()));
    let mut expected = [0u8; 100];
    HashDrbgSha3_256::new(&[4u8; 24]).fill_bytes(&mut expected);
    assert_eq!(filled, expected);

    let mut left = [5u8; 100];
    assert_eq!(
        HashDrbgSha3_256::fill_drawn(Err(EntropyUnavailable), &[4u8; 24], &mut left),
        Err(EntropyUnavailable)
    );
    assert_eq!(left, [5u8; 100]);
}
