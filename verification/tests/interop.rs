//! Agreement with another library on keys, ciphertexts and secrets.
//!
//! For every seed, both libraries derive the same keys, and each recovers the
//! secret that the other has encapsulated.

use core::ops::Range;

use mlkem_selkie::{Ciphertext, DecapsulationKey, MLKEM512, MLKEM768, MLKEM1024};
use rand_chacha::ChaCha8Rng;
use rand_core::{RngCore, SeedableRng};

/// How many seeds are tried for each parameter set.
const ITERATIONS: usize = 1000;

/// Draws a seed and a message.
fn next_inputs(rng: &mut ChaCha8Rng) -> ([u8; 64], [u8; 32]) {
    let mut seed = [0u8; 64];
    let mut message = [0u8; 32];
    rng.fill_bytes(&mut seed);
    rng.fill_bytes(&mut message);

    (seed, message)
}

/// The libraries agree.
#[test]
fn interop_mlkem512() {
    let mut rng = ChaCha8Rng::from_seed([0x51; 32]);

    for i in 0..ITERATIONS {
        let (seed, message) = next_inputs(&mut rng);

        let ours = DecapsulationKey::<MLKEM512>::generate_derand(&seed);
        let theirs = libcrux_ml_kem::mlkem512::generate_key_pair(seed);

        assert_eq!(
            ours.encapsulation_key().to_bytes().as_slice(),
            theirs.public_key().as_slice(),
            "iter {i}: ek mismatch",
        );
        assert_eq!(
            ours.to_bytes().as_slice(),
            theirs.private_key().as_slice(),
            "iter {i}: dk mismatch",
        );

        let (their_ct, their_ss) =
            libcrux_ml_kem::mlkem512::encapsulate(theirs.public_key(), message);
        let our_ss =
            ours.decapsulate(&Ciphertext::<MLKEM512>::from_bytes(their_ct.as_slice()).unwrap());
        assert_eq!(
            our_ss.as_bytes(),
            &their_ss,
            "iter {i}: their-encaps/our-decaps"
        );

        let (our_ss2, our_ct) = ours.encapsulation_key().encapsulate_derand(&message);
        let their_ct2 = libcrux_ml_kem::mlkem512::MlKem512Ciphertext::from(
            <[u8; 768]>::try_from(our_ct.as_bytes()).unwrap(),
        );
        let their_ss2 = libcrux_ml_kem::mlkem512::decapsulate(theirs.private_key(), &their_ct2);
        assert_eq!(
            our_ss2.as_bytes(),
            &their_ss2,
            "iter {i}: our-encaps/their-decaps"
        );
    }
}

/// The libraries agree.
#[test]
fn interop_mlkem768() {
    let mut rng = ChaCha8Rng::from_seed([0x76; 32]);

    for i in 0..ITERATIONS {
        let (seed, message) = next_inputs(&mut rng);

        let ours = DecapsulationKey::<MLKEM768>::generate_derand(&seed);
        let theirs = libcrux_ml_kem::mlkem768::generate_key_pair(seed);

        assert_eq!(
            ours.encapsulation_key().to_bytes().as_slice(),
            theirs.public_key().as_slice(),
            "iter {i}: ek mismatch",
        );
        assert_eq!(
            ours.to_bytes().as_slice(),
            theirs.private_key().as_slice(),
            "iter {i}: dk mismatch",
        );

        let (their_ct, their_ss) =
            libcrux_ml_kem::mlkem768::encapsulate(theirs.public_key(), message);
        let our_ss =
            ours.decapsulate(&Ciphertext::<MLKEM768>::from_bytes(their_ct.as_slice()).unwrap());
        assert_eq!(
            our_ss.as_bytes(),
            &their_ss,
            "iter {i}: their-encaps/our-decaps"
        );

        let (our_ss2, our_ct) = ours.encapsulation_key().encapsulate_derand(&message);
        let their_ct2 = libcrux_ml_kem::mlkem768::MlKem768Ciphertext::from(
            <[u8; 1088]>::try_from(our_ct.as_bytes()).unwrap(),
        );
        let their_ss2 = libcrux_ml_kem::mlkem768::decapsulate(theirs.private_key(), &their_ct2);
        assert_eq!(
            our_ss2.as_bytes(),
            &their_ss2,
            "iter {i}: our-encaps/their-decaps"
        );
    }
}

/// The libraries agree on the first half of the seeds.
#[test]
fn interop_mlkem1024() {
    agree_on_mlkem1024(0..ITERATIONS / 2);
}

/// The libraries agree on the second half of the seeds.
#[test]
fn interop_mlkem1024_second_half() {
    agree_on_mlkem1024(ITERATIONS / 2..ITERATIONS);
}

fn agree_on_mlkem1024(iterations: Range<usize>) {
    let mut rng = ChaCha8Rng::from_seed([0x10; 32]);

    for i in 0..iterations.end {
        let (seed, message) = next_inputs(&mut rng);
        if i < iterations.start {
            continue;
        }

        let ours = DecapsulationKey::<MLKEM1024>::generate_derand(&seed);
        let theirs = libcrux_ml_kem::mlkem1024::generate_key_pair(seed);

        assert_eq!(
            ours.encapsulation_key().to_bytes().as_slice(),
            theirs.public_key().as_slice(),
            "iter {i}: ek mismatch",
        );
        assert_eq!(
            ours.to_bytes().as_slice(),
            theirs.private_key().as_slice(),
            "iter {i}: dk mismatch",
        );

        let (their_ct, their_ss) =
            libcrux_ml_kem::mlkem1024::encapsulate(theirs.public_key(), message);
        let our_ss =
            ours.decapsulate(&Ciphertext::<MLKEM1024>::from_bytes(their_ct.as_slice()).unwrap());
        assert_eq!(
            our_ss.as_bytes(),
            &their_ss,
            "iter {i}: their-encaps/our-decaps"
        );

        let (our_ss2, our_ct) = ours.encapsulation_key().encapsulate_derand(&message);
        let their_ct2 = libcrux_ml_kem::mlkem1024::MlKem1024Ciphertext::from(
            <[u8; 1568]>::try_from(our_ct.as_bytes()).unwrap(),
        );
        let their_ss2 = libcrux_ml_kem::mlkem1024::decapsulate(theirs.private_key(), &their_ct2);
        assert_eq!(
            our_ss2.as_bytes(),
            &their_ss2,
            "iter {i}: our-encaps/their-decaps"
        );
    }
}
