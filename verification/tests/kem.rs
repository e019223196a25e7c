//! The key encapsulation mechanism.

use mlkem_selkie::functions::{H, J};
use mlkem_selkie::{
    mlkem768, Ciphertext, DecapsulationKey, EncapsulationKey, EntropyUnavailable, Error,
    ParameterSet, MLKEM1024, MLKEM512, MLKEM768,
};

fn encaps_decaps_agree<P: ParameterSet>() {
    let keypair = DecapsulationKey::<P>::generate().expect("entropy");

    let (sender_secret, ciphertext) = keypair.encapsulation_key().encapsulate().expect("entropy");
    let receiver_secret = keypair.decapsulate(&ciphertext);

    assert_eq!(sender_secret.as_bytes(), receiver_secret.as_bytes());
}

/// Both sides agree on the secret for every parameter set.
#[test]
fn roundtrip_all_parameter_sets() {
    encaps_decaps_agree::<MLKEM512>();
    encaps_decaps_agree::<MLKEM768>();
    encaps_decaps_agree::<MLKEM1024>();
}

/// The names of a parameter set resolve.
#[test]
fn aliased_module_roundtrip() {
    let keypair: mlkem768::DecapsulationKey =
        mlkem768::DecapsulationKey::generate().expect("entropy");

    let (sender, ciphertext) = keypair.encapsulation_key().encapsulate().expect("entropy");
    let parsed = mlkem768::Ciphertext::from_bytes(ciphertext.as_bytes()).expect("valid ct");
    let receiver = keypair.decapsulate(&parsed);

    assert_eq!(sender.as_bytes(), receiver.as_bytes());
}

/// Generated keys are fresh.
#[test]
fn generate_is_randomized() {
    check::<MLKEM512>();
    check::<MLKEM768>();
    check::<MLKEM1024>();

    fn check<P: ParameterSet>() {
        let a = DecapsulationKey::<P>::generate().expect("entropy");
        let b = DecapsulationKey::<P>::generate().expect("entropy");

        assert_ne!(
            a.encapsulation_key().to_bytes(),
            b.encapsulation_key().to_bytes(),
        );
    }
}

/// A key is reproducible from its seed, and has the right sizes.
#[test]
fn derand_keygen_is_deterministic() {
    let seed = [0x33u8; 64];

    let first = DecapsulationKey::<MLKEM768>::generate_derand(&seed);
    let second = DecapsulationKey::<MLKEM768>::generate_derand(&seed);

    assert_eq!(
        first.encapsulation_key().to_bytes(),
        second.encapsulation_key().to_bytes()
    );
    assert_eq!(first.to_bytes(), second.to_bytes());
    assert_eq!(
        first.encapsulation_key().to_bytes().len(),
        MLKEM768::ENCAPS_KEY_SIZE
    );
    assert_eq!(first.to_bytes().len(), MLKEM768::DECAPS_KEY_SIZE);
}

/// Keys and ciphertexts survive their bytes.
#[test]
fn public_serialization_roundtrip() {
    let keypair = DecapsulationKey::<MLKEM512>::generate_derand(&[1u8; 64]);

    let ek_bytes = keypair.encapsulation_key().to_bytes();
    let dk_bytes = keypair.to_bytes();

    let ek = EncapsulationKey::<MLKEM512>::from_bytes(&ek_bytes).expect("valid ek");
    let dk = DecapsulationKey::<MLKEM512>::from_bytes(&dk_bytes).expect("valid dk");

    assert_eq!(ek.to_bytes(), ek_bytes);
    assert_eq!(dk.to_bytes(), dk_bytes);

    let (_secret, ciphertext) = ek.encapsulate_derand(&[0x55u8; 32]);
    let parsed = Ciphertext::<MLKEM512>::from_bytes(ciphertext.as_bytes()).expect("valid ct");

    assert_eq!(parsed.as_bytes(), ciphertext.as_bytes());
}

/// A ciphertext of the wrong length is refused.
#[test]
fn ciphertext_length_validation() {
    let too_short = vec![0u8; MLKEM512::CIPHERTEXT_SIZE - 1];

    assert!(matches!(
        Ciphertext::<MLKEM512>::from_bytes(&too_short),
        Err(Error::InvalidCiphertextLength)
    ));
}

/// Every wrong length of a ciphertext is refused.
#[test]
fn wrong_length_ciphertext_rejected() {
    for len in 0..2048usize {
        if len != MLKEM512::CIPHERTEXT_SIZE {
            assert!(Ciphertext::<MLKEM512>::from_bytes(&vec![0u8; len]).is_err());
        }
    }
}

/// An encapsulation key is refused if its length or one of its values is wrong.
#[test]
fn encapsulation_key_validation() {
    let ek = DecapsulationKey::<MLKEM512>::generate_derand(&[9u8; 64])
        .encapsulation_key()
        .to_bytes();

    assert!(matches!(
        EncapsulationKey::<MLKEM512>::from_bytes(&ek[1..]),
        Err(Error::InvalidEncapsulationKeyLength)
    ));

    // The first value becomes 3329, and then 4095.
    let mut bad = ek.clone();
    bad[0] = 0x01;
    bad[1] = (bad[1] & 0xF0) | 0x0D;
    assert!(matches!(
        EncapsulationKey::<MLKEM512>::from_bytes(&bad),
        Err(Error::EncapsulationKeyModulusCheckFailed)
    ));
    bad[0] = 0xFF;
    bad[1] |= 0x0F;
    assert!(matches!(
        EncapsulationKey::<MLKEM512>::try_from(bad.as_slice()),
        Err(Error::EncapsulationKeyModulusCheckFailed)
    ));

    // 3328 is the largest value.
    let mut good = ek.clone();
    good[0] = 0x00;
    good[1] = (good[1] & 0xF0) | 0x0D;
    let parsed = EncapsulationKey::<MLKEM512>::from_bytes(&good).expect("valid ek");
    assert_eq!(parsed.to_bytes(), good);
    assert_eq!(parsed.clone().to_bytes(), good);
}

/// A decapsulation key is refused if its length or its hash is wrong.
#[test]
fn decapsulation_key_validation() {
    let dk = DecapsulationKey::<MLKEM768>::generate_derand(&[4u8; 64]).to_bytes();

    assert!(matches!(
        DecapsulationKey::<MLKEM768>::from_bytes(&dk[..dk.len() - 1]),
        Err(Error::InvalidDecapsulationKeyLength)
    ));

    for i in [384 * 3, 768 * 3, 768 * 3 + 32, 768 * 3 + 63] {
        let mut bad = dk.clone();
        bad[i] ^= 1;
        assert!(
            matches!(
                DecapsulationKey::<MLKEM768>::try_from(bad.as_slice()),
                Err(Error::DecapsulationKeyHashMismatch)
            ),
            "byte {i}"
        );
    }

    // The secret vector and the rejection seed are not covered by the hash.
    for i in [0, 768 * 3 + 64] {
        let mut other = dk.clone();
        other[i] ^= 1;
        assert!(DecapsulationKey::<MLKEM768>::from_bytes(&other).is_ok());
    }
}

/// A changed ciphertext is answered with the rejection secret, always the same.
#[test]
fn implicit_rejection() {
    let seed: [u8; 64] = core::array::from_fn(|i| i as u8);
    let keypair = DecapsulationKey::<MLKEM512>::generate_derand(&seed);
    let (secret, ciphertext) = keypair.encapsulation_key().encapsulate_derand(&[7u8; 32]);

    for index in [0usize, 100, 639, 640, 767] {
        let mut bytes = ciphertext.as_bytes().to_vec();
        bytes[index] ^= 1;
        let malleated = Ciphertext::<MLKEM512>::try_from(bytes.as_slice()).expect("same-length ct");

        let first = keypair.decapsulate(&malleated);
        let second = keypair.decapsulate(&malleated);

        assert_eq!(first.as_bytes(), second.as_bytes());
        assert_ne!(first.as_bytes(), secret.as_bytes());
        let z: [u8; 32] = core::array::from_fn(|i| 32 + i as u8);
        assert_eq!(first.as_bytes(), &J(&z, &bytes));
    }
}

/// Every serialization survives, and both sides agree, for several seeds.
#[test]
fn seeded_roundtrips() {
    fn check<P: ParameterSet>(seed: &[u8; 64], message: &[u8; 32]) {
        let dk = DecapsulationKey::<P>::generate_derand(seed);
        let (sender, ciphertext) = dk.encapsulation_key().encapsulate_derand(message);
        assert_eq!(sender.as_bytes(), dk.decapsulate(&ciphertext).as_bytes());

        let ek_bytes = dk.encapsulation_key().to_bytes();
        let ek = EncapsulationKey::<P>::from_bytes(&ek_bytes).expect("valid ek");
        assert_eq!(ek.to_bytes(), ek_bytes);

        let dk_bytes = dk.to_bytes();
        let dk = DecapsulationKey::<P>::from_bytes(&dk_bytes).expect("valid dk");
        assert_eq!(dk.to_bytes(), dk_bytes);
        assert_eq!(sender.as_bytes(), dk.decapsulate(&ciphertext).as_bytes());
    }

    for n in 0..8u8 {
        let seed: [u8; 64] = core::array::from_fn(|i| (i as u8).wrapping_mul(n + 1) ^ n);
        let message: [u8; 32] = core::array::from_fn(|i| (i as u8).wrapping_add(31 * n));
        check::<MLKEM512>(&seed, &message);
        check::<MLKEM768>(&seed, &message);
        check::<MLKEM1024>(&seed, &message);
    }
}

/// A secret can be cleared.
#[test]
fn cleared_secret() {
    let dk = DecapsulationKey::<MLKEM512>::generate_derand(&[1u8; 64]);
    let (mut secret, _) = dk.encapsulation_key().encapsulate_derand(&[2u8; 32]);
    assert_ne!(secret.as_bytes(), &[0u8; 32]);
    secret.zeroize();
    assert_eq!(secret.as_bytes(), &[0u8; 32]);
}

/// A cleared key keeps its public part, and no secret.
#[test]
fn decapsulation_key_is_cleared() {
    let mut dk = DecapsulationKey::<MLKEM512>::generate_derand(&[7u8; 64]);
    let ek = dk.encapsulation_key().to_bytes();
    dk.zeroize();
    let bytes = dk.to_bytes();

    assert!(bytes[..768].iter().all(|&b| b == 0));
    assert_eq!(&bytes[768..768 + ek.len()], ek.as_slice());
    assert!(bytes[bytes.len() - 32..].iter().all(|&b| b == 0));
}

/// What is drawn decides the key and the secret, and a failure is handed on.
#[test]
fn drawn_bytes_decide() {
    let seed: [u8; 64] = core::array::from_fn(|i| i as u8);
    let dk = DecapsulationKey::<MLKEM512>::generate_drawn(Ok(()), &seed).expect("drawn");
    let expected = DecapsulationKey::<MLKEM512>::generate_derand(&seed);
    assert_eq!(dk.to_bytes(), expected.to_bytes());
    assert!(matches!(
        DecapsulationKey::<MLKEM512>::generate_drawn(Err(EntropyUnavailable), &seed),
        Err(EntropyUnavailable)
    ));

    let ek = dk.encapsulation_key();
    let (secret, ciphertext) = ek.encapsulate_drawn(Ok(()), &[9u8; 32]).expect("drawn");
    let (expected_secret, expected_ciphertext) = ek.encapsulate_derand(&[9u8; 32]);
    assert_eq!(secret.as_bytes(), expected_secret.as_bytes());
    assert_eq!(ciphertext.as_bytes(), expected_ciphertext.as_bytes());
    assert!(matches!(
        ek.encapsulate_drawn(Err(EntropyUnavailable), &[9u8; 32]),
        Err(EntropyUnavailable)
    ));
}

/// The bytes of a key of two components with one public value raised by `q`,
/// and the bytes of the key itself.
fn raised_key() -> (Vec<u8>, Vec<u8>) {
    let canonical = DecapsulationKey::<MLKEM512>::generate_derand(&[0x42; 64]).to_bytes();
    let mut raised = canonical.clone();
    for i in (768..1536).step_by(3) {
        let value = u16::from(raised[i]) | (u16::from(raised[i + 1] & 0x0F) << 8);
        if value + 3329 < 4096 {
            let value = value + 3329;
            raised[i] = value as u8;
            raised[i + 1] = (raised[i + 1] & 0xF0) | (value >> 8) as u8;
            return (raised, canonical);
        }
    }
    panic!("no small value");
}

/// A key whose public value is not below `q` is read where it holds the hash of
/// its own bytes.
#[test]
fn decapsulation_key_with_own_hash_is_read() {
    let (mut bytes, canonical) = raised_key();
    let hash = H(&bytes[768..1568]);
    bytes[1568..1600].copy_from_slice(&hash);

    let dk = DecapsulationKey::<MLKEM512>::from_bytes(&bytes).expect("own hash");
    let read = dk.to_bytes();
    assert_eq!(read[..1568], canonical[..1568]);
    assert_eq!(read[1568..1600], hash);
    assert_eq!(read[1600..], canonical[1600..]);
}

/// The hash of the key that such a key is reduced to is not its own.
#[test]
fn decapsulation_key_with_reduced_hash_is_refused() {
    let (bytes, canonical) = raised_key();
    assert_eq!(bytes[1568..1600], H(&canonical[768..1568]));
    assert_eq!(
        DecapsulationKey::<MLKEM512>::from_bytes(&bytes).err(),
        Some(Error::DecapsulationKeyHashMismatch)
    );
}
