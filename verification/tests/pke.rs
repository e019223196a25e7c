//! Public-key encryption.

use mlkem_selkie::parameters::{ParameterSet, MLKEM1024, MLKEM512, MLKEM768};
use mlkem_selkie::PKE::{Ciphertext, DecryptionKey, EncryptionKey, KeyGenRandomnessSeed, KeyPair};

fn encrypt_decrypt_roundtrip<P: ParameterSet>() {
    let seed = KeyGenRandomnessSeed::<P>::new([0x42; 32]);
    let KeyPair { dk_pke, ek_pke } = KeyPair::<P>::new_derand(seed);

    let message = [0x9Au8; 32];
    let randomness = [0x17u8; 32];

    let ciphertext = ek_pke.encrypt(&message, &randomness);
    let recovered = dk_pke.decrypt(&ciphertext);

    assert_eq!(recovered, message);
}

/// Decryption recovers the message with vectors of two elements.
#[test]
fn roundtrip_mlkem512() {
    encrypt_decrypt_roundtrip::<MLKEM512>();
}

/// Decryption recovers the message with vectors of three elements.
#[test]
fn roundtrip_mlkem768() {
    encrypt_decrypt_roundtrip::<MLKEM768>();
}

/// Decryption recovers the message with vectors of four elements.
#[test]
fn roundtrip_mlkem1024() {
    encrypt_decrypt_roundtrip::<MLKEM1024>();
}

/// Keys survive their bytes.
#[test]
fn keys_survive_their_bytes() {
    let KeyPair { dk_pke, ek_pke } =
        KeyPair::<MLKEM768>::new_derand(KeyGenRandomnessSeed::new([3; 32]));

    let ek_bytes = ek_pke.to_bytes();
    let dk_bytes = dk_pke.to_bytes();
    assert_eq!(ek_bytes.len(), MLKEM768::PKE_ENCRYPTION_KEY_SIZE);
    assert_eq!(dk_bytes.len(), MLKEM768::PKE_DECRYPTION_KEY_SIZE);

    let ek = EncryptionKey::<MLKEM768>::from_bytes(&ek_bytes);
    let dk = DecryptionKey::<MLKEM768>::from_bytes(&dk_bytes);
    assert_eq!(ek.to_bytes(), ek_bytes);
    assert_eq!(dk.to_bytes(), dk_bytes);

    let c = ek.encrypt(&[5; 32], &[6; 32]);
    assert_eq!(c.as_bytes(), ek_pke.clone().encrypt(&[5; 32], &[6; 32]).as_bytes());
    assert_eq!(dk.decrypt(&c), [5; 32]);
}

/// Ciphertexts are compared over all their bytes.
#[test]
fn ciphertext_comparison() {
    let bytes = vec![0x11u8; MLKEM512::CIPHERTEXT_SIZE];
    let c = Ciphertext::<MLKEM512>::from_bytes(&bytes);
    assert_eq!(c.ct_eq(&Ciphertext::from_bytes(&bytes)), 1);
    for i in [0, 7, 8, 500, MLKEM512::CIPHERTEXT_SIZE - 1] {
        let mut other = bytes.clone();
        other[i] ^= 0x80;
        assert_eq!(c.ct_eq(&Ciphertext::from_bytes(&other)), 0, "byte {i}");
    }
}

/// Another seed gives another key.
#[test]
fn seeds_give_distinct_keys() {
    let a = KeyPair::<MLKEM512>::new_derand(KeyGenRandomnessSeed::new([1; 32]));
    let b = KeyPair::<MLKEM512>::new_derand(KeyGenRandomnessSeed::new([2; 32]));
    assert_ne!(a.ek_pke.to_bytes(), b.ek_pke.to_bytes());
    assert_ne!(a.dk_pke.to_bytes(), b.dk_pke.to_bytes());
}
