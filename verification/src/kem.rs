//! The key encapsulation mechanism.

pub mod laws;

use vstd::prelude::*;

use self::laws::{law_decapsulation_key_round_trip, law_encapsulation_key_round_trip};
use crate::algebraic::transform::is_poly;
use crate::algebraic::vector::vec_zero;
use crate::bytes::{array_32, join_32, same_bytes};
use crate::constant_time::select_byte;
use crate::encoding::vectors::{
    all_polys, decode_vector, encode_vector, law_vector_modulus_check, lemma_encoded_length,
};
use crate::encoding::reduce_poly;
use crate::entropy::{is_draw, random_bytes, EntropyUnavailable};
use crate::functions::{g_spec, j_spec, sha3_256, sha3_512, shake256_byte, G, H, J};
use crate::parameters::ParameterSet;
use crate::wipe::wipe_bytes;
use crate::PKE;
use crate::PKE::scheme::{
    decrypt_spec, encrypt_spec, encryption_key_bytes, key_seeds, key_vector, s_hat_spec, t_hat_spec,
};

verus! {

/// What is wrong with bytes that do not hold a key or a ciphertext.
///
/// A ciphertext of the right length that was not made by encapsulation is no
/// error: decapsulation answers it with a secret that nobody else knows.
#[derive(Debug, Copy, Clone, PartialEq, Eq, Structural)]
#[non_exhaustive]
pub enum Error {
    /// An encapsulation key does not have `384 * K + 32` bytes.
    InvalidEncapsulationKeyLength,
    /// An encapsulation key holds a coefficient that is not below `q`.
    EncapsulationKeyModulusCheckFailed,
    /// A decapsulation key does not have `768 * K + 96` bytes.
    InvalidDecapsulationKeyLength,
    /// A decapsulation key does not hold the hash of its encapsulation key.
    DecapsulationKeyHashMismatch,
    /// A ciphertext does not have `32 * (D_U * K + D_V)` bytes.
    InvalidCiphertextLength,
}

/// The shared secret and the encryption randomness of an encapsulation.
pub open spec fn encaps_seeds(m: Seq<u8>, h_ek: Seq<u8>) -> (Seq<u8>, Seq<u8>) {
    g_spec(m + h_ek)
}

/// The hash of an encapsulation key.
pub open spec fn key_hash(t_hat: Seq<Seq<int>>, rho: Seq<u8>) -> Seq<u8> {
    sha3_256(encryption_key_bytes(t_hat, rho))
}

/// The shared secret that encapsulation yields.
pub open spec fn encaps_secret(t_hat: Seq<Seq<int>>, rho: Seq<u8>, m: Seq<u8>) -> Seq<u8> {
    encaps_seeds(m, key_hash(t_hat, rho)).0
}

/// The ciphertext that encapsulation yields.
pub open spec fn encaps_ciphertext<P: ParameterSet>(
    t_hat: Seq<Seq<int>>,
    rho: Seq<u8>,
    m: Seq<u8>,
) -> Seq<u8> {
    encrypt_spec::<P>(t_hat, rho, m, encaps_seeds(m, key_hash(t_hat, rho)).1)
}

/// The message that decapsulation recovers, and encrypts again to check a
/// ciphertext.
pub open spec fn recovered_message<P: ParameterSet>(
    s_hat: Seq<Seq<int>>,
    ciphertext: Seq<u8>,
) -> Seq<u8> {
    decrypt_spec::<P>(s_hat, ciphertext)
}

/// What the recovered message encrypts to, under the hash `h_ek` that the key
/// holds.
pub open spec fn reencrypted<P: ParameterSet>(
    s_hat: Seq<Seq<int>>,
    t_hat: Seq<Seq<int>>,
    rho: Seq<u8>,
    h_ek: Seq<u8>,
    ciphertext: Seq<u8>,
) -> Seq<u8> {
    let m = recovered_message::<P>(s_hat, ciphertext);
    encrypt_spec::<P>(t_hat, rho, m, encaps_seeds(m, h_ek).1)
}

/// The shared secret that decapsulation yields, under the hash `h_ek` that the
/// key holds: that of the recovered message where the message encrypts to the
/// ciphertext, and the rejection secret otherwise.
pub open spec fn decaps_secret<P: ParameterSet>(
    s_hat: Seq<Seq<int>>,
    t_hat: Seq<Seq<int>>,
    rho: Seq<u8>,
    h_ek: Seq<u8>,
    z: Seq<u8>,
    ciphertext: Seq<u8>,
) -> Seq<u8> {
    if reencrypted::<P>(s_hat, t_hat, rho, h_ek, ciphertext) == ciphertext {
        encaps_seeds(recovered_message::<P>(s_hat, ciphertext), h_ek).0
    } else {
        j_spec(z, ciphertext)
    }
}

/// A shared secret of 32 bytes.
pub struct SharedSecret([u8; 32]);

impl View for SharedSecret {
    type V = Seq<u8>;

    closed spec fn view(&self) -> Seq<u8> {
        self.0@
    }
}

impl SharedSecret {
    /// The bytes of the secret.
    pub fn as_bytes(&self) -> (r: &[u8; 32])
        ensures
            r@ == self@,
    {
        &self.0
    }

    /// Overwrites the secret with zeros.
    pub fn zeroize(&mut self)
        ensures
            forall|i: int| 0 <= i < 32 ==> #[trigger] final(self)@[i] == 0,
        opens_invariants none
        no_unwind
    {
        wipe_bytes(&mut self.0);
    }
}

impl Drop for SharedSecret {
    /// Overwrites the secret with zeros.
    fn drop(&mut self)
        ensures
            forall|i: int| 0 <= i < 32 ==> #[trigger] final(self)@[i] == 0,
        opens_invariants none
        no_unwind
    {
        self.zeroize();
    }
}

/// A ciphertext that encapsulates a shared secret.
pub struct Ciphertext<P: ParameterSet>(PKE::Ciphertext<P>);

impl<P: ParameterSet> View for Ciphertext<P> {
    type V = Seq<u8>;

    closed spec fn view(&self) -> Seq<u8> {
        self.0@
    }
}

impl<P: ParameterSet> Ciphertext<P> {
    /// The ciphertext that bytes hold; fails if and only if their number is
    /// wrong.
    pub fn from_bytes(bytes: &[u8]) -> (r: Result<Self, Error>)
        ensures
            match r {
                Ok(c) => bytes@.len() == P::CIPHERTEXT_SIZE && c@ == bytes@,
                Err(e) => bytes@.len() != P::CIPHERTEXT_SIZE && e == Error::InvalidCiphertextLength,
            },
    {
        if bytes.len() != P::CIPHERTEXT_SIZE {
            return Err(Error::InvalidCiphertextLength);
        }
        Ok(Ciphertext(PKE::Ciphertext::from_bytes(bytes)))
    }

    /// The bytes of the ciphertext.
    pub fn as_bytes(&self) -> (r: &[u8])
        ensures
            r@ == self@,
            r@.len() == P::CIPHERTEXT_SIZE,
    {
        let inner: &PKE::Ciphertext<P> = &self.0;
        proof {
            use_type_invariant(inner);
        }
        inner.as_bytes()
    }
}

impl<P: ParameterSet> TryFrom<&[u8]> for Ciphertext<P> {
    type Error = Error;

    fn try_from(bytes: &[u8]) -> (r: Result<Self, Error>)
        ensures
            match r {
                Ok(c) => bytes@.len() == P::CIPHERTEXT_SIZE && c@ == bytes@,
                Err(e) => bytes@.len() != P::CIPHERTEXT_SIZE && e == Error::InvalidCiphertextLength,
            },
    {
        Self::from_bytes(bytes)
    }
}

impl<P: ParameterSet> vstd::std_specs::convert::TryFromSpecImpl<&[u8]> for Ciphertext<P> {
    open spec fn obeys_try_from_spec() -> bool {
        false
    }

    open spec fn try_from_spec(v: &[u8]) -> Result<Self, Error> {
        arbitrary()
    }
}

/// The hash of an encapsulation key.
#[derive(Clone, Copy)]
struct EncapsulationKeyHash([u8; 32]);

impl EncapsulationKeyHash {
    /// The hash of a key.
    fn of<P: ParameterSet>(ek: &EncapsulationKey<P>) -> (r: Self)
        ensures
            r.0@ == key_hash(ek.t_hat(), ek.rho()),
    {
        EncapsulationKeyHash(H(ek.to_bytes().as_slice()))
    }

    /// The bytes of the hash.
    fn as_bytes(&self) -> (r: &[u8; 32])
        ensures
            r@ == self.0@,
    {
        &self.0
    }
}

/// The seed of the secrets with which ciphertexts are rejected.
struct RejectionSeed([u8; 32]);

impl RejectionSeed {
    /// The bytes of the seed.
    pub closed spec fn bytes(&self) -> Seq<u8> {
        self.0@
    }

    /// The bytes of the seed.
    fn as_bytes(&self) -> (r: &[u8; 32])
        ensures
            r@ == self.0@,
    {
        &self.0
    }

    /// Overwrites the seed with zeros.
    fn zeroize(&mut self)
        ensures
            forall|i: int| 0 <= i < 32 ==> #[trigger] final(self).0@[i] == 0,
        opens_invariants none
        no_unwind
    {
        wipe_bytes(&mut self.0);
    }
}

impl Drop for RejectionSeed {
    /// Overwrites the seed with zeros.
    fn drop(&mut self)
        ensures
            forall|i: int| 0 <= i < 32 ==> #[trigger] final(self).bytes()[i] == 0,
        opens_invariants none
        no_unwind
    {
        self.zeroize();
    }
}

/// A public key, to which a shared secret can be encapsulated.
pub struct EncapsulationKey<P: ParameterSet> {
    ek_pke: PKE::EncryptionKey<P>,
}

/// Whether bytes hold an encapsulation key: they have the right number, and
/// every value of the public vector is below `q`.
pub open spec fn is_encapsulation_key<P: ParameterSet>(bytes: Seq<u8>) -> bool {
    &&& bytes.len() == P::ENCAPS_KEY_SIZE
    &&& all_polys(decode_vector(bytes.take(384 * P::K), 12, P::K as nat))
}

impl<P: ParameterSet> EncapsulationKey<P> {
    /// The public vector.
    pub closed spec fn t_hat(&self) -> Seq<Seq<int>> {
        self.ek_pke.t_hat()
    }

    /// The seed of the public matrix.
    pub closed spec fn rho(&self) -> Seq<u8> {
        self.ek_pke.rho()
    }

    /// The bytes of the key.
    pub fn to_bytes(&self) -> (r: Vec<u8>)
        ensures
            r@ == encryption_key_bytes(self.t_hat(), self.rho()),
            is_encapsulation_key::<P>(r@),
            decode_vector(r@.take(384 * P::K), 12, P::K as nat) == self.t_hat(),
            r@.skip(384 * P::K) == self.rho(),
    {
        let ek_pke: &PKE::EncryptionKey<P> = &self.ek_pke;
        proof {
            P::lemma_sizes();
            use_type_invariant(ek_pke);
            ek_pke.lemma_valid();
            law_encapsulation_key_round_trip::<P>(self.t_hat(), self.rho());
        }
        self.ek_pke.to_bytes()
    }

    /// The key that bytes hold.
    ///
    /// Fails with [`Error::InvalidEncapsulationKeyLength`] if the number of
    /// bytes is wrong, and with [`Error::EncapsulationKeyModulusCheckFailed`]
    /// if a value of the public vector is not below `q`: encoding the decoded
    /// key does not give the bytes back then.
    pub fn from_bytes(bytes: &[u8]) -> (r: Result<Self, Error>)
        ensures
            match r {
                Ok(k) => is_encapsulation_key::<P>(bytes@) && k.t_hat() == decode_vector(
                    bytes@.take(384 * P::K),
                    12,
                    P::K as nat,
                ) && k.rho() == bytes@.skip(384 * P::K),
                Err(e) => !is_encapsulation_key::<P>(bytes@) && e == if bytes@.len()
                    != P::ENCAPS_KEY_SIZE {
                    Error::InvalidEncapsulationKeyLength
                } else {
                    Error::EncapsulationKeyModulusCheckFailed
                },
            },
    {
        proof {
            P::lemma_sizes();
        }
        if bytes.len() != P::ENCAPS_KEY_SIZE {
            return Err(Error::InvalidEncapsulationKeyLength);
        }
        let ek_pke: PKE::EncryptionKey<P> = PKE::EncryptionKey::from_bytes(bytes);
        let encoded: Vec<u8> = ek_pke.to_bytes();
        proof {
            lemma_key_reencoded::<P>(bytes@);
        }
        if !same_bytes(encoded.as_slice(), bytes) {
            return Err(Error::EncapsulationKeyModulusCheckFailed);
        }
        Ok(EncapsulationKey { ek_pke })
    }

    /// Encapsulates a fresh shared secret, or fails where the source of random
    /// bytes does.
    ///
    /// The secret is that of the 32 bytes that the source has handed out.
    pub fn encapsulate(&self) -> (r: Result<(SharedSecret, Ciphertext<P>), EntropyUnavailable>)
        ensures
            r matches Ok(pair) ==> exists|m: Seq<u8>|
                m.len() == 32 && pair.0@ == encaps_secret(self.t_hat(), self.rho(), m)
                    && pair.1@ == #[trigger] encaps_ciphertext::<P>(self.t_hat(), self.rho(), m),
            exists|b: &mut [u8; 32], outcome: Result<(), EntropyUnavailable>| #[trigger]
                is_draw(b, outcome) && match outcome {
                    Ok(()) => r matches Ok(pair) && pair.0@ == encaps_secret(
                        self.t_hat(),
                        self.rho(),
                        final(b)@,
                    ) && pair.1@ == encaps_ciphertext::<P>(self.t_hat(), self.rho(), final(b)@),
                    Err(e) => r matches Err(f) && f == e,
                },
    {
        let mut m: [u8; 32] = [0u8; 32];
        let outcome: Result<(), EntropyUnavailable> = random_bytes(&mut m);
        let ghost drawn = m@;
        let r: Result<(SharedSecret, Ciphertext<P>), EntropyUnavailable> =
            self.encapsulate_drawn(outcome, &m);
        wipe_bytes(&mut m);
        proof {
            if r is Ok {
                assert(drawn.len() == 32);
                assert(r->Ok_0.1@ == encaps_ciphertext::<P>(self.t_hat(), self.rho(), drawn));
            }
        }
        r
    }

    /// Encapsulates the shared secret of 32 bytes where drawing them succeeded,
    /// and fails as drawing them did otherwise.
    pub fn encapsulate_drawn(
        &self,
        outcome: Result<(), EntropyUnavailable>,
        m: &[u8; 32],
    ) -> (r: Result<(SharedSecret, Ciphertext<P>), EntropyUnavailable>)
        ensures
            match outcome {
                Ok(()) => r matches Ok(pair) && pair.0@ == encaps_secret(
                    self.t_hat(),
                    self.rho(),
                    m@,
                ) && pair.1@ == encaps_ciphertext::<P>(self.t_hat(), self.rho(), m@),
                Err(e) => r matches Err(f) && f == e,
            },
    {
        match outcome {
            Ok(()) => Ok(self.encapsulate_derand(m)),
            Err(e) => Err(e),
        }
    }

    /// Encapsulates the shared secret of 32 given bytes.
    pub fn encapsulate_derand(&self, m: &[u8; 32]) -> (r: (SharedSecret, Ciphertext<P>))
        ensures
            r.0@ == encaps_secret(self.t_hat(), self.rho(), m@),
            r.1@ == encaps_ciphertext::<P>(self.t_hat(), self.rho(), m@),
    {
        let h_ek: [u8; 32] = H(self.to_bytes().as_slice());
        let mut g_input: [u8; 64] = join_32(m, &h_ek);
        let (k, mut r) = G(g_input.as_slice());
        let ciphertext: PKE::Ciphertext<P> = self.ek_pke.encrypt(m, &r);
        wipe_bytes(&mut g_input);
        wipe_bytes(&mut r);
        (SharedSecret(k), Ciphertext(ciphertext))
    }
}

impl<P: ParameterSet> Clone for EncapsulationKey<P> {
    fn clone(&self) -> (r: Self)
        ensures
            r.t_hat() == self.t_hat(),
            r.rho() == self.rho(),
    {
        EncapsulationKey { ek_pke: self.ek_pke.clone() }
    }
}

impl<P: ParameterSet> TryFrom<&[u8]> for EncapsulationKey<P> {
    type Error = Error;

    fn try_from(bytes: &[u8]) -> (r: Result<Self, Error>)
        ensures
            match r {
                Ok(k) => is_encapsulation_key::<P>(bytes@) && k.t_hat() == decode_vector(
                    bytes@.take(384 * P::K),
                    12,
                    P::K as nat,
                ) && k.rho() == bytes@.skip(384 * P::K),
                Err(e) => !is_encapsulation_key::<P>(bytes@) && e == if bytes@.len()
                    != P::ENCAPS_KEY_SIZE {
                    Error::InvalidEncapsulationKeyLength
                } else {
                    Error::EncapsulationKeyModulusCheckFailed
                },
            },
    {
        Self::from_bytes(bytes)
    }
}

impl<P: ParameterSet> vstd::std_specs::convert::TryFromSpecImpl<&[u8]> for EncapsulationKey<P> {
    open spec fn obeys_try_from_spec() -> bool {
        false
    }

    open spec fn try_from_spec(v: &[u8]) -> Result<Self, Error> {
        arbitrary()
    }
}

/// Decoding and encoding a key gives the bytes back if and only if every value
/// is below `q`, and changes no value then.
proof fn lemma_key_reencoded<P: ParameterSet>(bytes: Seq<u8>)
    requires
        bytes.len() == P::ENCAPS_KEY_SIZE,
    ensures
        ({
            let t = decode_vector(bytes.take(384 * P::K), 12, P::K as nat);
            let key = key_vector::<P>(bytes.take(384 * P::K));
            &&& encryption_key_bytes(key, bytes.skip(384 * P::K)) == bytes <==> all_polys(t)
            &&& all_polys(t) ==> key == t
        }),
{
    P::lemma_sizes();
    let front = bytes.take(384 * P::K);
    let rho = bytes.skip(384 * P::K);
    let t = decode_vector(front, 12, P::K as nat);
    let key = key_vector::<P>(front);
    law_vector_modulus_check(front, P::K as nat);
    lemma_encoded_length(key, 12);
    let whole = encryption_key_bytes(key, rho);
    assert(front + rho =~= bytes);
    if whole == bytes {
        assert(whole.take(384 * P::K) =~= encode_vector(key, 12));
    }
    if all_polys(t) {
        assert forall|i: int| 0 <= i < P::K implies key[i] == t[i] by {
            assert(is_poly(t[i]));
            assert(reduce_poly(t[i]) =~= t[i]);
        }
        assert(key =~= t);
    }
}

/// The bytes of a decapsulation key: the secret vector, the encapsulation key,
/// the hash of it that the key holds, and the rejection seed.
pub open spec fn decapsulation_key_bytes(
    s_hat: Seq<Seq<int>>,
    t_hat: Seq<Seq<int>>,
    rho: Seq<u8>,
    h_ek: Seq<u8>,
    z: Seq<u8>,
) -> Seq<u8> {
    encode_vector(s_hat, 12) + encryption_key_bytes(t_hat, rho) + h_ek + z
}

/// The part of a decapsulation key that holds the secret vector.
pub open spec fn secret_part<P: ParameterSet>(bytes: Seq<u8>) -> Seq<u8> {
    bytes.subrange(0, 384 * P::K)
}

/// The part of a decapsulation key that holds the encapsulation key.
pub open spec fn encapsulation_part<P: ParameterSet>(bytes: Seq<u8>) -> Seq<u8> {
    bytes.subrange(384 * P::K, 768 * P::K + 32)
}

/// The part of a decapsulation key that holds the public vector.
pub open spec fn public_part<P: ParameterSet>(bytes: Seq<u8>) -> Seq<u8> {
    bytes.subrange(384 * P::K, 768 * P::K)
}

/// The part of a decapsulation key that holds the seed of the public matrix.
pub open spec fn rho_part<P: ParameterSet>(bytes: Seq<u8>) -> Seq<u8> {
    bytes.subrange(768 * P::K, 768 * P::K + 32)
}

/// The part of a decapsulation key that holds the hash of the encapsulation
/// key.
pub open spec fn hash_part<P: ParameterSet>(bytes: Seq<u8>) -> Seq<u8> {
    bytes.subrange(768 * P::K + 32, 768 * P::K + 64)
}

/// The part of a decapsulation key that holds the rejection seed.
pub open spec fn rejection_part<P: ParameterSet>(bytes: Seq<u8>) -> Seq<u8> {
    bytes.subrange(768 * P::K + 64, 768 * P::K + 96)
}

/// Whether bytes hold a decapsulation key: they have the right number, and the
/// hash that they hold is that of the encapsulation key that they hold, byte
/// for byte.
pub open spec fn is_decapsulation_key<P: ParameterSet>(bytes: Seq<u8>) -> bool {
    &&& bytes.len() == P::DECAPS_KEY_SIZE
    &&& hash_part::<P>(bytes) == sha3_256(encapsulation_part::<P>(bytes))
}

/// Whether every value of the public vector that a decapsulation key holds is
/// below `q`.
pub open spec fn is_public_part_canonical<P: ParameterSet>(bytes: Seq<u8>) -> bool {
    all_polys(decode_vector(public_part::<P>(bytes), 12, P::K as nat))
}

/// A secret key, with which a shared secret is recovered from a ciphertext.
///
/// The hash that it holds is that of the bytes from which its encapsulation key
/// was read. Where a value in them is not below `q`, it is reduced in the key,
/// and the hash is not that of the bytes of the key.
pub struct DecapsulationKey<P: ParameterSet> {
    dk_pke: PKE::DecryptionKey<P>,
    ek: EncapsulationKey<P>,
    h_ek: EncapsulationKeyHash,
    z: RejectionSeed,
}

impl<P: ParameterSet> DecapsulationKey<P> {
    /// The secret vector.
    pub closed spec fn s_hat(&self) -> Seq<Seq<int>> {
        self.dk_pke.s_hat()
    }

    /// The public vector.
    pub closed spec fn t_hat(&self) -> Seq<Seq<int>> {
        self.ek.t_hat()
    }

    /// The seed of the public matrix.
    pub closed spec fn rho(&self) -> Seq<u8> {
        self.ek.rho()
    }

    /// The hash of the encapsulation key that the key holds.
    pub closed spec fn h_ek(&self) -> Seq<u8> {
        self.h_ek.0@
    }

    /// Whether the hash that the key holds is that of the bytes of its
    /// encapsulation key.
    pub open spec fn has_own_hash(&self) -> bool {
        self.h_ek() == key_hash(self.t_hat(), self.rho())
    }

    /// The rejection seed.
    pub closed spec fn z(&self) -> Seq<u8> {
        self.z.0@
    }

    /// Whether this is the key of a seed: the seed of the key pair, then the
    /// rejection seed.
    pub open spec fn generated_from(&self, seed: Seq<u8>) -> bool {
        &&& self.s_hat() == s_hat_spec::<P>(seed.take(32))
        &&& self.t_hat() == t_hat_spec::<P>(seed.take(32))
        &&& self.rho() == key_seeds::<P>(seed.take(32)).0
        &&& self.has_own_hash()
        &&& self.z() == seed.skip(32)
    }

    /// Whether this is the key of some seed.
    pub open spec fn is_generated(&self) -> bool {
        exists|seed: Seq<u8>| seed.len() == 64 && #[trigger] self.generated_from(seed)
    }

    /// Generates a fresh key, or fails where the source of random bytes does.
    ///
    /// The key is that of the 64 bytes that the source has handed out.
    pub fn generate() -> (r: Result<Self, EntropyUnavailable>)
        ensures
            r matches Ok(dk) ==> dk.is_generated(),
            exists|b: &mut [u8; 64], outcome: Result<(), EntropyUnavailable>| #[trigger]
                is_draw(b, outcome) && match outcome {
                    Ok(()) => r matches Ok(dk) && dk.generated_from(final(b)@),
                    Err(e) => r matches Err(f) && f == e,
                },
    {
        let mut seed: [u8; 64] = [0u8; 64];
        let outcome: Result<(), EntropyUnavailable> = random_bytes(&mut seed);
        let ghost drawn = seed@;
        let r: Result<Self, EntropyUnavailable> = Self::generate_drawn(outcome, &seed);
        wipe_bytes(&mut seed);
        proof {
            if r is Ok {
                assert(drawn.len() == 64 && r->Ok_0.generated_from(drawn));
            }
        }
        r
    }

    /// The key of a seed of 64 bytes where drawing them succeeded, and the
    /// failure to draw them otherwise.
    pub fn generate_drawn(
        outcome: Result<(), EntropyUnavailable>,
        seed: &[u8; 64],
    ) -> (r: Result<Self, EntropyUnavailable>)
        ensures
            match outcome {
                Ok(()) => r matches Ok(dk) && dk.generated_from(seed@),
                Err(e) => r matches Err(f) && f == e,
            },
    {
        match outcome {
            Ok(()) => Ok(Self::generate_derand(seed)),
            Err(e) => Err(e),
        }
    }

    /// The key of a seed of 64 bytes.
    pub fn generate_derand(seed: &[u8; 64]) -> (r: Self)
        ensures
            r.generated_from(seed@),
    {
        let (d, z) = seed.as_slice().split_at(32);
        let d_seed: [u8; 32] = array_32(d);
        let z_seed: [u8; 32] = array_32(z);
        proof {
            assert(seed@.take(32) =~= d@);
            assert(seed@.skip(32) =~= z@);
        }
        let d_seed: PKE::KeyGenRandomnessSeed<P> = PKE::KeyGenRandomnessSeed::new(d_seed);
        let pair: PKE::KeyPair<P> = PKE::KeyPair::new_derand(d_seed);
        let ek: EncapsulationKey<P> = EncapsulationKey { ek_pke: pair.ek_pke };
        let h_ek: EncapsulationKeyHash = EncapsulationKeyHash::of(&ek);
        DecapsulationKey { dk_pke: pair.dk_pke, ek, h_ek, z: RejectionSeed(z_seed) }
    }

    /// The encapsulation key that belongs to this key.
    pub fn encapsulation_key(&self) -> (r: &EncapsulationKey<P>)
        ensures
            r.t_hat() == self.t_hat(),
            r.rho() == self.rho(),
    {
        &self.ek
    }

    /// The bytes of the key.
    pub fn to_bytes(&self) -> (r: Vec<u8>)
        ensures
            r@ == decapsulation_key_bytes(
                self.s_hat(),
                self.t_hat(),
                self.rho(),
                self.h_ek(),
                self.z(),
            ),
            r@.len() == P::DECAPS_KEY_SIZE,
            is_decapsulation_key::<P>(r@) <==> self.has_own_hash(),
            is_public_part_canonical::<P>(r@),
            key_vector::<P>(secret_part::<P>(r@)) == self.s_hat(),
            key_vector::<P>(public_part::<P>(r@)) == self.t_hat(),
            rho_part::<P>(r@) == self.rho(),
            hash_part::<P>(r@) == self.h_ek(),
            rejection_part::<P>(r@) == self.z(),
    {
        let dk_pke: &PKE::DecryptionKey<P> = &self.dk_pke;
        let ek_pke: &PKE::EncryptionKey<P> = &self.ek.ek_pke;
        proof {
            use_type_invariant(dk_pke);
            use_type_invariant(ek_pke);
            dk_pke.lemma_valid();
            ek_pke.lemma_valid();
            P::lemma_sizes();
            law_decapsulation_key_round_trip::<P>(
                self.s_hat(),
                self.t_hat(),
                self.rho(),
                self.h_ek(),
                self.z(),
            );
        }
        let mut r: Vec<u8> = self.dk_pke.to_bytes();
        r.extend_from_slice(self.ek.to_bytes().as_slice());
        r.extend_from_slice(self.h_ek.as_bytes().as_slice());
        r.extend_from_slice(self.z.as_bytes().as_slice());
        proof {
            assert(r@ =~= decapsulation_key_bytes(
                self.s_hat(),
                self.t_hat(),
                self.rho(),
                self.h_ek(),
                self.z(),
            ));
        }
        r
    }

    /// The key that bytes hold; the values of its vectors are reduced.
    ///
    /// Fails with [`Error::InvalidDecapsulationKeyLength`] if the number of
    /// bytes is wrong, and with [`Error::DecapsulationKeyHashMismatch`] if the
    /// hash that they hold is not that of the encapsulation key that they hold,
    /// byte for byte.
    pub fn from_bytes(bytes: &[u8]) -> (r: Result<Self, Error>)
        ensures
            match r {
                Ok(k) => is_decapsulation_key::<P>(bytes@) && k.s_hat() == key_vector::<P>(
                    secret_part::<P>(bytes@),
                ) && k.t_hat() == key_vector::<P>(public_part::<P>(bytes@)) && k.rho()
                    == rho_part::<P>(bytes@) && k.h_ek() == hash_part::<P>(bytes@) && k.z()
                    == rejection_part::<P>(bytes@) && (is_public_part_canonical::<P>(bytes@)
                    ==> k.has_own_hash()),
                Err(e) => !is_decapsulation_key::<P>(bytes@) && e == if bytes@.len()
                    != P::DECAPS_KEY_SIZE {
                    Error::InvalidDecapsulationKeyLength
                } else {
                    Error::DecapsulationKeyHashMismatch
                },
            },
    {
        proof {
            P::lemma_sizes();
        }
        if bytes.len() != P::DECAPS_KEY_SIZE {
            return Err(Error::InvalidDecapsulationKeyLength);
        }
        let (dk_pke_bytes, rest) = bytes.split_at(P::PKE_DECRYPTION_KEY_SIZE);
        let (ek_bytes, rest) = rest.split_at(P::ENCAPS_KEY_SIZE);
        let (h_ek_bytes, z_bytes) = rest.split_at(32);
        proof {
            assert(dk_pke_bytes@ =~= secret_part::<P>(bytes@));
            assert(ek_bytes@ =~= encapsulation_part::<P>(bytes@));
            assert(ek_bytes@.take(384 * P::K) =~= public_part::<P>(bytes@));
            assert(ek_bytes@.skip(384 * P::K) =~= rho_part::<P>(bytes@));
            assert(h_ek_bytes@ =~= hash_part::<P>(bytes@));
            assert(z_bytes@ =~= rejection_part::<P>(bytes@));
            lemma_key_reencoded::<P>(ek_bytes@);
        }
        let dk_pke: PKE::DecryptionKey<P> = PKE::DecryptionKey::from_bytes(dk_pke_bytes);
        let ek: EncapsulationKey<P> = EncapsulationKey {
            ek_pke: PKE::EncryptionKey::from_bytes(ek_bytes),
        };
        let h_ek: EncapsulationKeyHash = EncapsulationKeyHash(H(ek_bytes));
        if !same_bytes(h_ek.as_bytes().as_slice(), h_ek_bytes) {
            return Err(Error::DecapsulationKeyHashMismatch);
        }
        Ok(DecapsulationKey { dk_pke, ek, h_ek, z: RejectionSeed(array_32(z_bytes)) })
    }

    /// The shared secret of a ciphertext.
    ///
    /// A ciphertext that the recovered message does not encrypt to is answered
    /// with the rejection secret. The comparison and the selection do not
    /// branch on the values.
    pub fn decapsulate(&self, ciphertext: &Ciphertext<P>) -> (r: SharedSecret)
        ensures
            r@ == decaps_secret::<P>(
                self.s_hat(),
                self.t_hat(),
                self.rho(),
                self.h_ek(),
                self.z(),
                ciphertext@,
            ),
            ({
                let m = decrypt_spec::<P>(self.s_hat(), ciphertext@);
                let digest = sha3_512(m + self.h_ek());
                if encrypt_spec::<P>(self.t_hat(), self.rho(), m, digest.subrange(32, 64))
                    == ciphertext@ {
                    r@ == digest.subrange(0, 32)
                } else {
                    forall|n: int|
                        0 <= n < 32 ==> #[trigger] r@[n] == shake256_byte(
                            self.z() + ciphertext@,
                            n,
                        )
                }
            }),
    {
        let mut m_prime: [u8; 32] = self.dk_pke.decrypt(&ciphertext.0);
        let mut g_input: [u8; 64] = join_32(&m_prime, self.h_ek.as_bytes());
        let (mut k_prime, mut r_prime) = G(g_input.as_slice());
        wipe_bytes(&mut g_input);
        let mut k_bar: [u8; 32] = J(self.z.as_bytes(), ciphertext.as_bytes());
        let c_prime: PKE::Ciphertext<P> = self.ek.ek_pke.encrypt(&m_prime, &r_prime);
        let matches: u8 = ciphertext.0.ct_eq(&c_prime);

        let mut secret: [u8; 32] = [0u8; 32];
        let mut i: usize = 0;
        while i < 32
            invariant
                i <= 32,
                matches <= 1,
                forall|k: int|
                    0 <= k < i ==> #[trigger] secret@[k] == if matches == 1 {
                        k_prime@[k]
                    } else {
                        k_bar@[k]
                    },
            decreases 32 - i,
        {
            secret[i] = select_byte(k_bar[i], k_prime[i], matches);
            i = i + 1;
        }
        proof {
            if matches == 1 {
                assert(secret@ =~= k_prime@);
            } else {
                assert(secret@ =~= k_bar@);
            }
        }
        wipe_bytes(&mut m_prime);
        wipe_bytes(&mut r_prime);
        wipe_bytes(&mut k_prime);
        wipe_bytes(&mut k_bar);
        SharedSecret(secret)
    }

    /// Overwrites the secret vector and the rejection seed with zeros, and keeps
    /// the encapsulation key and its hash.
    pub fn zeroize(&mut self)
        ensures
            final(self).s_hat() == vec_zero(P::K as nat),
            forall|i: int| 0 <= i < 32 ==> #[trigger] final(self).z()[i] == 0,
            final(self).t_hat() == old(self).t_hat(),
            final(self).rho() == old(self).rho(),
            final(self).h_ek() == old(self).h_ek(),
        no_unwind
    {
        self.dk_pke.zeroize();
        self.z.zeroize();
    }
}

impl<P: ParameterSet> TryFrom<&[u8]> for DecapsulationKey<P> {
    type Error = Error;

    fn try_from(bytes: &[u8]) -> (r: Result<Self, Error>)
        ensures
            match r {
                Ok(k) => is_decapsulation_key::<P>(bytes@) && k.s_hat() == key_vector::<P>(
                    secret_part::<P>(bytes@),
                ) && k.t_hat() == key_vector::<P>(public_part::<P>(bytes@)) && k.rho()
                    == rho_part::<P>(bytes@) && k.h_ek() == hash_part::<P>(bytes@) && k.z()
                    == rejection_part::<P>(bytes@) && (is_public_part_canonical::<P>(bytes@)
                    ==> k.has_own_hash()),
                Err(e) => !is_decapsulation_key::<P>(bytes@) && e == if bytes@.len()
                    != P::DECAPS_KEY_SIZE {
                    Error::InvalidDecapsulationKeyLength
                } else {
                    Error::DecapsulationKeyHashMismatch
                },
            },
    {
        Self::from_bytes(bytes)
    }
}

impl<P: ParameterSet> vstd::std_specs::convert::TryFromSpecImpl<&[u8]> for DecapsulationKey<P> {
    open spec fn obeys_try_from_spec() -> bool {
        false
    }

    open spec fn try_from_spec(v: &[u8]) -> Result<Self, Error> {
        arbitrary()
    }
}

} // verus!
