//! The constants of the scheme.

use vstd::prelude::*;

verus! {

/// The number of coefficients of a ring element.
pub const N: usize = 256;

/// The modulus of the coefficient field, a prime with `256 | q - 1`.
pub const Q: u16 = 3329;

/// The parameter of the centered binomial distribution, two or three.
#[derive(Clone, Copy, Debug, PartialEq, Eq, Structural)]
pub enum Eta {
    /// `eta = 2`.
    Two,
    /// `eta = 3`.
    Three,
}

impl Eta {
    /// The parameter as a number.
    pub open spec fn number(self) -> nat {
        match self {
            Eta::Two => 2,
            Eta::Three => 3,
        }
    }
}

impl From<Eta> for usize {
    fn from(eta: Eta) -> (r: usize) {
        match eta {
            Eta::Two => 2,
            Eta::Three => 3,
        }
    }
}

impl vstd::std_specs::convert::FromSpecImpl<Eta> for usize {
    open spec fn obeys_from_spec() -> bool {
        true
    }

    open spec fn from_spec(v: Eta) -> usize {
        v.number() as usize
    }
}

/// A parameter set of the key encapsulation mechanism.
///
/// Every parameter set is a marker without a value of its own; the types of the
/// scheme take it as their parameter.
pub trait ParameterSet: Copy + Send + Sync + PartialEq + Eq {
    /// The dimension of the vectors and matrices of ring elements.
    const K: usize;

    /// The noise parameter of the secret vectors.
    const ETA_1: Eta;

    /// The noise parameter of the errors that encryption adds.
    const ETA_2: Eta;

    /// The number of bits to which the coefficients of the vector part of a
    /// ciphertext are compressed.
    const D_U: usize;

    /// The number of bits to which the coefficients of the last part of a
    /// ciphertext are compressed.
    const D_V: usize;

    /// The size of a decryption key in bytes.
    const PKE_DECRYPTION_KEY_SIZE: usize = 384 * Self::K;

    /// The size of an encryption key in bytes.
    const PKE_ENCRYPTION_KEY_SIZE: usize = (384 * Self::K) + 32;

    /// The size of a decapsulation key in bytes.
    const DECAPS_KEY_SIZE: usize = (768 * Self::K) + 96;

    /// The size of an encapsulation key in bytes.
    const ENCAPS_KEY_SIZE: usize = (384 * Self::K) + 32;

    /// The size of a ciphertext in bytes.
    const CIPHERTEXT_SIZE: usize = 32 * ((Self::D_U * Self::K) + Self::D_V);

    /// The values that a parameter set can have, and the sizes that follow
    /// from them.
    proof fn lemma_sizes()
        ensures
            2 <= Self::K <= 4,
            Self::D_U == 10 || Self::D_U == 11,
            Self::D_V == 4 || Self::D_V == 5,
            Self::PKE_DECRYPTION_KEY_SIZE == 384 * Self::K,
            Self::PKE_ENCRYPTION_KEY_SIZE == 384 * Self::K + 32,
            Self::DECAPS_KEY_SIZE == 768 * Self::K + 96,
            Self::ENCAPS_KEY_SIZE == 384 * Self::K + 32,
            Self::CIPHERTEXT_SIZE == 32 * (Self::D_U * Self::K + Self::D_V),
    ;
}

/// The parameter set of the lowest strength, with vectors of two elements.
#[derive(Debug, Clone, Copy, PartialEq, Eq)]
pub struct MLKEM512;

impl ParameterSet for MLKEM512 {
    const K: usize = 2;

    const ETA_1: Eta = Eta::Three;

    const ETA_2: Eta = Eta::Two;

    const D_U: usize = 10;

    const D_V: usize = 4;

    proof fn lemma_sizes()
        ensures
            Self::K == 2,
            Self::ETA_1 == Eta::Three,
            Self::ETA_2 == Eta::Two,
            Self::D_U == 10,
            Self::D_V == 4,
            Self::PKE_DECRYPTION_KEY_SIZE == 768,
            Self::PKE_ENCRYPTION_KEY_SIZE == 800,
            Self::DECAPS_KEY_SIZE == 1632,
            Self::ENCAPS_KEY_SIZE == 800,
            Self::CIPHERTEXT_SIZE == 768,
    {
    }
}

/// The parameter set of the middle strength, with vectors of three elements.
#[derive(Debug, Clone, Copy, PartialEq, Eq)]
pub struct MLKEM768;

impl ParameterSet for MLKEM768 {
    const K: usize = 3;

    const ETA_1: Eta = Eta::Two;

    const ETA_2: Eta = Eta::Two;

    const D_U: usize = 10;

    const D_V: usize = 4;

    proof fn lemma_sizes()
        ensures
            Self::K == 3,
            Self::ETA_1 == Eta::Two,
            Self::ETA_2 == Eta::Two,
            Self::D_U == 10,
            Self::D_V == 4,
            Self::PKE_DECRYPTION_KEY_SIZE == 1152,
            Self::PKE_ENCRYPTION_KEY_SIZE == 1184,
            Self::DECAPS_KEY_SIZE == 2400,
            Self::ENCAPS_KEY_SIZE == 1184,
            Self::CIPHERTEXT_SIZE == 1088,
    {
    }
}

/// The parameter set of the highest strength, with vectors of four elements.
#[derive(Debug, Clone, Copy, PartialEq, Eq)]
pub struct MLKEM1024;

impl ParameterSet for MLKEM1024 {
    const K: usize = 4;

    const ETA_1: Eta = Eta::Two;

    const ETA_2: Eta = Eta::Two;

    const D_U: usize = 11;

    const D_V: usize = 5;

    proof fn lemma_sizes()
        ensures
            Self::K == 4,
            Self::ETA_1 == Eta::Two,
            Self::ETA_2 == Eta::Two,
            Self::D_U == 11,
            Self::D_V == 5,
            Self::PKE_DECRYPTION_KEY_SIZE == 1536,
            Self::PKE_ENCRYPTION_KEY_SIZE == 1568,
            Self::DECAPS_KEY_SIZE == 3168,
            Self::ENCAPS_KEY_SIZE == 1568,
            Self::CIPHERTEXT_SIZE == 1568,
    {
    }
}

} // verus!
