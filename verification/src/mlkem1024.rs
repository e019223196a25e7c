//! The key encapsulation mechanism with the parameter set [`MLKEM1024`].

use vstd::prelude::*;

use crate::parameters::MLKEM1024;

pub use crate::kem::{Error, SharedSecret};

verus! {

/// An encapsulation key.
pub type EncapsulationKey = crate::kem::EncapsulationKey<MLKEM1024>;

/// A decapsulation key.
pub type DecapsulationKey = crate::kem::DecapsulationKey<MLKEM1024>;

/// A ciphertext.
pub type Ciphertext = crate::kem::Ciphertext<MLKEM1024>;

} // verus!
