//! The key encapsulation mechanism with the parameter set [`MLKEM512`].

use vstd::prelude::*;

use crate::parameters::MLKEM512;

pub use crate::kem::{Error, SharedSecret};

verus! {

/// An encapsulation key.
pub type EncapsulationKey = crate::kem::EncapsulationKey<MLKEM512>;

/// A decapsulation key.
pub type DecapsulationKey = crate::kem::DecapsulationKey<MLKEM512>;

/// A ciphertext.
pub type Ciphertext = crate::kem::Ciphertext<MLKEM512>;

} // verus!
