//! The key encapsulation mechanism with the parameter set [`MLKEM768`].

use vstd::prelude::*;

use crate::parameters::MLKEM768;

pub use crate::kem::{Error, SharedSecret};

verus! {

/// An encapsulation key.
pub type EncapsulationKey = crate::kem::EncapsulationKey<MLKEM768>;

/// A decapsulation key.
pub type DecapsulationKey = crate::kem::DecapsulationKey<MLKEM768>;

/// A ciphertext.
pub type Ciphertext = crate::kem::Ciphertext<MLKEM768>;

} // verus!
