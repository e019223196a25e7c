//! A module-lattice key encapsulation mechanism.
//!
//! [`DecapsulationKey::generate`] makes a key, [`EncapsulationKey::encapsulate`]
//! a shared secret and a ciphertext for the holder of the key, and
//! [`DecapsulationKey::decapsulate`] recovers the secret from the ciphertext.
//! The parameter sets are [`MLKEM512`], [`MLKEM768`] and [`MLKEM1024`].

#![allow(non_snake_case)]

pub mod algebraic;
mod bytes;
pub mod constant_time;
pub mod drbg;
pub mod encoding;
pub mod entropy;
pub mod functions;
pub mod kem;
pub mod mlkem1024;
pub mod mlkem512;
pub mod mlkem768;
pub mod parameters;
pub mod PKE;
pub mod sampling;
pub mod tools;
mod wipe;

pub use entropy::EntropyUnavailable;
pub use kem::{Ciphertext, DecapsulationKey, EncapsulationKey, Error, SharedSecret};
pub use parameters::{ParameterSet, MLKEM1024, MLKEM512, MLKEM768};
