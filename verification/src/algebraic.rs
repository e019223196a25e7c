//! Polynomial ring arithmetic over the field of integers modulo `q`.

pub mod field;
pub mod kernels;
pub mod laws;
pub mod matrix;
pub mod modular;
pub mod poly;
pub mod ring;
pub mod transform;
pub mod vector;
pub mod zetas;

pub use field::FieldElement;
pub use matrix::TqMatrix;
pub use poly::{PolynomialRingElement, RqElement, TqElement, TqMulCache};
pub use vector::{CachedTqVector, RqVector, TqVector};
