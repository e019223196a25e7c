//! The command lines of the tools that measure the library.
//!
//! What is to be run is decided here; running it is left to the caller.

pub mod laws;
pub mod mca;
pub mod profile;
pub mod text;
