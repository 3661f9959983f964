//! Encodings, parameters of the scheme, and matrices.
pub mod format;
pub mod lwe;
pub mod matrices;
