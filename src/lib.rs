//! A sum-check protocol engine over the Goldilocks field, made
//! non-interactive with a Fiat-Shamir transcript.
pub mod error;
pub mod field;
pub mod interp;
pub mod mle;
pub mod protocol;
pub mod transcript;
pub mod univariate;
pub mod virtual_poly;
