//! A zero-knowledge inner-product argument between a secret and a public vector of
//! scalars, over the Ristretto group, with Pedersen-style commitments.
pub mod field;
pub mod scalar;
pub mod point;
pub mod transcript;
pub mod model;
pub mod ipsp;
pub mod algebra;
pub mod laws;
pub mod account;
