//! Base-`b` encoding of wide residues into negacyclic ring coefficients,
//! and modular sparse (CSR) matrix-vector products.
pub mod wide;
pub mod matrix;
pub mod encoder;
