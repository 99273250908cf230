//! Proofs that decoding inverts encoding.
pub mod codes;
pub mod parsing;
pub mod payload;
pub mod block;
pub mod stream;
pub mod rotations;
