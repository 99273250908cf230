//! Encoding and decoding of bzip2 streams, with machine-checked contracts.
pub mod bitwise;
pub mod block;
pub mod error;
pub mod stream;
pub mod round_trip;
pub use block::symbol_statistics::EncodingStrategy;
