//! Reed-Solomon erasure coding over GF(2^8).
//!
//! A file is cut into `k` data shards, `m` parity shards are computed from
//! them, and any `k` of the `k + m` shards whose rows of the coding matrix
//! are independent give the file back.
//!
//! - `gf256`: the field, its tables and its laws.
//! - `linalg`: vectors and matrices over the field, as sequences.
//! - `matrix`: the product of a vector with a matrix, inversion, and the
//!   coding matrix.
//! - `shards`, `encode_shards`: the byte-wise kernels and the encoder.
//! - `recovery`, `reconstruct_shards`: what reconstruction computes, and
//!   the reconstructor with its cache of inverted matrices.
//! - `metadata`, `layout`: the record that goes with the shards, and the
//!   names under which they are kept.
//! - `encoding`, `decoding`: a file's way into shards and back.

pub mod decoding;
pub mod encode_shards;
pub mod encoding;
pub mod error;
mod gauss;
pub mod gf256;
pub mod layout;
pub mod linalg;
pub mod matrix;
pub mod metadata;
mod orbit;
pub mod reconstruct_shards;
pub mod recovery;
pub mod shards;
