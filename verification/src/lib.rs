//! Simple Merkle tree data structure.
//!
//! Builds an authenticated binary hash tree over an ordered sequence of data
//! blocks, exposes the root digest, and generates and verifies compact
//! inclusion proofs that a given value occupies a given position in the
//! original sequence.

pub mod crypto;
pub mod merkle;
