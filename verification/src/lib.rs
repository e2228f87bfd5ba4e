//! Parallel brute-force search for integers whose SHA-256 digest ends in a
//! required number of zero nibbles, with an ordered merge of the matches
//! found by concurrently running workers.
//!
//! The verified core is split into:
//! - [`checker`]: the trailing-zero-nibble condition on a digest;
//! - [`hashing`]: the digest of a candidate and its hexadecimal rendering;
//! - [`worker`]: one worker's evaluation of a single candidate;
//! - [`merger`]: the watermark algorithm that restores ascending order on
//!   matches arriving from unordered concurrent workers.

pub mod checker;
pub mod hashing;
pub mod merger;
pub mod worker;
