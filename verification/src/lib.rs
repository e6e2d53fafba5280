//! Content-addressed, encrypted, deduplicating backup store.
//!
//! A byte stream is cut into chunks at content-defined boundaries, each
//! unique chunk is stored once under the SHA-256 digest of its plaintext,
//! digests are gathered into a recursive index tree, and every stored
//! object is sealed with public-key authenticated encryption so that a
//! store operation needs only the repository's public key.

pub mod boxcrypt;
pub mod command;
pub mod chunker;
pub mod hex;
pub mod repo;
pub mod restore;
pub mod rolling;
pub mod store;
pub mod writer;
pub mod sha;

pub use hex::{to_hex, from_hex};
