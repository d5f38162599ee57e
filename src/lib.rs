//! An append-only authenticated directory tree: a compressed binary trie over
//! 256-bit labels, sealed once per epoch under a BLAKE3 root digest, with
//! membership and non-membership proofs and their stateless verification.

pub mod azks;
pub mod errors;
pub mod hash;
pub mod label;
pub mod tree;
pub mod verify;
