//! Radix-16 Merkle-Patricia trie: a key/value store whose contents are
//! committed to by a single 32-byte digest, plus the hashing helpers used
//! for block headers in the surrounding system.

pub mod codec;
pub mod encode;
pub mod header;
pub mod nibble;
pub mod trie;
