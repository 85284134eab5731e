//! Bao: a verified streaming hash and encoding over a BLAKE2b Merkle tree.
//!
//! `hash` holds the node hashing rules and the tree geometry, `encode` lays
//! out combined and outboard encodings, `decode` holds the suspendable
//! verifying state machine and a seekable verifying reader, `whole`
//! decodes a whole encoding at once, `slice` extracts and verifies the part
//! of an encoding that a range of content needs, and `writer` hashes content
//! that arrives in pieces.

pub mod decode;
pub mod encode;
pub mod hash;
pub mod slice;
pub mod whole;
pub mod writer;
