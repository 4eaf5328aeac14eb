//! Group key management for a post-quantum messenger: the ratchet tree of a
//! group, the secrets derived along it, and the byte formats of the packets
//! that carry them.
use vstd::prelude::*;

pub mod levels;
pub mod tree;
pub mod secrets;
pub mod primitives;
pub mod crypto;
pub mod tree_update;
pub mod group;
pub mod packet;
pub mod groups;
pub mod identity;
pub mod wire;
pub mod aead;
pub mod group_flow;
pub mod chat;
pub mod settings;
pub mod profile;
pub mod path_math;
pub mod laws;
pub mod tree_laws;
pub mod checks;
pub mod key_laws;

use crate::primitives::{os_random_bytes, os_random_in_range, sha256, sha256_digest};

verus! {

/// The SHA-256 digest of `data`.
pub fn hash_data(data: &[u8]) -> (r: Vec<u8>)
    ensures
        r@ == sha256(data@),
        r@.len() == 32,
{
    sha256_digest(data)
}

/// A fresh random 32-byte key from the operating system.
pub fn random_key() -> (r: Vec<u8>)
    ensures
        r@.len() == 32,
{
    os_random_bytes(32)
}

/// A random value in `min..max` from the operating system; the range must
/// not be empty.
pub fn random_in_range(min: usize, max: usize) -> (r: usize)
    requires
        min < max,
    ensures
        min <= r < max,
{
    os_random_in_range(min, max)
}

} // verus!
