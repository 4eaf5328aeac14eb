//! The messages of the group protocol.
use vstd::prelude::*;
use crate::tree::RatchetTree;

verus! {

/// What an existing member sends a new one: its leaf, its path secret, the
/// tree and the epoch.
#[derive(Debug, Clone)]
pub struct ClientHello {
    pub index: usize,
    pub path_secret: Vec<u8>,
    pub tree: RatchetTree,
    pub epoch: usize,
}

/// The description of a new member as it is announced to the group.
#[derive(Debug, Clone)]
pub struct NewMemberPacket {
    index: usize,
    secret: Vec<u8>,
    public_keys: Vec<Vec<u8>>,
    dilithium_key: Vec<u8>,
    kyber_key: Vec<u8>,
}

} // verus!
