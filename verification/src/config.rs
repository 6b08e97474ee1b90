//! The parts of the configuration that the inventory reads.

use vstd::prelude::*;

verus! {

/// Where the two databases live.
#[derive(Clone, Debug, PartialEq, Eq)]
pub struct Database {
    pub file: String,
    pub metadata: String,
}

/// What a caller has to know to log in.
#[derive(Clone, Debug, PartialEq, Eq)]
pub struct Auth {
    pub password: String,
}

/// The length in bytes of the master key that signs session cookies.
pub const MASTER_KEY_LEN: usize = 64;

/// Whether the bytes read from the key file can serve as the master key: a
/// file of any other length is replaced by a fresh key.
pub fn is_master_key(stored: &[u8]) -> (usable: bool)
    ensures
        usable == (stored@.len() == MASTER_KEY_LEN),
{
    stored.len() == MASTER_KEY_LEN
}

} // verus!
