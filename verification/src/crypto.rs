//! The header that travels with each sealed payload.

use crate::hydrogen::KX_N_PACKET1BYTES;
use vstd::prelude::*;

verus! {

/// Number of bytes in the identifier of a master key.
pub const KEYID_SZ: usize = 32;

/// What the holder of a master key needs to open a payload: which key it
/// was sealed for, and the first packet of the key exchange.
#[derive(Debug, Clone, Copy, PartialEq, Eq)]
pub struct EncryptionHeader {
    pub master_key_id: [u8; KEYID_SZ],
    pub packet1: [u8; KX_N_PACKET1BYTES],
}

/// An encryption header, tagged with the version of its layout.
#[derive(Debug, Clone, Copy, PartialEq, Eq)]
pub enum VersionedEncryptionHeader {
    V1(EncryptionHeader),
}

} // verus!
