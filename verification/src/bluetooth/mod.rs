//! Frames carried over Bluetooth: by a radio that the platform holds, or by one
//! of our own.

pub mod bridge;
pub mod local;

use crate::encoding;
use vstd::prelude::*;

verus! {

/// The bytes by chance that go into a beacon, where the system has any. Nothing is
/// known of them.
pub fn fresh_nonce() -> (nonce: Option<[u8; 8]>) {
    encoding::random_bytes::<8>()
}

} // verus!
