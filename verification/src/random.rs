//! Fresh secret material from the operating system.

use rand::rngs::OsRng;
use rand::RngCore;
use vstd::prelude::*;

verus! {

/// Calls `RngCore::fill_bytes` on `rand::rngs::OsRng`, the operating
/// system's source of cryptographically secure random bytes.
///
/// Nothing is claimed of the sixteen bytes that come back, and two calls may
/// differ. The call ends the process instead of returning if the operating
/// system has no random bytes to give.
#[verifier::external_body]
pub(crate) fn random_block() -> (out: [u8; 16]) {
    let mut out = [0u8; 16];
    OsRng.fill_bytes(&mut out);
    out
}

} // verus!
