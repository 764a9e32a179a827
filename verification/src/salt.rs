//! Per-proof salt generation.

use vstd::prelude::*;

verus! {

/// `getrandom::fill`: fills the buffer with bytes from the operating
/// system's random source, or returns the source's error as text. The bytes
/// are random, so nothing is stated of them.
#[verifier::external_body]
fn fill_os_random(buf: &mut [u8; 32]) -> (r: Result<(), String>) {
    getrandom::fill(buf).map_err(|e| e.to_string())
}

/// Generates 32 random bytes for a single proof, or the random source's
/// error.
pub fn generate_proof_salt() -> (r: Result<[u8; 32], String>) {
    let mut salt = [0u8; 32];
    match fill_os_random(&mut salt) {
        Ok(()) => Ok(salt),
        Err(e) => Err(e),
    }
}

} // verus!
