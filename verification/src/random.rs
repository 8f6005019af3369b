//! The secure random source, called through the `rand` crate's `OsRng`.
//! Nothing is promised of the drawn bytes beyond their length: randomness
//! has no restatement.

use vstd::prelude::*;

use rand::RngCore;

verus! {

/// Relies on `rand::rngs::OsRng::try_fill_bytes`: on success the buffer is
/// filled with `n` bytes from the operating system's secure source; on
/// failure it reports an error, returned here as `None`.
#[verifier::external_body]
pub(crate) fn os_random_bytes(n: usize) -> (r: Option<Vec<u8>>)
    ensures
        r matches Some(b) ==> b@.len() == n,
{
    let mut buf = vec![0u8; n];
    match rand::rngs::OsRng.try_fill_bytes(&mut buf) {
        Ok(()) => Some(buf),
        Err(_) => None,
    }
}

} // verus!
