//! Verified core of the Secure Remote Password protocol (the SRP-6 family):
//! group parameters, registration, and the client- and server-side handshake
//! computations, built over an external big-integer and hash/MAC backend.

use vstd::prelude::*;

pub mod algo;
pub mod big;
pub mod encoding;
pub mod hashing;
pub mod random;

verus! {

/// The ways a handshake computation can fail.
#[derive(Clone, Copy, Debug, PartialEq, Eq, Structural)]
pub enum SrpError {
    /// A big integer could not be parsed from its textual form.
    ParseError,
    /// The secure random source could not produce bytes.
    RandomSourceUnavailable,
    /// A peer's public ephemeral value is degenerate (congruent to 0 mod N).
    InvalidPublicValue,
}

} // verus!
