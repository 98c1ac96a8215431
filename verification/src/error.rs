//! Errors the library reports.

use vstd::prelude::*;

verus! {

/// The kinds of failure the library distinguishes.
#[derive(Debug)]
pub enum Error {
    /// A transport failure talking to a calendar or block source,
    /// with what the transport reported.
    NetworkError(String),
    /// A proof file or fragment that does not parse, or whose structure
    /// violates the proof invariants.
    InvalidProof,
    /// A commitment that does not match the expected digest.
    DigestMismatch,
    /// Every calendar submission failed, so nothing was stamped.
    NoCalendarAvailable,
    /// No Bitcoin attestation is present, so nothing can be verified.
    NoAttestationFound,
}

impl Error {
    /// A short description naming the specific kind of failure.
    pub fn describe(&self) -> (r: &'static str)
        ensures
            r@ == match self {
                Error::NetworkError(_) => "network error"@,
                Error::InvalidProof => "invalid proof"@,
                Error::DigestMismatch => "digest mismatch"@,
                Error::NoCalendarAvailable => "no valid calendar found"@,
                Error::NoAttestationFound => "no bitcoin attestation found"@,
            },
    {
        match self {
            Error::NetworkError(_) => "network error",
            Error::InvalidProof => "invalid proof",
            Error::DigestMismatch => "digest mismatch",
            Error::NoCalendarAvailable => "no valid calendar found",
            Error::NoAttestationFound => "no bitcoin attestation found",
        }
    }
}

} // verus!
