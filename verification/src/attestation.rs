//! Attestations: claims that a commitment existed at some time.

use vstd::prelude::*;

verus! {

/// Mathematical model of an attestation.
pub enum AttV {
    /// The commitment is the Merkle root of the Bitcoin block at `height`.
    Bitcoin { height: usize },
    /// A calendar at `uri` will eventually supply a completed attestation.
    Pending { uri: Seq<char> },
    /// A forward-compatible placeholder, never resolvable locally.
    Unknown { tag: Seq<u8>, data: Seq<u8> },
}

/// A claim about the digest reached at a proof step.
pub enum Attestation {
    /// The commitment is the Merkle root of the Bitcoin block at `height`.
    Bitcoin { height: usize },
    /// A calendar at `uri` will eventually supply a completed attestation.
    Pending { uri: String },
    /// A forward-compatible placeholder, never resolvable locally.
    Unknown { tag: Vec<u8>, data: Vec<u8> },
}

impl View for Attestation {
    type V = AttV;

    open spec fn view(&self) -> AttV {
        match self {
            Attestation::Bitcoin { height } => AttV::Bitcoin { height: *height },
            Attestation::Pending { uri } => AttV::Pending { uri: uri@ },
            Attestation::Unknown { tag, data } => AttV::Unknown { tag: tag@, data: data@ },
        }
    }
}

impl Attestation {
    /// Makes a deep copy of the attestation.
    pub fn duplicate(&self) -> (r: Attestation)
        ensures
            r@ == self@,
    {
        match self {
            Attestation::Bitcoin { height } => Attestation::Bitcoin { height: *height },
            Attestation::Pending { uri } => Attestation::Pending { uri: uri.clone() },
            Attestation::Unknown { tag, data } => Attestation::Unknown {
                tag: crate::op::copy_bytes(tag),
                data: crate::op::copy_bytes(data),
            },
        }
    }
}

} // verus!
