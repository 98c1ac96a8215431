//! An OpenTimestamps client library: proof DAGs over hash commitments,
//! Merkle batching of many digests under one anchor, the detached-proof
//! wire format, and the stamp / upgrade / verify orchestration logic.

pub mod hashes;
pub mod hexs;
pub mod op;
pub mod attestation;
pub mod timestamp;
pub mod merkle;
pub mod ser;
pub mod error;
pub mod client;
