//! Deterministic proposal verification.
//!
//! Four reproducible checks run on a governance proposal, and their results
//! decide whether it passes:
//! - canonicalization: a deterministic byte payload and its SHA-256 hash,
//! - complexity scoring: the zlib-compressed size of that payload,
//! - paradox detection: self-referential patterns in the proposal text,
//! - cycle detection: strongly connected components of the dependency graph
//!   found in the proposal's logic description.

pub mod channel_a;
pub mod types;

pub use channel_a::verify_proposal;
pub use types::{
    ChannelAVerdict, DecidabilityClass, FraudProof, FraudProofWitness, GovernanceLayer,
    OracleOperator, Proposal, ProposalStatus, Vote,
};
