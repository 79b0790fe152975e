//! Core data types of the governance process.

pub mod config;

use vstd::prelude::*;

verus! {

/// How a proposal is routed through governance.
#[derive(Debug, Clone, Copy, PartialEq, Eq, Structural)]
pub enum DecidabilityClass {
    /// Formally verifiable.
    I,
    /// Needs a passing deterministic verdict.
    II,
    /// Needs human judgment.
    III,
}

impl Default for DecidabilityClass {
    fn default() -> (r: Self)
        ensures
            r == DecidabilityClass::II,
    {
        DecidabilityClass::II
    }
}

/// Verdict of the deterministic checks.
#[derive(Debug, Clone, PartialEq, Eq, Structural)]
pub struct ChannelAVerdict {
    /// Whether the proposal passed every check.
    pub pass: bool,
    /// Size of the compressed canonical payload.
    pub complexity_score: u64,
    /// Whether the text holds a self-referential paradox.
    pub paradox_found: bool,
    /// Whether the logic holds a dependency cycle.
    pub cycle_found: bool,
}

impl ChannelAVerdict {
    /// A passing verdict with the given score.
    pub fn pass(complexity_score: u64) -> (r: Self)
        ensures
            r == (ChannelAVerdict {
                pass: true,
                complexity_score,
                paradox_found: false,
                cycle_found: false,
            }),
    {
        ChannelAVerdict { pass: true, complexity_score, paradox_found: false, cycle_found: false }
    }

    /// A failing verdict with the given findings.
    pub fn fail(complexity_score: u64, paradox_found: bool, cycle_found: bool) -> (r: Self)
        ensures
            r == (ChannelAVerdict { pass: false, complexity_score, paradox_found, cycle_found }),
    {
        ChannelAVerdict { pass: false, complexity_score, paradox_found, cycle_found }
    }
}

/// Layer of the four-layer constitutional model; lower layers cannot modify
/// higher ones.
#[derive(Debug, Clone, Copy, PartialEq, Eq, Structural)]
pub enum GovernanceLayer {
    /// Immutable core axioms.
    L0Immutable,
    /// High-level governance rules.
    L1Constitutional,
    /// Day-to-day parameters.
    L2Operational,
    /// Contract implementations.
    L3Execution,
}

impl Default for GovernanceLayer {
    fn default() -> (r: Self)
        ensures
            r == GovernanceLayer::L2Operational,
    {
        GovernanceLayer::L2Operational
    }
}

/// Lifecycle status of a proposal.
#[derive(Debug, Clone, Copy, PartialEq, Eq, Structural)]
pub enum ProposalStatus {
    Pending,
    ChannelAReview,
    ChannelBReview,
    Voting,
    RequiresHumanReview,
    Passed,
    Rejected,
    Executed,
}

impl Default for ProposalStatus {
    fn default() -> (r: Self)
        ensures
            r == ProposalStatus::Pending,
    {
        ProposalStatus::Pending
    }
}

/// A governance proposal.
#[derive(Debug, Clone, PartialEq, Eq)]
pub struct Proposal {
    /// Identifier: the SHA-256 hash of the canonical payload, once computed.
    pub id: [u8; 32],
    /// Address of the proposer.
    pub proposer: String,
    /// Logic description, as JSON text.
    pub logic_ast: String,
    /// Free text.
    pub text: String,
    /// Target governance layer.
    pub layer: GovernanceLayer,
    /// Creation time, in seconds since the Unix epoch.
    pub created_at: u64,
    /// Lifecycle status.
    pub status: ProposalStatus,
}

/// Relies on `std::time::SystemTime::now`: whole seconds since the Unix epoch, or 0
/// for a clock set before it. Nothing is promised of the value.
#[verifier::external_body]
fn unix_time_now() -> u64 {
    std::time::SystemTime::now().duration_since(std::time::UNIX_EPOCH).unwrap_or_default().as_secs()
}

impl Proposal {
    /// A pending proposal created now; its identifier is all zero until the
    /// canonical payload is computed.
    pub fn new(proposer: String, logic_ast: String, text: String, layer: GovernanceLayer) -> (r:
        Self)
        ensures
            r.id@ == Seq::new(32, |i: int| 0u8),
            r.proposer == proposer,
            r.logic_ast == logic_ast,
            r.text == text,
            r.layer == layer,
            r.status == ProposalStatus::Pending,
    {
        let id: [u8; 32] = [0u8; 32];
        assert(id@ =~= Seq::new(32, |i: int| 0u8));
        Proposal {
            id,
            proposer,
            logic_ast,
            text,
            layer,
            created_at: unix_time_now(),
            status: ProposalStatus::Pending,
        }
    }

    /// The same proposal with the given identifier.
    pub fn with_id(self, id: [u8; 32]) -> (r: Self)
        ensures
            r == (Proposal { id, ..self }),
    {
        let mut p = self;
        p.id = id;
        p
    }
}

/// A vote on a proposal.
#[derive(Debug, Clone, Copy, PartialEq, Eq, Structural)]
pub enum Vote {
    Yes,
    No,
    Abstain,
}

/// An oracle operator.
#[derive(Debug, Clone, PartialEq, Eq)]
pub struct OracleOperator {
    /// Address of the operator.
    pub address: String,
    /// Bond amount in drops.
    pub bond_amount: String,
    /// Escrow sequence number.
    pub escrow_sequence: u32,
    /// Registration time, in seconds since the Unix epoch.
    pub registered_at: u64,
    /// Whether the operator is in the active set.
    pub active: bool,
    /// Time at which a pending unbond completes, if any.
    pub unbonding_at: Option<u64>,
}

/// Proof that a submitted verdict differs from the recomputed one.
#[derive(Debug, Clone, PartialEq, Eq)]
pub struct FraudProof {
    /// The challenged proposal.
    pub proposal_id: [u8; 32],
    /// The verdict the oracle submitted.
    pub claimed_verdict: ChannelAVerdict,
    /// The recomputed verdict.
    pub actual_verdict: ChannelAVerdict,
    /// Witness data.
    pub witness: FraudProofWitness,
}

/// Witness data of a fraud proof.
#[derive(Debug, Clone, PartialEq, Eq)]
pub struct FraudProofWitness {
    /// The canonical payload bytes, hex encoded.
    pub canonical_payload: String,
    /// Computation trace.
    pub computation_trace: Vec<String>,
}

} // verus!
