//! Deterministic verification: four checks and their composition into a verdict.

pub mod canonicalize;
pub mod complexity;
pub mod cycles;
pub mod graph;
pub mod json;
pub mod order;
pub mod paradox;

pub use canonicalize::{canonicalize, CanonicalPayload};
pub use complexity::{check_complexity, compute_complexity, max_complexity};
pub use cycles::detect_cycles;
pub use paradox::detect_paradox;

use vstd::prelude::*;

use crate::channel_a::canonicalize::canonical_payload;
use crate::channel_a::complexity::complexity_score_of;
use crate::channel_a::cycles::{logic_edges, CycleDetectionError};
use crate::channel_a::graph::has_cycle;
use crate::channel_a::json::json_parse;
use crate::channel_a::paradox::paradox_in;
use crate::types::config::MAX_COMPLEXITY;
use crate::types::{ChannelAVerdict, Proposal};

verus! {

/// The verdict on a canonicalized proposal: it passes exactly when the score is
/// within the limit and neither a paradox nor a cycle was found.
pub open spec fn verdict_of(score: u64, paradox_found: bool, cycle_found: bool) -> ChannelAVerdict {
    ChannelAVerdict {
        pass: score <= MAX_COMPLEXITY && !paradox_found && !cycle_found,
        complexity_score: score,
        paradox_found,
        cycle_found,
    }
}

/// The verdict on a proposal that could not be canonicalized: an unconditional
/// fail with every finding zeroed.
pub open spec fn canonicalization_failed_verdict() -> ChannelAVerdict {
    ChannelAVerdict { pass: false, complexity_score: 0, paradox_found: false, cycle_found: false }
}

/// Cycle detection is fail-open inside the verifier: a logic description it cannot
/// parse counts as having no cycle.
pub fn cycle_found_fail_open(outcome: &Result<bool, CycleDetectionError>) -> (r: bool)
    ensures
        r == (*outcome matches Ok(b) && b),
{
    match outcome {
        Ok(b) => *b,
        Err(_) => false,
    }
}

/// Folds the outcomes of the checks into a verdict. Canonicalization failure is
/// fail-closed: it gives an unconditional fail whatever the other outcomes were.
pub fn compose_verdict(
    canonicalized: bool,
    complexity_score: u64,
    paradox_found: bool,
    cycles: &Result<bool, CycleDetectionError>,
) -> (r: ChannelAVerdict)
    ensures
        !canonicalized ==> r == canonicalization_failed_verdict(),
        canonicalized ==> r == verdict_of(
            complexity_score,
            paradox_found,
            *cycles matches Ok(b) && b,
        ),
{
    if !canonicalized {
        return ChannelAVerdict::fail(0, false, false);
    }
    let cycle_found = cycle_found_fail_open(cycles);
    let pass = complexity_score <= MAX_COMPLEXITY && !paradox_found && !cycle_found;
    if pass {
        ChannelAVerdict::pass(complexity_score)
    } else {
        ChannelAVerdict::fail(complexity_score, paradox_found, cycle_found)
    }
}

/// Verifies a proposal: canonicalize, score the canonical payload, look for
/// paradoxes in the raw text and for cycles in the raw logic, and fold the results.
pub fn verify_proposal(proposal: &Proposal) -> (r: ChannelAVerdict)
    ensures
        match json_parse(proposal.logic_ast@) {
            None => r == canonicalization_failed_verdict(),
            Some(v) => {
                r == verdict_of(
                    complexity_score_of(canonical_payload(v, proposal.text@)),
                    paradox_in(proposal.text@),
                    has_cycle(logic_edges(v)),
                )
            },
        },
{
    let canonical = match canonicalize(proposal) {
        Ok(c) => c,
        Err(_) => {
            let no_cycles: Result<bool, CycleDetectionError> = Ok(false);
            return compose_verdict(false, 0, false, &no_cycles);
        },
    };
    let complexity_score = compute_complexity(canonical.bytes.as_slice());
    let paradox_found = detect_paradox(proposal.text.as_str());
    let cycles = detect_cycles(proposal.logic_ast.as_str());
    compose_verdict(true, complexity_score, paradox_found, &cycles)
}

} // verus!
