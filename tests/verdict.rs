use constitution_dao_core::channel_a::canonicalize::canonicalize;
use constitution_dao_core::channel_a::cycles::{detect_cycles, CycleDetectionError};
use constitution_dao_core::channel_a::{compose_verdict, cycle_found_fail_open};
use constitution_dao_core::types::config::MAX_COMPLEXITY;
use constitution_dao_core::{verify_proposal, ChannelAVerdict, GovernanceLayer, Proposal};

fn proposal(logic: &str, text: &str) -> Proposal {
    Proposal::new(
        "rTestAddress123".to_string(),
        logic.to_string(),
        text.to_string(),
        GovernanceLayer::L2Operational,
    )
}

#[test]
fn test_simple_proposal_passes() {
    let verdict = verify_proposal(&proposal(
        r#"{"action": "transfer", "amount": 100}"#,
        "Transfer 100 tokens to the community fund",
    ));
    assert!(verdict.pass);
    assert!(!verdict.paradox_found);
    assert!(!verdict.cycle_found);
    assert!(verdict.complexity_score < MAX_COMPLEXITY);
}

#[test]
fn test_paradox_proposal_fails() {
    let verdict = verify_proposal(&proposal(
        r#"{"action": "conditional"}"#,
        "This proposal passes iff it fails",
    ));
    assert!(!verdict.pass);
    assert!(verdict.paradox_found);
}

#[test]
fn test_spec_test_vector_paradox() {
    let verdict = verify_proposal(&proposal(r#"{}"#, "This proposal passes iff it fails."));
    assert!(verdict.paradox_found);
}

#[test]
fn test_verify_proposal() {
    let verdict = verify_proposal(&Proposal::new(
        "rTestAddress".to_string(),
        r#"{"action": "test"}"#.to_string(),
        "A simple test proposal".to_string(),
        GovernanceLayer::L2Operational,
    ));
    assert!(verdict.pass);
}

#[test]
fn test_channel_a_verdict() {
    let pass = ChannelAVerdict::pass(100);
    assert!(pass.pass);
    assert!(!pass.paradox_found);
    assert!(!pass.cycle_found);

    let fail = ChannelAVerdict::fail(15000, true, false);
    assert!(!fail.pass);
    assert!(fail.paradox_found);
}

#[test]
fn scenario_a_identical_hash() {
    let p1 = proposal(r#"{"b":2,"a":1}"#, "Hello, World!");
    let p2 = proposal(r#"{"a":1,"b":2}"#, "HELLO, WORLD!");
    assert_eq!(canonicalize(&p1).unwrap().hash, canonicalize(&p2).unwrap().hash);
}

#[test]
fn scenario_b_transfer_passes() {
    let verdict = verify_proposal(&proposal(
        r#"{"action":"transfer","amount":100}"#,
        "Transfer 100 tokens to the community fund",
    ));
    assert!(verdict.pass);
    assert!(!verdict.paradox_found);
    assert!(!verdict.cycle_found);
    assert!(verdict.complexity_score <= 10_000);
}

#[test]
fn scenario_c_paradox_fails() {
    let verdict = verify_proposal(&proposal("{}", "This proposal passes iff it fails."));
    assert!(!verdict.pass);
    assert!(verdict.paradox_found);
}

#[test]
fn scenario_d_cycle_fails() {
    let verdict = verify_proposal(&proposal(
        r#"{"a":{"value":"$ref:b"},"b":{"value":"$ref:a"}}"#,
        "Swap dependency",
    ));
    assert!(verdict.cycle_found);
    assert!(!verdict.pass);
    assert!(!verdict.paradox_found);
}

#[test]
fn scenario_e_malformed_logic() {
    let p = proposal("not json", "Transfer 100 tokens");
    assert!(canonicalize(&p).is_err());
    let verdict = verify_proposal(&p);
    assert_eq!(verdict, ChannelAVerdict::fail(0, false, false));
    assert!(!verdict.pass);
    assert_eq!(verdict.complexity_score, 0);
    assert!(!verdict.paradox_found);
    assert!(!verdict.cycle_found);
    assert!(matches!(detect_cycles("not json"), Err(CycleDetectionError::JsonParseError(_))));
}

#[test]
fn malformed_logic_fails_even_with_paradox_text() {
    let verdict = verify_proposal(&proposal("{", "This statement is false"));
    assert_eq!(verdict, ChannelAVerdict::fail(0, false, false));
}

#[test]
fn cycle_policy_is_fail_open() {
    let parse_failure = detect_cycles("not json");
    assert!(!cycle_found_fail_open(&parse_failure));
    assert!(cycle_found_fail_open(&Ok(true)));
    assert!(!cycle_found_fail_open(&Ok(false)));
    let verdict = compose_verdict(true, 10, false, &parse_failure);
    assert_eq!(verdict, ChannelAVerdict::pass(10));
}

#[test]
fn composition_follows_the_policy() {
    let ok: Result<bool, CycleDetectionError> = Ok(false);
    let cyc: Result<bool, CycleDetectionError> = Ok(true);
    assert_eq!(compose_verdict(true, 10_000, false, &ok), ChannelAVerdict::pass(10_000));
    assert_eq!(
        compose_verdict(true, 10_001, false, &ok),
        ChannelAVerdict::fail(10_001, false, false)
    );
    assert_eq!(compose_verdict(true, 5, true, &cyc), ChannelAVerdict::fail(5, true, true));
    assert_eq!(compose_verdict(false, 5, true, &cyc), ChannelAVerdict::fail(0, false, false));
}

#[test]
fn verdict_score_is_the_complexity_of_the_payload() {
    let p = proposal(r#"{"b":2,"a":1}"#, "Hello, World!");
    let canonical = canonicalize(&p).unwrap();
    let verdict = verify_proposal(&p);
    assert_eq!(
        verdict.complexity_score,
        constitution_dao_core::channel_a::compute_complexity(&canonical.bytes)
    );
}
