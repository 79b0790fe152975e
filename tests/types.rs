use constitution_dao_core::types::config::{
    ACTIVE_ORACLE_SET_SIZE, JURY_SIZE, JURY_VOTING_PERIOD, ORACLE_BOND,
};
use constitution_dao_core::{
    DecidabilityClass, GovernanceLayer, Proposal, ProposalStatus,
};

#[test]
fn defaults() {
    assert_eq!(DecidabilityClass::default(), DecidabilityClass::II);
    assert_eq!(GovernanceLayer::default(), GovernanceLayer::L2Operational);
    assert_eq!(ProposalStatus::default(), ProposalStatus::Pending);
}

#[test]
fn new_proposal_is_pending_with_zero_id() {
    let p = Proposal::new(
        "rAddr".to_string(),
        "{}".to_string(),
        "text".to_string(),
        GovernanceLayer::L1Constitutional,
    );
    assert_eq!(p.id, [0u8; 32]);
    assert_eq!(p.proposer, "rAddr");
    assert_eq!(p.logic_ast, "{}");
    assert_eq!(p.text, "text");
    assert_eq!(p.layer, GovernanceLayer::L1Constitutional);
    assert_eq!(p.status, ProposalStatus::Pending);
    let id = [7u8; 32];
    let q = p.clone().with_id(id);
    assert_eq!(q.id, id);
    assert_eq!(q.text, p.text);
    assert_eq!(q.created_at, p.created_at);
}

#[test]
fn configuration_constants() {
    assert_eq!(ORACLE_BOND, "100000000000");
    assert_eq!(JURY_SIZE, 21);
    assert_eq!(JURY_VOTING_PERIOD, 259_200);
    assert_eq!(ACTIVE_ORACLE_SET_SIZE, 101);
}
