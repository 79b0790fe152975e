use constitution_dao_core::channel_a::paradox::{
    detect_paradox, find_paradox_matches, get_paradox_patterns, repeated_name, ParadoxDetector,
};

#[test]
fn test_spec_test_vector() {
    assert!(detect_paradox("This proposal passes iff it fails."));
}

#[test]
fn test_liar_paradox() {
    assert!(detect_paradox("This statement is false"));
    assert!(detect_paradox("The following statement is false"));
    assert!(detect_paradox("This rule is false"));
}

#[test]
fn test_conditional_paradox() {
    assert!(detect_paradox("If this is true then it is false"));
    assert!(detect_paradox("If this passes then it fails"));
}

#[test]
fn test_motion_variants() {
    assert!(detect_paradox("The motion passes iff it fails"));
    assert!(detect_paradox("This amendment succeeds iff it is rejected"));
}

#[test]
fn test_normal_proposals_pass() {
    assert!(!detect_paradox("Transfer 100 tokens to the community fund"));
    assert!(!detect_paradox("Increase the quorum to 15%"));
    assert!(!detect_paradox("This proposal aims to improve governance"));
    assert!(!detect_paradox("If the vote passes, execute the transfer"));
}

#[test]
fn test_case_insensitivity() {
    assert!(detect_paradox("THIS PROPOSAL PASSES IFF IT FAILS"));
    assert!(detect_paradox("this proposal passes iff it fails"));
    assert!(detect_paradox("This Proposal Passes Iff It Fails"));
}

#[test]
fn test_find_matches() {
    let matches = find_paradox_matches("This proposal passes iff it fails");
    assert!(!matches.is_empty());

    let matches = find_paradox_matches("Normal proposal text");
    assert!(matches.is_empty());
}

#[test]
fn test_negation_loops() {
    assert!(detect_paradox("This passes only if it doesn't pass"));
}

#[test]
fn test_edge_cases() {
    assert!(!detect_paradox("passes iff"));
    assert!(!detect_paradox("This is a proposal"));
}

#[test]
fn test_paradox_detection() {
    assert!(detect_paradox("This proposal passes iff it fails"));
    assert!(!detect_paradox("A normal proposal text"));
}

#[test]
fn matches_report_index_and_text() {
    let matches = find_paradox_matches("This proposal passes iff it fails");
    assert_eq!(matches, vec![(0, "This proposal passes iff it fails".to_string())]);

    let matches = find_paradox_matches("Note: this statement is false, honestly.");
    assert_eq!(matches, vec![(1, "this statement is false".to_string())]);
}

#[test]
fn definition_and_russell_patterns() {
    assert!(detect_paradox("Let X be defined: define rule as not rule"));
    assert!(!detect_paradox("define rule as not other"));
    assert!(detect_paradox("the set of all proposals that do not reference themselves"));
    let matches = find_paradox_matches("define quorum as not quorum");
    assert_eq!(matches, vec![(4, "define quorum as not quorum".to_string())]);
}

#[test]
fn patterns_are_listed_in_order() {
    let patterns = get_paradox_patterns();
    assert_eq!(patterns.len(), 6);
    assert!(patterns[1].starts_with("(?i)(this rule|this statement"));
    assert!(patterns[5].contains("themselves|itself"));
}

#[test]
fn detector_can_be_reused() {
    let detector = ParadoxDetector::new();
    assert!(detector.detect("this rule is false"));
    assert!(!detector.detect("a plain rule"));
    assert_eq!(detector.find_matches("a plain rule"), Vec::new());
    assert!(!detect_paradox(""));
}

#[test]
fn definition_pattern_behaves_as_a_backreference() {
    // an earlier candidate does not hide a later, overlapping one
    assert!(detect_paradox("define x as not define y as not y"));
    assert_eq!(
        find_paradox_matches("define x as not define y as not y"),
        vec![(4, "define y as not y".to_string())]
    );
    // the repeated name may be a prefix of the following word
    assert_eq!(
        find_paradox_matches("define x as not xy"),
        vec![(4, "define x as not x".to_string())]
    );
    // case is ignored in the repetition
    assert!(detect_paradox("Let Quorum be set: let Quorum equal to the negation of QUORUM"));
    assert!(!detect_paradox("define x as not y"));
    assert!(!detect_paradox("set limit to be not"));
}

#[test]
fn repeated_name_checks_the_start_of_the_rest() {
    assert_eq!(repeated_name(&"quorum".to_string(), &"QUORUM rules".to_string()), Some("QUORUM".to_string()));
    assert_eq!(repeated_name(&"x".to_string(), &"xy".to_string()), Some("x".to_string()));
    assert_eq!(repeated_name(&"long".to_string(), &"lo".to_string()), None);
    assert_eq!(repeated_name(&"x".to_string(), &"y".to_string()), None);
}
