use constitution_dao_core::channel_a::canonicalize::{
    canonical_logic_bytes, canonicalize, canonicalize_proposal, clean_lowered, normalize_text,
    squeeze_spaces, CanonicalizeError,
};
use constitution_dao_core::{GovernanceLayer, Proposal};

fn proposal(logic: &str, text: &str) -> Proposal {
    Proposal::new(
        "rAddr".to_string(),
        logic.to_string(),
        text.to_string(),
        GovernanceLayer::L2Operational,
    )
}

#[test]
fn test_sort_json_keys() {
    let output = canonical_logic_bytes(r#"{"z": 1, "a": 2, "m": {"y": 3, "b": 4}}"#).unwrap();
    assert_eq!(String::from_utf8(output).unwrap(), r#"{"a":2,"m":{"b":4,"y":3},"z":1}"#);
}

#[test]
fn test_normalize_text() {
    assert_eq!(normalize_text("Hello, World!"), "hello world");
    assert_eq!(normalize_text("  Multiple   spaces  "), "multiple spaces");
    assert_eq!(normalize_text("This is a test."), "this is a test");
    assert_eq!(normalize_text("UPPERCASE lowercase MiXeD"), "uppercase lowercase mixed");
}

#[test]
fn test_canonicalize_deterministic() {
    let proposal1 = proposal(r#"{"b": 2, "a": 1}"#, "Hello, World!");
    let proposal2 = proposal(r#"{"a": 1, "b": 2}"#, "HELLO, WORLD!");

    let c1 = canonicalize(&proposal1).unwrap();
    let c2 = canonicalize(&proposal2).unwrap();

    assert_eq!(c1.hash, c2.hash);
}

#[test]
fn test_canonical_payload_format() {
    let canonical = canonicalize(&proposal(r#"{"action": "test"}"#, "Test proposal")).unwrap();
    let payload_str = String::from_utf8(canonical.bytes.clone()).unwrap();

    assert!(payload_str.contains("."));
    assert!(payload_str.ends_with("test proposal"));
}

#[test]
fn canonical_payload_bytes_and_hash_are_exact() {
    let canonical = canonicalize(&proposal(r#"{"b":2,"a":1}"#, "Hello, World!")).unwrap();
    assert_eq!(canonical.bytes, br#"{"a":1,"b":2}.hello world"#.to_vec());
    assert_eq!(
        canonical.hash_hex(),
        "bb59f3d74487c04527d4cc5bbc4b613767d5a0b721caa7f6184c1bbe7d0813b7"
    );
}

#[test]
fn empty_logic_and_empty_text() {
    let canonical = canonicalize(&proposal("{}", "")).unwrap();
    assert_eq!(canonical.bytes, b"{}.".to_vec());
    assert_eq!(
        canonical.hash_hex(),
        "b4ecea9969b835e7698be34143aeecded3ff084e6ef1d35b27f6fd631670910b"
    );
}

#[test]
fn reordered_nested_logic_and_respaced_text_give_same_payload() {
    let a = canonicalize(&proposal(
        r#"{"x": {"q": [1, {"d": null, "c": true}], "p": "s"}, "w": false}"#,
        "Move   the Funds!\n\tNOW",
    ))
    .unwrap();
    let b = canonicalize(&proposal(
        r#"{"w": false, "x": {"p": "s", "q": [1, {"c": true, "d": null}]}}"#,
        "move the funds now...",
    ))
    .unwrap();
    assert_eq!(a.bytes, b.bytes);
    assert_eq!(a.hash, b.hash);
    assert_eq!(
        String::from_utf8(a.bytes).unwrap(),
        r#"{"w":false,"x":{"p":"s","q":[1,{"c":true,"d":null}]}}.move the funds now"#
    );
}

#[test]
fn different_logic_gives_different_hash() {
    let a = canonicalize(&proposal(r#"{"a":1}"#, "same")).unwrap();
    let b = canonicalize(&proposal(r#"{"a":2}"#, "same")).unwrap();
    assert_ne!(a.hash, b.hash);
}

#[test]
fn sorting_sorted_logic_changes_nothing() {
    let once = canonical_logic_bytes(r#"{"b": [3, {"z": 1, "y": 2}], "a": {"k": "v", "e": 0}}"#)
        .unwrap();
    let text = String::from_utf8(once.clone()).unwrap();
    let twice = canonical_logic_bytes(&text).unwrap();
    assert_eq!(once, twice);
    assert_eq!(text, r#"{"a":{"e":0,"k":"v"},"b":[3,{"y":2,"z":1}]}"#);
}

#[test]
fn keys_sort_by_bytes_with_prefix_first() {
    let out = canonical_logic_bytes(r#"{"ab": 1, "a": 2, "B": 3, "é": 4, "b": 5}"#).unwrap();
    assert_eq!(String::from_utf8(out).unwrap(), r#"{"B":3,"a":2,"ab":1,"b":5,"é":4}"#);
}

#[test]
fn strings_are_escaped_in_the_compact_encoding() {
    let out = canonical_logic_bytes("{\"k\": \"a\\\"b\\\\c\\n\\t\\u0001\\u001f/é\"}").unwrap();
    assert_eq!(
        String::from_utf8(out).unwrap(),
        "{\"k\":\"a\\\"b\\\\c\\n\\t\\u0001\\u001f/é\"}"
    );
}

#[test]
fn numbers_keep_serde_json_formatting() {
    let out = canonical_logic_bytes(r#"[1.50, -7, 0, 12345678901234567890]"#).unwrap();
    assert_eq!(String::from_utf8(out).unwrap(), "[1.5,-7,0,12345678901234567890]");
}

#[test]
fn scalar_and_array_logic_is_accepted() {
    assert_eq!(canonical_logic_bytes("[]").unwrap(), b"[]".to_vec());
    assert_eq!(canonical_logic_bytes("\"x\"").unwrap(), b"\"x\"".to_vec());
    assert_eq!(canonical_logic_bytes("null").unwrap(), b"null".to_vec());
}

#[test]
fn invalid_logic_is_a_parse_error() {
    match canonicalize(&proposal("not json", "text")) {
        Err(CanonicalizeError::JsonParseError(_)) => {}
        other => panic!("unexpected: {:?}", other.map(|c| c.bytes)),
    }
    assert!(matches!(
        canonical_logic_bytes("{\"a\": }"),
        Err(CanonicalizeError::JsonParseError(_))
    ));
}

#[test]
fn normalize_text_edge_cases() {
    assert_eq!(normalize_text(""), "");
    assert_eq!(normalize_text("   \t\n "), "");
    assert_eq!(normalize_text("!!!"), "");
    assert_eq!(normalize_text("a,b"), "ab");
    assert_eq!(normalize_text("Über\u{00A0}ÅNGSTRÖM 42%"), "über ångström 42");
}

#[test]
fn canonicalize_proposal_hex_encodes() {
    let result = canonicalize_proposal(
        "rAddr".to_string(),
        r#"{"action": "test"}"#.to_string(),
        "Test proposal".to_string(),
        GovernanceLayer::L2Operational,
    )
    .unwrap();
    assert_eq!(result.payload_hex, hex::encode(br#"{"action":"test"}.test proposal"#));
    assert_eq!(
        result.hash,
        "f1c8be82b9b60266f4716ba2fbae265ed2b839524a9f1916046288260b98a850"
    );
    assert_eq!(result.length, 31);
}

#[test]
fn encoding_matches_serde_json_compact_output() {
    // serde_json keeps object keys in a sorted map, so its compact output of a
    // parsed value is the canonical encoding of the same tree
    let inputs = [
        r#"{"z": 1, "a": [true, false, null], "m": {"y": "\u0000\u007f\b\f", "b": -2.5e-3}}"#,
        r#"{"k": "tab\tquote\"slash\\/ünï©ødé 😀", "n": 18446744073709551615}"#,
        r#"[{"b": {}, "a": []}, "x", 0.1, -0, 1e300]"#,
        r#""just a string""#,
    ];
    for input in inputs {
        let value: serde_json::Value = serde_json::from_str(input).unwrap();
        let expected = serde_json::to_vec(&value).unwrap();
        assert_eq!(canonical_logic_bytes(input).unwrap(), expected, "input {}", input);
    }
}

#[test]
fn clean_and_squeeze_steps() {
    let lowered: Vec<char> = "a,\tb!  c\u{3000}".chars().collect();
    let cleaned = clean_lowered(&lowered);
    assert_eq!(cleaned, vec!['a', ' ', 'b', ' ', ' ', 'c', ' ']);
    assert_eq!(squeeze_spaces(&cleaned), vec!['a', ' ', 'b', ' ', 'c']);
    assert_eq!(squeeze_spaces(&vec![' ', ' ']), Vec::<char>::new());
}

#[test]
fn texts_differing_in_punctuation_and_spacing_share_a_hash() {
    let a = canonicalize(&proposal("{}", "  Raise the FEE, now!!")).unwrap();
    let b = canonicalize(&proposal("{}", "raise\n\nthe fee now")).unwrap();
    assert_eq!(a.bytes, b.bytes);
    assert_eq!(a.hash, b.hash);
}
