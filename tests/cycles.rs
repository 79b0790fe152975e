use constitution_dao_core::channel_a::cycles::{
    cyclic_groups, detect_cycles, find_cycles_detail, has_dependency_cycle, CycleDetectionError,
};
use constitution_dao_core::channel_a::json::Json;

#[test]
fn test_no_cycles() {
    let ast = r#"{
        "a": {"value": 1},
        "b": {"value": "$ref:a"},
        "c": {"value": "$ref:b"}
    }"#;

    assert!(!detect_cycles(ast).unwrap());
}

#[test]
fn test_self_reference() {
    let ast = r#"{
            "a": {"value": "$ref:a"}
        }"#;

    assert!(detect_cycles(ast).unwrap());
}

#[test]
fn test_two_node_cycle() {
    let ast = r#"{
        "a": {"value": "$ref:b"},
        "b": {"value": "$ref:a"}
    }"#;

    assert!(detect_cycles(ast).unwrap());
}

#[test]
fn test_three_node_cycle() {
    let ast = r#"{
        "a": {"value": "$ref:b"},
        "b": {"value": "$ref:c"},
        "c": {"value": "$ref:a"}
    }"#;

    assert!(detect_cycles(ast).unwrap());
}

#[test]
fn test_depends_on_array() {
    let ast = r#"{
        "a": {"depends_on": ["b"]},
        "b": {"depends_on": ["a"]}
    }"#;

    assert!(detect_cycles(ast).unwrap());
}

#[test]
fn test_complex_acyclic() {
    let ast = r#"{
        "root": {"depends_on": ["a", "b"]},
        "a": {"depends_on": ["c"]},
        "b": {"depends_on": ["c"]},
        "c": {"value": 1}
    }"#;

    assert!(!detect_cycles(ast).unwrap());
}

#[test]
fn test_empty_ast() {
    assert!(!detect_cycles("{}").unwrap());
}

#[test]
fn test_find_cycles_detail() {
    let ast = r#"{
        "a": {"value": "$ref:b"},
        "b": {"value": "$ref:a"},
        "c": {"value": "$ref:c"}
    }"#;

    let cycles = find_cycles_detail(ast).unwrap();
    assert_eq!(cycles.len(), 2);
}

#[test]
fn test_reference_to_nonexistent() {
    let ast = r#"{
            "a": {"value": "$ref:nonexistent"}
        }"#;

    assert!(!detect_cycles(ast).unwrap());
}

#[test]
fn references_and_ref_fields_make_edges() {
    assert!(detect_cycles(r#"{"a": {"references": "b"}, "b": {"ref": "a"}}"#).unwrap());
    assert!(!detect_cycles(r#"{"a": {"references": "b"}, "b": {"ref": "c"}}"#).unwrap());
    assert!(detect_cycles(r#"{"a": {"x": [{"y": "$ref:a"}]}}"#).unwrap());
    assert!(detect_cycles(r#"{"a": "$ref:a"}"#).unwrap());
}

#[test]
fn non_object_logic_has_no_cycle() {
    assert!(!detect_cycles("[\"$ref:a\"]").unwrap());
    assert!(!detect_cycles("\"$ref:a\"").unwrap());
    assert!(find_cycles_detail("42").unwrap().is_empty());
}

#[test]
fn detail_lists_members_of_each_cycle() {
    let ast = r#"{"a": {"value": "$ref:b"}, "b": {"value": "$ref:a"}, "c": {"value": "$ref:c"}, "d": {"value": "$ref:a"}}"#;
    let mut cycles = find_cycles_detail(ast).unwrap();
    for c in cycles.iter_mut() {
        c.sort();
    }
    cycles.sort();
    assert_eq!(
        cycles,
        vec![vec!["a".to_string(), "b".to_string()], vec!["c".to_string()]]
    );
    assert!(find_cycles_detail(r#"{"a": {"value": "$ref:b"}, "b": {}}"#).unwrap().is_empty());
}

#[test]
fn malformed_logic_is_a_parse_error() {
    assert!(matches!(detect_cycles("not json"), Err(CycleDetectionError::JsonParseError(_))));
    assert!(matches!(
        find_cycles_detail("{\"a\":"),
        Err(CycleDetectionError::JsonParseError(_))
    ));
}

#[test]
fn cycle_functions_on_a_built_tree() {
    let field = |name: &str, target: &str| {
        (
            name.to_string(),
            Json::Object(vec![("value".to_string(), Json::Str(format!("$ref:{}", target)))]),
        )
    };
    let ring = Json::Object(vec![field("a", "b"), field("b", "c"), field("c", "a")]);
    assert!(has_dependency_cycle(&ring));
    let mut groups = cyclic_groups(&ring);
    assert_eq!(groups.len(), 1);
    groups[0].sort();
    assert_eq!(groups[0], vec!["a".to_string(), "b".to_string(), "c".to_string()]);
    let chain = Json::Object(vec![field("a", "b"), field("b", "c")]);
    assert!(!has_dependency_cycle(&chain));
    assert!(cyclic_groups(&chain).is_empty());
    assert!(!has_dependency_cycle(&Json::Array(vec![Json::Str("$ref:a".to_string())])));
}
