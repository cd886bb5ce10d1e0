use flint_core::nbt::{
    entity_nbt_from_fields, is_raw_snbt_literal, json_value_to_entity_assert_string, json_value_to_snbt,
    merge_entity_nbt, EntityNbt, JsonNode, JsonValue,
};

fn leaf(node: JsonNode) -> JsonValue {
    JsonValue::leaf(node)
}

fn text(s: &str) -> JsonValue {
    JsonValue::string(s)
}

#[test]
fn raw_snbt_literals_stay_bare() {
    assert!(is_raw_snbt_literal("{a:1b}"));
    assert!(is_raw_snbt_literal("  [1,2]"));
    assert!(is_raw_snbt_literal("TRUE"));
    assert!(is_raw_snbt_literal("0.5f"));
    assert!(is_raw_snbt_literal("3b"));
    assert!(is_raw_snbt_literal("-2.5e3d"));
    assert!(!is_raw_snbt_literal("b"));
    assert!(!is_raw_snbt_literal("oak"));
    assert!(!is_raw_snbt_literal("1.2.3f"));
    assert!(!is_raw_snbt_literal("12"));
}

#[test]
fn strings_are_quoted_unless_literal() {
    assert_eq!(json_value_to_snbt(&text("oak")), "\"oak\"");
    assert_eq!(json_value_to_snbt(&text("say \"hi\"\n")), "\"say \\\"hi\\\"\\n\"");
    assert_eq!(json_value_to_snbt(&text("1b")), "1b");
    assert_eq!(json_value_to_snbt(&text("\u{1}")), "\"\\u0001\"");
}

#[test]
fn scalars_print_as_json() {
    assert_eq!(json_value_to_snbt(&leaf(JsonNode::Null)), "null");
    assert_eq!(json_value_to_snbt(&leaf(JsonNode::Bool(true))), "true");
    assert_eq!(json_value_to_snbt(&leaf(JsonNode::Number("2.5".to_string()))), "2.5");
}

#[test]
fn arrays_and_objects_nest() {
    // [1, {"a": "x"}]
    let v = JsonValue {
        nodes: vec![
            JsonNode::Number("1".to_string()),
            JsonNode::Str("x".to_string()),
            JsonNode::Object(vec![("a".to_string(), 1)]),
            JsonNode::Array(vec![0, 2]),
        ],
    };
    assert_eq!(json_value_to_snbt(&v), "[1,{a:\"x\"}]");
    assert_eq!(json_value_to_entity_assert_string(&v), "[1,{a:\"x\"}]");
}

#[test]
fn entity_assert_strings_are_bare() {
    assert_eq!(json_value_to_entity_assert_string(&text("oak")), "oak");
    assert_eq!(json_value_to_entity_assert_string(&leaf(JsonNode::Bool(false))), "false");
}

#[test]
fn entity_nbt_compound() {
    let empty = EntityNbt(vec![]);
    assert_eq!(empty.to_snbt(), "{}");
    let nbt = EntityNbt(vec![
        ("NoGravity".to_string(), leaf(JsonNode::Bool(true))),
        ("CustomName".to_string(), text("bob")),
    ]);
    assert_eq!(nbt.to_snbt(), "{NoGravity:true,CustomName:\"bob\"}");
    assert_eq!(nbt.requested_paths(), vec!["NoGravity".to_string(), "CustomName".to_string()]);
    let values = nbt.expected_values();
    assert_eq!(values.get("NoGravity").map(|s| s.as_str()), Some("true"));
    assert_eq!(values.get("CustomName").map(|s| s.as_str()), Some("bob"));
}

#[test]
fn flattened_fields_win_over_explicit_nbt() {
    assert!(entity_nbt_from_fields(vec![]).is_none());
    let explicit = EntityNbt(vec![("Health".to_string(), leaf(JsonNode::Number("5".to_string())))]);
    let flat = entity_nbt_from_fields(vec![
        ("Health".to_string(), leaf(JsonNode::Number("7".to_string()))),
        ("Silent".to_string(), leaf(JsonNode::Bool(true))),
    ]);
    let merged = merge_entity_nbt(Some(explicit), flat).unwrap();
    assert_eq!(merged.to_snbt(), "{Health:7,Silent:true}");
    assert!(merge_entity_nbt(None, None).is_none());
}
