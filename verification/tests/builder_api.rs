//! Builder operations: construction, bundles, serialization, extraction, errors.

use std::collections::BTreeMap;

use json_config::ConfigDefinitionError;
use json_config::ConfigurationBuilder;
use json_config::ConfigurationDefinitionParams;
use json_config::ConfigurationSource;
use json_config::Document;
use json_config::ErrorKind;
use json_config::JsonConfigError;

fn text_source(text: &str) -> ConfigurationSource {
    ConfigurationSource::StringContent(text.to_string())
}

fn builder_from(text: &str) -> ConfigurationBuilder {
    ConfigurationBuilder::new(text_source(text)).unwrap()
}

#[test]
fn it_works() {
    assert_eq!(2 + 2, 4);
}

#[test]
fn new_resolves_base_source() {
    let builder = builder_from(r#"{"fromString":"from_string"}"#);
    assert_eq!(builder.to_string(), r#"{"fromString":"from_string"}"#);
}

#[test]
fn new_rejects_invalid_json() {
    let err = ConfigurationBuilder::new(text_source("{not json")).unwrap_err();
    assert_eq!(err.kind, ErrorKind::SerdeJson);
}

#[test]
fn merge_source_failure_leaves_document_unchanged() {
    let mut builder = builder_from(r#"{"a":1}"#);
    let err = builder.merge_source(&text_source("{broken")).unwrap_err();
    assert_eq!(err.kind, ErrorKind::SerdeJson);
    assert_eq!(builder.to_string(), r#"{"a":1}"#);
}

#[test]
fn merge_sources_applies_in_order() {
    let mut builder = builder_from(r#"{}"#);
    builder
        .merge_sources(&vec![
            text_source(r#"{"a":1}"#),
            text_source(r#"{"a":2,"b":3}"#),
        ])
        .unwrap();
    assert_eq!(builder.to_string(), r#"{"a":2,"b":3}"#);
}

#[test]
fn merge_sources_keeps_progress_before_failure() {
    let mut builder = builder_from(r#"{}"#);
    let err = builder
        .merge_sources(&vec![
            text_source(r#"{"a":1}"#),
            text_source("{broken"),
            text_source(r#"{"b":2}"#),
        ])
        .unwrap_err();
    assert_eq!(err.kind, ErrorKind::SerdeJson);
    assert_eq!(builder.to_string(), r#"{"a":1}"#);
}

#[test]
fn unknown_bundle_is_definition_error() {
    let mut builder = builder_from(r#"{"a":1}"#);
    let err = builder.merge_bundle("missing").unwrap_err();
    assert_eq!(err.kind, ErrorKind::ConfigDefinition);
    assert_eq!(builder.to_string(), r#"{"a":1}"#);
}

#[test]
fn bundle_merges_registered_sources_in_order() {
    let mut builder = builder_from(r#"{"env":"dev"}"#);
    builder.define_bundle(
        "qa".to_string(),
        vec![
            text_source(r#"{"env":"qa","db":{"port":3001}}"#),
            text_source(r#"{"db":{"host":"qa.db"}}"#),
        ],
    );
    assert_eq!(builder.to_string(), r#"{"env":"dev"}"#);
    builder.merge_bundle("qa").unwrap();
    assert_eq!(
        builder.to_string(),
        r#"{"env":"qa","db":{"port":3001,"host":"qa.db"}}"#
    );
}

#[test]
fn bundle_can_merge_repeatedly() {
    let mut builder = builder_from(r#"{}"#);
    builder.define_bundle("inc".to_string(), vec![text_source(r#"{"a":1}"#)]);
    builder.merge_bundle("inc").unwrap();
    builder.merge_bundle("inc").unwrap();
    assert_eq!(builder.to_string(), r#"{"a":1}"#);
}

#[test]
fn redefining_a_bundle_replaces_it() {
    let mut builder = builder_from(r#"{}"#);
    builder.define_bundle("env".to_string(), vec![text_source(r#"{"v":1}"#)]);
    builder.define_bundle("env".to_string(), vec![text_source(r#"{"v":2}"#)]);
    builder.merge_bundle("env").unwrap();
    assert_eq!(builder.to_string(), r#"{"v":2}"#);
}

#[test]
fn from_definition_merges_and_registers() {
    let definition = vec![
        ConfigurationDefinitionParams::Source(text_source(r#"{"a":1}"#)),
        ConfigurationDefinitionParams::Bundle(
            "prod".to_string(),
            vec![text_source(r#"{"a":2}"#)],
        ),
        ConfigurationDefinitionParams::Source(text_source(r#"{"b":3}"#)),
    ];
    let mut builder = ConfigurationBuilder::from_definition(definition).unwrap();
    assert_eq!(builder.to_string(), r#"{"a":1,"b":3}"#);
    builder.merge_bundle("prod").unwrap();
    assert_eq!(builder.to_string(), r#"{"a":2,"b":3}"#);
}

#[test]
fn from_definition_fails_on_invalid_source() {
    let definition = vec![
        ConfigurationDefinitionParams::Source(text_source(r#"{"a":1}"#)),
        ConfigurationDefinitionParams::Source(text_source("{broken")),
    ];
    let err = ConfigurationBuilder::from_definition(definition).unwrap_err();
    assert_eq!(err.kind, ErrorKind::SerdeJson);
}

#[test]
fn round_trip_reproduces_document() {
    let mut builder = builder_from(r#"{"a":{"x":1},"list":[1,2.5,"s"]}"#);
    builder
        .merge_source(&text_source(r#"{"a":{"y":null}}"#))
        .unwrap();
    let serialized = builder.to_string();
    let reparsed = ConfigurationBuilder::new(text_source(&serialized)).unwrap();
    assert_eq!(reparsed.to_string(), serialized);
}

#[test]
fn reparsed_builder_holds_equal_document() {
    let builder = builder_from(r#"{"a":{"x":"one"},"pi":3.14159,"n":-7,"gone":null}"#);
    let reparsed = builder.reparsed().unwrap();
    assert_eq!(reparsed.to_string(), builder.to_string());
}

#[test]
fn exponent_numbers_normalize_once_then_round_trip() {
    let builder = builder_from(r#"{"a":1E2,"b":1e-3,"c":2e+5}"#);
    assert_eq!(builder.to_string(), r#"{"a":1e+2,"b":1e-3,"c":2e+5}"#);
    let reparsed = builder.reparsed().unwrap();
    assert_eq!(reparsed.to_string(), r#"{"a":1e+2,"b":1e-3,"c":2e+5}"#);
}

#[test]
fn huge_numbers_keep_all_digits() {
    let text = r#"{"big":123456789012345678901234567890.5e+999}"#;
    let builder = builder_from(text);
    assert_eq!(builder.to_string(), text);
    assert_eq!(builder.reparsed().unwrap().to_string(), text);
}

#[test]
fn nesting_at_parser_limit_round_trips() {
    let mut doc = Document::Bool(true);
    for _ in 0..127 {
        doc = Document::Array(vec![doc]);
    }
    let mut builder = builder_from(r#"{}"#);
    builder
        .merge_source(&ConfigurationSource::JsonContent(doc))
        .unwrap();
    let text = builder.to_string();
    let reparsed = ConfigurationBuilder::new(text_source(&text)).unwrap();
    assert_eq!(reparsed.to_string(), text);
}

#[test]
fn nesting_beyond_parser_limit_serializes_but_cannot_reparse() {
    let mut doc = Document::Bool(true);
    for _ in 0..128 {
        doc = Document::Array(vec![doc]);
    }
    let mut builder = builder_from(r#"{}"#);
    builder
        .merge_source(&ConfigurationSource::JsonContent(doc))
        .unwrap();
    let text = builder.to_string();
    assert_eq!(text.len(), 128 * 2 + 4);
    let err = ConfigurationBuilder::new(text_source(&text)).unwrap_err();
    assert_eq!(err.kind, ErrorKind::SerdeJson);
}

#[test]
fn pretty_output_is_indented() {
    let builder = builder_from(r#"{"a":1}"#);
    let pretty = builder.to_string_pretty().unwrap();
    assert_eq!(pretty, "{\n  \"a\": 1\n}");
}

#[test]
fn pretty_output_parses_back_to_equal_document() {
    let builder = builder_from(r#"{"a":{"x":1.5},"list":[1,"s",null],"e":2e+8}"#);
    let pretty = builder.to_string_pretty().unwrap();
    let reparsed = ConfigurationBuilder::new(text_source(&pretty)).unwrap();
    assert_eq!(reparsed.to_string(), builder.to_string());
}

#[test]
fn to_enum_returns_document_copy() {
    let builder = builder_from(r#"{"a":[true]}"#);
    let copy: Document = builder.to_enum();
    let mut other = builder_from(r#"{}"#);
    other
        .merge_source(&ConfigurationSource::JsonContent(copy))
        .unwrap();
    assert_eq!(other.to_string(), r#"{"a":[true]}"#);
}

#[test]
fn typed_extraction_succeeds_on_matching_shape() {
    let builder = builder_from(r#"{"a":1,"b":2}"#);
    let map: BTreeMap<String, u64> = builder.to_type().unwrap();
    assert_eq!(map.get("a"), Some(&1));
    assert_eq!(map.get("b"), Some(&2));
}

#[test]
fn typed_extraction_mismatch_is_error_not_default() {
    let builder = builder_from(r#"{"a":"text"}"#);
    let err = builder.to_type::<BTreeMap<String, u64>>().unwrap_err();
    assert_eq!(err.kind, ErrorKind::SerdeJson);
    let err = builder.to_type::<u64>().unwrap_err();
    assert_eq!(err.kind, ErrorKind::SerdeJson);
}

#[test]
fn error_construction_carries_kind_and_message() {
    let err = JsonConfigError::new(ErrorKind::Io, "disk failure".to_string());
    assert_eq!(err.kind(), ErrorKind::Io);
    assert_eq!(err.message(), "disk failure");
    let err = JsonConfigError::new(ErrorKind::EnvVar, "missing variable".to_string());
    assert_eq!(err.kind(), ErrorKind::EnvVar);
}

#[test]
fn definition_error_converts_to_config_error() {
    let definition_error = ConfigDefinitionError::new("nested bundles".to_string());
    assert_eq!(definition_error.message(), "nested bundles");
    let err = JsonConfigError::from(definition_error);
    assert_eq!(err.kind, ErrorKind::ConfigDefinition);
    assert_eq!(err.message(), "nested bundles");
}
