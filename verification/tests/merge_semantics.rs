//! Merge-rule behavior, observed through the builder's compact output.

use json_config::ConfigurationBuilder;
use json_config::ConfigurationSource;
use json_config::Document;

fn builder_from(text: &str) -> ConfigurationBuilder {
    ConfigurationBuilder::new(ConfigurationSource::StringContent(text.to_string())).unwrap()
}

fn merged(base: &str, overlay: &str) -> String {
    let mut builder = builder_from(base);
    builder
        .merge_source(&ConfigurationSource::StringContent(overlay.to_string()))
        .unwrap();
    builder.to_string()
}

#[test]
fn arrays_replace_never_combine() {
    assert_eq!(merged(r#"{"a":[1,2]}"#, r#"{"a":[3]}"#), r#"{"a":[3]}"#);
}

#[test]
fn nested_objects_merge_keywise() {
    assert_eq!(
        merged(r#"{"a":{"x":1}}"#, r#"{"a":{"y":2}}"#),
        r#"{"a":{"x":1,"y":2}}"#
    );
}

#[test]
fn null_overrides_by_replacement() {
    assert_eq!(merged(r#"{"a":{"x":1}}"#, r#"{"a":null}"#), r#"{"a":null}"#);
}

#[test]
fn self_merge_is_identity() {
    let doc = r#"{"a":{"x":1,"y":[1,2]},"b":"text","c":null}"#;
    assert_eq!(merged(doc, doc), doc);
}

#[test]
fn disjoint_objects_union() {
    assert_eq!(merged(r#"{"a":1}"#, r#"{"b":2}"#), r#"{"a":1,"b":2}"#);
}

#[test]
fn non_object_override_replaces_everything() {
    assert_eq!(merged(r#"{"a":{"x":1}}"#, r#"[1,2,3]"#), r#"[1,2,3]"#);
    assert_eq!(merged(r#"{"a":1}"#, r#""flat""#), r#""flat""#);
    assert_eq!(merged(r#"[1,2]"#, r#"{"a":1}"#), r#"{"a":1}"#);
}

#[test]
fn base_keys_keep_position_new_keys_append() {
    assert_eq!(
        merged(r#"{"a":1,"b":2}"#, r#"{"c":3,"b":9}"#),
        r#"{"a":1,"b":9,"c":3}"#
    );
}

#[test]
fn scalars_replace() {
    assert_eq!(merged(r#"{"a":1}"#, r#"{"a":"two"}"#), r#"{"a":"two"}"#);
    assert_eq!(merged(r#"{"a":true}"#, r#"{"a":false}"#), r#"{"a":false}"#);
}

#[test]
fn deep_recursion_merges() {
    assert_eq!(
        merged(
            r#"{"db":{"conn":{"host":"dev","port":3000}}}"#,
            r#"{"db":{"conn":{"host":"prod"}}}"#
        ),
        r#"{"db":{"conn":{"host":"prod","port":3000}}}"#
    );
}

#[test]
fn parsed_document_source_merges() {
    let mut builder = builder_from(r#"{"a":1}"#);
    let doc = Document::Object(vec![(
        "b".to_string(),
        Document::Array(vec![Document::Bool(true), Document::Null]),
    )]);
    builder
        .merge_source(&ConfigurationSource::JsonContent(doc))
        .unwrap();
    assert_eq!(builder.to_string(), r#"{"a":1,"b":[true,null]}"#);
}

#[test]
fn numbers_keep_their_text() {
    assert_eq!(
        merged(r#"{"pi":1.234,"n":-7}"#, r#"{"big":18446744073709551615}"#),
        r#"{"pi":1.234,"n":-7,"big":18446744073709551615}"#
    );
}
