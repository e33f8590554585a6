use std::marker::PhantomData;

use quo::attributes::{
    AttrBuilder, AttrHashMap, AttrValueSet, AttrValues, Attributes, MergeMode, SharedAttrs,
};
use quo::rules::{RuleList, SanitizationRules};
use quo::trust::{AttrKey, AttrValue, SafeString};

fn plain_rules() -> quo::rules::Default {
    quo::rules::Default::new(Vec::new(), SanitizationRules::new(vec![], vec![]))
}

fn value(text: &str) -> AttrValue {
    AttrValue::from_str(text, &plain_rules())
}

#[test]
fn test_serialize_token_and_flags() {
    let map = AttrHashMap::new()
        .add(AttrKey::from_str("id"), AttrValues::Token(value("main")))
        .add(AttrKey::from_str("disabled"), AttrValues::Bool(true))
        .add(AttrKey::from_str("hidden"), AttrValues::Bool(false));
    assert_eq!(map.into_string(), " disabled id=\"main\"");
}

#[test]
fn test_serialize_sorts_keys() {
    let map = AttrHashMap::new()
        .add(AttrKey::from_str("title"), AttrValues::Token(value("t")))
        .add(AttrKey::from_str("alt"), AttrValues::Token(value("a")));
    assert_eq!(map.into_string(), " alt=\"a\" title=\"t\"");
}

#[test]
fn test_serialize_insertion_order_irrelevant() {
    let first = AttrHashMap::new()
        .add(AttrKey::from_str("alpha"), AttrValues::Token(value("1")))
        .add(AttrKey::from_str("beta"), AttrValues::Token(value("2")));
    let second = AttrHashMap::new()
        .add(AttrKey::from_str("beta"), AttrValues::Token(value("2")))
        .add(AttrKey::from_str("alpha"), AttrValues::Token(value("1")));
    assert_eq!(first.into_string(), second.into_string());
}

#[test]
fn test_serialize_set_sorted_and_joined() {
    let set = AttrValueSet::empty()
        .insert(value("zeta"))
        .insert(value("alpha"))
        .insert(value("mid"))
        .insert(value("alpha"));
    let map = AttrHashMap::new().add(AttrKey::from_str("class"), AttrValues::TokenSet(set));
    assert_eq!(map.into_string(), " class=\"alpha mid zeta\"");
}

#[test]
fn test_serialize_empty_set_and_list_emit_nothing() {
    let map = AttrHashMap::new()
        .add(
            AttrKey::from_str("class"),
            AttrValues::TokenSet(AttrValueSet::empty()),
        )
        .add(
            AttrKey::from_str("order"),
            AttrValues::List(vec![value("one"), value("two")]),
        );
    assert_eq!(map.into_string(), "");
}

#[test]
fn test_add_overwrites_existing_key() {
    let map = AttrHashMap::new()
        .add(AttrKey::from_str("id"), AttrValues::Token(value("one")))
        .add(AttrKey::from_str("id"), AttrValues::Token(value("two")));
    assert_eq!(map.into_string(), " id=\"two\"");
}

#[test]
fn test_merge_keep_preserves_existing() {
    let base = AttrHashMap::new()
        .add(AttrKey::from_str("id"), AttrValues::Token(value("old")))
        .add(AttrKey::from_str("title"), AttrValues::Token(value("kept")));
    let incoming = AttrHashMap::new()
        .add(AttrKey::from_str("id"), AttrValues::Token(value("new")))
        .add(AttrKey::from_str("alt"), AttrValues::Token(value("added")));
    let merged = base.merge(&incoming, MergeMode::Keep);
    assert_eq!(
        merged.into_string(),
        " alt=\"added\" id=\"old\" title=\"kept\""
    );
}

#[test]
fn test_merge_force_takes_incoming() {
    let base = AttrHashMap::new()
        .add(AttrKey::from_str("id"), AttrValues::Token(value("old")))
        .add(AttrKey::from_str("title"), AttrValues::Token(value("kept")));
    let incoming = AttrHashMap::new()
        .add(AttrKey::from_str("id"), AttrValues::Token(value("new")))
        .add(AttrKey::from_str("alt"), AttrValues::Token(value("added")));
    let merged = base.merge(&incoming, MergeMode::Force);
    assert_eq!(
        merged.into_string(),
        " alt=\"added\" id=\"new\" title=\"kept\""
    );
}

#[test]
fn test_class_merge_with_existing_token() {
    let rule = plain_rules();
    let table = AttrHashMap::new().add(
        AttrKey::from_str("class"),
        AttrValues::Token(value("btn")),
    );
    let attrs: Attributes<quo::attributes::Global> = Attributes {
        table,
        _marker: PhantomData,
    };
    let incoming = AttrValues::build_set(vec!["primary".to_string()], &rule);
    let merged = attrs.class(incoming);
    assert_eq!(merged.table.into_string(), " class=\"btn primary\"");
}

#[test]
fn test_class_accumulates_and_dedupes() {
    let rule = plain_rules();
    let attrs = AttrBuilder::global()
        .class(AttrValues::build_set(
            vec!["btn".to_string(), "primary".to_string()],
            &rule,
        ))
        .class(AttrValues::build_set(
            vec!["btn".to_string(), "large".to_string()],
            &rule,
        ));
    assert_eq!(attrs.table.into_string(), " class=\"btn large primary\"");
}

#[test]
fn test_builder_global_and_image_attributes() {
    let attrs = AttrBuilder::image()
        .src(value("/logo.png"))
        .alt(value("Logo"))
        .id(value("logo"))
        .title(value("the logo"));
    assert_eq!(
        attrs.table.into_string(),
        " alt=\"Logo\" id=\"logo\" src=\"/logo.png\" title=\"the logo\""
    );
}

#[test]
fn test_shared_attrs_with_added() {
    let base = SharedAttrs::new();
    let extended = base.with_added(AttrKey::from_str("id"), AttrValues::Token(value("x")));
    assert_eq!(base.into_string(), "");
    assert_eq!(extended.into_string(), " id=\"x\"");
    assert_eq!(extended.get().clone().into_string(), " id=\"x\"");
}

#[test]
fn test_attr_values_escape_on_build() {
    let rule = plain_rules();
    let set = AttrValues::build_set(vec!["a&b".to_string()], &rule);
    let map = AttrHashMap::new().add(AttrKey::from_str("class"), AttrValues::TokenSet(set));
    assert_eq!(map.into_string(), " class=\"a&amp;b\"");
}
