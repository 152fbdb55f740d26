use cbor2::derive_analysis::{scan_serde, SerdeArg, SerdeMeta};
use cbor2::derive_rules::{
    fresh_lifetime, is_copied_attr, is_positional, marker, merge_entry, rename_field, validate_positional_fields,
    DeriveError, Entry, SkipAttrs, POSITIONAL_SKIP_MESSAGE,
};

fn skips(names: &[&str]) -> SkipAttrs {
    let metas = names.iter().map(|n| SerdeMeta { path: n.to_string(), arg: SerdeArg::Bare }).collect();
    scan_serde(&vec![metas]).skips
}

// The outcome of the positional-layout check for a struct described by
// its `#[cbor(array)]` marker, whether its fields are unnamed, and the
// serde metas on each field.
fn check(array: bool, unnamed: bool, fields: &[&[&str]]) -> Result<(), String> {
    if !is_positional(array, unnamed, fields.len()) {
        return Ok(());
    }
    let attrs: Vec<SkipAttrs> = fields.iter().map(|f| skips(f)).collect();
    validate_positional_fields(&attrs).map_err(|e| e.message())
}

// The consumer fixtures: `pass` derives cleanly, while an array struct and
// a tuple struct with one-directional or conditional skips are refused.
#[test]
fn derive_consumer_fixtures() {
    for (binary, expected_error, outcome) in [
        // struct Node { #[cbor(key = 1)] value: u8, next: Option<Box<Self>> }
        ("pass", None, check(false, false, &[&[], &[]])),
        // #[cbor(array)] struct Positional { #[serde(default, skip_serializing_if = ...)] a, b }
        (
            "array_skip",
            Some("array field positions"),
            check(true, false, &[&["default", "skip_serializing_if"], &[]]),
        ),
        // struct Tuple(#[serde(skip_serializing)] u8, u8);
        ("tuple_skip", Some("array field positions"), check(false, true, &[&["skip_serializing"], &[]])),
    ] {
        match expected_error {
            Some(expected) => {
                let diagnostic = outcome.expect_err(binary);
                assert!(diagnostic.contains(expected), "{binary}: {diagnostic}");
            }
            None => assert!(outcome.is_ok(), "{binary}"),
        }
    }
}

#[test]
fn skipping_both_ways_keeps_positions() {
    assert_eq!(check(true, false, &[&["skip"], &[]]), Ok(()));
    assert_eq!(check(false, true, &[&["skip_deserializing"]]), Ok(()));
    let attrs = skips(&["default", "skip_deserializing"]);
    assert!(attrs.positional_skip && attrs.skip_deserializing && !attrs.skip && !attrs.skip_serializing);
    let fields = vec![attrs, skips(&["skip_serializing_if"])];
    assert_eq!(validate_positional_fields(&fields), Err(DeriveError::PositionalSkip(0)));
    assert_eq!(DeriveError::PositionalSkip(0).message(), POSITIONAL_SKIP_MESSAGE);
}

#[test]
fn key_table_merging() {
    let mut entries = Vec::new();
    merge_entry(&mut entries, Entry { name: "a".to_string(), key: 1 }).unwrap();
    merge_entry(&mut entries, Entry { name: "b".to_string(), key: -2 }).unwrap();
    // Identical mappings merge.
    merge_entry(&mut entries, Entry { name: "a".to_string(), key: 1 }).unwrap();
    assert_eq!(entries.len(), 2);
    let conflict = merge_entry(&mut entries, Entry { name: "a".to_string(), key: 3 });
    assert_eq!(conflict, Err(DeriveError::ConflictingKeys { name: "a".to_string(), first: 1, second: 3 }));
    assert_eq!(conflict.unwrap_err().message(), "field `a` maps to conflicting keys 1 and 3");
    let taken = merge_entry(&mut entries, Entry { name: "c".to_string(), key: -2 });
    assert_eq!(taken, Err(DeriveError::KeyTaken { key: -2, name: "b".to_string() }));
    assert_eq!(taken.unwrap_err().message(), "key -2 is already mapped to field `b`");
    assert_eq!(entries.len(), 2);
}

#[test]
fn container_markers() {
    assert_eq!(marker(None, false, &Vec::new(), "Plain"), None);
    let entries = vec![Entry { name: "a".to_string(), key: 1 }, Entry { name: "b".to_string(), key: -20 }];
    assert_eq!(marker(Some(42), false, &entries, "S"), Some("@@CBOR@@42@@a=1;b=-20@@S".to_string()));
    assert_eq!(marker(None, true, &Vec::new(), "P"), Some("@@CBOR@@@@@@array@@P".to_string()));
    assert_eq!(
        marker(Some(u64::MAX), true, &vec![Entry { name: "k".to_string(), key: i128::from(i64::MIN) * 2 }], "T"),
        Some(format!("@@CBOR@@{}@@k={}@@array@@T", u64::MAX, i128::from(i64::MIN) * 2))
    );
}

#[test]
fn serde_rename_rules() {
    assert_eq!(rename_field("field_name", Some("UPPERCASE")), "FIELD_NAME");
    assert_eq!(rename_field("field_name", Some("SCREAMING_SNAKE_CASE")), "FIELD_NAME");
    assert_eq!(rename_field("field_name", Some("kebab-case")), "field-name");
    assert_eq!(rename_field("field_name", Some("SCREAMING-KEBAB-CASE")), "FIELD-NAME");
    assert_eq!(rename_field("field_name", Some("PascalCase")), "FieldName");
    assert_eq!(rename_field("field_name", Some("camelCase")), "fieldName");
    assert_eq!(rename_field("_x__y", Some("PascalCase")), "XY");
    assert_eq!(rename_field("field_name", Some("lowercase")), "field_name");
    assert_eq!(rename_field("field_name", None), "field_name");
    assert_eq!(rename_field("é_b", Some("camelCase")), "éB");
}

#[test]
fn fresh_lifetimes_avoid_collisions() {
    let names = |list: &[&str]| list.iter().map(|n| n.to_string()).collect::<Vec<String>>();
    assert_eq!(fresh_lifetime(&names(&["a"]), "__de"), "'__de");
    assert_eq!(fresh_lifetime(&names(&["a", "__de"]), "__de"), "'__de_");
    assert_eq!(fresh_lifetime(&names(&["__cbor_", "__cbor", "__cbor__"]), "__cbor"), "'__cbor___");
    assert_eq!(fresh_lifetime(&Vec::new(), "__cbor"), "'__cbor");
}

#[test]
fn lint_and_serde_attributes_carry_over() {
    for path in ["serde", "cfg", "cfg_attr", "allow", "expect"] {
        assert!(is_copied_attr(path), "{path}");
    }
    for path in ["doc", "derive", "cbor", "deny", "allowed"] {
        assert!(!is_copied_attr(path), "{path}");
    }
}
