use cbor2::derive_analysis::{
    analyze, container_attrs, int_arg, scan_serde, Analysis, CborMeta, FieldDesc, FieldsKind, IntLit, ItemData,
    ItemDesc, KeyMeta, LitError, SerdeArg, SerdeAttrs, SerdeMeta, TypeDesc, VariantDesc,
};
use cbor2::derive_rules::{DeriveError, Misuse};

// An integer literal as written: an optional `-`, digits and a suffix.
fn lit(text: &str) -> IntLit {
    let (negative, rest) = match text.strip_prefix('-') {
        Some(r) => (true, r),
        None => (false, text),
    };
    let end = rest.find(|c: char| !c.is_ascii_digit()).unwrap_or(rest.len());
    IntLit { negative, digits: rest[..end].to_string(), suffix: rest[end..].to_string() }
}

fn bare(path: &str) -> SerdeMeta {
    SerdeMeta { path: path.to_string(), arg: SerdeArg::Bare }
}

fn text(path: &str, value: &str) -> SerdeMeta {
    SerdeMeta { path: path.to_string(), arg: SerdeArg::Text(value.to_string()) }
}

fn sides(path: &str, list: &[(&str, &str)]) -> SerdeMeta {
    SerdeMeta {
        path: path.to_string(),
        arg: SerdeArg::Sides(list.iter().map(|(s, v)| (s.to_string(), v.to_string())).collect()),
    }
}

// One `#[serde(...)]` attribute with these metas.
fn serde(metas: Vec<SerdeMeta>) -> SerdeAttrs {
    scan_serde(&vec![metas])
}

fn plain() -> SerdeAttrs {
    scan_serde(&Vec::new())
}

fn key(value: &str) -> Vec<KeyMeta> {
    vec![KeyMeta { name: "key".to_string(), lit: lit(value) }]
}

// A type that names no lifetime and no type parameter.
fn opaque() -> TypeDesc {
    TypeDesc { lifetimes: vec![], paths: vec![], assoc: None, implicitly_borrowed: false }
}

fn field(ident: &str, cbor: Vec<KeyMeta>, serde: SerdeAttrs) -> FieldDesc {
    FieldDesc { ident: Some(ident.to_string()), cbor, serde, ty: opaque() }
}

fn variant(kind: FieldsKind, fields: Vec<FieldDesc>, serde: SerdeAttrs) -> VariantDesc {
    VariantDesc { kind, fields, serde, has_cbor: false }
}

fn strukt(name: &str, cbor: Vec<CborMeta>, serde: SerdeAttrs, kind: FieldsKind, fields: Vec<FieldDesc>) -> ItemDesc {
    ItemDesc {
        name: name.to_string(),
        de_lifetime: false,
        type_params: vec![],
        cbor,
        serde,
        data: ItemData::Struct(kind, fields),
    }
}

fn enm(name: &str, cbor: Vec<CborMeta>, serde: SerdeAttrs, variants: Vec<VariantDesc>) -> ItemDesc {
    ItemDesc { name: name.to_string(), de_lifetime: false, type_params: vec![], cbor, serde, data: ItemData::Enum(variants) }
}

fn tag(value: &str) -> CborMeta {
    CborMeta::Tag(lit(value))
}

fn expanded(item: ItemDesc) -> Analysis {
    match analyze(&item) {
        Ok(a) => a,
        Err(e) => panic!("refused: {}", e.message()),
    }
}

fn error(item: ItemDesc) -> String {
    match analyze(&item) {
        Ok(a) => panic!("accepted as {}", a.name),
        Err(e) => e.message(),
    }
}

fn keys(a: &Analysis) -> Vec<(String, i128)> {
    a.entries.iter().map(|e| (e.name.clone(), e.key)).collect()
}

#[test]
fn rejects_cross_variant_key_inheritance_after_renaming() {
    let keyed = || variant(FieldsKind::Named, vec![field("value", key("1"), plain())], plain());
    for item in [
        // enum E { A { #[cbor(key = 1)] value: u8 }, B { value: u8 } }
        enm("E", vec![], plain(), vec![keyed(), variant(FieldsKind::Named, vec![field("value", vec![], plain())], plain())]),
        // B { #[serde(rename = "value")] other: u8 }
        enm(
            "E",
            vec![],
            plain(),
            vec![keyed(), variant(FieldsKind::Named, vec![field("other", vec![], serde(vec![text("rename", "value")]))], plain())],
        ),
        // A { #[cbor(key = 1)] #[serde(rename = "VALUE")] value }, #[serde(rename_all = "UPPERCASE")] B { value }
        enm(
            "E",
            vec![],
            plain(),
            vec![
                variant(FieldsKind::Named, vec![field("value", key("1"), serde(vec![text("rename", "VALUE")]))], plain()),
                variant(
                    FieldsKind::Named,
                    vec![field("value", vec![], plain())],
                    serde(vec![text("rename_all", "UPPERCASE")]),
                ),
            ],
        ),
        // B { #[serde(rename(deserialize = "value"))] other: u8 }
        enm(
            "E",
            vec![],
            plain(),
            vec![
                keyed(),
                variant(
                    FieldsKind::Named,
                    vec![field("other", vec![], serde(vec![sides("rename", &[("deserialize", "value")])]))],
                    plain(),
                ),
            ],
        ),
    ] {
        assert!(error(item).contains("consistently across enum variants"));
    }
}

#[test]
fn validates_marker_bypassing_attributes() {
    // enum E { Unit, #[serde(untagged)] Data { #[cbor(key = 1)] value: u8 } }
    assert!(error(enm(
        "E",
        vec![],
        plain(),
        vec![
            variant(FieldsKind::Unit, vec![], plain()),
            variant(FieldsKind::Named, vec![field("value", key("1"), plain())], serde(vec![bare("untagged")])),
        ],
    ))
    .contains("untagged variants"));
    let kind = || serde(vec![text("tag", "kind")]);
    assert!(error(strukt("S", vec![], kind(), FieldsKind::Named, vec![field("value", key("1"), plain())]))
        .contains("on a struct conflicts"));
    assert!(error(strukt("S", vec![tag("7")], kind(), FieldsKind::Named, vec![field("value", vec![], plain())]))
        .contains("on a struct conflicts"));
    assert!(error(strukt("S", vec![CborMeta::Array], kind(), FieldsKind::Named, vec![field("value", vec![], plain())]))
        .contains("on a struct conflicts"));
}

#[test]
fn skipped_flatten_does_not_need_a_binary_adapter() {
    // struct S { value: u8, #[serde(skip, flatten)] extra: BTreeMap<String, u8> }
    let out = expanded(strukt(
        "S",
        vec![],
        plain(),
        FieldsKind::Named,
        vec![field("value", vec![], plain()), field("extra", vec![], serde(vec![bare("skip"), bare("flatten")]))],
    ));
    assert!(!out.flatten);
}

#[test]
fn generates_a_marked_remote_shadow() {
    // #[cbor(tag = 123)] struct ProtectedHeader { #[cbor(key = 1)] alg, #[cbor(key = 4)] #[serde(with = ...)] kid, plain }
    let out = expanded(strukt(
        "ProtectedHeader",
        vec![tag("123")],
        plain(),
        FieldsKind::Named,
        vec![
            field("alg", key("1"), plain()),
            field("kid", key("4"), serde(vec![text("with", "serde_bytes")])),
            field("plain", vec![], plain()),
        ],
    ));
    assert_eq!(out.name, "@@CBOR@@123@@alg=1;kid=4@@ProtectedHeader");
    assert_eq!(keys(&out), vec![("alg".to_string(), 1), ("kid".to_string(), 4)]);
    assert_eq!(out.tag, Some(123));
    assert!(!out.array && !out.flatten);
}

#[test]
fn generates_plain_serde_impls_without_cbor_attributes() {
    let out = expanded(strukt("Plain", vec![], plain(), FieldsKind::Named, vec![field("a", vec![], plain())]));
    assert!(!out.name.contains("@@CBOR@@"));
    assert_eq!(out.name, "Plain");
    assert!(out.entries.is_empty());
    assert_eq!(out.tag, None);
}

#[test]
fn uses_the_serde_rename_as_the_key_table_name() {
    // #[cbor(key = 1)] #[serde(rename = "alg", default)] algorithm: i8
    let out = expanded(strukt(
        "S",
        vec![],
        plain(),
        FieldsKind::Named,
        vec![field("algorithm", key("1"), serde(vec![text("rename", "alg"), bare("default")]))],
    ));
    assert_eq!(out.name, "@@CBOR@@@@alg=1@@S");
}

#[test]
fn supports_field_order_array_structs() {
    let fields = ["protected", "unprotected", "payload", "signature"].iter().map(|n| field(n, vec![], plain())).collect();
    let out = expanded(strukt("Sign1", vec![tag("18"), CborMeta::Array], plain(), FieldsKind::Named, fields));
    assert_eq!(out.name, "@@CBOR@@18@@@@array@@Sign1");
    assert!(out.array);
}

#[test]
fn supports_flattened_map_structs() {
    let out = expanded(strukt(
        "Claims",
        vec![tag("61")],
        plain(),
        FieldsKind::Named,
        vec![
            field("issuer", key("1"), serde(vec![text("rename", "iss")])),
            field("extra", vec![], serde(vec![bare("flatten")])),
        ],
    ));
    assert!(out.flatten);
    assert_eq!(out.name, "@@CBOR@@61@@iss=1@@Claims");
    assert_eq!(keys(&out), vec![("iss".to_string(), 1)]);
}

#[test]
fn strips_raw_identifier_prefixes() {
    // `r#type` is described by its name without the prefix.
    let out = expanded(strukt("S", vec![], plain(), FieldsKind::Named, vec![field("type", key("1"), plain())]));
    assert_eq!(out.name, "@@CBOR@@@@type=1@@S");
}

#[test]
fn merges_enum_variant_fields() {
    let out = expanded(enm(
        "Message",
        vec![],
        plain(),
        vec![
            variant(FieldsKind::Named, vec![field("payload", key("1"), plain())], plain()),
            variant(FieldsKind::Named, vec![field("payload", key("1"), plain()), field("peer", key("2"), plain())], plain()),
            variant(FieldsKind::Unit, vec![], plain()),
        ],
    ));
    assert_eq!(out.name, "@@CBOR@@@@payload=1;peer=2@@Message");
}

#[test]
fn rejects_user_lifetime_named_de() {
    let mut item = strukt("Borrowed", vec![], plain(), FieldsKind::Named, vec![field("value", vec![], plain())]);
    item.de_lifetime = true;
    let msg = error(item);
    assert!(msg.contains("lifetime named 'de"), "{msg}");
}

#[test]
fn accepts_the_full_integer_ranges() {
    let out = expanded(strukt(
        "Edges",
        vec![tag("18446744073709551615")],
        plain(),
        FieldsKind::Named,
        vec![
            field("zero", key("0"), plain()),
            field("hi", key("18446744073709551615"), plain()),
            field("lo", key("-18446744073709551616"), plain()),
        ],
    ));
    assert_eq!(
        out.name,
        "@@CBOR@@18446744073709551615@@zero=0;hi=18446744073709551615;lo=-18446744073709551616@@Edges"
    );
}

#[test]
fn rejects_invalid_uses() {
    let a = || vec![field("a", vec![], plain())];
    let msg = error(strukt("S", vec![], plain(), FieldsKind::Named, vec![field("a", key("18446744073709551616"), plain())]));
    assert!(msg.contains("must fit a CBOR integer"), "{msg}");
    let msg = error(strukt("S", vec![tag("18446744073709551616")], plain(), FieldsKind::Unit, vec![]));
    assert!(msg.contains("must fit a CBOR tag"), "{msg}");
    let msg = error(strukt("S", vec![tag("-1")], plain(), FieldsKind::Unit, vec![]));
    assert!(msg.contains("must fit a CBOR tag"), "{msg}");
    let msg = error(strukt("S", vec![tag("1"), tag("2")], plain(), FieldsKind::Unit, vec![]));
    assert!(msg.contains("duplicate #[cbor(tag = ...)]"), "{msg}");
    let msg = error(enm("E", vec![tag("1")], plain(), vec![variant(FieldsKind::Unit, vec![], plain())]));
    assert!(msg.contains("not supported on enums"), "{msg}");
    let msg = error(enm("E", vec![CborMeta::Array], plain(), vec![variant(FieldsKind::Unit, vec![], plain())]));
    assert!(msg.contains("`array` is not supported on enums"), "{msg}");
    // #[cbor(array)] struct S(u8);
    let unnamed = FieldDesc { ident: None, cbor: vec![], serde: plain(), ty: opaque() };
    let msg = error(strukt("S", vec![CborMeta::Array], plain(), FieldsKind::Unnamed, vec![unnamed]));
    assert!(msg.contains("requires a struct with named fields"), "{msg}");
    let msg = error(strukt("S", vec![CborMeta::Array], plain(), FieldsKind::Named, vec![field("a", key("1"), plain())]));
    assert!(msg.contains("cannot be used with #[cbor(array)]"), "{msg}");
    let msg = error(strukt(
        "S",
        vec![CborMeta::Array],
        plain(),
        FieldsKind::Named,
        vec![field("a", vec![], plain()), field("extra", vec![], serde(vec![bare("flatten")]))],
    ));
    assert!(msg.contains("cannot be used with #[cbor(array)]"), "{msg}");
    let mut twice = key("1");
    twice.extend(key("2"));
    let msg = error(strukt("S", vec![], plain(), FieldsKind::Named, vec![field("a", twice, plain())]));
    assert!(msg.contains("duplicate #[cbor(key = ...)]"), "{msg}");
    // struct S(#[cbor(key = 1)] u8);
    let keyed_unnamed = FieldDesc { ident: None, cbor: key("1"), serde: plain(), ty: opaque() };
    let msg = error(strukt("S", vec![], plain(), FieldsKind::Unnamed, vec![keyed_unnamed]));
    assert!(msg.contains("named field"), "{msg}");
    let name = vec![KeyMeta { name: "name".to_string(), lit: lit("1") }];
    let msg = error(strukt("S", vec![], plain(), FieldsKind::Named, vec![field("a", name, plain())]));
    assert!(msg.contains("expected `key = <integer>`"), "{msg}");
    let msg = error(strukt(
        "S",
        vec![],
        plain(),
        FieldsKind::Named,
        vec![field("a", key("1"), plain()), field("extra", key("9"), serde(vec![bare("flatten")]))],
    ));
    assert!(msg.contains("cannot be combined with #[cbor(key"), "{msg}");
    let msg = error(enm(
        "E",
        vec![],
        plain(),
        vec![variant(FieldsKind::Named, vec![field("extra", vec![], serde(vec![bare("flatten")]))], plain())],
    ));
    assert!(msg.contains("supported only on structs"), "{msg}");
    // #[cbor(key = 1)] on the container.
    let msg = error(strukt("S", vec![CborMeta::Other], plain(), FieldsKind::Named, a()));
    assert!(msg.contains("expected `tag = <integer>`"), "{msg}");
    let msg = error(ItemDesc {
        name: "U".to_string(),
        de_lifetime: false,
        type_params: vec![],
        cbor: vec![],
        serde: plain(),
        data: ItemData::Union,
    });
    assert!(msg.contains("supports structs and enums"), "{msg}");
    let msg = error(strukt("S", vec![tag("1"), CborMeta::Other], plain(), FieldsKind::Named, a()));
    assert!(msg.contains("expected `tag = <integer>` or `array`"), "{msg}");
}

#[test]
fn rejects_suffixed_integer_literals() {
    let msg = error(strukt("S", vec![], plain(), FieldsKind::Named, vec![field("a", key("1u8"), plain())]));
    assert!(msg.contains("suffixed integer literal"), "{msg}");
    let msg = error(strukt("S", vec![tag("7u64")], plain(), FieldsKind::Named, vec![field("a", vec![], plain())]));
    assert!(msg.contains("suffixed integer literal"), "{msg}");
}

#[test]
fn oversized_key_literals_report_the_cbor_range() {
    let msg = error(strukt(
        "S",
        vec![],
        plain(),
        FieldsKind::Named,
        vec![field("a", key("170141183460469231731687303715884105728"), plain())],
    ));
    assert!(msg.contains("must fit a CBOR integer"), "{msg}");
}

#[test]
fn rejects_container_shapes_that_bypass_the_marker() {
    let a = || vec![field("a", vec![], plain())];
    let msg = error(strukt("S", vec![tag("7")], serde(vec![bare("transparent")]), FieldsKind::Named, a()));
    assert!(msg.contains("silently ignored"), "{msg}");
    let msg = error(strukt(
        "S",
        vec![],
        serde(vec![text("into", "Other")]),
        FieldsKind::Named,
        vec![field("a", key("1"), plain())],
    ));
    assert!(msg.contains("silently ignored on encode"), "{msg}");
    let msg = error(strukt("S", vec![tag("7")], serde(vec![text("from", "Other")]), FieldsKind::Named, a()));
    assert!(msg.contains("silently ignored on decode"), "{msg}");
    let msg = error(strukt("S", vec![CborMeta::Array], serde(vec![text("try_from", "Other")]), FieldsKind::Named, a()));
    assert!(msg.contains("silently ignored on decode"), "{msg}");
    // Without declared details the shapes stay fine.
    let out = expanded(strukt("S", vec![], serde(vec![bare("transparent")]), FieldsKind::Named, a()));
    assert_eq!(out.name, "S");
}

#[test]
fn rejects_key_on_fully_skipped_fields() {
    let msg = error(strukt("S", vec![], plain(), FieldsKind::Named, vec![field("a", key("1"), serde(vec![bare("skip")]))]));
    assert!(msg.contains("never on the wire"), "{msg}");
    // One-directional skips keep the key meaningful.
    let out = expanded(strukt(
        "S",
        vec![],
        plain(),
        FieldsKind::Named,
        vec![field("a", key("1"), serde(vec![text("skip_serializing_if", "Option::is_none"), bare("default")]))],
    ));
    assert_eq!(out.name, "@@CBOR@@@@a=1@@S");
    // A skipped field without a key stays fine.
    let out = expanded(strukt(
        "S",
        vec![],
        plain(),
        FieldsKind::Named,
        vec![field("a", key("1"), plain()), field("b", vec![], serde(vec![bare("skip")]))],
    ));
    assert_eq!(out.name, "@@CBOR@@@@a=1@@S");
}

#[test]
fn rejects_serde_conflicts() {
    let a1 = || vec![field("a", key("1"), plain())];
    let msg = error(strukt("S", vec![], serde(vec![text("rename", "Other")]), FieldsKind::Named, a1()));
    assert!(msg.contains("container-level #[serde(rename"), "{msg}");
    let msg = error(strukt(
        "S",
        vec![],
        serde(vec![text("rename_all", "camelCase")]),
        FieldsKind::Named,
        vec![field("a_b", key("1"), plain())],
    ));
    assert!(msg.contains("rename_all"), "{msg}");
    let msg = error(strukt(
        "S",
        vec![],
        plain(),
        FieldsKind::Named,
        vec![field("a", key("1"), serde(vec![sides("rename", &[("serialize", "x"), ("deserialize", "y")])]))],
    ));
    assert!(msg.contains("split serialize/deserialize renames"), "{msg}");
    let msg = error(enm(
        "E",
        vec![],
        serde(vec![text("tag", "type")]),
        vec![variant(FieldsKind::Named, a1(), plain())],
    ));
    assert!(msg.contains("externally tagged"), "{msg}");
    let msg = error(strukt(
        "S",
        vec![],
        plain(),
        FieldsKind::Named,
        vec![field("a", key("1"), plain()), field("b", key("1"), plain())],
    ));
    assert!(msg.contains("already mapped"), "{msg}");
    let msg = error(enm(
        "E",
        vec![],
        plain(),
        vec![
            variant(FieldsKind::Named, vec![field("x", key("1"), plain())], plain()),
            variant(FieldsKind::Named, vec![field("x", key("2"), plain())], plain()),
        ],
    ));
    assert!(msg.contains("conflicting keys"), "{msg}");
    let mut tagged_variant = variant(FieldsKind::Unit, vec![], plain());
    tagged_variant.has_cbor = true;
    let msg = error(enm("E", vec![], plain(), vec![tagged_variant]));
    assert!(msg.contains("not supported on enum variants"), "{msg}");
    let msg = error(strukt(
        "S",
        vec![],
        plain(),
        FieldsKind::Named,
        vec![field("a", key("1"), serde(vec![text("rename", "a=b")]))],
    ));
    assert!(msg.contains("may not be empty or contain"), "{msg}");
}

#[test]
fn integer_literal_ranges() {
    assert_eq!(int_arg(&lit("0"), 0), Ok(0));
    assert_eq!(int_arg(&lit("18446744073709551615"), 0), Ok(18446744073709551615));
    assert_eq!(int_arg(&lit("18446744073709551616"), 0), Err(LitError::Range));
    assert_eq!(int_arg(&lit("-1"), 0), Err(LitError::Range));
    assert_eq!(int_arg(&lit("-18446744073709551616"), -18446744073709551616), Ok(-18446744073709551616));
    assert_eq!(int_arg(&lit("-18446744073709551617"), -18446744073709551616), Err(LitError::Range));
    assert_eq!(int_arg(&lit("170141183460469231731687303715884105727"), 0), Err(LitError::Range));
    assert_eq!(int_arg(&lit("5i32"), 0), Err(LitError::Suffixed));
    assert_eq!(int_arg(&lit(""), 0), Err(LitError::Range));
}

#[test]
fn serde_metas_are_read_in_order() {
    let a = scan_serde(&vec![
        vec![text("rename", "x"), sides("rename_all", &[("serialize", "UPPERCASE")]), bare("untagged")],
        vec![bare("rename"), bare("flatten")],
        vec![bare("skip_deserializing"), text("tag", "t")],
    ]);
    assert_eq!(a.rename.as_deref(), Some("x"));
    assert_eq!(a.ser_rule.as_deref(), Some("UPPERCASE"));
    assert_eq!(a.de_rule, None);
    assert!(a.flags.rename_all && a.flags.enum_repr && a.flags.split_rename && a.flags.tag);
    // A bare `rename` ends the reading of its attribute.
    assert!(!a.flags.flatten);
    assert!(a.skips.skip_deserializing && a.skips.positional_skip && !a.skips.skip);
}

#[test]
fn container_metas() {
    assert!(matches!(container_attrs(&vec![tag("5"), CborMeta::Array]), Ok((Some(5), true))));
    assert_eq!(
        container_attrs(&vec![CborMeta::Array, CborMeta::Array]).err(),
        Some(DeriveError::Invalid(Misuse::DuplicateArray))
    );
    assert_eq!(
        container_attrs(&vec![CborMeta::ArrayWithValue]).err(),
        Some(DeriveError::Invalid(Misuse::ArrayWithValue))
    );
    assert_eq!(
        DeriveError::InconsistentKey { name: "v".to_string(), key: -3 }.message(),
        "field `v` must declare #[cbor(key = -3)] consistently across enum variants"
    );
}

#[test]
fn malformed_metas_end_their_attribute() {
    // A bare `bound` or `rename_all`, and `borrow` with a non-string value,
    // stop the reading of their own attribute only.
    let a = scan_serde(&vec![
        vec![bare("bound"), bare("flatten")],
        vec![SerdeMeta { path: "borrow".to_string(), arg: SerdeArg::Expr }, bare("skip")],
        vec![bare("rename_all"), bare("transparent")],
        vec![text("bound", "T: Clone"), bare("into")],
    ]);
    assert!(!a.flags.flatten && !a.skips.skip && !a.flags.transparent);
    assert!(a.flags.rename_all && a.flags.into);
}
