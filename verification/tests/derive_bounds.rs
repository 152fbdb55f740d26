use cbor2::derive_analysis::{
    analyze, scan_serde, FieldDesc, FieldsKind, ItemData, ItemDesc, SerdeArg, SerdeAttrs, SerdeMeta, TypeDesc, VariantDesc,
};
use cbor2::derive_bounds::{impl_bounds, rename_de_lifetime, ImplBounds};

fn meta(path: &str, arg: SerdeArg) -> SerdeMeta {
    SerdeMeta { path: path.to_string(), arg }
}

fn bare(path: &str) -> SerdeMeta {
    meta(path, SerdeArg::Bare)
}

fn serde(metas: Vec<SerdeMeta>) -> SerdeAttrs {
    scan_serde(&vec![metas])
}

fn names(list: &[&str]) -> Vec<String> {
    list.iter().map(|s| s.to_string()).collect()
}

// A type by the lifetimes and one-segment paths it names.
fn ty(lifetimes: &[&str], paths: &[&str]) -> TypeDesc {
    TypeDesc { lifetimes: names(lifetimes), paths: names(paths), assoc: None, implicitly_borrowed: false }
}

// `&'a str` and the like.
fn borrowed_ty(lifetime: &str) -> TypeDesc {
    TypeDesc { lifetimes: names(&[lifetime]), paths: names(&["str"]), assoc: None, implicitly_borrowed: true }
}

fn field(ident: &str, serde: SerdeAttrs, ty: TypeDesc) -> FieldDesc {
    FieldDesc { ident: Some(ident.to_string()), cbor: vec![], serde, ty }
}

fn strukt(params: &[&str], serde: SerdeAttrs, fields: Vec<FieldDesc>) -> ItemDesc {
    ItemDesc {
        name: "S".to_string(),
        de_lifetime: false,
        type_params: names(params),
        cbor: vec![],
        serde,
        data: ItemData::Struct(FieldsKind::Named, fields),
    }
}

fn bounds(item: &ItemDesc, lifetimes: &[&str]) -> ImplBounds {
    impl_bounds(item, &names(lifetimes))
}

#[test]
fn container_bounds_replace_the_inferred_impl_bounds() {
    // #[serde(bound = "")] struct S<T> { #[cbor(key = 1)] a: u8, #[serde(skip)] marker: PhantomData<T> }
    let item = strukt(
        &["T"],
        serde(vec![meta("bound", SerdeArg::Text(String::new()))]),
        vec![field("a", serde(vec![]), ty(&[], &["u8"])), field("marker", serde(vec![bare("skip")]), ty(&[], &[]))],
    );
    let b = bounds(&item, &[]);
    assert!(b.ser_params.is_empty());
    assert!(b.de_params.is_empty());
    assert_eq!(b.ser_predicates, names(&[""]));
    assert_eq!(b.de_predicates, names(&[""]));

    // #[serde(bound(deserialize = "T: ::serde::Deserialize<'de> + Default"))]
    // struct S<T> { #[cbor(key = 1)] a: T }
    let pred = "T: ::serde::Deserialize<'de> + Default";
    let item = strukt(
        &["T"],
        serde(vec![meta("bound", SerdeArg::Sides(vec![("deserialize".to_string(), pred.to_string())]))]),
        vec![field("a", serde(vec![]), ty(&[], &["T"]))],
    );
    let b = bounds(&item, &[]);
    assert_eq!(b.de_predicates, names(&[pred]));
    assert!(b.de_params.is_empty());
    assert_eq!(b.lifetime, "'__de");
    assert_eq!(rename_de_lifetime(&b.de_predicates[0], &b.lifetime), "T: ::serde::Deserialize<'__de> + Default");
    assert_eq!(b.ser_params, names(&["T"]));
    assert!(b.ser_predicates.is_empty());
}

#[test]
fn only_borrowed_lifetimes_constrain_deserialization() {
    // struct S<'owned, 'borrowed> {
    //     owned: Cow<'owned, str>,
    //     #[serde(borrow = "'borrowed")] borrowed: Cow<'borrowed, str>,
    // }
    let item = strukt(
        &[],
        serde(vec![]),
        vec![
            field("owned", serde(vec![]), ty(&["owned"], &["str"])),
            field(
                "borrowed",
                serde(vec![meta("borrow", SerdeArg::Lifetimes(names(&["borrowed"])))]),
                ty(&["borrowed"], &["str"]),
            ),
        ],
    );
    let b = bounds(&item, &["owned", "borrowed"]);
    assert_eq!(b.lifetime, "'__de");
    assert_eq!(b.borrowed, names(&["borrowed"]));
}

#[test]
fn keeps_generics_and_their_bounds() {
    // #[cbor(tag = 7)] struct Wrap<T: Clone> { #[cbor(key = 1)] inner: T }
    let item = strukt(&["T"], serde(vec![]), vec![field("inner", serde(vec![]), ty(&[], &["T"]))]);
    let b = bounds(&item, &[]);
    assert_eq!(b.ser_params, names(&["T"]));
    assert_eq!(b.de_params, names(&["T"]));
    assert_eq!(b.lifetime, "'__de");
    assert!(b.default_params.is_empty() && !b.needs_default);
    assert!(b.ser_predicates.is_empty() && b.de_predicates.is_empty());
}

#[test]
fn avoids_deserialize_lifetime_collisions() {
    // struct Borrowed<'a, '__de> { #[cbor(key = 1)] value: &'a str, other: &'__de str }
    let item = strukt(
        &[],
        serde(vec![]),
        vec![field("value", serde(vec![]), borrowed_ty("a")), field("other", serde(vec![]), borrowed_ty("__de"))],
    );
    let b = bounds(&item, &["a", "__de"]);
    assert_eq!(b.lifetime, "'__de_");
    assert_eq!(b.borrowed, names(&["a", "__de"]));
}

#[test]
fn skipped_and_delegated_fields_ask_for_no_bound() {
    // struct S<A, B, C, D> {
    //     a: A,
    //     #[serde(skip_serializing)] b: B,
    //     #[serde(with = "m")] c: C,
    //     #[serde(default)] d: Vec<D>,
    // }
    let item = strukt(
        &["A", "B", "C", "D"],
        serde(vec![]),
        vec![
            field("a", serde(vec![]), ty(&[], &["A"])),
            field("b", serde(vec![bare("skip_serializing")]), ty(&[], &["B"])),
            field("c", serde(vec![meta("with", SerdeArg::Text("m".to_string()))]), ty(&[], &["C"])),
            field("d", serde(vec![bare("default")]), ty(&[], &["Vec", "D"])),
        ],
    );
    let b = bounds(&item, &[]);
    assert_eq!(b.ser_params, names(&["A", "D"]));
    assert_eq!(b.de_params, names(&["A", "B", "D"]));
    assert_eq!(b.default_params, names(&["D"]));
}

#[test]
fn skipped_fields_need_default_unless_the_container_provides_it() {
    // struct S<T> { #[serde(skip_deserializing)] t: T }
    let fields = || vec![field("t", serde(vec![bare("skip_deserializing")]), ty(&[], &["T"]))];
    let b = bounds(&strukt(&["T"], serde(vec![]), fields()), &[]);
    assert_eq!(b.default_params, names(&["T"]));
    assert!(b.de_params.is_empty());
    assert!(!b.needs_default);
    // #[serde(default)] on the container: the item itself must be Default.
    let b = bounds(&strukt(&["T"], serde(vec![bare("default")]), fields()), &[]);
    assert!(b.default_params.is_empty());
    assert!(b.needs_default);
    // #[serde(default = "make")] on the container.
    let b = bounds(&strukt(&["T"], serde(vec![meta("default", SerdeArg::Text("make".to_string()))]), fields()), &[]);
    assert!(b.default_params.is_empty());
    assert!(!b.needs_default);
}

#[test]
fn associated_types_are_bounded_by_their_path() {
    // struct S<T: Trait> { v: T::Value }
    let assoc = TypeDesc {
        lifetimes: vec![],
        paths: vec![],
        assoc: Some(("T".to_string(), "T::Value".to_string())),
        implicitly_borrowed: false,
    };
    let b = bounds(&strukt(&["T"], serde(vec![]), vec![field("v", serde(vec![]), assoc)]), &[]);
    assert!(b.ser_params.is_empty());
    assert_eq!(b.ser_assoc, names(&["T::Value"]));
    assert_eq!(b.de_assoc, names(&["T::Value"]));
}

#[test]
fn borrow_takes_the_field_or_its_variant() {
    // enum E<'a, 'b> { #[serde(borrow)] V { x: Cow<'a, str>, #[serde(skip)] y: &'b str, z: Cow<'_, str> } }
    let v = VariantDesc {
        kind: FieldsKind::Named,
        fields: vec![
            field("x", serde(vec![]), ty(&["a"], &["str"])),
            field("y", serde(vec![bare("skip")]), borrowed_ty("b")),
            field("z", serde(vec![]), ty(&["_"], &["str"])),
        ],
        serde: serde(vec![bare("borrow")]),
        has_cbor: false,
    };
    let item = ItemDesc {
        name: "E".to_string(),
        de_lifetime: false,
        type_params: vec![],
        cbor: vec![],
        serde: serde(vec![]),
        data: ItemData::Enum(vec![v]),
    };
    let b = bounds(&item, &["a", "b"]);
    assert_eq!(b.borrowed, names(&["a"]));
}

#[test]
fn unreadable_bounds_fall_back_to_inference() {
    // #[serde(bound = "not a predicate")] struct S<T> { t: T }
    let item =
        strukt(&["T"], serde(vec![meta("bound", SerdeArg::Unparsed)]), vec![field("t", serde(vec![]), ty(&[], &["T"]))]);
    let b = bounds(&item, &[]);
    assert_eq!(b.ser_params, names(&["T"]));
    assert_eq!(b.de_params, names(&["T"]));
    assert!(b.ser_predicates.is_empty());
}

#[test]
fn field_bounds_come_before_the_container_bound() {
    // #[serde(bound(serialize = "C: X"))] struct S<T> { #[serde(bound = "T: Y")] t: T }
    let item = strukt(
        &["T"],
        serde(vec![meta("bound", SerdeArg::BoundSides(vec![("serialize".to_string(), Some("C: X".to_string()))]))]),
        vec![field("t", serde(vec![meta("bound", SerdeArg::Text("T: Y".to_string()))]), ty(&[], &["T"]))],
    );
    let b = bounds(&item, &[]);
    assert_eq!(b.ser_predicates, names(&["T: Y", "C: X"]));
    assert_eq!(b.de_predicates, names(&["T: Y"]));
    assert!(b.ser_params.is_empty());
    // The field has its own bound, so it asks for no inferred one.
    assert!(b.de_params.is_empty());
}

#[test]
fn only_the_de_lifetime_is_renamed() {
    assert_eq!(rename_de_lifetime("T: Deserialize<'de>", "'__de_"), "T: Deserialize<'__de_>");
    assert_eq!(rename_de_lifetime("'de: 'a, &'dex T: X<'de>", "'x"), "'x: 'a, &'dex T: X<'x>");
    assert_eq!(rename_de_lifetime("'de", "'x"), "'x");
    assert_eq!(rename_de_lifetime("de 'd", "'x"), "de 'd");
}

// The items of the `pass` consumer fixture: each is accepted, with these bounds.
#[test]
fn pass_fixture_items_are_accepted_with_their_bounds() {
    // struct Defaults<T> under #[serde(default)] { value: T }
    let item = strukt(&["T"], serde(vec![bare("default")]), vec![field("value", serde(vec![]), ty(&[], &["T"]))]);
    assert!(analyze(&item).is_ok());
    let b = bounds(&item, &[]);
    assert!(b.needs_default);
    assert_eq!(b.ser_params, names(&["T"]));
    assert_eq!(b.de_params, names(&["T"]));
    assert!(b.default_params.is_empty());

    // struct Factory under #[serde(default = "Self::initial")] { value: u8 }
    let item = strukt(
        &[],
        serde(vec![meta("default", SerdeArg::Text("Self::initial".to_string()))]),
        vec![field("value", serde(vec![]), ty(&[], &["u8"]))],
    );
    assert!(analyze(&item).is_ok());
    assert!(!bounds(&item, &[]).needs_default);

    // struct Borrowed<'a> { #[serde(borrow)] name: &'a str, body: RawValue, #[serde(flatten)] extra: BTreeMap<..> }
    let item = strukt(
        &[],
        serde(vec![]),
        vec![
            field("name", serde(vec![bare("borrow")]), borrowed_ty("a")),
            field("body", serde(vec![]), ty(&[], &[])),
            field("extra", serde(vec![bare("flatten")]), ty(&[], &["String"])),
        ],
    );
    let b = bounds(&item, &["a"]);
    assert_eq!(b.borrowed, names(&["a"]));
    assert_eq!(b.lifetime, "'__de");

    // struct LifetimePrefix<'__de_> under #[serde(default)] { value: Option<&'__de_ str> }
    let item = strukt(&[], serde(vec![bare("default")]), vec![field("value", serde(vec![]), borrowed_ty("__de_"))]);
    assert!(analyze(&item).is_ok());
    let b = bounds(&item, &["__de_"]);
    assert_eq!(b.lifetime, "'__de");
    assert_eq!(b.borrowed, names(&["__de_"]));
}
