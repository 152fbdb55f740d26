//! The bounds of the impls that the `Cbor` derive writes: which type
//! parameters must be `Serialize`, `Deserialize` or `Default`, which
//! where-predicates the user's `bound` metas add, and which lifetimes the
//! deserializer's lifetime must outlive. Bounds are put on the type
//! parameters that participating fields mention, never on whole field
//! types, and the deserializer's lifetime is tied only to the lifetimes
//! that fields actually borrow.

use vstd::prelude::*;

use crate::cli::same_text;
use crate::derive_analysis::{no_serde, FieldDesc, ItemData, ItemDesc, SerdeAttrs, SerdeBounds, SerdeFns, SerdeFlags};
use crate::derive_rules::{collect_text, fresh_lifetime, is_taken, taken, underscored, SkipAttrs};

verus! {

/// The trait whose bound a field can ask for.
#[derive(Copy, Clone, Debug, PartialEq, Eq, Structural)]
pub enum Side {
    Ser,
    De,
    Default,
}

/// What the inference gathers from the fields.
#[derive(Copy, Clone, Debug, PartialEq, Eq, Structural)]
pub enum Collect {
    /// The explicit `bound` of each direction, group by group.
    SerPreds,
    DePreds,
    /// The paths that the fields asking for a bound name.
    Used(Side),
    /// The associated types (`T::Value`) of the fields asking for a bound.
    Assoc(Side),
    /// The lifetimes that fields borrow.
    Borrowed,
}

/// Whether a field of a group asks for the bound of `side` on the type
/// parameters its type names: for `Serialize` and `Deserialize`, one that
/// is written in that direction, through serde's own code, with no
/// `bound` of its own or of its group; for `Default`, one with a bare
/// `default`, or one skipped when read that nothing else fills in.
pub open spec fn includes(side: Side, c: SerdeAttrs, g: SerdeAttrs, f: FieldDesc) -> bool {
    match side {
        Side::Ser => !f.serde.skips.skip_serializing && !f.serde.fns.serialize_with && f.serde.bounds.ser is None
            && !g.skips.skip_serializing && !g.fns.serialize_with && g.bounds.ser is None,
        Side::De => !f.serde.skips.skip_deserializing && !f.serde.fns.deserialize_with && f.serde.bounds.de is None
            && !g.skips.skip_deserializing && !g.fns.deserialize_with && g.bounds.de is None,
        Side::Default => f.serde.fns.default || (f.serde.skips.skip_deserializing && !f.serde.fns.default_path
            && !c.fns.default && !c.fns.default_path),
    }
}

/// The lifetimes a field asks to borrow: its own `borrow`, else its
/// group's; a bare one borrows every lifetime of its type; with no
/// `borrow`, an implicitly borrowed type borrows its lifetimes.
pub open spec fn borrow_list(g: SerdeAttrs, f: FieldDesc) -> Seq<String> {
    let b = if f.serde.bounds.borrow is Some {
        f.serde.bounds.borrow
    } else {
        g.bounds.borrow
    };
    match b {
        Some(Some(l)) => l@,
        Some(None) => f.ty.lifetimes@,
        None => if f.ty.implicitly_borrowed {
            f.ty.lifetimes@
        } else {
            Seq::empty()
        },
    }
}

/// Adds lifetimes in turn, each once, leaving out `'_`.
pub open spec fn add_lifetimes(acc: Seq<String>, lts: Seq<String>) -> Seq<String>
    decreases lts.len(),
{
    if lts.len() == 0 {
        acc
    } else {
        let prev = add_lifetimes(acc, lts.drop_last());
        let l = lts.last();
        if l@ == "_"@ || taken(prev, l@) {
            prev
        } else {
            prev.push(l)
        }
    }
}

/// What one field adds to what has been gathered.
pub open spec fn step(kind: Collect, c: SerdeAttrs, d: Seq<String>, acc: Seq<String>, g: SerdeAttrs, f: FieldDesc) -> Seq<String> {
    match kind {
        Collect::SerPreds => match f.serde.bounds.ser {
            Some(b) => acc.push(b),
            None => acc,
        },
        Collect::DePreds => match f.serde.bounds.de {
            Some(b) => acc.push(b),
            None => acc,
        },
        Collect::Used(side) => if includes(side, c, g, f) {
            acc + f.ty.paths@
        } else {
            acc
        },
        Collect::Assoc(side) => match f.ty.assoc {
            Some((h, t)) => if includes(side, c, g, f) && taken(d, h@) {
                acc.push(t)
            } else {
                acc
            },
            None => acc,
        },
        Collect::Borrowed => if f.serde.skips.skip_deserializing {
            acc
        } else {
            add_lifetimes(acc, borrow_list(g, f))
        },
    }
}

/// What a group adds before its fields: its own `bound`.
pub open spec fn group_start(kind: Collect, acc: Seq<String>, g: SerdeAttrs) -> Seq<String> {
    match kind {
        Collect::SerPreds => match g.bounds.ser {
            Some(b) => acc.push(b),
            None => acc,
        },
        Collect::DePreds => match g.bounds.de {
            Some(b) => acc.push(b),
            None => acc,
        },
        _ => acc,
    }
}

/// What the fields of a group add, in order.
pub open spec fn fold_fields(kind: Collect, c: SerdeAttrs, d: Seq<String>, acc: Seq<String>, g: SerdeAttrs, fs: Seq<FieldDesc>) -> Seq<String>
    decreases fs.len(),
{
    if fs.len() == 0 {
        acc
    } else {
        step(kind, c, d, fold_fields(kind, c, d, acc, g, fs.drop_last()), g, fs.last())
    }
}

/// What the groups add, in order.
pub open spec fn fold_groups(kind: Collect, c: SerdeAttrs, d: Seq<String>, acc: Seq<String>, gs: Seq<(SerdeAttrs, Seq<FieldDesc>)>) -> Seq<String>
    decreases gs.len(),
{
    if gs.len() == 0 {
        acc
    } else {
        let prev = fold_groups(kind, c, d, acc, gs.drop_last());
        let (g, fs) = gs.last();
        fold_fields(kind, c, d, group_start(kind, prev, g), g, fs)
    }
}

/// The groups of fields of an item: a struct's fields under no serde
/// attribute, or each variant's fields under the variant's.
pub open spec fn groups_of(data: ItemData) -> Seq<(SerdeAttrs, Seq<FieldDesc>)> {
    match data {
        ItemData::Struct(_, fs) => seq![(no_serde(), fs@)],
        ItemData::Enum(vs) => Seq::new(vs@.len(), |i: int| (vs@[i].serde, vs@[i].fields@)),
        ItemData::Union => Seq::empty(),
    }
}

/// What the inference gathers from an item's fields.
pub open spec fn gather(kind: Collect, item: ItemDesc) -> Seq<String> {
    fold_groups(kind, item.serde, item.type_params@, Seq::empty(), groups_of(item.data))
}

/// The type parameters, in order, that some gathered path names.
pub open spec fn named_params(d: Seq<String>, used: Seq<String>) -> Seq<String>
    decreases d.len(),
{
    if d.len() == 0 {
        Seq::empty()
    } else {
        let prev = named_params(d.drop_last(), used);
        if taken(used, d.last()@) {
            prev.push(d.last())
        } else {
            prev
        }
    }
}

/// The bounds of the derive's impls, but for the deserializer lifetime's
/// name.
pub ghost struct ImplBoundsView {
    pub ser_predicates: Seq<String>,
    pub de_predicates: Seq<String>,
    pub ser_params: Seq<String>,
    pub ser_assoc: Seq<String>,
    pub de_params: Seq<String>,
    pub de_assoc: Seq<String>,
    pub default_params: Seq<String>,
    pub default_assoc: Seq<String>,
    pub needs_default: bool,
    pub borrowed: Seq<String>,
}

/// The bounds of the derive's impls of an item. A container `bound` of a
/// direction replaces what would be inferred for it and comes after the
/// groups' and fields' own; `Default` is inferred only with the
/// deserializing bounds.
pub open spec fn impl_bounds_spec(item: ItemDesc) -> ImplBoundsView {
    let c = item.serde;
    let d = item.type_params@;
    let ser = gather(Collect::SerPreds, item);
    let de = gather(Collect::DePreds, item);
    ImplBoundsView {
        ser_predicates: match c.bounds.ser {
            Some(b) => ser.push(b),
            None => ser,
        },
        de_predicates: match c.bounds.de {
            Some(b) => de.push(b),
            None => de,
        },
        ser_params: if c.bounds.ser is Some {
            Seq::empty()
        } else {
            named_params(d, gather(Collect::Used(Side::Ser), item))
        },
        ser_assoc: if c.bounds.ser is Some {
            Seq::empty()
        } else {
            gather(Collect::Assoc(Side::Ser), item)
        },
        de_params: if c.bounds.de is Some {
            Seq::empty()
        } else {
            named_params(d, gather(Collect::Used(Side::De), item))
        },
        de_assoc: if c.bounds.de is Some {
            Seq::empty()
        } else {
            gather(Collect::Assoc(Side::De), item)
        },
        default_params: if c.bounds.de is Some {
            Seq::empty()
        } else {
            named_params(d, gather(Collect::Used(Side::Default), item))
        },
        default_assoc: if c.bounds.de is Some {
            Seq::empty()
        } else {
            gather(Collect::Assoc(Side::Default), item)
        },
        needs_default: c.fns.default,
        borrowed: gather(Collect::Borrowed, item),
    }
}

/// The bounds of the impls that the derive writes for an item.
pub struct ImplBounds {
    /// The deserializer's lifetime, with its `'`.
    pub lifetime: String,
    /// The where-predicates of the user's `bound` metas, in the order
    /// they are added; in those of deserializing, `'de` stands for the
    /// deserializer's lifetime, which `rename_de_lifetime` puts in.
    pub ser_predicates: Vec<String>,
    pub de_predicates: Vec<String>,
    /// The type parameters bound by `Serialize`, and the associated types
    /// bound by it.
    pub ser_params: Vec<String>,
    pub ser_assoc: Vec<String>,
    /// The same for `Deserialize` of the deserializer's lifetime.
    pub de_params: Vec<String>,
    pub de_assoc: Vec<String>,
    /// The same for `Default`.
    pub default_params: Vec<String>,
    pub default_assoc: Vec<String>,
    /// The item itself must be `Default`.
    pub needs_default: bool,
    /// The lifetimes that the deserializer's lifetime must outlive.
    pub borrowed: Vec<String>,
}

impl View for ImplBounds {
    type V = ImplBoundsView;

    open spec fn view(&self) -> ImplBoundsView {
        ImplBoundsView {
            ser_predicates: self.ser_predicates@,
            de_predicates: self.de_predicates@,
            ser_params: self.ser_params@,
            ser_assoc: self.ser_assoc@,
            de_params: self.de_params@,
            de_assoc: self.de_assoc@,
            default_params: self.default_params@,
            default_assoc: self.default_assoc@,
            needs_default: self.needs_default,
            borrowed: self.borrowed@,
        }
    }
}

/// Whether a field of a group asks for the bound of `side`.
fn includes_exec(side: Side, c: &SerdeAttrs, g: &SerdeAttrs, f: &FieldDesc) -> (r: bool)
    ensures
        r == includes(side, *c, *g, *f),
{
    match side {
        Side::Ser => !f.serde.skips.skip_serializing && !f.serde.fns.serialize_with && f.serde.bounds.ser.is_none()
            && !g.skips.skip_serializing && !g.fns.serialize_with && g.bounds.ser.is_none(),
        Side::De => !f.serde.skips.skip_deserializing && !f.serde.fns.deserialize_with && f.serde.bounds.de.is_none()
            && !g.skips.skip_deserializing && !g.fns.deserialize_with && g.bounds.de.is_none(),
        Side::Default => f.serde.fns.default || (f.serde.skips.skip_deserializing && !f.serde.fns.default_path
            && !c.fns.default && !c.fns.default_path),
    }
}

/// Adds lifetimes in turn, each once, leaving out `'_`.
fn add_lifetimes_exec(acc: &mut Vec<String>, lts: &Vec<String>)
    ensures
        final(acc)@ == add_lifetimes(old(acc)@, lts@),
{
    let ghost a0 = acc@;
    let mut i: usize = 0;
    while i < lts.len()
        invariant
            i <= lts@.len(),
            acc@ == add_lifetimes(a0, lts@.take(i as int)),
        decreases lts@.len() - i,
    {
        proof {
            assert(lts@.take(i + 1).drop_last() =~= lts@.take(i as int));
        }
        let l = &lts[i];
        if !same_text(l.as_str(), "_") && !is_taken(acc, l.as_str()) {
            acc.push(l.clone());
        }
        i = i + 1;
    }
    assert(lts@.take(lts@.len() as int) =~= lts@);
}

/// Appends a list of names.
fn append_names(acc: &mut Vec<String>, l: &Vec<String>)
    ensures
        final(acc)@ == old(acc)@ + l@,
{
    let ghost a0 = acc@;
    let mut i: usize = 0;
    while i < l.len()
        invariant
            i <= l@.len(),
            acc@ == a0 + l@.take(i as int),
        decreases l@.len() - i,
    {
        acc.push(l[i].clone());
        i = i + 1;
        assert(acc@ =~= a0 + l@.take(i as int));
    }
    assert(l@.take(l@.len() as int) =~= l@);
}

/// Adds the lifetimes a field borrows.
fn add_borrowed(acc: &mut Vec<String>, g: &SerdeAttrs, f: &FieldDesc)
    ensures
        final(acc)@ == add_lifetimes(old(acc)@, borrow_list(*g, *f)),
{
    let b = if f.serde.bounds.borrow.is_some() {
        &f.serde.bounds.borrow
    } else {
        &g.bounds.borrow
    };
    match b {
        Some(Some(l)) => add_lifetimes_exec(acc, l),
        Some(None) => add_lifetimes_exec(acc, &f.ty.lifetimes),
        None => if f.ty.implicitly_borrowed {
            add_lifetimes_exec(acc, &f.ty.lifetimes)
        } else {
            proof {
                assert(add_lifetimes(acc@, Seq::empty()) == acc@);
            }
        },
    }
}

/// Adds what one field gives.
fn step_exec(kind: Collect, c: &SerdeAttrs, d: &Vec<String>, acc: &mut Vec<String>, g: &SerdeAttrs, f: &FieldDesc)
    ensures
        final(acc)@ == step(kind, *c, d@, old(acc)@, *g, *f),
{
    match kind {
        Collect::SerPreds => match &f.serde.bounds.ser {
            Some(b) => acc.push(b.clone()),
            None => {},
        },
        Collect::DePreds => match &f.serde.bounds.de {
            Some(b) => acc.push(b.clone()),
            None => {},
        },
        Collect::Used(side) => if includes_exec(side, c, g, f) {
            append_names(acc, &f.ty.paths);
        },
        Collect::Assoc(side) => match &f.ty.assoc {
            Some((h, t)) => if includes_exec(side, c, g, f) && is_taken(d, h.as_str()) {
                acc.push(t.clone());
            },
            None => {},
        },
        Collect::Borrowed => if !f.serde.skips.skip_deserializing {
            add_borrowed(acc, g, f);
        },
    }
}

/// Adds what a group gives before its fields.
fn group_start_exec(kind: Collect, acc: &mut Vec<String>, g: &SerdeAttrs)
    ensures
        final(acc)@ == group_start(kind, old(acc)@, *g),
{
    match kind {
        Collect::SerPreds => match &g.bounds.ser {
            Some(b) => acc.push(b.clone()),
            None => {},
        },
        Collect::DePreds => match &g.bounds.de {
            Some(b) => acc.push(b.clone()),
            None => {},
        },
        _ => {},
    }
}

/// Adds what a group gives: its own `bound`, then its fields in order.
fn gather_group(kind: Collect, c: &SerdeAttrs, d: &Vec<String>, acc: &mut Vec<String>, g: &SerdeAttrs, fs: &Vec<FieldDesc>)
    ensures
        final(acc)@ == fold_fields(kind, *c, d@, group_start(kind, old(acc)@, *g), *g, fs@),
{
    group_start_exec(kind, acc, g);
    let ghost a0 = acc@;
    let mut i: usize = 0;
    while i < fs.len()
        invariant
            i <= fs@.len(),
            acc@ == fold_fields(kind, *c, d@, a0, *g, fs@.take(i as int)),
        decreases fs@.len() - i,
    {
        proof {
            assert(fs@.take(i + 1).drop_last() =~= fs@.take(i as int));
        }
        step_exec(kind, c, d, acc, g, &fs[i]);
        i = i + 1;
    }
    assert(fs@.take(fs@.len() as int) =~= fs@);
}

/// The serde attributes of nothing.
fn empty_attrs() -> (r: SerdeAttrs)
    ensures
        r == no_serde(),
{
    SerdeAttrs {
        rename: None,
        ser_name: None,
        de_name: None,
        ser_rule: None,
        de_rule: None,
        flags: SerdeFlags {
            split_rename: false,
            rename_all: false,
            rename_all_fields: false,
            enum_repr: false,
            tag: false,
            flatten: false,
            transparent: false,
            into: false,
            from: false,
            try_from: false,
        },
        skips: SkipAttrs { skip: false, positional_skip: false, skip_serializing: false, skip_deserializing: false },
        bounds: SerdeBounds { ser: None, de: None, borrow: None },
        fns: SerdeFns {
            serialize_with: false,
            deserialize_with: false,
            default: false,
            default_path: false,
            explicit_crate: false,
        },
    }
}

/// Gathers from an item's fields, group by group.
fn gather_exec(kind: Collect, item: &ItemDesc) -> (r: Vec<String>)
    ensures
        r@ == gather(kind, *item),
{
    let mut acc: Vec<String> = Vec::new();
    match &item.data {
        ItemData::Struct(_, fs) => {
            let g = empty_attrs();
            gather_group(kind, &item.serde, &item.type_params, &mut acc, &g, fs);
            proof {
                let gs = groups_of(item.data);
                assert(gs.len() == 1);
                assert(gs.last() == (no_serde(), fs@));
                assert(gs.drop_last() =~= Seq::<(SerdeAttrs, Seq<FieldDesc>)>::empty());
                assert(fold_groups(kind, item.serde, item.type_params@, Seq::empty(), gs.drop_last()) == Seq::<String>::empty());
            }
        },
        ItemData::Enum(vs) => {
            let ghost gs = groups_of(item.data);
            let mut k: usize = 0;
            while k < vs.len()
                invariant
                    k <= vs@.len(),
                    gs == groups_of(item.data),
                    item.data == ItemData::Enum(*vs),
                    acc@ == fold_groups(kind, item.serde, item.type_params@, Seq::empty(), gs.take(k as int)),
                decreases vs@.len() - k,
            {
                proof {
                    assert(gs.take(k + 1).drop_last() =~= gs.take(k as int));
                }
                let v = &vs[k];
                assert(gs[k as int] == (v.serde, v.fields@));
                gather_group(kind, &item.serde, &item.type_params, &mut acc, &v.serde, &v.fields);
                k = k + 1;
            }
            proof {
                assert(gs.take(vs@.len() as int) =~= gs);
            }
        },
        ItemData::Union => {},
    }
    acc
}

/// The type parameters, in order, that some gathered path names.
fn named_params_exec(d: &Vec<String>, used: &Vec<String>) -> (r: Vec<String>)
    ensures
        r@ == named_params(d@, used@),
{
    let mut r: Vec<String> = Vec::new();
    let mut i: usize = 0;
    while i < d.len()
        invariant
            i <= d@.len(),
            r@ == named_params(d@.take(i as int), used@),
        decreases d@.len() - i,
    {
        proof {
            assert(d@.take(i + 1).drop_last() =~= d@.take(i as int));
        }
        if is_taken(used, d[i].as_str()) {
            r.push(d[i].clone());
        }
        i = i + 1;
    }
    assert(d@.take(d@.len() as int) =~= d@);
    r
}

/// The inferred bounds of one direction, unless a container `bound`
/// replaces them.
fn inferred(replaced: bool, side: Side, item: &ItemDesc) -> (r: (Vec<String>, Vec<String>))
    ensures
        r.0@ == (if replaced {
            Seq::empty()
        } else {
            named_params(item.type_params@, gather(Collect::Used(side), *item))
        }),
        r.1@ == (if replaced {
            Seq::empty()
        } else {
            gather(Collect::Assoc(side), *item)
        }),
{
    if replaced {
        (Vec::new(), Vec::new())
    } else {
        let used = gather_exec(Collect::Used(side), item);
        (named_params_exec(&item.type_params, &used), gather_exec(Collect::Assoc(side), item))
    }
}

/// The bounds of the impls that the derive writes for an item whose
/// generics declare the lifetimes `lifetimes` (by their names without
/// `'`): the deserializer's lifetime is `'__de` made new against them.
pub fn impl_bounds(item: &ItemDesc, lifetimes: &Vec<String>) -> (r: ImplBounds)
    ensures
        r@ == impl_bounds_spec(*item),
        exists|k: nat|
            #![trigger underscored("__de"@, k)]
            r.lifetime@ == seq!['\''] + underscored("__de"@, k) && !taken(lifetimes@, underscored("__de"@, k))
                && forall|j: nat| j < k ==> taken(lifetimes@, #[trigger] underscored("__de"@, j)),
{
    let lifetime = fresh_lifetime(lifetimes, "__de");
    let mut ser_predicates = gather_exec(Collect::SerPreds, item);
    match &item.serde.bounds.ser {
        Some(b) => ser_predicates.push(b.clone()),
        None => {},
    }
    let mut de_predicates = gather_exec(Collect::DePreds, item);
    match &item.serde.bounds.de {
        Some(b) => de_predicates.push(b.clone()),
        None => {},
    }
    let ser_replaced = item.serde.bounds.ser.is_some();
    let de_replaced = item.serde.bounds.de.is_some();
    let (ser_params, ser_assoc) = inferred(ser_replaced, Side::Ser, item);
    let (de_params, de_assoc) = inferred(de_replaced, Side::De, item);
    let (default_params, default_assoc) = inferred(de_replaced, Side::Default, item);
    let borrowed = gather_exec(Collect::Borrowed, item);
    let r = ImplBounds {
        lifetime,
        ser_predicates,
        de_predicates,
        ser_params,
        ser_assoc,
        de_params,
        de_assoc,
        default_params,
        default_assoc,
        needs_default: item.serde.fns.default,
        borrowed,
    };
    assert(r@ =~= impl_bounds_spec(*item));
    r
}

/// Names with no repeat and no `_`.
pub open spec fn clean(s: Seq<String>) -> bool {
    &&& forall|i: int, j: int| 0 <= i < j < s.len() ==> s[i]@ != s[j]@
    &&& forall|i: int| 0 <= i < s.len() ==> (#[trigger] s[i])@ != "_"@
}

/// A field of the group at `k` that is read, and whose borrowed lifetimes
/// include `l`.
pub open spec fn borrowed_in(gs: Seq<(SerdeAttrs, Seq<FieldDesc>)>, l: Seq<char>) -> bool {
    exists|k: int, j: int|
        0 <= k < gs.len() && 0 <= j < gs[k].1.len() && !(#[trigger] gs[k].1[j]).serde.skips.skip_deserializing
            && taken(borrow_list(gs[k].0, gs[k].1[j]), l)
}

/// Adding lifetimes keeps names clean, and adds only the ones given.
proof fn lemma_add_lifetimes(acc: Seq<String>, lts: Seq<String>)
    requires
        clean(acc),
    ensures
        clean(add_lifetimes(acc, lts)),
        forall|i: int|
            0 <= i < add_lifetimes(acc, lts).len() ==> taken(acc, (#[trigger] add_lifetimes(acc, lts)[i])@) || taken(
                lts,
                add_lifetimes(acc, lts)[i]@,
            ),
    decreases lts.len(),
{
    reveal_strlit("_");
    if lts.len() > 0 {
        let t = lts.drop_last();
        lemma_add_lifetimes(acc, t);
        let prev = add_lifetimes(acc, t);
        let r = add_lifetimes(acc, lts);
        let l = lts.last();
        assert forall|i: int| 0 <= i < r.len() implies taken(acc, (#[trigger] r[i])@) || taken(lts, r[i]@) by {
            if i < prev.len() {
                assert(r[i] == prev[i]);
                if taken(t, prev[i]@) {
                    let w = choose|w: int| 0 <= w < t.len() && t[w]@ == prev[i]@;
                    assert(lts[w] == t[w]);
                }
            } else {
                assert(lts[lts.len() - 1] == l);
            }
        }
        if !(l@ == "_"@ || taken(prev, l@)) {
            assert forall|i: int, j: int| 0 <= i < j < r.len() implies r[i]@ != r[j]@ by {
                if j == prev.len() {
                    assert(r[i] == prev[i]);
                }
            }
        }
    }
}

/// Gathering borrowed lifetimes over a group's fields keeps names clean,
/// and adds only lifetimes that a read field of it borrows.
proof fn lemma_fold_borrowed(c: SerdeAttrs, d: Seq<String>, acc: Seq<String>, g: SerdeAttrs, fs: Seq<FieldDesc>)
    requires
        clean(acc),
    ensures
        clean(fold_fields(Collect::Borrowed, c, d, acc, g, fs)),
        forall|i: int|
            0 <= i < fold_fields(Collect::Borrowed, c, d, acc, g, fs).len() ==> taken(
                acc,
                (#[trigger] fold_fields(Collect::Borrowed, c, d, acc, g, fs)[i])@,
            ) || exists|j: int|
                0 <= j < fs.len() && !(#[trigger] fs[j]).serde.skips.skip_deserializing && taken(
                    borrow_list(g, fs[j]),
                    fold_fields(Collect::Borrowed, c, d, acc, g, fs)[i]@,
                ),
    decreases fs.len(),
{
    if fs.len() > 0 {
        let t = fs.drop_last();
        lemma_fold_borrowed(c, d, acc, g, t);
        let prev = fold_fields(Collect::Borrowed, c, d, acc, g, t);
        let f = fs.last();
        let r = fold_fields(Collect::Borrowed, c, d, acc, g, fs);
        assert(f == fs[fs.len() - 1]);
        if !f.serde.skips.skip_deserializing {
            lemma_add_lifetimes(prev, borrow_list(g, f));
        }
        assert forall|i: int| 0 <= i < r.len() implies taken(acc, (#[trigger] r[i])@) || exists|j: int|
            0 <= j < fs.len() && !(#[trigger] fs[j]).serde.skips.skip_deserializing && taken(borrow_list(g, fs[j]), r[i]@) by {
            if taken(prev, r[i]@) {
                let w = choose|w: int| 0 <= w < prev.len() && prev[w]@ == r[i]@;
                if !taken(acc, prev[w]@) {
                    let j = choose|j: int|
                        0 <= j < t.len() && !(#[trigger] t[j]).serde.skips.skip_deserializing && taken(
                            borrow_list(g, t[j]),
                            prev[w]@,
                        );
                    assert(fs[j] == t[j]);
                }
            } else {
                assert(!f.serde.skips.skip_deserializing);
            }
        }
    }
}

/// Gathering borrowed lifetimes over groups keeps names clean, and adds
/// only lifetimes that a read field borrows.
proof fn lemma_groups_borrowed(c: SerdeAttrs, d: Seq<String>, gs: Seq<(SerdeAttrs, Seq<FieldDesc>)>)
    ensures
        clean(fold_groups(Collect::Borrowed, c, d, Seq::empty(), gs)),
        forall|i: int|
            0 <= i < fold_groups(Collect::Borrowed, c, d, Seq::empty(), gs).len() ==> borrowed_in(
                gs,
                (#[trigger] fold_groups(Collect::Borrowed, c, d, Seq::empty(), gs)[i])@,
            ),
    decreases gs.len(),
{
    if gs.len() > 0 {
        let t = gs.drop_last();
        lemma_groups_borrowed(c, d, t);
        let prev = fold_groups(Collect::Borrowed, c, d, Seq::empty(), t);
        let (g, fs) = gs.last();
        lemma_fold_borrowed(c, d, prev, g, fs);
        let r = fold_groups(Collect::Borrowed, c, d, Seq::empty(), gs);
        assert(r == fold_fields(Collect::Borrowed, c, d, prev, g, fs));
        assert forall|i: int| 0 <= i < r.len() implies borrowed_in(gs, (#[trigger] r[i])@) by {
            if taken(prev, r[i]@) {
                let w = choose|w: int| 0 <= w < prev.len() && prev[w]@ == r[i]@;
                assert(borrowed_in(t, prev[w]@));
                let (k, j) = choose|k: int, j: int|
                    0 <= k < t.len() && 0 <= j < t[k].1.len() && !(#[trigger] t[k].1[j]).serde.skips.skip_deserializing
                        && taken(borrow_list(t[k].0, t[k].1[j]), prev[w]@);
                assert(gs[k] == t[k]);
                assert(gs[k].1[j] == t[k].1[j]);
            } else {
                let j = choose|j: int|
                    0 <= j < fs.len() && !(#[trigger] fs[j]).serde.skips.skip_deserializing && taken(
                        borrow_list(g, fs[j]),
                        r[i]@,
                    );
                let k = gs.len() - 1;
                assert(gs[k] == (g, fs));
                assert(gs[k].1[j] == fs[j]);
            }
        }
    }
}

/// Only the lifetimes that fields actually borrow constrain the
/// deserializer's lifetime: each lifetime it must outlive is named once,
/// is not `'_`, and is borrowed by a field that is read (through its own
/// `borrow`, its variant's, or an implicitly borrowed type).
pub proof fn lemma_only_borrowed_lifetimes(item: ItemDesc)
    ensures
        clean(impl_bounds_spec(item).borrowed),
        forall|i: int|
            0 <= i < impl_bounds_spec(item).borrowed.len() ==> borrowed_in(
                groups_of(item.data),
                (#[trigger] impl_bounds_spec(item).borrowed[i])@,
            ),
{
    lemma_groups_borrowed(item.serde, item.type_params@, groups_of(item.data));
}

/// A character that may continue an identifier: an ASCII letter, digit or
/// `_`, or any character beyond ASCII.
pub open spec fn ident_continue(c: char) -> bool {
    ('a' <= c <= 'z') || ('A' <= c <= 'Z') || ('0' <= c <= '9') || c == '_' || c > '\x7f'
}

/// The text starts with the lifetime `'de`.
pub open spec fn de_at(t: Seq<char>) -> bool {
    t.len() >= 3 && t[0] == '\'' && t[1] == 'd' && t[2] == 'e' && (t.len() == 3 || !ident_continue(t[3]))
}

/// A text with every lifetime `'de` in it replaced by `to`.
pub open spec fn rename_de(t: Seq<char>, to: Seq<char>) -> Seq<char>
    decreases t.len(),
{
    if t.len() == 0 {
        Seq::empty()
    } else if de_at(t) {
        to + rename_de(t.skip(3), to)
    } else {
        seq![t[0]] + rename_de(t.skip(1), to)
    }
}

/// Whether a character may continue an identifier.
fn is_ident_continue(c: char) -> (r: bool)
    ensures
        r == ident_continue(c),
{
    ('a' <= c && c <= 'z') || ('A' <= c && c <= 'Z') || ('0' <= c && c <= '9') || c == '_' || c > '\x7f'
}

/// Writes a `bound` predicate of deserializing for the derive's impl:
/// the lifetime `'de` that serde's bounds speak of becomes the
/// deserializer's lifetime of the impl.
pub fn rename_de_lifetime(pred: &str, lifetime: &str) -> (r: String)
    ensures
        r@ == rename_de(pred@, lifetime@),
{
    let n = pred.unicode_len();
    let ghost t = pred@;
    let ghost to = lifetime@;
    let mut out: Vec<char> = Vec::new();
    let mut i: usize = 0;
    assert(t.skip(0) =~= t);
    while i < n
        invariant
            n == t.len(),
            t == pred@,
            to == lifetime@,
            i <= n,
            out@ + rename_de(t.skip(i as int), to) == rename_de(t, to),
        decreases n - i,
    {
        let ghost rest = t.skip(i as int);
        let c = pred.get_char(i);
        let de = n - i >= 3 && c == '\'' && pred.get_char(i + 1) == 'd' && pred.get_char(i + 2) == 'e' && (i + 3 == n
            || !is_ident_continue(pred.get_char(i + 3)));
        assert(de == de_at(rest));
        if de {
            let ghost before = out@;
            crate::derive_rules::push_text(&mut out, lifetime);
            assert(rest.skip(3) =~= t.skip(i + 3));
            assert(out@ + rename_de(t.skip(i + 3), to) =~= before + rename_de(rest, to));
            i = i + 3;
        } else {
            let ghost before = out@;
            out.push(c);
            assert(rest.skip(1) =~= t.skip(i + 1));
            assert(out@ + rename_de(t.skip(i + 1), to) =~= before + rename_de(rest, to));
            i = i + 1;
        }
    }
    assert(rename_de(t.skip(n as int), to) =~= Seq::<char>::empty());
    assert(out@ + Seq::<char>::empty() =~= out@);
    collect_text(&out)
}

} // verus!
