//! The analysis that the `Cbor` derive makes of an item, on a plain
//! description of it: the integer literals of `#[cbor(...)]`, what the
//! serde attributes say, the integer key table, and every use the derive
//! refuses.

use vstd::prelude::*;

use crate::cli::same_text;
use crate::derive_rules::{
    entries_view, first_positional_skip, marker, marker_text, merge_entry, merge_spec, rename_field, renamed,
    result_view, validate_positional_fields, first_clash, DeriveError, Entry, Misuse, Refusal, SkipAttrs,
};

verus! {

/// An integer literal of `#[cbor(tag = ...)]` or `#[cbor(key = ...)]`:
/// whether a `-` stands before it, its digits in base ten (the compiler
/// normalises every radix to them), and its type suffix.
pub struct IntLit {
    pub negative: bool,
    pub digits: String,
    pub suffix: String,
}

/// Why an integer literal is refused.
#[derive(Copy, Clone, Debug, PartialEq, Eq, Structural)]
pub enum LitError {
    /// The literal has a type suffix, which would mean nothing.
    Suffixed,
    /// The value lies outside the accepted range.
    Range,
}

/// A character is a decimal digit.
pub open spec fn is_dec(c: char) -> bool {
    '0' <= c <= '9'
}

/// The value of a string of decimal digits.
pub open spec fn dec_value(s: Seq<char>) -> nat
    decreases s.len(),
{
    if s.len() == 0 {
        0
    } else {
        dec_value(s.drop_last()) * 10 + ((s.last() as u32) - 0x30) as nat
    }
}

/// What an integer literal stands for when it must lie in
/// `min ..= 2^64 - 1`: its value, or why it is refused. A `-` is accepted
/// only where `min` is negative, and digits beyond the `i128` range are
/// out of range.
pub open spec fn lit_value(negative: bool, digits: Seq<char>, suffix: Seq<char>, min: int) -> Result<i128, LitError> {
    if suffix.len() > 0 {
        Err(LitError::Suffixed)
    } else if digits.len() == 0 || !(forall|i: int| 0 <= i < digits.len() ==> is_dec(#[trigger] digits[i]))
        || dec_value(digits) > i128::MAX {
        Err(LitError::Range)
    } else if negative && min >= 0 {
        Err(LitError::Range)
    } else {
        let v = if negative { -(dec_value(digits) as int) } else { dec_value(digits) as int };
        if min <= v <= u64::MAX {
            Ok(v as i128)
        } else {
            Err(LitError::Range)
        }
    }
}

/// Reads an integer literal that must lie in `min ..= 2^64 - 1`.
pub fn int_arg(lit: &IntLit, min: i128) -> (r: Result<i128, LitError>)
    ensures
        r == lit_value(lit.negative, lit.digits@, lit.suffix@, min as int),
{
    if lit.suffix.as_str().unicode_len() > 0 {
        return Err(LitError::Suffixed);
    }
    let d = lit.digits.as_str();
    let n = d.unicode_len();
    if n == 0 {
        return Err(LitError::Range);
    }
    let ghost s = d@;
    let mut value: u128 = 0;
    let mut i: usize = 0;
    while i < n
        invariant
            s == d@,
            d@ == lit.digits@,
            lit.suffix@.len() == 0,
            n == s.len(),
            n > 0,
            i <= n,
            forall|j: int| 0 <= j < i ==> is_dec(#[trigger] s[j]),
            value == dec_value(s.take(i as int)),
            value <= i128::MAX,
        decreases n - i,
    {
        let c = d.get_char(i);
        proof {
            assert(s.take(i + 1).drop_last() =~= s.take(i as int));
            assert(s.take(i + 1).last() == c);
        }
        if !('0' <= c && c <= '9') {
            assert(!is_dec(s[i as int]));
            return Err(LitError::Range);
        }
        let digit = ((c as u32) - 0x30) as u128;
        if value > (0x7fff_ffff_ffff_ffff_ffff_ffff_ffff_ffff - digit) / 10 {
            proof {
                assert(dec_value(s.take(i + 1)) == value * 10 + digit);
                if forall|j: int| 0 <= j < s.len() ==> is_dec(#[trigger] s[j]) {
                    lemma_dec_value_prefix(s, i + 1);
                }
            }
            return Err(LitError::Range);
        }
        value = value * 10 + digit;
        i = i + 1;
    }
    assert(s.take(n as int) =~= s);
    assert(forall|j: int| 0 <= j < s.len() ==> is_dec(#[trigger] s[j]));
    assert(dec_value(s) == value);
    if lit.negative {
        if min >= 0 {
            return Err(LitError::Range);
        }
        let v: i128 = -(value as i128);
        if v < min {
            return Err(LitError::Range);
        }
        Ok(v)
    } else {
        if value > 0xffff_ffff_ffff_ffff || (value as i128) < min {
            return Err(LitError::Range);
        }
        Ok(value as i128)
    }
}

/// The value of a digit string is at least that of each of its prefixes.
proof fn lemma_dec_value_prefix(s: Seq<char>, k: int)
    requires
        0 <= k <= s.len(),
        forall|j: int| 0 <= j < s.len() ==> is_dec(#[trigger] s[j]),
    ensures
        dec_value(s.take(k)) <= dec_value(s),
    decreases s.len() - k,
{
    if k < s.len() {
        lemma_dec_value_prefix(s.drop_last(), if k < s.len() { k } else { k - 1 });
        assert(s.drop_last().take(k) =~= s.take(k));
    } else {
        assert(s.take(k) =~= s);
    }
}


/// The argument of one meta of a `#[serde(...)]` attribute.
pub enum SerdeArg {
    /// None: a bare path, as in `skip`.
    Bare,
    /// `= "text"`.
    Text(String),
    /// `= <expression>`, other than a string literal.
    Expr,
    /// A list of `side = "text"` metas, as in `rename(serialize = "a")`.
    Sides(Vec<(String, String)>),
    /// `= "'a + 'b"` of a `borrow` meta: the lifetimes its text lists,
    /// without their `'`.
    Lifetimes(Vec<String>),
    /// `= "text"` whose text does not read as what its path takes: a
    /// `bound` text that is no list of where-predicates.
    Unparsed,
    /// A list of `side = "text"` metas of a `bound` meta, each text `None`
    /// where it is no list of where-predicates.
    BoundSides(Vec<(String, Option<String>)>),
}

/// One meta of a `#[serde(...)]` attribute: its path and argument.
pub struct SerdeMeta {
    pub path: String,
    pub arg: SerdeArg,
}

/// The serde metas of a container, variant or field that the derive
/// checks for, beside renames and skips.
#[derive(Copy, Clone, Debug, PartialEq, Eq, Structural)]
pub struct SerdeFlags {
    /// `rename(...)`, a rename per direction.
    pub split_rename: bool,
    /// `rename_all`.
    pub rename_all: bool,
    pub rename_all_fields: bool,
    /// `tag`, `untagged` or `content`: an enum representation.
    pub enum_repr: bool,
    /// `tag`.
    pub tag: bool,
    pub flatten: bool,
    /// Container shapes that bypass the container's name.
    pub transparent: bool,
    pub into: bool,
    pub from: bool,
    pub try_from: bool,
}

/// The serde metas that hand a field's or container's value to code of
/// the user's.
#[derive(Copy, Clone, Debug, PartialEq, Eq, Structural)]
pub struct SerdeFns {
    /// `with` or `serialize_with`.
    pub serialize_with: bool,
    /// `with` or `deserialize_with`.
    pub deserialize_with: bool,
    /// A bare `default`.
    pub default: bool,
    /// `default = "path"`.
    pub default_path: bool,
    /// `crate = "..."`.
    pub explicit_crate: bool,
}

/// What the serde attributes of a container, variant or field say, as far
/// as the derive must coordinate with them.
pub struct SerdeAttrs {
    /// `rename = "name"`.
    pub rename: Option<String>,
    /// The names of `rename(serialize = ..., deserialize = ...)`.
    pub ser_name: Option<String>,
    pub de_name: Option<String>,
    /// The rule of `rename_all` in each direction.
    pub ser_rule: Option<String>,
    pub de_rule: Option<String>,
    pub flags: SerdeFlags,
    /// How the field is skipped.
    pub skips: SkipAttrs,
    pub bounds: SerdeBounds,
    pub fns: SerdeFns,
}

/// The `bound` and `borrow` metas of a container, variant or field.
pub struct SerdeBounds {
    /// The where-predicates of `bound` for each direction.
    pub ser: Option<String>,
    pub de: Option<String>,
    /// `borrow`: `None` where absent; `Some(None)` for a bare `borrow`,
    /// which borrows every lifetime of the field's type; otherwise the
    /// lifetimes listed, by their names without `'`.
    pub borrow: Option<Option<Vec<String>>>,
}

/// The attributes of an item with no serde meta.
pub open spec fn no_serde() -> SerdeAttrs {
    SerdeAttrs {
        rename: None,
        ser_name: None,
        de_name: None,
        ser_rule: None,
        de_rule: None,
        flags: SerdeFlags {
            split_rename: false,
            rename_all: false,
            rename_all_fields: false,
            enum_repr: false,
            tag: false,
            flatten: false,
            transparent: false,
            into: false,
            from: false,
            try_from: false,
        },
        skips: SkipAttrs { skip: false, positional_skip: false, skip_serializing: false, skip_deserializing: false },
        bounds: SerdeBounds { ser: None, de: None, borrow: None },
        fns: no_fns(),
    }
}

/// No meta handing a value to the user's code.
pub open spec fn no_fns() -> SerdeFns {
    SerdeFns { serialize_with: false, deserialize_with: false, default: false, default_path: false, explicit_crate: false }
}

/// The texts given to the `serialize` and `deserialize` sides of a list,
/// the last one of each side winning.
pub open spec fn apply_sides(ser: Option<String>, de: Option<String>, sides: Seq<(String, String)>) -> (Option<String>, Option<String>)
    decreases sides.len(),
{
    if sides.len() == 0 {
        (ser, de)
    } else {
        let prev = apply_sides(ser, de, sides.drop_last());
        let (p, v) = sides.last();
        if p@ == "serialize"@ {
            (Some(v), prev.1)
        } else if p@ == "deserialize"@ {
            (prev.0, Some(v))
        } else {
            prev
        }
    }
}

/// The where-predicates given to the `serialize` and `deserialize` sides
/// of a `bound` list, the last one of each side winning; a text that does
/// not read as where-predicates gives `None`.
pub open spec fn apply_bound_sides(ser: Option<String>, de: Option<String>, sides: Seq<(String, Option<String>)>) -> (Option<String>, Option<String>)
    decreases sides.len(),
{
    if sides.len() == 0 {
        (ser, de)
    } else {
        let prev = apply_bound_sides(ser, de, sides.drop_last());
        let (p, v) = sides.last();
        if p@ == "serialize"@ {
            (v, prev.1)
        } else if p@ == "deserialize"@ {
            (prev.0, v)
        } else {
            prev
        }
    }
}

/// The serde meta paths that the derive tells apart.
#[derive(Copy, Clone, Debug, PartialEq, Eq, Structural)]
pub enum MetaPath {
    Rename,
    RenameAll,
    Borrow,
    Bound,
    RenameAllFields,
    Flatten,
    Transparent,
    Into,
    From,
    TryFrom,
    SkipSerializing,
    SkipDeserializing,
    SkipSerializingIf,
    Skip,
    Tag,
    Untagged,
    Content,
    Default,
    With,
    SerializeWith,
    DeserializeWith,
    Crate,
    Other,
}

/// Which of the told-apart paths a meta's path is.
pub open spec fn path_kind(p: Seq<char>) -> MetaPath {
    if p == "rename"@ {
        MetaPath::Rename
    } else if p == "rename_all"@ {
        MetaPath::RenameAll
    } else if p == "borrow"@ {
        MetaPath::Borrow
    } else if p == "bound"@ {
        MetaPath::Bound
    } else if p == "rename_all_fields"@ {
        MetaPath::RenameAllFields
    } else if p == "flatten"@ {
        MetaPath::Flatten
    } else if p == "transparent"@ {
        MetaPath::Transparent
    } else if p == "into"@ {
        MetaPath::Into
    } else if p == "from"@ {
        MetaPath::From
    } else if p == "try_from"@ {
        MetaPath::TryFrom
    } else {
        skip_or_repr_kind(p)
    }
}

/// Which of the skip and enum representation paths a meta's path is.
pub open spec fn skip_or_repr_kind(p: Seq<char>) -> MetaPath {
    if p == "skip_serializing"@ {
        MetaPath::SkipSerializing
    } else if p == "skip_deserializing"@ {
        MetaPath::SkipDeserializing
    } else if p == "skip_serializing_if"@ {
        MetaPath::SkipSerializingIf
    } else if p == "skip"@ {
        MetaPath::Skip
    } else if p == "tag"@ {
        MetaPath::Tag
    } else if p == "untagged"@ {
        MetaPath::Untagged
    } else if p == "content"@ {
        MetaPath::Content
    } else {
        fns_kind(p)
    }
}

/// Which of the paths that hand a value to the user's code a meta's path is.
pub open spec fn fns_kind(p: Seq<char>) -> MetaPath {
    if p == "default"@ {
        MetaPath::Default
    } else if p == "with"@ {
        MetaPath::With
    } else if p == "serialize_with"@ {
        MetaPath::SerializeWith
    } else if p == "deserialize_with"@ {
        MetaPath::DeserializeWith
    } else if p == "crate"@ {
        MetaPath::Crate
    } else {
        MetaPath::Other
    }
}

/// Tells the path of a meta apart.
fn classify(p: &str) -> (k: MetaPath)
    ensures
        k == path_kind(p@),
{
    if same_text(p, "rename") {
        MetaPath::Rename
    } else if same_text(p, "rename_all") {
        MetaPath::RenameAll
    } else if same_text(p, "borrow") {
        MetaPath::Borrow
    } else if same_text(p, "bound") {
        MetaPath::Bound
    } else if same_text(p, "rename_all_fields") {
        MetaPath::RenameAllFields
    } else if same_text(p, "flatten") {
        MetaPath::Flatten
    } else if same_text(p, "transparent") {
        MetaPath::Transparent
    } else if same_text(p, "into") {
        MetaPath::Into
    } else if same_text(p, "from") {
        MetaPath::From
    } else if same_text(p, "try_from") {
        MetaPath::TryFrom
    } else {
        classify_skip_or_repr(p)
    }
}

/// Tells the skip and enum representation paths apart.
fn classify_skip_or_repr(p: &str) -> (k: MetaPath)
    ensures
        k == skip_or_repr_kind(p@),
{
    if same_text(p, "skip_serializing") {
        MetaPath::SkipSerializing
    } else if same_text(p, "skip_deserializing") {
        MetaPath::SkipDeserializing
    } else if same_text(p, "skip_serializing_if") {
        MetaPath::SkipSerializingIf
    } else if same_text(p, "skip") {
        MetaPath::Skip
    } else if same_text(p, "tag") {
        MetaPath::Tag
    } else if same_text(p, "untagged") {
        MetaPath::Untagged
    } else if same_text(p, "content") {
        MetaPath::Content
    } else {
        classify_fns(p)
    }
}

/// Tells the paths that hand a value to the user's code apart.
fn classify_fns(p: &str) -> (k: MetaPath)
    ensures
        k == fns_kind(p@),
{
    if same_text(p, "default") {
        MetaPath::Default
    } else if same_text(p, "with") {
        MetaPath::With
    } else if same_text(p, "serialize_with") {
        MetaPath::SerializeWith
    } else if same_text(p, "deserialize_with") {
        MetaPath::DeserializeWith
    } else if same_text(p, "crate") {
        MetaPath::Crate
    } else {
        MetaPath::Other
    }
}

/// What one meta adds to the attributes read so far, and whether the
/// metas after it in the same attribute are read (a meta whose argument
/// does not have the form its path takes ends the reading of its
/// attribute).
pub open spec fn scan_meta(a: SerdeAttrs, m: SerdeMeta) -> (SerdeAttrs, bool) {
    match path_kind(m.path@) {
        MetaPath::Rename => scan_rename(a, m.arg),
        MetaPath::RenameAll => scan_rename_all(a, m.arg),
        MetaPath::Borrow => {
            let (b, go) = scan_borrow(a.bounds, m.arg);
            (SerdeAttrs { bounds: b, ..a }, go)
        },
        MetaPath::Bound => {
            let (b, go) = scan_bound(a.bounds, m.arg);
            (SerdeAttrs { bounds: b, ..a }, go)
        },
        MetaPath::Default | MetaPath::With | MetaPath::SerializeWith | MetaPath::DeserializeWith
        | MetaPath::Crate => (SerdeAttrs { fns: scan_fns(a.fns, path_kind(m.path@), m.arg), ..a }, true),
        k => {
            let (f, s) = scan_flag(a.flags, a.skips, k);
            (SerdeAttrs { flags: f, skips: s, ..a }, true)
        },
    }
}

/// What a `rename` meta adds.
pub open spec fn scan_rename(a: SerdeAttrs, arg: SerdeArg) -> (SerdeAttrs, bool) {
    match arg {
        SerdeArg::Text(t) => (SerdeAttrs { rename: Some(t), ..a }, true),
        SerdeArg::Sides(l) => {
            let (ser, de) = apply_sides(a.ser_name, a.de_name, l@);
            (SerdeAttrs { flags: SerdeFlags { split_rename: true, ..a.flags }, ser_name: ser, de_name: de, ..a }, true)
        },
        SerdeArg::Bare => (SerdeAttrs { flags: SerdeFlags { split_rename: true, ..a.flags }, ..a }, false),
        _ => (a, true),
    }
}

/// What a `rename_all` meta adds.
pub open spec fn scan_rename_all(a: SerdeAttrs, arg: SerdeArg) -> (SerdeAttrs, bool) {
    match arg {
        SerdeArg::Text(t) => (SerdeAttrs {
            flags: SerdeFlags { rename_all: true, ..a.flags },
            ser_rule: Some(t),
            de_rule: Some(t),
            ..a
        }, true),
        SerdeArg::Sides(l) => {
            let (ser, de) = apply_sides(a.ser_rule, a.de_rule, l@);
            (SerdeAttrs { flags: SerdeFlags { rename_all: true, ..a.flags }, ser_rule: ser, de_rule: de, ..a }, true)
        },
        _ => (SerdeAttrs { flags: SerdeFlags { rename_all: true, ..a.flags }, ..a }, false),
    }
}

/// What a `borrow` meta adds: a bare one borrows every lifetime of the
/// field's type; a list of lifetimes borrows those; a parenthesised
/// argument still counts as bare but ends the attribute, and any other
/// argument ends it with nothing read.
pub open spec fn scan_borrow(a: SerdeBounds, arg: SerdeArg) -> (SerdeBounds, bool) {
    match arg {
        SerdeArg::Bare => (SerdeBounds { borrow: Some(None), ..a }, true),
        SerdeArg::Lifetimes(l) => (SerdeBounds { borrow: Some(Some(l)), ..a }, true),
        SerdeArg::Sides(_) | SerdeArg::BoundSides(_) => (SerdeBounds { borrow: Some(None), ..a }, false),
        _ => (a, false),
    }
}

/// What a `bound` meta adds: one text binds both directions, a list each
/// side it names, and a text that is no list of where-predicates clears
/// what it would have set.
pub open spec fn scan_bound(a: SerdeBounds, arg: SerdeArg) -> (SerdeBounds, bool) {
    match arg {
        SerdeArg::Bare => (a, false),
        SerdeArg::Text(t) => (SerdeBounds { ser: Some(t), de: Some(t), ..a }, true),
        SerdeArg::Unparsed => (SerdeBounds { ser: None, de: None, ..a }, true),
        SerdeArg::Sides(l) => {
            let (ser, de) = apply_sides(a.ser, a.de, l@);
            (SerdeBounds { ser, de, ..a }, true)
        },
        SerdeArg::BoundSides(l) => {
            let (ser, de) = apply_bound_sides(a.ser, a.de, l@);
            (SerdeBounds { ser, de, ..a }, true)
        },
        _ => (a, true),
    }
}

/// The lifetimes of a `borrow`, by their names.
pub open spec fn borrow_view(b: Option<Option<Vec<String>>>) -> Option<Option<Seq<String>>> {
    match b {
        None => None,
        Some(None) => Some(None),
        Some(Some(l)) => Some(Some(l@)),
    }
}

/// Two readings of `bound` and `borrow` say the same.
pub open spec fn same_bounds(x: SerdeBounds, y: SerdeBounds) -> bool {
    x.ser == y.ser && x.de == y.de && borrow_view(x.borrow) == borrow_view(y.borrow)
}

/// Two readings of serde attributes say the same: equal in every part,
/// the lifetimes of `borrow` as lists of names.
pub open spec fn same_attrs(x: SerdeAttrs, y: SerdeAttrs) -> bool {
    &&& SerdeAttrs { bounds: y.bounds, ..x } == y
    &&& same_bounds(x.bounds, y.bounds)
}

/// Whether a meta's argument is written after `=`.
pub open spec fn has_value(arg: SerdeArg) -> bool {
    arg is Text || arg is Expr || arg is Lifetimes || arg is Unparsed
}

/// What a meta that hands a value to the user's code adds.
pub open spec fn scan_fns(f: SerdeFns, p: MetaPath, arg: SerdeArg) -> SerdeFns {
    match p {
        MetaPath::Default => SerdeFns { default: !has_value(arg), default_path: has_value(arg), ..f },
        MetaPath::With => SerdeFns { serialize_with: true, deserialize_with: true, ..f },
        MetaPath::SerializeWith => SerdeFns { serialize_with: true, ..f },
        MetaPath::DeserializeWith => SerdeFns { deserialize_with: true, ..f },
        MetaPath::Crate => SerdeFns { explicit_crate: true, ..f },
        _ => f,
    }
}

/// What a meta of any other path adds to the flags and skips.
pub open spec fn scan_flag(f: SerdeFlags, k: SkipAttrs, p: MetaPath) -> (SerdeFlags, SkipAttrs) {
    match p {
        MetaPath::RenameAllFields => (SerdeFlags { rename_all_fields: true, ..f }, k),
        MetaPath::Flatten => (SerdeFlags { flatten: true, ..f }, k),
        MetaPath::Transparent => (SerdeFlags { transparent: true, ..f }, k),
        MetaPath::Into => (SerdeFlags { into: true, ..f }, k),
        MetaPath::From => (SerdeFlags { from: true, ..f }, k),
        MetaPath::TryFrom => (SerdeFlags { try_from: true, ..f }, k),
        MetaPath::SkipSerializing => (f, SkipAttrs { positional_skip: true, skip_serializing: true, ..k }),
        MetaPath::SkipDeserializing => (f, SkipAttrs { positional_skip: true, skip_deserializing: true, ..k }),
        MetaPath::SkipSerializingIf => (f, SkipAttrs { positional_skip: true, ..k }),
        MetaPath::Skip => (f, SkipAttrs { skip: true, skip_serializing: true, skip_deserializing: true, ..k }),
        MetaPath::Tag => (SerdeFlags { enum_repr: true, tag: true, ..f }, k),
        MetaPath::Untagged | MetaPath::Content => (SerdeFlags { enum_repr: true, ..f }, k),
        _ => (f, k),
    }
}

/// Reads the metas of one attribute, and whether the reading went through.
pub open spec fn scan_attr(a: SerdeAttrs, metas: Seq<SerdeMeta>) -> (SerdeAttrs, bool)
    decreases metas.len(),
{
    if metas.len() == 0 {
        (a, true)
    } else {
        let (b, go) = scan_attr(a, metas.drop_last());
        if go {
            scan_meta(b, metas.last())
        } else {
            (b, false)
        }
    }
}

/// Reads the `#[serde(...)]` attributes in turn.
pub open spec fn scan_attrs(attrs: Seq<Vec<SerdeMeta>>) -> SerdeAttrs
    decreases attrs.len(),
{
    if attrs.len() == 0 {
        no_serde()
    } else {
        scan_attr(scan_attrs(attrs.drop_last()), attrs.last()@).0
    }
}

/// Applies a list of `side = "text"` metas to a pair of texts.
fn apply_sides_exec(ser: &mut Option<String>, de: &mut Option<String>, sides: &Vec<(String, String)>)
    ensures
        (*final(ser), *final(de)) == apply_sides(*old(ser), *old(de), sides@),
{
    let ghost s0 = *ser;
    let ghost d0 = *de;
    let mut i: usize = 0;
    while i < sides.len()
        invariant
            i <= sides@.len(),
            (*ser, *de) == apply_sides(s0, d0, sides@.take(i as int)),
        decreases sides@.len() - i,
    {
        proof {
            assert(sides@.take(i + 1).drop_last() =~= sides@.take(i as int));
        }
        let side = &sides[i];
        if same_text(side.0.as_str(), "serialize") {
            *ser = Some(side.1.clone());
        } else if same_text(side.0.as_str(), "deserialize") {
            *de = Some(side.1.clone());
        }
        i = i + 1;
    }
    assert(sides@.take(sides@.len() as int) =~= sides@);
}

/// Reads one meta into `out`; `false` when the rest of its attribute is
/// not read.
fn scan_meta_exec(out: &mut SerdeAttrs, m: &SerdeMeta) -> (go: bool)
    ensures
        same_attrs(*final(out), scan_meta(*old(out), *m).0),
        go == scan_meta(*old(out), *m).1,
{
    let kind = classify(m.path.as_str());
    match kind {
        MetaPath::Rename => scan_rename_exec(out, &m.arg),
        MetaPath::RenameAll => scan_rename_all_exec(out, &m.arg),
        MetaPath::Borrow => scan_borrow_exec(&mut out.bounds, &m.arg),
        MetaPath::Bound => scan_bound_exec(&mut out.bounds, &m.arg),
        MetaPath::Default | MetaPath::With | MetaPath::SerializeWith | MetaPath::DeserializeWith
        | MetaPath::Crate => {
            let f = scan_fns_exec(out.fns, kind, &m.arg);
            out.fns = f;
            true
        },
        _ => {
            let (f, k) = scan_flag_exec(out.flags, out.skips, kind);
            out.flags = f;
            out.skips = k;
            true
        },
    }
}

/// Reads a `rename` meta.
fn scan_rename_exec(out: &mut SerdeAttrs, arg: &SerdeArg) -> (go: bool)
    ensures
        (*final(out), go) == scan_rename(*old(out), *arg),
{
    match arg {
        SerdeArg::Text(t) => {
            out.rename = Some(t.clone());
            true
        },
        SerdeArg::Sides(l) => {
            out.flags.split_rename = true;
            apply_sides_exec(&mut out.ser_name, &mut out.de_name, l);
            true
        },
        SerdeArg::Bare => {
            out.flags.split_rename = true;
            false
        },
        _ => true,
    }
}

/// Reads a `rename_all` meta.
fn scan_rename_all_exec(out: &mut SerdeAttrs, arg: &SerdeArg) -> (go: bool)
    ensures
        (*final(out), go) == scan_rename_all(*old(out), *arg),
{
    out.flags.rename_all = true;
    match arg {
        SerdeArg::Text(t) => {
            out.ser_rule = Some(t.clone());
            out.de_rule = Some(t.clone());
            true
        },
        SerdeArg::Sides(l) => {
            apply_sides_exec(&mut out.ser_rule, &mut out.de_rule, l);
            true
        },
        _ => false,
    }
}

/// Reads a `borrow` meta.
fn scan_borrow_exec(out: &mut SerdeBounds, arg: &SerdeArg) -> (go: bool)
    ensures
        same_bounds(*final(out), scan_borrow(*old(out), *arg).0),
        go == scan_borrow(*old(out), *arg).1,
{
    match arg {
        SerdeArg::Bare => {
            out.borrow = Some(None);
            true
        },
        SerdeArg::Lifetimes(l) => {
            out.borrow = Some(Some(clone_names(l)));
            true
        },
        SerdeArg::Sides(_) | SerdeArg::BoundSides(_) => {
            out.borrow = Some(None);
            false
        },
        _ => false,
    }
}

/// Reads a `bound` meta.
fn scan_bound_exec(out: &mut SerdeBounds, arg: &SerdeArg) -> (go: bool)
    ensures
        (*final(out), go) == scan_bound(*old(out), *arg),
{
    match arg {
        SerdeArg::Bare => false,
        SerdeArg::Text(t) => {
            out.ser = Some(t.clone());
            out.de = Some(t.clone());
            true
        },
        SerdeArg::Unparsed => {
            out.ser = None;
            out.de = None;
            true
        },
        SerdeArg::Sides(l) => {
            apply_sides_exec(&mut out.ser, &mut out.de, l);
            true
        },
        SerdeArg::BoundSides(l) => {
            apply_bound_sides_exec(&mut out.ser, &mut out.de, l);
            true
        },
        _ => true,
    }
}

/// Readings that say the same read on alike.
proof fn lemma_scan_meta_same(x: SerdeAttrs, y: SerdeAttrs, m: SerdeMeta)
    requires
        same_attrs(x, y),
    ensures
        same_attrs(scan_meta(x, m).0, scan_meta(y, m).0),
        scan_meta(x, m).1 == scan_meta(y, m).1,
{
    assert(x == SerdeAttrs { bounds: x.bounds, ..y });
    match path_kind(m.path@) {
        MetaPath::Borrow => {
            assert(same_bounds(scan_borrow(x.bounds, m.arg).0, scan_borrow(y.bounds, m.arg).0));
        },
        MetaPath::Bound => {
            assert(same_bounds(scan_bound(x.bounds, m.arg).0, scan_bound(y.bounds, m.arg).0));
        },
        _ => {},
    }
}

/// `same_attrs` is an equivalence.
proof fn lemma_same_attrs_trans(x: SerdeAttrs, y: SerdeAttrs, z: SerdeAttrs)
    ensures
        same_attrs(x, x),
        same_attrs(x, y) ==> same_attrs(y, x),
        same_attrs(x, y) && same_attrs(y, z) ==> same_attrs(x, z),
{
}

/// Reading on alike readings goes alike through an attribute.
proof fn lemma_scan_attr_same(x: SerdeAttrs, y: SerdeAttrs, metas: Seq<SerdeMeta>)
    requires
        same_attrs(x, y),
    ensures
        same_attrs(scan_attr(x, metas).0, scan_attr(y, metas).0),
        scan_attr(x, metas).1 == scan_attr(y, metas).1,
    decreases metas.len(),
{
    if metas.len() > 0 {
        lemma_scan_attr_same(x, y, metas.drop_last());
        let (bx, gx) = scan_attr(x, metas.drop_last());
        let (by, gy) = scan_attr(y, metas.drop_last());
        if gx {
            lemma_scan_meta_same(bx, by, metas.last());
        }
    }
}

/// A copy of a list of names.
pub(crate) fn clone_names(l: &Vec<String>) -> (r: Vec<String>)
    ensures
        r@ == l@,
{
    let mut r: Vec<String> = Vec::new();
    let mut i: usize = 0;
    while i < l.len()
        invariant
            i <= l@.len(),
            r@ == l@.take(i as int),
        decreases l@.len() - i,
    {
        r.push(l[i].clone());
        i = i + 1;
        assert(r@ =~= l@.take(i as int));
    }
    assert(l@.take(l@.len() as int) =~= l@);
    r
}

/// Applies a list of `side = "predicates"` metas of a `bound` meta.
fn apply_bound_sides_exec(ser: &mut Option<String>, de: &mut Option<String>, sides: &Vec<(String, Option<String>)>)
    ensures
        (*final(ser), *final(de)) == apply_bound_sides(*old(ser), *old(de), sides@),
{
    let ghost s0 = *ser;
    let ghost d0 = *de;
    let mut i: usize = 0;
    while i < sides.len()
        invariant
            i <= sides@.len(),
            (*ser, *de) == apply_bound_sides(s0, d0, sides@.take(i as int)),
        decreases sides@.len() - i,
    {
        proof {
            assert(sides@.take(i + 1).drop_last() =~= sides@.take(i as int));
        }
        let side = &sides[i];
        if same_text(side.0.as_str(), "serialize") {
            *ser = side.1.clone();
        } else if same_text(side.0.as_str(), "deserialize") {
            *de = side.1.clone();
        }
        i = i + 1;
    }
    assert(sides@.take(sides@.len() as int) =~= sides@);
}

/// Reads a meta that hands a value to the user's code.
fn scan_fns_exec(f: SerdeFns, p: MetaPath, arg: &SerdeArg) -> (r: SerdeFns)
    ensures
        r == scan_fns(f, p, *arg),
{
    let valued = match arg {
        SerdeArg::Text(_) | SerdeArg::Expr | SerdeArg::Lifetimes(_) | SerdeArg::Unparsed => true,
        _ => false,
    };
    match p {
        MetaPath::Default => SerdeFns { default: !valued, default_path: valued, ..f },
        MetaPath::With => SerdeFns { serialize_with: true, deserialize_with: true, ..f },
        MetaPath::SerializeWith => SerdeFns { serialize_with: true, ..f },
        MetaPath::DeserializeWith => SerdeFns { deserialize_with: true, ..f },
        MetaPath::Crate => SerdeFns { explicit_crate: true, ..f },
        _ => f,
    }
}

/// Reads a meta of any other path into the flags and skips.
fn scan_flag_exec(f: SerdeFlags, k: SkipAttrs, p: MetaPath) -> (r: (SerdeFlags, SkipAttrs))
    ensures
        r == scan_flag(f, k, p),
{
    match p {
        MetaPath::RenameAllFields => (SerdeFlags { rename_all_fields: true, ..f }, k),
        MetaPath::Flatten => (SerdeFlags { flatten: true, ..f }, k),
        MetaPath::Transparent => (SerdeFlags { transparent: true, ..f }, k),
        MetaPath::Into => (SerdeFlags { into: true, ..f }, k),
        MetaPath::From => (SerdeFlags { from: true, ..f }, k),
        MetaPath::TryFrom => (SerdeFlags { try_from: true, ..f }, k),
        MetaPath::SkipSerializing => (f, SkipAttrs { positional_skip: true, skip_serializing: true, ..k }),
        MetaPath::SkipDeserializing => (f, SkipAttrs { positional_skip: true, skip_deserializing: true, ..k }),
        MetaPath::SkipSerializingIf => (f, SkipAttrs { positional_skip: true, ..k }),
        MetaPath::Skip => (f, SkipAttrs { skip: true, skip_serializing: true, skip_deserializing: true, ..k }),
        MetaPath::Tag => (SerdeFlags { enum_repr: true, tag: true, ..f }, k),
        MetaPath::Untagged | MetaPath::Content => (SerdeFlags { enum_repr: true, ..f }, k),
        _ => (f, k),
    }
}

/// Once the reading of an attribute has stopped, the metas after that
/// point change nothing.
proof fn lemma_scan_attr_stops(a: SerdeAttrs, metas: Seq<SerdeMeta>, i: int)
    requires
        0 <= i <= metas.len(),
        !scan_attr(a, metas.take(i)).1,
    ensures
        scan_attr(a, metas) == scan_attr(a, metas.take(i)),
    decreases metas.len() - i,
{
    if i < metas.len() {
        assert(metas.drop_last().take(i) =~= metas.take(i));
        lemma_scan_attr_stops(a, metas.drop_last(), i);
    } else {
        assert(metas.take(i) =~= metas);
    }
}

/// Reads the `#[serde(...)]` attributes of a container, variant or field,
/// each given as the list of its metas.
pub fn scan_serde(attrs: &Vec<Vec<SerdeMeta>>) -> (r: SerdeAttrs)
    ensures
        same_attrs(r, scan_attrs(attrs@)),
{
    let mut out = SerdeAttrs {
        rename: None,
        ser_name: None,
        de_name: None,
        ser_rule: None,
        de_rule: None,
        flags: SerdeFlags {
            split_rename: false,
            rename_all: false,
            rename_all_fields: false,
            enum_repr: false,
            tag: false,
            flatten: false,
            transparent: false,
            into: false,
            from: false,
            try_from: false,
        },
        skips: SkipAttrs { skip: false, positional_skip: false, skip_serializing: false, skip_deserializing: false },
        bounds: SerdeBounds { ser: None, de: None, borrow: None },
        fns: SerdeFns {
            serialize_with: false,
            deserialize_with: false,
            default: false,
            default_path: false,
            explicit_crate: false,
        },
    };
    let mut k: usize = 0;
    while k < attrs.len()
        invariant
            k <= attrs@.len(),
            same_attrs(out, scan_attrs(attrs@.take(k as int))),
        decreases attrs@.len() - k,
    {
        let metas = &attrs[k];
        let ghost start = scan_attrs(attrs@.take(k as int));
        let mut i: usize = 0;
        let mut go = true;
        while i < metas.len() && go
            invariant
                i <= metas@.len(),
                same_attrs(out, scan_attr(start, metas@.take(i as int)).0),
                go == scan_attr(start, metas@.take(i as int)).1,
            decreases metas@.len() - i,
        {
            proof {
                assert(metas@.take(i + 1).drop_last() =~= metas@.take(i as int));
            }
            let ghost before = out;
            go = scan_meta_exec(&mut out, &metas[i]);
            proof {
                let prev = scan_attr(start, metas@.take(i as int)).0;
                lemma_scan_meta_same(before, prev, metas@[i as int]);
                lemma_same_attrs_trans(out, scan_meta(before, metas@[i as int]).0, scan_meta(prev, metas@[i as int]).0);
            }
            i = i + 1;
        }
        proof {
            if go {
                assert(metas@.take(i as int) =~= metas@);
            } else {
                lemma_scan_attr_stops(start, metas@, i as int);
            }
            assert(attrs@.take(k + 1).drop_last() =~= attrs@.take(k as int));
        }
        k = k + 1;
    }
    assert(attrs@.take(attrs@.len() as int) =~= attrs@);
    out
}

/// One meta of a container's `#[cbor(...)]` attributes.
pub enum CborMeta {
    /// `tag = <integer>`.
    Tag(IntLit),
    /// `array`.
    Array,
    /// `array = ...`.
    ArrayWithValue,
    /// Any other path.
    Other,
}

/// The smallest CBOR integer, `-2^64`.
pub open spec fn min_key() -> int {
    -0x1_0000_0000_0000_0000int
}

/// The tag and array layout declared by the metas read so far, with the
/// next one read.
pub open spec fn container_step(acc: (Option<u64>, bool), m: CborMeta) -> Result<(Option<u64>, bool), Refusal> {
    match m {
        CborMeta::Tag(lit) => match lit_value(lit.negative, lit.digits@, lit.suffix@, 0) {
            Err(LitError::Suffixed) => Err(Refusal::Invalid(Misuse::SuffixedTag)),
            Err(LitError::Range) => Err(Refusal::Invalid(Misuse::TagRange)),
            Ok(v) => if acc.0 is Some {
                Err(Refusal::Invalid(Misuse::DuplicateTag))
            } else {
                Ok((Some(v as u64), acc.1))
            },
        },
        CborMeta::Array => if acc.1 {
            Err(Refusal::Invalid(Misuse::DuplicateArray))
        } else {
            Ok((acc.0, true))
        },
        CborMeta::ArrayWithValue => Err(Refusal::Invalid(Misuse::ArrayWithValue)),
        CborMeta::Other => Err(Refusal::Invalid(Misuse::ExpectedTagOrArray)),
    }
}

/// The tag and array layout that a container's `#[cbor(...)]` metas
/// declare, or the first refusal.
pub open spec fn container_spec(metas: Seq<CborMeta>) -> Result<(Option<u64>, bool), Refusal>
    decreases metas.len(),
{
    if metas.len() == 0 {
        Ok((None, false))
    } else {
        match container_spec(metas.drop_last()) {
            Ok(acc) => container_step(acc, metas.last()),
            Err(e) => Err(e),
        }
    }
}

/// Reads a container's `#[cbor(tag = ..., array)]` metas.
pub fn container_attrs(metas: &Vec<CborMeta>) -> (r: Result<(Option<u64>, bool), DeriveError>)
    ensures
        result_view(r) == container_spec(metas@),
{
    let mut tag: Option<u64> = None;
    let mut array = false;
    let mut i: usize = 0;
    while i < metas.len()
        invariant
            i <= metas@.len(),
            container_spec(metas@.take(i as int)) == Ok::<(Option<u64>, bool), Refusal>((tag, array)),
        decreases metas@.len() - i,
    {
        proof {
            assert(metas@.take(i + 1).drop_last() =~= metas@.take(i as int));
            lemma_container_spec_err(metas@, i + 1);
        }
        match &metas[i] {
            CborMeta::Tag(lit) => match int_arg(lit, 0) {
                Err(LitError::Suffixed) => return Err(DeriveError::Invalid(Misuse::SuffixedTag)),
                Err(LitError::Range) => return Err(DeriveError::Invalid(Misuse::TagRange)),
                Ok(v) => {
                    if tag.is_some() {
                        return Err(DeriveError::Invalid(Misuse::DuplicateTag));
                    }
                    tag = Some(v as u64);
                },
            },
            CborMeta::Array => {
                if array {
                    return Err(DeriveError::Invalid(Misuse::DuplicateArray));
                }
                array = true;
            },
            CborMeta::ArrayWithValue => return Err(DeriveError::Invalid(Misuse::ArrayWithValue)),
            CborMeta::Other => return Err(DeriveError::Invalid(Misuse::ExpectedTagOrArray)),
        }
        i = i + 1;
    }
    assert(metas@.take(metas@.len() as int) =~= metas@);
    Ok((tag, array))
}

/// A refusal among the first metas is the refusal of them all.
proof fn lemma_container_spec_err(metas: Seq<CborMeta>, i: int)
    requires
        0 <= i <= metas.len(),
    ensures
        container_spec(metas.take(i)) is Err ==> container_spec(metas) == container_spec(metas.take(i)),
    decreases metas.len() - i,
{
    if i < metas.len() {
        assert(metas.drop_last().take(i) =~= metas.take(i));
        lemma_container_spec_err(metas.drop_last(), i);
    } else {
        assert(metas.take(i) =~= metas);
    }
}

/// One `#[cbor(...)]` attribute of a field, read as `name = <literal>`.
pub struct KeyMeta {
    pub name: String,
    pub lit: IntLit,
}

/// A field of a struct or enum variant.
pub struct FieldDesc {
    /// The field's name without a raw identifier's `r#`; `None` in a tuple.
    pub ident: Option<String>,
    /// Its `#[cbor(...)]` attributes.
    pub cbor: Vec<KeyMeta>,
    /// What its serde attributes say.
    pub serde: SerdeAttrs,
    /// What its type names.
    pub ty: TypeDesc,
}

/// What the bound inference reads of a field's type.
pub struct TypeDesc {
    /// The lifetimes it names, in order, by their names without `'`
    /// (`_` included).
    pub lifetimes: Vec<String>,
    /// The paths of one segment, without a leading `::`, that it names
    /// outside `PhantomData<...>`, in order.
    pub paths: Vec<String>,
    /// For a path type of more than one segment, such as `T::Value`: its
    /// first segment and the type's text.
    pub assoc: Option<(String, String)>,
    /// The type is `&str`, `&[u8]`, or an `Option` of one of them, which
    /// serde borrows without being told.
    pub implicitly_borrowed: bool,
}

/// The key that a field's `#[cbor(...)]` attributes declare, if any, or
/// the first refusal.
pub open spec fn field_key(cbor: Seq<KeyMeta>) -> Result<Option<i128>, Refusal>
    decreases cbor.len(),
{
    if cbor.len() == 0 {
        Ok(None)
    } else {
        match field_key(cbor.drop_last()) {
            Err(e) => Err(e),
            Ok(prev) => {
                let m = cbor.last();
                if m.name@ != "key"@ {
                    Err(Refusal::Invalid(Misuse::ExpectedKey))
                } else {
                    match lit_value(m.lit.negative, m.lit.digits@, m.lit.suffix@, min_key()) {
                        Err(LitError::Suffixed) => Err(Refusal::Invalid(Misuse::SuffixedKey)),
                        Err(LitError::Range) => Err(Refusal::Invalid(Misuse::KeyRange)),
                        Ok(v) => if prev is Some {
                            Err(Refusal::Invalid(Misuse::DuplicateKey))
                        } else {
                            Ok(Some(v))
                        },
                    }
                }
            },
        }
    }
}

/// A serde name that would break the marker's grammar.
pub open spec fn bad_key_name(name: Seq<char>) -> bool {
    name.len() == 0 || exists|i: int| 0 <= i < name.len() && (name[i] == '@' || name[i] == ';' || name[i] == '=')
}

/// The serde name of a field: its rename, else its own name.
pub open spec fn serde_name(f: FieldDesc) -> Seq<char> {
    match f.serde.rename {
        Some(n) => n@,
        None => f.ident.unwrap()@,
    }
}

/// The key table entry that a field declares, if any, or the refusal.
pub open spec fn field_entry(f: FieldDesc) -> Result<Option<(Seq<char>, i128)>, Refusal> {
    match field_key(f.cbor@) {
        Err(e) => Err(e),
        Ok(None) => Ok(None),
        Ok(Some(k)) => if f.serde.flags.flatten {
            Err(Refusal::Invalid(Misuse::FlattenWithKey))
        } else if f.serde.skips.skip {
            Err(Refusal::Invalid(Misuse::KeyOnSkipped))
        } else if f.ident is None {
            Err(Refusal::Invalid(Misuse::KeyNeedsName))
        } else if f.serde.flags.split_rename {
            Err(Refusal::Invalid(Misuse::SplitRenameWithKey))
        } else if bad_key_name(serde_name(f)) {
            Err(Refusal::Invalid(Misuse::BadKeyName))
        } else {
            Ok(Some((serde_name(f), k)))
        },
    }
}

/// The key table entries that the fields declare, in order, or the first
/// refusal.
pub open spec fn field_entries_spec(fields: Seq<FieldDesc>) -> Result<Seq<(Seq<char>, i128)>, Refusal>
    decreases fields.len(),
{
    if fields.len() == 0 {
        Ok(Seq::empty())
    } else {
        match field_entries_spec(fields.drop_last()) {
            Err(e) => Err(e),
            Ok(es) => match field_entry(fields.last()) {
                Err(e) => Err(e),
                Ok(None) => Ok(es),
                Ok(Some(x)) => Ok(es.push(x)),
            },
        }
    }
}

/// Reads the key a field declares.
fn field_key_exec(cbor: &Vec<KeyMeta>) -> (r: Result<Option<i128>, DeriveError>)
    ensures
        result_view(r) == field_key(cbor@),
{
    let mut key: Option<i128> = None;
    let mut i: usize = 0;
    while i < cbor.len()
        invariant
            i <= cbor@.len(),
            field_key(cbor@.take(i as int)) == Ok::<Option<i128>, Refusal>(key),
        decreases cbor@.len() - i,
    {
        proof {
            assert(cbor@.take(i + 1).drop_last() =~= cbor@.take(i as int));
            lemma_field_key_err(cbor@, i + 1);
        }
        let m = &cbor[i];
        if !same_text(m.name.as_str(), "key") {
            return Err(DeriveError::Invalid(Misuse::ExpectedKey));
        }
        match int_arg(&m.lit, -0x1_0000_0000_0000_0000) {
            Err(LitError::Suffixed) => return Err(DeriveError::Invalid(Misuse::SuffixedKey)),
            Err(LitError::Range) => return Err(DeriveError::Invalid(Misuse::KeyRange)),
            Ok(v) => {
                if key.is_some() {
                    return Err(DeriveError::Invalid(Misuse::DuplicateKey));
                }
                key = Some(v);
            },
        }
        i = i + 1;
    }
    assert(cbor@.take(cbor@.len() as int) =~= cbor@);
    Ok(key)
}

/// A refusal among the first attributes is the refusal of them all.
proof fn lemma_field_key_err(cbor: Seq<KeyMeta>, i: int)
    requires
        0 <= i <= cbor.len(),
    ensures
        field_key(cbor.take(i)) is Err ==> field_key(cbor) == field_key(cbor.take(i)),
    decreases cbor.len() - i,
{
    if i < cbor.len() {
        assert(cbor.drop_last().take(i) =~= cbor.take(i));
        lemma_field_key_err(cbor.drop_last(), i);
    } else {
        assert(cbor.take(i) =~= cbor);
    }
}

/// Whether a name holds `@`, `;` or `=`, or is empty.
fn is_bad_key_name(name: &str) -> (r: bool)
    ensures
        r == bad_key_name(name@),
{
    let n = name.unicode_len();
    if n == 0 {
        return true;
    }
    let mut i: usize = 0;
    while i < n
        invariant
            n == name@.len(),
            i <= n,
            forall|j: int| 0 <= j < i ==> !(name@[j] == '@' || name@[j] == ';' || name@[j] == '='),
        decreases n - i,
    {
        let c = name.get_char(i);
        if c == '@' || c == ';' || c == '=' {
            return true;
        }
        i = i + 1;
    }
    false
}

/// The key table entry a field declares, if any.
fn field_entry_exec(f: &FieldDesc) -> (r: Result<Option<Entry>, DeriveError>)
    ensures
        match field_entry(*f) {
            Ok(None) => r matches Ok(None),
            Ok(Some(x)) => r matches Ok(Some(e)) && (e.name@, e.key) == x,
            Err(e) => r matches Err(y) && y@ == e,
        },
{
    let key = match field_key_exec(&f.cbor) {
        Err(e) => return Err(e),
        Ok(None) => return Ok(None),
        Ok(Some(k)) => k,
    };
    if f.serde.flags.flatten {
        return Err(DeriveError::Invalid(Misuse::FlattenWithKey));
    }
    if f.serde.skips.skip {
        return Err(DeriveError::Invalid(Misuse::KeyOnSkipped));
    }
    let ident = match &f.ident {
        None => return Err(DeriveError::Invalid(Misuse::KeyNeedsName)),
        Some(x) => x,
    };
    if f.serde.flags.split_rename {
        return Err(DeriveError::Invalid(Misuse::SplitRenameWithKey));
    }
    let name = match &f.serde.rename {
        Some(n) => n.clone(),
        None => ident.clone(),
    };
    if is_bad_key_name(name.as_str()) {
        return Err(DeriveError::Invalid(Misuse::BadKeyName));
    }
    Ok(Some(Entry { name, key }))
}

/// Reads the key table entries that the fields declare, in order.
pub fn field_entries(fields: &Vec<FieldDesc>) -> (r: Result<Vec<Entry>, DeriveError>)
    ensures
        match field_entries_spec(fields@) {
            Ok(es) => r matches Ok(v) && entries_view(v@) == es,
            Err(e) => r matches Err(y) && y@ == e,
        },
{
    let mut out: Vec<Entry> = Vec::new();
    let mut i: usize = 0;
    assert(entries_view(out@) =~= Seq::<(Seq<char>, i128)>::empty());
    assert(fields@.take(0) =~= Seq::<FieldDesc>::empty());
    while i < fields.len()
        invariant
            i <= fields@.len(),
            field_entries_spec(fields@.take(i as int)) == Ok::<Seq<(Seq<char>, i128)>, Refusal>(entries_view(out@)),
        decreases fields@.len() - i,
    {
        proof {
            assert(fields@.take(i + 1).drop_last() =~= fields@.take(i as int));
            assert(fields@.take(i + 1).last() == fields@[i as int]);
            lemma_field_entries_err(fields@, i + 1);
        }
        match field_entry_exec(&fields[i]) {
            Err(e) => return Err(e),
            Ok(None) => {},
            Ok(Some(e)) => {
                let ghost before = entries_view(out@);
                let ghost item = (e.name@, e.key);
                out.push(e);
                assert(entries_view(out@) =~= before.push(item));
            },
        }
        i = i + 1;
    }
    assert(fields@.take(fields@.len() as int) =~= fields@);
    Ok(out)
}

/// A refusal among the first fields is the refusal of them all.
proof fn lemma_field_entries_err(fields: Seq<FieldDesc>, i: int)
    requires
        0 <= i <= fields.len(),
    ensures
        field_entries_spec(fields.take(i)) is Err ==> field_entries_spec(fields) == field_entries_spec(fields.take(i)),
    decreases fields.len() - i,
{
    if i < fields.len() {
        assert(fields.drop_last().take(i) =~= fields.take(i));
        lemma_field_entries_err(fields.drop_last(), i);
    } else {
        assert(fields.take(i) =~= fields);
    }
}

/// The key table after adding the entries in turn, or the first refusal.
pub open spec fn merge_all(table: Seq<(Seq<char>, i128)>, new: Seq<(Seq<char>, i128)>) -> Result<Seq<(Seq<char>, i128)>, Refusal>
    decreases new.len(),
{
    if new.len() == 0 {
        Ok(table)
    } else {
        match merge_all(table, new.drop_last()) {
            Err(e) => Err(e),
            Ok(t) => merge_spec(t, new.last().0, new.last().1),
        }
    }
}

/// A refusal among the first entries is the refusal of them all.
proof fn lemma_merge_all_err(table: Seq<(Seq<char>, i128)>, new: Seq<(Seq<char>, i128)>, i: int)
    requires
        0 <= i <= new.len(),
    ensures
        merge_all(table, new.take(i)) is Err ==> merge_all(table, new) == merge_all(table, new.take(i)),
    decreases new.len() - i,
{
    if i < new.len() {
        assert(new.drop_last().take(i) =~= new.take(i));
        lemma_merge_all_err(table, new.drop_last(), i);
    } else {
        assert(new.take(i) =~= new);
    }
}

/// Adds entries to the key table in turn.
fn merge_entries(entries: &mut Vec<Entry>, new: &Vec<Entry>) -> (r: Result<(), DeriveError>)
    ensures
        match merge_all(entries_view(old(entries)@), entries_view(new@)) {
            Ok(t) => r is Ok && entries_view(final(entries)@) == t,
            Err(e) => r matches Err(y) && y@ == e,
        },
{
    let ghost table = entries_view(entries@);
    let ghost nv = entries_view(new@);
    let mut i: usize = 0;
    assert(nv.take(0) =~= Seq::<(Seq<char>, i128)>::empty());
    while i < new.len()
        invariant
            nv == entries_view(new@),
            table == entries_view(old(entries)@),
            i <= new@.len(),
            merge_all(table, nv.take(i as int)) == Ok::<Seq<(Seq<char>, i128)>, Refusal>(entries_view(entries@)),
        decreases new@.len() - i,
    {
        proof {
            assert(nv.take(i + 1).drop_last() =~= nv.take(i as int));
            assert(nv.take(i + 1).last() == (new@[i as int].name@, new@[i as int].key));
            lemma_merge_all_err(table, nv, i + 1);
        }
        let e = Entry { name: new[i].name.clone(), key: new[i].key };
        let ghost before = entries_view(entries@);
        assert(merge_all(table, nv.take(i + 1)) == merge_spec(before, new@[i as int].name@, new@[i as int].key));
        match merge_entry(entries, e) {
            Err(x) => return Err(x),
            Ok(()) => {},
        }
        i = i + 1;
    }
    assert(nv.take(new@.len() as int) =~= nv);
    Ok(())
}

/// How the fields of a struct or variant are written.
#[derive(Copy, Clone, Debug, PartialEq, Eq, Structural)]
pub enum FieldsKind {
    Named,
    Unnamed,
    Unit,
}

/// A variant of an enum.
pub struct VariantDesc {
    pub kind: FieldsKind,
    pub fields: Vec<FieldDesc>,
    /// What its serde attributes say.
    pub serde: SerdeAttrs,
    /// Whether it carries a `#[cbor(...)]` attribute.
    pub has_cbor: bool,
}

/// The first key of the table under `name`.
pub open spec fn key_of(table: Seq<(Seq<char>, i128)>, name: Seq<char>) -> Option<i128>
    decreases table.len(),
{
    if table.len() == 0 {
        None
    } else {
        match key_of(table.drop_last(), name) {
            Some(k) => Some(k),
            None => if table.last().0 == name {
                Some(table.last().1)
            } else {
                None
            },
        }
    }
}

/// The serde name of an unkeyed variant field in one direction
/// (`de` for deserializing): its rename, its name for that direction, or
/// its own name under the variant's rule for that direction.
pub open spec fn side_name(v: VariantDesc, f: FieldDesc, de: bool) -> Seq<char> {
    match f.serde.rename {
        Some(n) => n@,
        None => match (if de { f.serde.de_name } else { f.serde.ser_name }) {
            Some(n) => n@,
            None => renamed(
                f.ident.unwrap()@,
                match (if de { v.serde.de_rule } else { v.serde.ser_rule }) {
                    Some(r) => Some(r@),
                    None => None,
                },
            ),
        },
    }
}

/// Whether a variant field is skipped in one direction.
pub open spec fn side_skipped(v: VariantDesc, f: FieldDesc, de: bool) -> bool {
    if de {
        v.serde.skips.skip_deserializing || f.serde.skips.skip_deserializing
    } else {
        v.serde.skips.skip_serializing || f.serde.skips.skip_serializing
    }
}

/// The name and key an unkeyed, named variant field would inherit from
/// the table in one direction, if any.
pub open spec fn side_clash(table: Seq<(Seq<char>, i128)>, v: VariantDesc, f: FieldDesc, de: bool) -> Option<(Seq<char>, i128)> {
    if side_skipped(v, f, de) {
        None
    } else {
        match key_of(table, side_name(v, f, de)) {
            Some(k) => Some((side_name(v, f, de), k)),
            None => None,
        }
    }
}

/// The first name and key that a variant field would inherit.
pub open spec fn field_clash(table: Seq<(Seq<char>, i128)>, v: VariantDesc, f: FieldDesc) -> Option<(Seq<char>, i128)> {
    if f.ident is None || f.cbor.len() > 0 {
        None
    } else {
        match side_clash(table, v, f, false) {
            Some(x) => Some(x),
            None => side_clash(table, v, f, true),
        }
    }
}

/// The first inherited name and key among some fields of a variant.
pub open spec fn fields_clash(table: Seq<(Seq<char>, i128)>, v: VariantDesc, fs: Seq<FieldDesc>) -> Option<(Seq<char>, i128)>
    decreases fs.len(),
{
    if fs.len() == 0 {
        None
    } else {
        match fields_clash(table, v, fs.drop_last()) {
            Some(x) => Some(x),
            None => field_clash(table, v, fs.last()),
        }
    }
}

/// The first inherited name and key among some variants.
pub open spec fn variants_clash(table: Seq<(Seq<char>, i128)>, vs: Seq<VariantDesc>) -> Option<(Seq<char>, i128)>
    decreases vs.len(),
{
    if vs.len() == 0 {
        None
    } else {
        match variants_clash(table, vs.drop_last()) {
            Some(x) => Some(x),
            None => fields_clash(table, vs.last(), vs.last().fields@),
        }
    }
}

/// The first key of the table under a name.
fn find_key(entries: &Vec<Entry>, name: &str) -> (r: Option<i128>)
    ensures
        r == key_of(entries_view(entries@), name@),
{
    let ghost t = entries_view(entries@);
    let mut i: usize = 0;
    assert(t.take(0) =~= Seq::<(Seq<char>, i128)>::empty());
    while i < entries.len()
        invariant
            t == entries_view(entries@),
            i <= entries@.len(),
            key_of(t.take(i as int), name@) is None,
        decreases entries@.len() - i,
    {
        proof {
            assert(t.take(i + 1).drop_last() =~= t.take(i as int));
            assert(t.take(i + 1).last() == (entries@[i as int].name@, entries@[i as int].key));
            lemma_key_of_prefix(t, i + 1, name@);
        }
        if same_text(entries[i].name.as_str(), name) {
            return Some(entries[i].key);
        }
        i = i + 1;
    }
    assert(t.take(entries@.len() as int) =~= t);
    None
}

/// A key found among the first entries is the key found among them all.
proof fn lemma_key_of_prefix(t: Seq<(Seq<char>, i128)>, i: int, name: Seq<char>)
    requires
        0 <= i <= t.len(),
    ensures
        key_of(t.take(i), name) is Some ==> key_of(t, name) == key_of(t.take(i), name),
    decreases t.len() - i,
{
    if i < t.len() {
        assert(t.drop_last().take(i) =~= t.take(i));
        lemma_key_of_prefix(t.drop_last(), i, name);
    } else {
        assert(t.take(i) =~= t);
    }
}

/// The serde name of an unkeyed variant field in one direction.
fn side_name_exec(v: &VariantDesc, f: &FieldDesc, ident: &String, de: bool) -> (r: String)
    requires
        f.ident == Some(*ident),
    ensures
        r@ == side_name(*v, *f, de),
{
    match &f.serde.rename {
        Some(n) => n.clone(),
        None => {
            let split = if de { &f.serde.de_name } else { &f.serde.ser_name };
            match split {
                Some(n) => n.clone(),
                None => {
                    let rule = if de { &v.serde.de_rule } else { &v.serde.ser_rule };
                    match rule {
                        Some(x) => rename_field(ident.as_str(), Some(x.as_str())),
                        None => rename_field(ident.as_str(), None),
                    }
                },
            }
        },
    }
}

/// The name and key that a variant field would inherit in one direction.
fn side_clash_exec(entries: &Vec<Entry>, v: &VariantDesc, f: &FieldDesc, ident: &String, de: bool) -> (r: Option<(String, i128)>)
    requires
        f.ident == Some(*ident),
    ensures
        match side_clash(entries_view(entries@), *v, *f, de) {
            Some((n, k)) => r matches Some((m, j)) && m@ == n && j == k,
            None => r is None,
        },
{
    let skipped = if de {
        v.serde.skips.skip_deserializing || f.serde.skips.skip_deserializing
    } else {
        v.serde.skips.skip_serializing || f.serde.skips.skip_serializing
    };
    if skipped {
        return None;
    }
    let name = side_name_exec(v, f, ident, de);
    match find_key(entries, name.as_str()) {
        Some(k) => Some((name, k)),
        None => None,
    }
}

/// The first name and key that a variant field would inherit.
fn field_clash_exec(entries: &Vec<Entry>, v: &VariantDesc, f: &FieldDesc) -> (r: Option<(String, i128)>)
    ensures
        match field_clash(entries_view(entries@), *v, *f) {
            Some((n, k)) => r matches Some((m, j)) && m@ == n && j == k,
            None => r is None,
        },
{
    if let Some(ident) = &f.ident {
        if f.cbor.len() == 0 {
            match side_clash_exec(entries, v, f, ident, false) {
                Some(x) => return Some(x),
                None => {},
            }
            return side_clash_exec(entries, v, f, ident, true);
        }
    }
    None
}

/// The first name and key that some variants' fields would inherit.
fn variants_clash_exec(entries: &Vec<Entry>, variants: &Vec<VariantDesc>) -> (r: Option<(String, i128)>)
    ensures
        match variants_clash(entries_view(entries@), variants@) {
            Some((n, k)) => r matches Some((m, j)) && m@ == n && j == k,
            None => r is None,
        },
{
    let ghost t = entries_view(entries@);
    let mut i: usize = 0;
    while i < variants.len()
        invariant
            t == entries_view(entries@),
            i <= variants@.len(),
            variants_clash(t, variants@.take(i as int)) is None,
        decreases variants@.len() - i,
    {
        let v = &variants[i];
        proof {
            assert(variants@.take(i + 1).drop_last() =~= variants@.take(i as int));
            lemma_variants_clash_prefix(t, variants@, i + 1);
        }
        let mut j: usize = 0;
        while j < v.fields.len()
            invariant
                t == entries_view(entries@),
                i < variants@.len(),
                *v == variants@[i as int],
                variants_clash(t, variants@.take(i as int)) is None,
                variants@.take(i + 1).drop_last() == variants@.take(i as int),
                variants_clash(t, variants@.take(i + 1)) is Some ==> variants_clash(t, variants@) == variants_clash(
                    t,
                    variants@.take(i + 1),
                ),
                j <= v.fields@.len(),
                fields_clash(t, *v, v.fields@.take(j as int)) is None,
            decreases v.fields@.len() - j,
        {
            let f = &v.fields[j];
            proof {
                assert(v.fields@.take(j + 1).drop_last() =~= v.fields@.take(j as int));
                lemma_fields_clash_prefix(t, *v, v.fields@, j + 1);
            }
            match field_clash_exec(entries, v, f) {
                Some(x) => {
                    proof {
                        assert(fields_clash(t, *v, v.fields@.take(j + 1)) == field_clash(t, *v, *f));
                        assert(variants@.take(i + 1).last() == *v);
                    }
                    return Some(x);
                },
                None => {},
            }
            j = j + 1;
        }
        assert(v.fields@.take(v.fields@.len() as int) =~= v.fields@);
        i = i + 1;
    }
    assert(variants@.take(variants@.len() as int) =~= variants@);
    None
}

/// A clash among the first fields is the first clash of them all.
proof fn lemma_fields_clash_prefix(t: Seq<(Seq<char>, i128)>, v: VariantDesc, fs: Seq<FieldDesc>, i: int)
    requires
        0 <= i <= fs.len(),
    ensures
        fields_clash(t, v, fs.take(i)) is Some ==> fields_clash(t, v, fs) == fields_clash(t, v, fs.take(i)),
    decreases fs.len() - i,
{
    if i < fs.len() {
        assert(fs.drop_last().take(i) =~= fs.take(i));
        lemma_fields_clash_prefix(t, v, fs.drop_last(), i);
    } else {
        assert(fs.take(i) =~= fs);
    }
}

/// A clash among the first variants is the first clash of them all.
proof fn lemma_variants_clash_prefix(t: Seq<(Seq<char>, i128)>, vs: Seq<VariantDesc>, i: int)
    requires
        0 <= i <= vs.len(),
    ensures
        variants_clash(t, vs.take(i)) is Some ==> variants_clash(t, vs) == variants_clash(t, vs.take(i)),
    decreases vs.len() - i,
{
    if i < vs.len() {
        assert(vs.drop_last().take(i) =~= vs.take(i));
        lemma_variants_clash_prefix(t, vs.drop_last(), i);
    } else {
        assert(vs.take(i) =~= vs);
    }
}

/// The skips of some fields.
pub open spec fn skips_of(fields: Seq<FieldDesc>) -> Seq<SkipAttrs> {
    fields.map_values(|f: FieldDesc| f.serde.skips)
}

/// Some field that stays on the wire is flattened.
pub open spec fn has_flatten(fields: Seq<FieldDesc>) -> bool {
    exists|i: int| 0 <= i < fields.len() && fields[i].serde.flags.flatten && !fields[i].serde.skips.skip
}

/// The flattening and key table of a struct, or the first refusal.
pub open spec fn struct_spec(array: bool, serde: SerdeAttrs, kind: FieldsKind, fields: Seq<FieldDesc>) -> Result<(bool, Seq<(Seq<char>, i128)>), Refusal> {
    if (array || (kind == FieldsKind::Unnamed && fields.len() > 1)) && first_positional_skip(skips_of(fields)) is Some {
        Err(Refusal::PositionalSkip(first_positional_skip(skips_of(fields)).unwrap() as usize))
    } else {
        match field_entries_spec(fields) {
            Err(e) => Err(e),
            Ok(es) => match merge_all(Seq::empty(), es) {
                Err(e) => Err(e),
                Ok(table) => {
                    let flatten = has_flatten(fields);
                    if flatten && kind != FieldsKind::Named {
                        Err(Refusal::Invalid(Misuse::FlattenNeedsNamed))
                    } else if flatten && array {
                        Err(Refusal::Invalid(Misuse::FlattenWithArray))
                    } else if array && kind != FieldsKind::Named {
                        Err(Refusal::Invalid(Misuse::ArrayNeedsNamed))
                    } else if array && table.len() > 0 {
                        Err(Refusal::Invalid(Misuse::KeyWithArray))
                    } else if table.len() > 0 && serde.flags.rename_all {
                        Err(Refusal::Invalid(Misuse::RenameAllWithKeys))
                    } else {
                        Ok((flatten, table))
                    }
                },
            },
        }
    }
}

/// The key table after a variant's fields, or the first refusal.
pub open spec fn variant_step(table: Seq<(Seq<char>, i128)>, v: VariantDesc) -> Result<Seq<(Seq<char>, i128)>, Refusal> {
    if v.kind == FieldsKind::Unnamed && v.fields.len() > 1 && first_positional_skip(skips_of(v.fields@)) is Some {
        Err(Refusal::PositionalSkip(first_positional_skip(skips_of(v.fields@)).unwrap() as usize))
    } else if v.has_cbor {
        Err(Refusal::Invalid(Misuse::CborOnVariant))
    } else {
        match field_entries_spec(v.fields@) {
            Err(e) => Err(e),
            Ok(keyed) => if has_flatten(v.fields@) {
                Err(Refusal::Invalid(Misuse::FlattenOnEnum))
            } else if keyed.len() > 0 && v.serde.flags.rename_all {
                Err(Refusal::Invalid(Misuse::RenameAllWithKeys))
            } else {
                merge_all(table, keyed)
            },
        }
    }
}

/// The key table of some variants, or the first refusal.
pub open spec fn variants_spec(vs: Seq<VariantDesc>) -> Result<Seq<(Seq<char>, i128)>, Refusal>
    decreases vs.len(),
{
    if vs.len() == 0 {
        Ok(Seq::empty())
    } else {
        match variants_spec(vs.drop_last()) {
            Err(e) => Err(e),
            Ok(t) => variant_step(t, vs.last()),
        }
    }
}

/// The key table of an enum, or the first refusal.
pub open spec fn enum_spec(tag: Option<u64>, array: bool, serde: SerdeAttrs, vs: Seq<VariantDesc>) -> Result<Seq<(Seq<char>, i128)>, Refusal> {
    if tag is Some {
        Err(Refusal::Invalid(Misuse::TagOnEnum))
    } else if array {
        Err(Refusal::Invalid(Misuse::ArrayOnEnum))
    } else {
        match variants_spec(vs) {
            Err(e) => Err(e),
            Ok(table) => if table.len() == 0 {
                Ok(table)
            } else if exists|i: int| 0 <= i < vs.len() && vs[i].serde.flags.enum_repr {
                Err(Refusal::Invalid(Misuse::UntaggedWithKeys))
            } else if variants_clash(table, vs) is Some {
                Err(Refusal::InconsistentKey { name: variants_clash(table, vs).unwrap().0, key: variants_clash(table, vs).unwrap().1 })
            } else if serde.flags.rename_all_fields {
                Err(Refusal::Invalid(Misuse::RenameAllFieldsWithKeys))
            } else if serde.flags.enum_repr {
                Err(Refusal::Invalid(Misuse::EnumReprWithKeys))
            } else {
                Ok(table)
            },
        }
    }
}

/// The fields or variants of an item.
pub enum ItemData {
    Struct(FieldsKind, Vec<FieldDesc>),
    Enum(Vec<VariantDesc>),
    Union,
}

/// An item that the derive is applied to.
pub struct ItemDesc {
    /// The type's name without a raw identifier's `r#`.
    pub name: String,
    /// Whether one of its lifetimes is named `'de`.
    pub de_lifetime: bool,
    /// The names of its type parameters, in order.
    pub type_params: Vec<String>,
    /// The metas of its `#[cbor(...)]` attributes.
    pub cbor: Vec<CborMeta>,
    /// What its serde attributes say.
    pub serde: SerdeAttrs,
    pub data: ItemData,
}

/// What the derive declares for an item it accepts.
pub struct Analysis {
    pub tag: Option<u64>,
    pub array: bool,
    /// A field is flattened, so that the map is written and read through
    /// the flatten adapters.
    pub flatten: bool,
    /// The integer key table.
    pub entries: Vec<Entry>,
    /// The name serde sees: the container marker, or the type's own name.
    pub name: String,
}

/// The flattening and key table of an item's fields or variants.
pub open spec fn data_spec(tag: Option<u64>, array: bool, serde: SerdeAttrs, data: ItemData) -> Result<(bool, Seq<(Seq<char>, i128)>), Refusal> {
    match data {
        ItemData::Struct(kind, fields) => struct_spec(array, serde, kind, fields@),
        ItemData::Enum(vs) => match enum_spec(tag, array, serde, vs@) {
            Ok(t) => Ok((false, t)),
            Err(e) => Err(e),
        },
        ItemData::Union => Err(Refusal::Invalid(Misuse::Union)),
    }
}

/// What the derive declares for an item, as tag, array layout, flattening
/// and key table, or why it refuses the item.
pub open spec fn analysis_spec(item: ItemDesc) -> Result<(Option<u64>, bool, bool, Seq<(Seq<char>, i128)>), Refusal> {
    if item.de_lifetime {
        Err(Refusal::Invalid(Misuse::DeLifetime))
    } else {
        match container_spec(item.cbor@) {
            Err(e) => Err(e),
            Ok((tag, array)) => if item.serde.rename is Some || item.serde.flags.split_rename {
                Err(Refusal::Invalid(Misuse::ContainerRename))
            } else {
                match data_spec(tag, array, item.serde, item.data) {
                    Err(e) => Err(e),
                    Ok((flatten, table)) => {
                        let declared = tag is Some || array || table.len() > 0;
                        let f = item.serde.flags;
                        if declared && item.data is Struct && f.tag {
                            Err(Refusal::Invalid(Misuse::SerdeTagOnStruct))
                        } else if declared && f.transparent {
                            Err(Refusal::Invalid(Misuse::Transparent))
                        } else if declared && f.into {
                            Err(Refusal::Invalid(Misuse::Into))
                        } else if declared && f.from {
                            Err(Refusal::Invalid(Misuse::From))
                        } else if declared && f.try_from {
                            Err(Refusal::Invalid(Misuse::TryFrom))
                        } else {
                            Ok((tag, array, flatten, table))
                        }
                    },
                }
            },
        }
    }
}

/// Checks that no field of a positional layout is skipped in one
/// direction or on a condition.
fn positional_check(fields: &Vec<FieldDesc>) -> (r: Result<(), DeriveError>)
    ensures
        match first_positional_skip(skips_of(fields@)) {
            Some(i) => r matches Err(e) && e@ == Refusal::PositionalSkip(i as usize),
            None => r is Ok,
        },
{
    let mut skips: Vec<SkipAttrs> = Vec::new();
    let mut i: usize = 0;
    while i < fields.len()
        invariant
            i <= fields@.len(),
            skips@ == skips_of(fields@.take(i as int)),
        decreases fields@.len() - i,
    {
        skips.push(fields[i].serde.skips);
        i = i + 1;
        assert(skips@ =~= skips_of(fields@.take(i as int)));
    }
    assert(fields@.take(fields@.len() as int) =~= fields@);
    validate_positional_fields(&skips)
}

/// Whether some field that stays on the wire is flattened.
fn has_flatten_exec(fields: &Vec<FieldDesc>) -> (r: bool)
    ensures
        r == has_flatten(fields@),
{
    let mut i: usize = 0;
    while i < fields.len()
        invariant
            i <= fields@.len(),
            forall|j: int| 0 <= j < i ==> !(fields@[j].serde.flags.flatten && !fields@[j].serde.skips.skip),
        decreases fields@.len() - i,
    {
        if fields[i].serde.flags.flatten && !fields[i].serde.skips.skip {
            return true;
        }
        i = i + 1;
    }
    false
}

/// The flattening and key table of a struct.
fn struct_exec(array: bool, serde: &SerdeAttrs, kind: FieldsKind, fields: &Vec<FieldDesc>) -> (r: Result<(bool, Vec<Entry>), DeriveError>)
    ensures
        match struct_spec(array, *serde, kind, fields@) {
            Ok((fl, t)) => r matches Ok((g, v)) && g == fl && entries_view(v@) == t,
            Err(e) => r matches Err(y) && y@ == e,
        },
{
    if array || (kind == FieldsKind::Unnamed && fields.len() > 1) {
        match positional_check(fields) {
            Err(e) => return Err(e),
            Ok(()) => {},
        }
    }
    let es = match field_entries(fields) {
        Err(e) => return Err(e),
        Ok(es) => es,
    };
    let mut table: Vec<Entry> = Vec::new();
    assert(entries_view(table@) =~= Seq::<(Seq<char>, i128)>::empty());
    match merge_entries(&mut table, &es) {
        Err(e) => return Err(e),
        Ok(()) => {},
    }
    let flatten = has_flatten_exec(fields);
    if flatten && kind != FieldsKind::Named {
        return Err(DeriveError::Invalid(Misuse::FlattenNeedsNamed));
    }
    if flatten && array {
        return Err(DeriveError::Invalid(Misuse::FlattenWithArray));
    }
    if array && kind != FieldsKind::Named {
        return Err(DeriveError::Invalid(Misuse::ArrayNeedsNamed));
    }
    if array && table.len() > 0 {
        return Err(DeriveError::Invalid(Misuse::KeyWithArray));
    }
    if table.len() > 0 && serde.flags.rename_all {
        return Err(DeriveError::Invalid(Misuse::RenameAllWithKeys));
    }
    Ok((flatten, table))
}

/// Adds a variant's keyed fields to the key table.
fn variant_step_exec(table: &mut Vec<Entry>, v: &VariantDesc) -> (r: Result<(), DeriveError>)
    ensures
        match variant_step(entries_view(old(table)@), *v) {
            Ok(t) => r is Ok && entries_view(final(table)@) == t,
            Err(e) => r matches Err(y) && y@ == e,
        },
{
    if v.kind == FieldsKind::Unnamed && v.fields.len() > 1 {
        match positional_check(&v.fields) {
            Err(e) => return Err(e),
            Ok(()) => {},
        }
    }
    if v.has_cbor {
        return Err(DeriveError::Invalid(Misuse::CborOnVariant));
    }
    let keyed = match field_entries(&v.fields) {
        Err(e) => return Err(e),
        Ok(k) => k,
    };
    if has_flatten_exec(&v.fields) {
        return Err(DeriveError::Invalid(Misuse::FlattenOnEnum));
    }
    if keyed.len() > 0 && v.serde.flags.rename_all {
        return Err(DeriveError::Invalid(Misuse::RenameAllWithKeys));
    }
    merge_entries(table, &keyed)
}

/// The key table of some variants.
fn variants_exec(vs: &Vec<VariantDesc>) -> (r: Result<Vec<Entry>, DeriveError>)
    ensures
        match variants_spec(vs@) {
            Ok(t) => r matches Ok(v) && entries_view(v@) == t,
            Err(e) => r matches Err(y) && y@ == e,
        },
{
    let mut table: Vec<Entry> = Vec::new();
    let mut i: usize = 0;
    assert(entries_view(table@) =~= Seq::<(Seq<char>, i128)>::empty());
    assert(vs@.take(0) =~= Seq::<VariantDesc>::empty());
    while i < vs.len()
        invariant
            i <= vs@.len(),
            variants_spec(vs@.take(i as int)) == Ok::<Seq<(Seq<char>, i128)>, Refusal>(entries_view(table@)),
        decreases vs@.len() - i,
    {
        proof {
            assert(vs@.take(i + 1).drop_last() =~= vs@.take(i as int));
            assert(vs@.take(i + 1).last() == vs@[i as int]);
            lemma_variants_spec_err(vs@, i + 1);
        }
        match variant_step_exec(&mut table, &vs[i]) {
            Err(e) => return Err(e),
            Ok(()) => {},
        }
        i = i + 1;
    }
    assert(vs@.take(vs@.len() as int) =~= vs@);
    Ok(table)
}

/// A refusal among the first variants is the refusal of them all.
proof fn lemma_variants_spec_err(vs: Seq<VariantDesc>, i: int)
    requires
        0 <= i <= vs.len(),
    ensures
        variants_spec(vs.take(i)) is Err ==> variants_spec(vs) == variants_spec(vs.take(i)),
    decreases vs.len() - i,
{
    if i < vs.len() {
        assert(vs.drop_last().take(i) =~= vs.take(i));
        lemma_variants_spec_err(vs.drop_last(), i);
    } else {
        assert(vs.take(i) =~= vs);
    }
}

/// The key table of an enum.
#[verifier::loop_isolation(false)]
fn enum_exec(tag: Option<u64>, array: bool, serde: &SerdeAttrs, vs: &Vec<VariantDesc>) -> (r: Result<Vec<Entry>, DeriveError>)
    ensures
        match enum_spec(tag, array, *serde, vs@) {
            Ok(t) => r matches Ok(v) && entries_view(v@) == t,
            Err(e) => r matches Err(y) && y@ == e,
        },
{
    if tag.is_some() {
        return Err(DeriveError::Invalid(Misuse::TagOnEnum));
    }
    if array {
        return Err(DeriveError::Invalid(Misuse::ArrayOnEnum));
    }
    let table = match variants_exec(vs) {
        Err(e) => return Err(e),
        Ok(t) => t,
    };
    if table.len() == 0 {
        return Ok(table);
    }
    let mut i: usize = 0;
    while i < vs.len()
        invariant
            i <= vs@.len(),
            forall|j: int| 0 <= j < i ==> !vs@[j].serde.flags.enum_repr,
        decreases vs@.len() - i,
    {
        if vs[i].serde.flags.enum_repr {
            return Err(DeriveError::Invalid(Misuse::UntaggedWithKeys));
        }
        i = i + 1;
    }
    match variants_clash_exec(&table, vs) {
        Some((name, key)) => return Err(DeriveError::InconsistentKey { name, key }),
        None => {},
    }
    if serde.flags.rename_all_fields {
        return Err(DeriveError::Invalid(Misuse::RenameAllFieldsWithKeys));
    }
    if serde.flags.enum_repr {
        return Err(DeriveError::Invalid(Misuse::EnumReprWithKeys));
    }
    Ok(table)
}

/// Analyses an item as the derive does: the tag, array layout, flattening
/// and key table it declares, with the name serde sees, or why the derive
/// refuses it.
pub fn analyze(item: &ItemDesc) -> (r: Result<Analysis, DeriveError>)
    ensures
        match analysis_spec(*item) {
            Ok((tag, array, flatten, table)) => r matches Ok(a) && a.tag == tag && a.array == array && a.flatten
                == flatten && entries_view(a.entries@) == table && a.name@ == (match marker_text(
                tag,
                array,
                table,
                item.name@,
            ) {
                Some(m) => m,
                None => item.name@,
            }),
            Err(e) => r matches Err(y) && y@ == e,
        },
{
    if item.de_lifetime {
        return Err(DeriveError::Invalid(Misuse::DeLifetime));
    }
    let (tag, array) = match container_attrs(&item.cbor) {
        Err(e) => return Err(e),
        Ok(x) => x,
    };
    if item.serde.rename.is_some() || item.serde.flags.split_rename {
        return Err(DeriveError::Invalid(Misuse::ContainerRename));
    }
    let (flatten, entries) = match &item.data {
        ItemData::Struct(kind, fields) => match struct_exec(array, &item.serde, *kind, fields) {
            Err(e) => return Err(e),
            Ok(x) => x,
        },
        ItemData::Enum(vs) => match enum_exec(tag, array, &item.serde, vs) {
            Err(e) => return Err(e),
            Ok(t) => (false, t),
        },
        ItemData::Union => return Err(DeriveError::Invalid(Misuse::Union)),
    };
    let declared = tag.is_some() || array || entries.len() > 0;
    let f = item.serde.flags;
    let is_struct = match &item.data {
        ItemData::Struct(..) => true,
        _ => false,
    };
    if declared && is_struct && f.tag {
        return Err(DeriveError::Invalid(Misuse::SerdeTagOnStruct));
    }
    if declared && f.transparent {
        return Err(DeriveError::Invalid(Misuse::Transparent));
    }
    if declared && f.into {
        return Err(DeriveError::Invalid(Misuse::Into));
    }
    if declared && f.from {
        return Err(DeriveError::Invalid(Misuse::From));
    }
    if declared && f.try_from {
        return Err(DeriveError::Invalid(Misuse::TryFrom));
    }
    let name = match marker(tag, array, &entries, item.name.as_str()) {
        Some(m) => m,
        None => item.name.clone(),
    };
    Ok(Analysis { tag, array, flatten, entries, name })
}

/// No two entries of a key table share a name or a key.
pub open spec fn unambiguous(t: Seq<(Seq<char>, i128)>) -> bool {
    forall|i: int, j: int| 0 <= i < j < t.len() ==> t[i].0 != t[j].0 && t[i].1 != t[j].1
}

/// Adding an entry keeps a key table unambiguous.
proof fn lemma_merge_unambiguous(t: Seq<(Seq<char>, i128)>, name: Seq<char>, key: i128)
    requires
        unambiguous(t),
    ensures
        merge_spec(t, name, key) matches Ok(u) ==> unambiguous(u),
{
    reveal(merge_spec);
    if first_clash(t, name, key) is None {
        let u = t.push((name, key));
        assert forall|i: int, j: int| 0 <= i < j < u.len() implies u[i].0 != u[j].0 && u[i].1 != u[j].1 by {
            if j == t.len() {
                assert(!(t[i].0 == name || t[i].1 == key));
            }
        }
    }
}

/// Adding entries in turn keeps a key table unambiguous.
proof fn lemma_merge_all_unambiguous(t: Seq<(Seq<char>, i128)>, new: Seq<(Seq<char>, i128)>)
    requires
        unambiguous(t),
    ensures
        merge_all(t, new) matches Ok(u) ==> unambiguous(u),
    decreases new.len(),
{
    if new.len() > 0 {
        lemma_merge_all_unambiguous(t, new.drop_last());
        if let Ok(u) = merge_all(t, new.drop_last()) {
            lemma_merge_unambiguous(u, new.last().0, new.last().1);
        }
    }
}

/// The key table of variants is unambiguous.
proof fn lemma_variants_unambiguous(vs: Seq<VariantDesc>)
    ensures
        variants_spec(vs) matches Ok(u) ==> unambiguous(u),
    decreases vs.len(),
{
    if vs.len() > 0 {
        lemma_variants_unambiguous(vs.drop_last());
        if let Ok(t) = variants_spec(vs.drop_last()) {
            if let Ok(keyed) = field_entries_spec(vs.last().fields@) {
                lemma_merge_all_unambiguous(t, keyed);
            }
        }
    }
}

/// The key table of an item the derive accepts maps names and keys one to
/// one: no name has two keys and no key two names, across all the fields
/// of a struct or all the variants of an enum.
pub proof fn lemma_key_table_unambiguous(item: ItemDesc)
    ensures
        analysis_spec(item) matches Ok((tag, array, flatten, t)) ==> unambiguous(t),
{
    match item.data {
        ItemData::Struct(kind, fields) => {
            if let Ok(es) = field_entries_spec(fields@) {
                lemma_merge_all_unambiguous(Seq::empty(), es);
            }
        },
        ItemData::Enum(vs) => lemma_variants_unambiguous(vs@),
        ItemData::Union => {},
    }
}

} // verus!
