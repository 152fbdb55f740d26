//! The rules of the `Cbor` derive: which layouts are positional and which
//! skips they refuse, the integer key table and its container marker,
//! serde's field rename rules, and the messages of the refusals.

use vstd::prelude::*;

use crate::cli::same_text;

verus! {

/// The container marker prefix.
pub const MARKER: &'static str = "@@CBOR@@";

/// The message of a conditional or one-directional skip in a positional
/// layout.
pub const POSITIONAL_SKIP_MESSAGE: &'static str =
    "conditional or one-directional skipping changes CBOR array field positions; use an Option placeholder or #[serde(skip)]";

/// How the serde attributes of a field skip it.
#[derive(Copy, Clone, Debug, PartialEq, Eq, Structural)]
pub struct SkipAttrs {
    /// `#[serde(skip)]`: never on the wire.
    pub skip: bool,
    /// A skip in one direction or on a condition.
    pub positional_skip: bool,
    pub skip_serializing: bool,
    pub skip_deserializing: bool,
}

/// Whether the fields of a struct or variant are laid out by position: a
/// container marked `#[cbor(array)]`, or a tuple of more than one field.
pub fn is_positional(array: bool, unnamed: bool, fields: usize) -> (r: bool)
    ensures
        r == (array || (unnamed && fields > 1)),
{
    array || (unnamed && fields > 1)
}

/// A use of the derive that it refuses, whatever the names involved.
#[derive(Copy, Clone, Debug, PartialEq, Eq, Structural)]
pub enum Misuse {
    /// A lifetime named `'de`, which serde's derive reserves.
    DeLifetime,
    /// A container-level `#[serde(rename = ...)]`.
    ContainerRename,
    /// `#[serde(flatten)]` in a struct without named fields.
    FlattenNeedsNamed,
    /// `#[serde(flatten)]` beside `#[cbor(array)]`.
    FlattenWithArray,
    /// `#[cbor(array)]` on a struct without named fields.
    ArrayNeedsNamed,
    /// `#[cbor(key = ...)]` beside `#[cbor(array)]`.
    KeyWithArray,
    /// `#[serde(rename_all = ...)]` beside integer keys.
    RenameAllWithKeys,
    /// `#[cbor(tag = ...)]` on an enum.
    TagOnEnum,
    /// `#[cbor(array)]` on an enum.
    ArrayOnEnum,
    /// `#[cbor(...)]` on an enum variant.
    CborOnVariant,
    /// `#[serde(flatten)]` in an enum.
    FlattenOnEnum,
    /// An untagged variant in an enum with integer keys.
    UntaggedWithKeys,
    /// `#[serde(rename_all_fields = ...)]` beside integer keys.
    RenameAllFieldsWithKeys,
    /// An enum representation other than external tagging beside integer keys.
    EnumReprWithKeys,
    /// A union.
    Union,
    /// `#[serde(tag = ...)]` on a struct with a tag, array layout or keys.
    SerdeTagOnStruct,
    /// `#[serde(transparent)]` beside declared protocol details.
    Transparent,
    /// `#[serde(into = ...)]` beside declared protocol details.
    Into,
    /// `#[serde(from = ...)]` beside declared protocol details.
    From,
    /// `#[serde(try_from = ...)]` beside declared protocol details.
    TryFrom,
    /// A field's `#[cbor(...)]` other than `key = <integer>`.
    ExpectedKey,
    /// A suffixed literal in `#[cbor(key = ...)]`.
    SuffixedKey,
    /// A suffixed literal in `#[cbor(tag = ...)]`.
    SuffixedTag,
    /// A key outside `-2^64 ..= 2^64 - 1`.
    KeyRange,
    /// A tag outside `0 ..= 2^64 - 1`.
    TagRange,
    /// Two keys on one field.
    DuplicateKey,
    /// Two tags on one container.
    DuplicateTag,
    /// Two `array` metas on one container.
    DuplicateArray,
    /// `array = ...`.
    ArrayWithValue,
    /// A container's `#[cbor(...)]` meta other than `tag` or `array`.
    ExpectedTagOrArray,
    /// `#[serde(flatten)]` on a keyed field.
    FlattenWithKey,
    /// `#[serde(skip)]` on a keyed field.
    KeyOnSkipped,
    /// A key on a field without a name.
    KeyNeedsName,
    /// A rename per direction on a keyed field.
    SplitRenameWithKey,
    /// The serde name of a keyed field is empty or holds `@`, `;` or `=`.
    BadKeyName,
}

/// Why the derive refuses an item.
#[derive(Clone, Debug, PartialEq, Eq)]
pub enum DeriveError {
    /// A field of a positional layout is skipped in one direction or on a
    /// condition, which would shift the positions of the fields after it.
    PositionalSkip(usize),
    /// A field maps to two different keys.
    ConflictingKeys { name: String, first: i128, second: i128 },
    /// A key already maps to another field.
    KeyTaken { key: i128, name: String },
    /// An unkeyed field of an enum variant has the serde name of a keyed
    /// field of another variant, and would inherit its key.
    InconsistentKey { name: String, key: i128 },
    /// Any other refused use.
    Invalid(Misuse),
}

/// A refusal, with the names as text.
pub enum Refusal {
    PositionalSkip(usize),
    ConflictingKeys { name: Seq<char>, first: i128, second: i128 },
    KeyTaken { key: i128, name: Seq<char> },
    InconsistentKey { name: Seq<char>, key: i128 },
    Invalid(Misuse),
}

impl View for DeriveError {
    type V = Refusal;

    open spec fn view(&self) -> Refusal {
        match self {
            DeriveError::PositionalSkip(i) => Refusal::PositionalSkip(*i),
            DeriveError::ConflictingKeys { name, first, second } => Refusal::ConflictingKeys {
                name: name@,
                first: *first,
                second: *second,
            },
            DeriveError::KeyTaken { key, name } => Refusal::KeyTaken { key: *key, name: name@ },
            DeriveError::InconsistentKey { name, key } => Refusal::InconsistentKey { name: name@, key: *key },
            DeriveError::Invalid(m) => Refusal::Invalid(*m),
        }
    }
}

/// A result by the view of its error.
pub open spec fn result_view<T>(r: Result<T, DeriveError>) -> Result<T, Refusal> {
    match r {
        Ok(x) => Ok(x),
        Err(e) => Err(e@),
    }
}

/// The first field that a positional layout refuses.
#[verifier::opaque]
pub open spec fn first_positional_skip(fields: Seq<SkipAttrs>) -> Option<int> {
    if exists|i: int| 0 <= i < fields.len() && !fields[i].skip && fields[i].positional_skip {
        Some(choose|i: int| 0 <= i < fields.len() && !fields[i].skip && fields[i].positional_skip
            && forall|j: int| 0 <= j < i ==> !(!fields[j].skip && fields[j].positional_skip))
    } else {
        None
    }
}

/// The first refused field is the first that is skipped in one direction
/// or on a condition.
proof fn lemma_first_positional_skip(fields: Seq<SkipAttrs>, i: int)
    requires
        0 <= i < fields.len(),
        !fields[i].skip && fields[i].positional_skip,
        forall|j: int| 0 <= j < i ==> !(!fields[j].skip && fields[j].positional_skip),
    ensures
        first_positional_skip(fields) == Some(i),
{
    reveal(first_positional_skip);
    let w = choose|k: int| 0 <= k < fields.len() && !fields[k].skip && fields[k].positional_skip
        && forall|j: int| 0 <= j < k ==> !(!fields[j].skip && fields[j].positional_skip);
    if w < i {
    } else if w > i {
        assert(!(!fields[i].skip && fields[i].positional_skip));
    }
}

/// Checks that no field of a positional layout is skipped in one
/// direction or on a condition (skipping in both directions is fine).
pub fn validate_positional_fields(fields: &Vec<SkipAttrs>) -> (r: Result<(), DeriveError>)
    ensures
        match first_positional_skip(fields@) {
            Some(i) => r == Err::<(), DeriveError>(DeriveError::PositionalSkip(i as usize)),
            None => r is Ok,
        },
{
    reveal(first_positional_skip);
    let mut i: usize = 0;
    while i < fields.len()
        invariant
            i <= fields@.len(),
            forall|j: int| 0 <= j < i ==> !(!fields@[j].skip && fields@[j].positional_skip),
        decreases fields@.len() - i,
    {
        if !fields[i].skip && fields[i].positional_skip {
            proof {
                lemma_first_positional_skip(fields@, i as int);
            }
            return Err(DeriveError::PositionalSkip(i));
        }
        i = i + 1;
    }
    Ok(())
}

/// One `name=key` entry of the key table.
pub struct Entry {
    pub name: String,
    pub key: i128,
}

/// The entries as names and keys.
pub open spec fn entries_view(entries: Seq<Entry>) -> Seq<(Seq<char>, i128)> {
    Seq::new(entries.len(), |i: int| (entries[i].name@, entries[i].key))
}

/// The first entry that shares the name or the key of `(name, key)`.
pub open spec fn first_clash(entries: Seq<(Seq<char>, i128)>, name: Seq<char>, key: i128) -> Option<int> {
    if exists|i: int| 0 <= i < entries.len() && (entries[i].0 == name || entries[i].1 == key) {
        Some(choose|i: int| 0 <= i < entries.len() && (entries[i].0 == name || entries[i].1 == key)
            && forall|j: int| 0 <= j < i ==> !(entries[j].0 == name || entries[j].1 == key))
    } else {
        None
    }
}

/// The first clash is the first entry that shares the name or the key.
proof fn lemma_first_clash(table: Seq<(Seq<char>, i128)>, name: Seq<char>, key: i128, i: int)
    requires
        0 <= i < table.len(),
        table[i].0 == name || table[i].1 == key,
        forall|j: int| 0 <= j < i ==> !(table[j].0 == name || table[j].1 == key),
    ensures
        first_clash(table, name, key) == Some(i),
{
    let w = choose|k: int| 0 <= k < table.len() && (table[k].0 == name || table[k].1 == key)
        && forall|j: int| 0 <= j < k ==> !(table[j].0 == name || table[j].1 == key);
    if w < i {
    } else if w > i {
        assert(!(table[i].0 == name || table[i].1 == key));
    }
}

/// The key table after adding `(name, key)`: ambiguous mappings are
/// refused, and a mapping the table already holds is not repeated.
#[verifier::opaque]
pub open spec fn merge_spec(table: Seq<(Seq<char>, i128)>, name: Seq<char>, key: i128) -> Result<Seq<(Seq<char>, i128)>, Refusal> {
    match first_clash(table, name, key) {
        None => Ok(table.push((name, key))),
        Some(k) => if table[k].0 == name && table[k].1 == key {
            Ok(table)
        } else if table[k].0 == name {
            Err(Refusal::ConflictingKeys { name, first: table[k].1, second: key })
        } else {
            Err(Refusal::KeyTaken { key, name: table[k].0 })
        },
    }
}

/// Adds an entry to the key table, refusing ambiguous mappings; an entry
/// the table already holds is accepted and not repeated.
#[verifier::rlimit(40)]
pub fn merge_entry(entries: &mut Vec<Entry>, entry: Entry) -> (r: Result<(), DeriveError>)
    ensures
        match merge_spec(entries_view(old(entries)@), entry.name@, entry.key) {
            Ok(t) => r is Ok && entries_view(final(entries)@) == t,
            Err(e) => (r matches Err(x) && x@ == e) && entries_view(final(entries)@) == entries_view(old(entries)@),
        },
{
    reveal(merge_spec);
    let ghost table = entries_view(entries@);
    let mut i: usize = 0;
    let mut found = false;
    while i < entries.len() && !found
        invariant
            table == entries_view(entries@),
            i <= entries@.len(),
            found ==> i < entries@.len() && (table[i as int].0 == entry.name@ || table[i as int].1 == entry.key),
            forall|j: int| 0 <= j < i ==> !(table[j].0 == entry.name@ || table[j].1 == entry.key),
        decreases entries@.len() - i, if found { 0int } else { 1int },
    {
        proof {
            assert(table[i as int] == (entries@[i as int].name@, entries@[i as int].key));
        }
        if same_text(entries[i].name.as_str(), entry.name.as_str()) || entries[i].key == entry.key {
            found = true;
        } else {
            i = i + 1;
        }
    }
    if !found {
        let ghost item = (entry.name@, entry.key);
        entries.push(entry);
        assert(entries_view(entries@) =~= table.push(item));
        return Ok(());
    }
    proof {
        lemma_first_clash(table, entry.name@, entry.key, i as int);
        assert(table[i as int] == (entries@[i as int].name@, entries@[i as int].key));
    }
    let same_name = same_text(entries[i].name.as_str(), entry.name.as_str());
    if same_name && entries[i].key == entry.key {
        Ok(())
    } else if same_name {
        Err(DeriveError::ConflictingKeys { name: entry.name, first: entries[i].key, second: entry.key })
    } else {
        Err(DeriveError::KeyTaken { key: entry.key, name: entries[i].name.clone() })
    }
}

/// ASCII uppercase of a character.
pub open spec fn upper(c: char) -> char {
    if 'a' <= c <= 'z' {
        ((c as u32) - 32) as char
    } else {
        c
    }
}

/// ASCII lowercase of a character.
pub open spec fn lower(c: char) -> char {
    if 'A' <= c <= 'Z' {
        ((c as u32) + 32) as char
    } else {
        c
    }
}

fn upper_char(c: char) -> (r: char)
    ensures
        r == upper(c),
{
    if 'a' <= c && c <= 'z' {
        ((c as u8) - 32) as char
    } else {
        c
    }
}

fn lower_char(c: char) -> (r: char)
    ensures
        r == lower(c),
{
    if 'A' <= c && c <= 'Z' {
        ((c as u8) + 32) as char
    } else {
        c
    }
}

/// Capitalizes after every `_`, dropping the underscores, starting
/// capitalized (PascalCase).
pub open spec fn pascal(s: Seq<char>) -> Seq<char>
    decreases s.len(), 0nat,
{
    if s.len() == 0 {
        s
    } else {
        pascal_from(s.drop_last(), s.last())
    }
}

/// `pascal` of `s` followed by `c`.
pub open spec fn pascal_from(s: Seq<char>, c: char) -> Seq<char>
    decreases s.len(), 1nat,
{
    if c == '_' {
        pascal(s)
    } else if s.len() == 0 || s.last() == '_' {
        pascal(s).push(upper(c))
    } else {
        pascal(s).push(c)
    }
}

/// A field name under a serde rename rule (field names start in
/// snake_case).
pub open spec fn renamed(name: Seq<char>, rule: Option<Seq<char>>) -> Seq<char> {
    match rule {
        Some(r) => if r == "UPPERCASE"@ || r == "SCREAMING_SNAKE_CASE"@ {
            name.map_values(|c: char| upper(c))
        } else if r == "kebab-case"@ {
            name.map_values(|c: char| if c == '_' { '-' } else { c })
        } else if r == "SCREAMING-KEBAB-CASE"@ {
            name.map_values(|c: char| if c == '_' { '-' } else { upper(c) })
        } else if r == "PascalCase"@ {
            pascal(name)
        } else if r == "camelCase"@ {
            let p = pascal(name);
            if p.len() > 0 && (p[0] as u32) < 0x80 {
                p.update(0, lower(p[0]))
            } else {
                p
            }
        } else {
            name
        },
        None => name,
    }
}

/// `String::from_iter`: the text of a sequence of characters.
#[verifier::external_body]
pub(crate) fn collect_text(chars: &Vec<char>) -> (s: String)
    ensures
        s@ == chars@,
{
    chars.iter().collect()
}

/// Renames a field by a serde rename rule; an unknown rule keeps the name.
pub fn rename_field(name: &str, rule: Option<&str>) -> (r: String)
    ensures
        r@ == renamed(
            name@,
            match rule {
                Some(x) => Some(x@),
                None => None,
            },
        ),
{
    let n = name.unicode_len();
    let (mode, camel): (u8, bool) = match rule {
        Some(x) => if same_text(x, "UPPERCASE") || same_text(x, "SCREAMING_SNAKE_CASE") {
            (1, false)
        } else if same_text(x, "kebab-case") {
            (2, false)
        } else if same_text(x, "SCREAMING-KEBAB-CASE") {
            (3, false)
        } else if same_text(x, "PascalCase") {
            (4, false)
        } else if same_text(x, "camelCase") {
            (4, true)
        } else {
            (0, false)
        },
        None => (0, false),
    };
    let mut out: Vec<char> = Vec::new();
    let mut i: usize = 0;
    let mut capitalize = true;
    while i < n
        invariant
            n == name@.len(),
            i <= n,
            mode <= 4,
            mode == 1 ==> out@ == name@.take(i as int).map_values(|c: char| upper(c)),
            mode == 2 ==> out@ == name@.take(i as int).map_values(|c: char| if c == '_' { '-' } else { c }),
            mode == 3 ==> out@ == name@.take(i as int).map_values(|c: char| if c == '_' { '-' } else { upper(c) }),
            mode == 4 ==> out@ == pascal(name@.take(i as int)),
            mode == 4 ==> capitalize == (i == 0 || name@[i - 1] == '_'),
            mode == 0 ==> out@ == name@.take(i as int),
        decreases n - i,
    {
        let c = name.get_char(i);
        let ghost t = name@.take(i as int);
        let ghost t1 = name@.take(i + 1);
        assert(t1.drop_last() =~= t);
        assert(t1.last() == c);
        if mode == 4 {
            if c == '_' {
                capitalize = true;
            } else if capitalize {
                out.push(upper_char(c));
                capitalize = false;
            } else {
                out.push(c);
            }
        } else if mode == 1 {
            out.push(upper_char(c));
        } else if mode == 2 {
            out.push(if c == '_' { '-' } else { c });
        } else if mode == 3 {
            out.push(if c == '_' { '-' } else { upper_char(c) });
        } else {
            out.push(c);
        }
        proof {
            if mode == 1 {
                assert(out@ =~= t1.map_values(|c: char| upper(c)));
            } else if mode == 2 {
                assert(out@ =~= t1.map_values(|c: char| if c == '_' { '-' } else { c }));
            } else if mode == 3 {
                assert(out@ =~= t1.map_values(|c: char| if c == '_' { '-' } else { upper(c) }));
            } else if mode == 0 {
                assert(out@ =~= t1);
            } else {
                assert(pascal(t1) == pascal_from(t, c));
            }
        }
        i = i + 1;
    }
    assert(name@.take(n as int) =~= name@);
    if camel && out.len() > 0 && (out[0] as u32) < 0x80 {
        let first = lower_char(out[0]);
        out.set(0, first);
    }
    collect_text(&out)
}

/// The decimal digit character of a value below ten.
pub open spec fn digit_char(d: nat) -> char {
    (0x30 + d) as char
}

/// The decimal digits of a natural number.
pub open spec fn dec_digits(n: nat) -> Seq<char>
    decreases n,
{
    if n < 10 {
        seq![digit_char(n)]
    } else {
        dec_digits(n / 10).push(digit_char(n % 10))
    }
}

/// The decimal text of an integer.
pub open spec fn int_text(i: int) -> Seq<char> {
    if i < 0 {
        seq!['-'] + dec_digits((-i) as nat)
    } else {
        dec_digits(i as nat)
    }
}

/// Appends the decimal digits of `n`.
pub(crate) fn push_decimal(out: &mut Vec<char>, n: u128)
    ensures
        final(out)@ == old(out)@ + dec_digits(n as nat),
    decreases n,
{
    if n >= 10 {
        push_decimal(out, n / 10);
    }
    let d = (n % 10) as u8;
    out.push((0x30u8 + d) as char);
    proof {
        if n >= 10 {
            assert(old(out)@ + dec_digits(n as nat) =~= old(out)@ + dec_digits((n / 10) as nat) + seq![digit_char((n % 10) as nat)]);
        } else {
            assert(old(out)@ + dec_digits(n as nat) =~= old(out)@ + seq![digit_char(n as nat)]);
        }
    }
}

/// Appends the decimal text of `i`.
pub(crate) fn push_int(out: &mut Vec<char>, i: i128)
    ensures
        final(out)@ == old(out)@ + int_text(i as int),
{
    if i < 0 {
        out.push('-');
        let magnitude: u128 = ((-(i + 1)) as u128) + 1;
        push_decimal(out, magnitude);
        assert(final(out)@ =~= old(out)@ + int_text(i as int));
    } else {
        push_decimal(out, i as u128);
    }
}

/// Appends the characters of `s`.
pub(crate) fn push_text(out: &mut Vec<char>, s: &str)
    ensures
        final(out)@ == old(out)@ + s@,
{
    let n = s.unicode_len();
    let ghost start = out@;
    let mut i: usize = 0;
    while i < n
        invariant
            n == s@.len(),
            i <= n,
            out@ == start + s@.take(i as int),
        decreases n - i,
    {
        out.push(s.get_char(i));
        i = i + 1;
        assert(s@.take(i as int) =~= s@.take(i - 1).push(s@[i - 1]));
    }
    assert(s@.take(n as int) =~= s@);
}

/// The key table as `name=key` items separated by `;`.
pub open spec fn entries_text(es: Seq<(Seq<char>, i128)>) -> Seq<char>
    decreases es.len(),
{
    if es.len() == 0 {
        Seq::empty()
    } else {
        entries_text(es.drop_last()) + (if es.len() > 1 { seq![';'] } else { Seq::empty() }) + es.last().0
            + seq!['='] + int_text(es.last().1 as int)
    }
}

/// The container marker `@@CBOR@@<tag>@@<keys>@@[array@@]<name>` of an
/// item that declares a tag, an array layout or integer keys.
pub open spec fn marker_text(tag: Option<u64>, array: bool, es: Seq<(Seq<char>, i128)>, name: Seq<char>) -> Option<Seq<char>> {
    if tag is None && es.len() == 0 && !array {
        None
    } else {
        Some(MARKER@ + (match tag {
            Some(t) => dec_digits(t as nat),
            None => Seq::empty(),
        }) + "@@"@ + entries_text(es) + "@@"@ + (if array { "array@@"@ } else { Seq::empty() }) + name)
    }
}

/// The container marker of an item, when it declares a tag, an array
/// layout or integer keys.
pub fn marker(tag: Option<u64>, array: bool, entries: &Vec<Entry>, name: &str) -> (r: Option<String>)
    ensures
        match marker_text(tag, array, entries_view(entries@), name@) {
            Some(t) => r matches Some(s) && s@ == t,
            None => r is None,
        },
{
    if tag.is_none() && entries.len() == 0 && !array {
        return None;
    }
    let ghost es = entries_view(entries@);
    let mut out: Vec<char> = Vec::new();
    push_text(&mut out, MARKER);
    if let Some(t) = tag {
        push_decimal(&mut out, t as u128);
    }
    push_text(&mut out, "@@");
    let ghost head = out@;
    let mut i: usize = 0;
    assert(es.take(0) =~= Seq::<(Seq<char>, i128)>::empty());
    while i < entries.len()
        invariant
            es == entries_view(entries@),
            i <= entries@.len(),
            out@ == head + entries_text(es.take(i as int)),
        decreases entries@.len() - i,
    {
        if i > 0 {
            out.push(';');
        }
        push_text(&mut out, entries[i].name.as_str());
        out.push('=');
        push_int(&mut out, entries[i].key);
        proof {
            let t1 = es.take(i + 1);
            assert(t1.drop_last() =~= es.take(i as int));
            assert(t1.last() == (entries@[i as int].name@, entries@[i as int].key));
            assert(out@ =~= head + entries_text(t1));
        }
        i = i + 1;
    }
    assert(es.take(entries@.len() as int) =~= es);
    push_text(&mut out, "@@");
    if array {
        push_text(&mut out, "array@@");
    }
    push_text(&mut out, name);
    proof {
        let tag_part = match tag {
            Some(t) => dec_digits(t as nat),
            None => Seq::<char>::empty(),
        };
        assert(out@ =~= MARKER@ + tag_part + "@@"@ + entries_text(es) + "@@"@ + (if array { "array@@"@ } else { Seq::<char>::empty() }) + name@);
    }
    Some(collect_text(&out))
}

/// The message of `Misuse::DeLifetime`.
pub const MSG_DE_LIFETIME: &'static str = "#[derive(Cbor)] cannot support a lifetime named 'de because serde's Deserialize derive reserves that name; rename the lifetime";

/// The message of `Misuse::ContainerRename`.
pub const MSG_CONTAINER_RENAME: &'static str = "#[derive(Cbor)] does not support a container-level #[serde(rename = ...)]; rename the type itself";

/// The message of `Misuse::FlattenNeedsNamed`.
pub const MSG_FLATTEN_NEEDS_NAMED: &'static str = "#[serde(flatten)] with #[derive(Cbor)] requires a struct with named fields";

/// The message of `Misuse::FlattenWithArray`.
pub const MSG_FLATTEN_WITH_ARRAY: &'static str = "#[serde(flatten)] cannot be used with #[cbor(array)]";

/// The message of `Misuse::ArrayNeedsNamed`.
pub const MSG_ARRAY_NEEDS_NAMED: &'static str = "#[cbor(array)] requires a struct with named fields";

/// The message of `Misuse::KeyWithArray`.
pub const MSG_KEY_WITH_ARRAY: &'static str = "#[cbor(key = ...)] cannot be used with #[cbor(array)]";

/// The message of `Misuse::RenameAllWithKeys`.
pub const MSG_RENAME_ALL_WITH_KEYS: &'static str = "#[serde(rename_all = ...)] is not supported with #[cbor(key = ...)]; rename the fields explicitly";

/// The message of `Misuse::TagOnEnum`.
pub const MSG_TAG_ON_ENUM: &'static str = "`tag = ...` is not supported on enums";

/// The message of `Misuse::ArrayOnEnum`.
pub const MSG_ARRAY_ON_ENUM: &'static str = "`array` is not supported on enums";

/// The message of `Misuse::CborOnVariant`.
pub const MSG_CBOR_ON_VARIANT: &'static str = "#[cbor(...)] is not supported on enum variants";

/// The message of `Misuse::FlattenOnEnum`.
pub const MSG_FLATTEN_ON_ENUM: &'static str = "#[serde(flatten)] with #[derive(Cbor)] is supported only on structs";

/// The message of `Misuse::UntaggedWithKeys`.
pub const MSG_UNTAGGED_WITH_KEYS: &'static str = "untagged variants are not supported in enums with #[cbor(key = ...)]";

/// The message of `Misuse::RenameAllFieldsWithKeys`.
pub const MSG_RENAME_ALL_FIELDS_WITH_KEYS: &'static str = "#[serde(rename_all_fields = ...)] is not supported with #[cbor(key = ...)]; rename the fields explicitly";

/// The message of `Misuse::EnumReprWithKeys`.
pub const MSG_ENUM_REPR_WITH_KEYS: &'static str = "only externally tagged enums support #[cbor(key = ...)]";

/// The message of `Misuse::Union`.
pub const MSG_UNION: &'static str = "Cbor supports structs and enums";

/// The message of `Misuse::SerdeTagOnStruct`.
pub const MSG_SERDE_TAG_ON_STRUCT: &'static str = "#[serde(tag = ...)] on a struct conflicts with #[cbor(...)] keys, tags or array shape";

/// The message of `Misuse::Transparent`.
pub const MSG_TRANSPARENT: &'static str = "#[serde(transparent)] bypasses the container, so the declared #[cbor(...)] tag, array shape or keys would be silently ignored";

/// The message of `Misuse::Into`.
pub const MSG_INTO: &'static str = "#[serde(into = ...)] serializes through another type, so the declared #[cbor(...)] tag, array shape or keys would be silently ignored on encode";

/// The message of `Misuse::From`.
pub const MSG_FROM: &'static str = "#[serde(from = ...)] deserializes through another type, so the declared #[cbor(...)] tag, array shape or keys would be silently ignored on decode";

/// The message of `Misuse::TryFrom`.
pub const MSG_TRY_FROM: &'static str = "#[serde(try_from = ...)] deserializes through another type, so the declared #[cbor(...)] tag, array shape or keys would be silently ignored on decode";

/// The message of `Misuse::ExpectedKey`.
pub const MSG_EXPECTED_KEY: &'static str = "expected `key = <integer>`";

/// The message of `Misuse::SuffixedKey`.
pub const MSG_SUFFIXED_KEY: &'static str = "#[cbor(key = ...)] does not accept a suffixed integer literal";

/// The message of `Misuse::SuffixedTag`.
pub const MSG_SUFFIXED_TAG: &'static str = "#[cbor(tag = ...)] does not accept a suffixed integer literal";

/// The message of `Misuse::KeyRange`.
pub const MSG_KEY_RANGE: &'static str = "#[cbor(key = ...)] must fit a CBOR integer (-2^64 ..= 2^64 - 1)";

/// The message of `Misuse::TagRange`.
pub const MSG_TAG_RANGE: &'static str = "tag must fit a CBOR tag (0 ..= 2^64 - 1)";

/// The message of `Misuse::DuplicateKey`.
pub const MSG_DUPLICATE_KEY: &'static str = "duplicate #[cbor(key = ...)] attribute";

/// The message of `Misuse::DuplicateTag`.
pub const MSG_DUPLICATE_TAG: &'static str = "duplicate #[cbor(tag = ...)] attribute";

/// The message of `Misuse::DuplicateArray`.
pub const MSG_DUPLICATE_ARRAY: &'static str = "duplicate #[cbor(array)] attribute";

/// The message of `Misuse::ArrayWithValue`.
pub const MSG_ARRAY_WITH_VALUE: &'static str = "expected `array` without a value";

/// The message of `Misuse::ExpectedTagOrArray`.
pub const MSG_EXPECTED_TAG_OR_ARRAY: &'static str = "expected `tag = <integer>` or `array`";

/// The message of `Misuse::FlattenWithKey`.
pub const MSG_FLATTEN_WITH_KEY: &'static str = "#[serde(flatten)] cannot be combined with #[cbor(key = ...)]";

/// The message of `Misuse::KeyOnSkipped`.
pub const MSG_KEY_ON_SKIPPED: &'static str = "#[serde(skip)] cannot be combined with #[cbor(key = ...)]; the field is never on the wire";

/// The message of `Misuse::KeyNeedsName`.
pub const MSG_KEY_NEEDS_NAME: &'static str = "#[cbor(key = ...)] requires a named field";

/// The message of `Misuse::SplitRenameWithKey`.
pub const MSG_SPLIT_RENAME_WITH_KEY: &'static str = "split serialize/deserialize renames are not supported with #[cbor(key = ...)]";

/// The message of `Misuse::BadKeyName`.
pub const MSG_BAD_KEY_NAME: &'static str = "the serde name of a keyed field may not be empty or contain '@', ';' or '='";

/// The message of a refused use.
pub open spec fn misuse_text(m: Misuse) -> Seq<char> {
    match m {
        Misuse::DeLifetime => MSG_DE_LIFETIME@,
        Misuse::ContainerRename => MSG_CONTAINER_RENAME@,
        Misuse::FlattenNeedsNamed => MSG_FLATTEN_NEEDS_NAMED@,
        Misuse::FlattenWithArray => MSG_FLATTEN_WITH_ARRAY@,
        Misuse::ArrayNeedsNamed => MSG_ARRAY_NEEDS_NAMED@,
        Misuse::KeyWithArray => MSG_KEY_WITH_ARRAY@,
        Misuse::RenameAllWithKeys => MSG_RENAME_ALL_WITH_KEYS@,
        Misuse::TagOnEnum => MSG_TAG_ON_ENUM@,
        Misuse::ArrayOnEnum => MSG_ARRAY_ON_ENUM@,
        Misuse::CborOnVariant => MSG_CBOR_ON_VARIANT@,
        Misuse::FlattenOnEnum => MSG_FLATTEN_ON_ENUM@,
        Misuse::UntaggedWithKeys => MSG_UNTAGGED_WITH_KEYS@,
        Misuse::RenameAllFieldsWithKeys => MSG_RENAME_ALL_FIELDS_WITH_KEYS@,
        Misuse::EnumReprWithKeys => MSG_ENUM_REPR_WITH_KEYS@,
        Misuse::Union => MSG_UNION@,
        Misuse::SerdeTagOnStruct => MSG_SERDE_TAG_ON_STRUCT@,
        Misuse::Transparent => MSG_TRANSPARENT@,
        Misuse::Into => MSG_INTO@,
        Misuse::From => MSG_FROM@,
        Misuse::TryFrom => MSG_TRY_FROM@,
        Misuse::ExpectedKey => MSG_EXPECTED_KEY@,
        Misuse::SuffixedKey => MSG_SUFFIXED_KEY@,
        Misuse::SuffixedTag => MSG_SUFFIXED_TAG@,
        Misuse::KeyRange => MSG_KEY_RANGE@,
        Misuse::TagRange => MSG_TAG_RANGE@,
        Misuse::DuplicateKey => MSG_DUPLICATE_KEY@,
        Misuse::DuplicateTag => MSG_DUPLICATE_TAG@,
        Misuse::DuplicateArray => MSG_DUPLICATE_ARRAY@,
        Misuse::ArrayWithValue => MSG_ARRAY_WITH_VALUE@,
        Misuse::ExpectedTagOrArray => MSG_EXPECTED_TAG_OR_ARRAY@,
        Misuse::FlattenWithKey => MSG_FLATTEN_WITH_KEY@,
        Misuse::KeyOnSkipped => MSG_KEY_ON_SKIPPED@,
        Misuse::KeyNeedsName => MSG_KEY_NEEDS_NAME@,
        Misuse::SplitRenameWithKey => MSG_SPLIT_RENAME_WITH_KEY@,
        Misuse::BadKeyName => MSG_BAD_KEY_NAME@,
    }
}

/// The message of a refused use.
pub fn misuse_message(m: Misuse) -> (r: &'static str)
    ensures
        r@ == misuse_text(m),
{
    match m {
        Misuse::DeLifetime => MSG_DE_LIFETIME,
        Misuse::ContainerRename => MSG_CONTAINER_RENAME,
        Misuse::FlattenNeedsNamed => MSG_FLATTEN_NEEDS_NAMED,
        Misuse::FlattenWithArray => MSG_FLATTEN_WITH_ARRAY,
        Misuse::ArrayNeedsNamed => MSG_ARRAY_NEEDS_NAMED,
        Misuse::KeyWithArray => MSG_KEY_WITH_ARRAY,
        Misuse::RenameAllWithKeys => MSG_RENAME_ALL_WITH_KEYS,
        Misuse::TagOnEnum => MSG_TAG_ON_ENUM,
        Misuse::ArrayOnEnum => MSG_ARRAY_ON_ENUM,
        Misuse::CborOnVariant => MSG_CBOR_ON_VARIANT,
        Misuse::FlattenOnEnum => MSG_FLATTEN_ON_ENUM,
        Misuse::UntaggedWithKeys => MSG_UNTAGGED_WITH_KEYS,
        Misuse::RenameAllFieldsWithKeys => MSG_RENAME_ALL_FIELDS_WITH_KEYS,
        Misuse::EnumReprWithKeys => MSG_ENUM_REPR_WITH_KEYS,
        Misuse::Union => MSG_UNION,
        Misuse::SerdeTagOnStruct => MSG_SERDE_TAG_ON_STRUCT,
        Misuse::Transparent => MSG_TRANSPARENT,
        Misuse::Into => MSG_INTO,
        Misuse::From => MSG_FROM,
        Misuse::TryFrom => MSG_TRY_FROM,
        Misuse::ExpectedKey => MSG_EXPECTED_KEY,
        Misuse::SuffixedKey => MSG_SUFFIXED_KEY,
        Misuse::SuffixedTag => MSG_SUFFIXED_TAG,
        Misuse::KeyRange => MSG_KEY_RANGE,
        Misuse::TagRange => MSG_TAG_RANGE,
        Misuse::DuplicateKey => MSG_DUPLICATE_KEY,
        Misuse::DuplicateTag => MSG_DUPLICATE_TAG,
        Misuse::DuplicateArray => MSG_DUPLICATE_ARRAY,
        Misuse::ArrayWithValue => MSG_ARRAY_WITH_VALUE,
        Misuse::ExpectedTagOrArray => MSG_EXPECTED_TAG_OR_ARRAY,
        Misuse::FlattenWithKey => MSG_FLATTEN_WITH_KEY,
        Misuse::KeyOnSkipped => MSG_KEY_ON_SKIPPED,
        Misuse::KeyNeedsName => MSG_KEY_NEEDS_NAME,
        Misuse::SplitRenameWithKey => MSG_SPLIT_RENAME_WITH_KEY,
        Misuse::BadKeyName => MSG_BAD_KEY_NAME,
    }
}

/// The message of a refusal.
pub open spec fn refusal_text(e: Refusal) -> Seq<char> {
    match e {
        Refusal::PositionalSkip(_) => POSITIONAL_SKIP_MESSAGE@,
        Refusal::ConflictingKeys { name, first, second } => "field `"@ + name + "` maps to conflicting keys "@ + int_text(
            first as int,
        ) + " and "@ + int_text(second as int),
        Refusal::KeyTaken { key, name } => "key "@ + int_text(key as int) + " is already mapped to field `"@ + name + "`"@,
        Refusal::InconsistentKey { name, key } => "field `"@ + name + "` must declare #[cbor(key = "@ + int_text(key as int)
            + ")] consistently across enum variants"@,
        Refusal::Invalid(m) => misuse_text(m),
    }
}

impl DeriveError {
    /// The message that the derive reports.
    pub fn message(&self) -> (r: String)
        ensures
            r@ == refusal_text(self@),
    {
        let mut out: Vec<char> = Vec::new();
        match self {
            DeriveError::PositionalSkip(_) => push_text(&mut out, POSITIONAL_SKIP_MESSAGE),
            DeriveError::ConflictingKeys { name, first, second } => {
                push_text(&mut out, "field `");
                push_text(&mut out, name.as_str());
                push_text(&mut out, "` maps to conflicting keys ");
                push_int(&mut out, *first);
                push_text(&mut out, " and ");
                push_int(&mut out, *second);
            },
            DeriveError::KeyTaken { key, name } => {
                push_text(&mut out, "key ");
                push_int(&mut out, *key);
                push_text(&mut out, " is already mapped to field `");
                push_text(&mut out, name.as_str());
                push_text(&mut out, "`");
            },
            DeriveError::InconsistentKey { name, key } => {
                push_text(&mut out, "field `");
                push_text(&mut out, name.as_str());
                push_text(&mut out, "` must declare #[cbor(key = ");
                push_int(&mut out, *key);
                push_text(&mut out, ")] consistently across enum variants");
            },
            DeriveError::Invalid(m) => push_text(&mut out, misuse_message(*m)),
        }
        proof {
            assert(out@ =~= refusal_text(self@));
        }
        collect_text(&out)
    }
}

/// Whether an attribute with this path carries over to the generated
/// shadow of the item: serde configuration, conditional compilation and
/// lint levels do; docs, derives and `#[cbor(...)]` stay behind.
pub fn is_copied_attr(path: &str) -> (r: bool)
    ensures
        r == (path@ == "serde"@ || path@ == "cfg"@ || path@ == "cfg_attr"@ || path@ == "allow"@ || path@ == "expect"@),
{
    same_text(path, "serde") || same_text(path, "cfg") || same_text(path, "cfg_attr") || same_text(path, "allow")
        || same_text(path, "expect")
}

/// `base` followed by `k` underscores.
pub open spec fn underscored(base: Seq<char>, k: nat) -> Seq<char> {
    base + Seq::new(k, |i: int| '_')
}

/// Some name of the list is `n`.
pub open spec fn taken(names: Seq<String>, n: Seq<char>) -> bool {
    exists|i: int| 0 <= i < names.len() && names[i]@ == n
}

/// Whether some name of the list is `n`.
pub(crate) fn is_taken(names: &Vec<String>, n: &str) -> (r: bool)
    ensures
        r == taken(names@, n@),
{
    let mut i: usize = 0;
    while i < names.len()
        invariant
            i <= names@.len(),
            forall|j: int| 0 <= j < i ==> names@[j]@ != n@,
        decreases names@.len() - i,
    {
        if same_text(names[i].as_str(), n) {
            return true;
        }
        i = i + 1;
    }
    false
}

/// A lifetime for the generated code that no lifetime of the item's
/// generics (given by their names, without `'`) can collide with: `base`
/// with as few `_` appended as make it new.
pub fn fresh_lifetime(lifetimes: &Vec<String>, base: &str) -> (r: String)
    ensures
        exists|k: nat|
            #![trigger underscored(base@, k)]
            r@ == seq!['\''] + underscored(base@, k) && !taken(lifetimes@, underscored(base@, k)) && forall|j: nat|
                j < k ==> taken(lifetimes@, #[trigger] underscored(base@, j)),
{
    let mut longest: usize = 0;
    let mut i: usize = 0;
    while i < lifetimes.len()
        invariant
            i <= lifetimes@.len(),
            forall|j: int| 0 <= j < i ==> lifetimes@[j]@.len() <= longest,
        decreases lifetimes@.len() - i,
    {
        let n = lifetimes[i].as_str().unicode_len();
        if n > longest {
            longest = n;
        }
        i = i + 1;
    }
    let mut name: Vec<char> = Vec::new();
    push_text(&mut name, base);
    let ghost mut k: nat = 0;
    assert(name@ =~= underscored(base@, 0));
    loop
        invariant
            name@ == underscored(base@, k),
            forall|j: int| 0 <= j < lifetimes@.len() ==> lifetimes@[j]@.len() <= longest,
            forall|j: nat| j < k ==> taken(lifetimes@, #[trigger] underscored(base@, j)),
        decreases longest + 1 - name@.len(),
    {
        let candidate = collect_text(&name);
        if !is_taken(lifetimes, candidate.as_str()) {
            let mut out: Vec<char> = Vec::new();
            out.push('\'');
            push_text(&mut out, candidate.as_str());
            assert(out@ =~= seq!['\''] + underscored(base@, k));
            return collect_text(&out);
        }
        proof {
            let w = choose|j: int| 0 <= j < lifetimes@.len() && lifetimes@[j]@ == candidate@;
            assert(lifetimes@[w]@.len() <= longest);
        }
        name.push('_');
        proof {
            assert(name@ =~= underscored(base@, k + 1));
            k = k + 1;
        }
    }
}

/// Field names start in snake_case, so every rule but the six that change
/// a name keeps it as it is: `snake_case` and `lowercase` among them,
/// and so does having no rule at all.
pub proof fn lemma_other_rules_keep_the_name(name: Seq<char>, r: Seq<char>)
    requires
        r != "UPPERCASE"@,
        r != "SCREAMING_SNAKE_CASE"@,
        r != "kebab-case"@,
        r != "SCREAMING-KEBAB-CASE"@,
        r != "PascalCase"@,
        r != "camelCase"@,
    ensures
        renamed(name, Some(r)) == name,
        renamed(name, None) == name,
{
}

/// `snake_case` and `lowercase` keep a field name as it is.
pub proof fn lemma_snake_case_keeps_the_name(name: Seq<char>)
    ensures
        renamed(name, Some("snake_case"@)) == name,
        renamed(name, Some("lowercase"@)) == name,
{
    reveal_strlit("snake_case");
    reveal_strlit("lowercase");
    reveal_strlit("UPPERCASE");
    reveal_strlit("SCREAMING_SNAKE_CASE");
    reveal_strlit("kebab-case");
    reveal_strlit("SCREAMING-KEBAB-CASE");
    reveal_strlit("PascalCase");
    reveal_strlit("camelCase");
    assert("snake_case"@[0] == 's' && "lowercase"@[0] == 'l');
    assert("UPPERCASE"@[0] == 'U' && "SCREAMING_SNAKE_CASE"@[0] == 'S' && "kebab-case"@[0] == 'k');
    assert("SCREAMING-KEBAB-CASE"@[0] == 'S' && "PascalCase"@[0] == 'P' && "camelCase"@[0] == 'c');
    lemma_other_rules_keep_the_name(name, "snake_case"@);
    lemma_other_rules_keep_the_name(name, "lowercase"@);
}

/// The kebab rules put `-` in place of each `_` and change nothing else
/// of the length: `kebab-case` keeps every other character, and
/// `SCREAMING-KEBAB-CASE` capitalises it.
pub proof fn lemma_kebab_rules(name: Seq<char>)
    ensures
        renamed(name, Some("kebab-case"@)).len() == name.len(),
        forall|i: int|
            0 <= i < name.len() ==> #[trigger] renamed(name, Some("kebab-case"@))[i] == (if name[i] == '_' {
                '-'
            } else {
                name[i]
            }),
        forall|i: int|
            0 <= i < name.len() ==> #[trigger] renamed(name, Some("SCREAMING-KEBAB-CASE"@))[i] == (if name[i] == '_' {
                '-'
            } else {
                upper(name[i])
            }),
{
    reveal_strlit("kebab-case");
    reveal_strlit("UPPERCASE");
    reveal_strlit("SCREAMING_SNAKE_CASE");
    reveal_strlit("SCREAMING-KEBAB-CASE");
    assert("kebab-case"@[0] == 'k' && "UPPERCASE"@[0] == 'U' && "SCREAMING_SNAKE_CASE"@[0] == 'S');
    assert("SCREAMING-KEBAB-CASE"@.len() == 20 && "SCREAMING_SNAKE_CASE"@.len() == 20);
    assert("SCREAMING-KEBAB-CASE"@[9] == '-' && "SCREAMING_SNAKE_CASE"@[9] == '_');
    assert("SCREAMING-KEBAB-CASE"@ != "SCREAMING_SNAKE_CASE"@);
}

/// ASCII case mapping: `upper` turns exactly the small letters `a`-`z`
/// into the capitals `A`-`Z` and `lower` does the reverse; every other
/// character stays, and the two undo each other on letters.
pub proof fn lemma_ascii_case(c: char)
    ensures
        ('a' <= c <= 'z') ==> 'A' <= upper(c) <= 'Z' && lower(upper(c)) == c && (upper(c) as u32) + 32 == c as u32,
        ('A' <= c <= 'Z') ==> 'a' <= lower(c) <= 'z' && upper(lower(c)) == c && (lower(c) as u32) == (c as u32) + 32,
        !('a' <= c <= 'z') ==> upper(c) == c,
        !('A' <= c <= 'Z') ==> lower(c) == c,
{
}

/// The upper-case rules capitalise every character and keep the length.
pub proof fn lemma_upper_rules(name: Seq<char>)
    ensures
        renamed(name, Some("UPPERCASE"@)).len() == name.len(),
        renamed(name, Some("SCREAMING_SNAKE_CASE"@)).len() == name.len(),
        forall|i: int| 0 <= i < name.len() ==> #[trigger] renamed(name, Some("UPPERCASE"@))[i] == upper(name[i]),
        forall|i: int|
            0 <= i < name.len() ==> #[trigger] renamed(name, Some("SCREAMING_SNAKE_CASE"@))[i] == upper(name[i]),
{
}

/// `pascal` of a name without `_` capitalises its first character only.
proof fn lemma_pascal_plain(s: Seq<char>)
    requires
        s.len() > 0,
        forall|i: int| 0 <= i < s.len() ==> s[i] != '_',
    ensures
        pascal(s) == seq![upper(s[0])] + s.skip(1),
    decreases s.len(),
{
    let p = s.drop_last();
    let c = s.last();
    if p.len() == 0 {
        assert(pascal(p) == p);
        assert(s.skip(1) =~= Seq::<char>::empty());
        assert(seq![upper(s[0])] + s.skip(1) =~= seq![upper(c)]);
    } else {
        lemma_pascal_plain(p);
        assert(p.last() == s[s.len() - 2]);
        assert(seq![upper(p[0])] + p.skip(1) + seq![c] =~= seq![upper(s[0])] + s.skip(1));
    }
}

/// On a name of one word (no `_`), `PascalCase` capitalises the first
/// letter and `camelCase` leaves a name that starts with a small ASCII
/// letter as it is.
pub proof fn lemma_case_rules_on_one_word(name: Seq<char>)
    requires
        name.len() > 0,
        forall|i: int| 0 <= i < name.len() ==> name[i] != '_',
    ensures
        renamed(name, Some("PascalCase"@)) == seq![upper(name[0])] + name.skip(1),
        'a' <= name[0] <= 'z' ==> renamed(name, Some("camelCase"@)) == name,
{
    reveal_strlit("PascalCase");
    reveal_strlit("camelCase");
    reveal_strlit("UPPERCASE");
    reveal_strlit("SCREAMING_SNAKE_CASE");
    reveal_strlit("kebab-case");
    reveal_strlit("SCREAMING-KEBAB-CASE");
    assert("PascalCase"@[0] == 'P' && "camelCase"@[0] == 'c' && "UPPERCASE"@[0] == 'U');
    assert("SCREAMING_SNAKE_CASE"@[0] == 'S' && "kebab-case"@[0] == 'k' && "SCREAMING-KEBAB-CASE"@[0] == 'S');
    lemma_pascal_plain(name);
    lemma_ascii_case(name[0]);
    if 'a' <= name[0] <= 'z' {
        let p = pascal(name);
        assert(p.update(0, lower(p[0])) =~= name);
    }
}

} // verus!
