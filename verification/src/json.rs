//! The closest JSON value to a CBOR item.
//!
//! CBOR constructs that have no JSON equivalent are converted as follows:
//! byte strings become lowercase hex strings, non-string map keys are
//! written as their compact JSON text, non-finite floats become null, tags
//! are dropped (the inner item is kept), generic simple values become
//! `simple(N)` strings, integers beyond the 64-bit ranges become decimal
//! strings and the "undefined" simple value becomes null. Object keys that
//! collide once converted are refused, in nested values and in compound
//! keys too.

use vstd::prelude::*;

use crate::cli::{hex, hex_text};
use crate::derive_rules::{collect_text, dec_digits, int_text, push_decimal, push_int};
use crate::json_text::{json_text, write_json};
use crate::value::{integer_min, lemma_view_items, lemma_view_pairs, view_items, view_pairs, Value, ValueView};

verus! {

/// A JSON value. Numbers keep their kind: an unsigned or a signed 64-bit
/// integer, or a finite binary64 float held as its bit pattern. Object
/// members keep the order of the CBOR map.
pub enum Json {
    Null,
    Bool(bool),
    UInt(u64),
    Int(i64),
    Float(u64),
    Str(String),
    Array(Vec<Json>),
    Object(Vec<(String, Json)>),
}

/// Why a CBOR item has no JSON value: two keys of one map read alike once
/// converted; the key's text.
#[derive(Debug)]
pub enum JsonError {
    DuplicateKey(String),
}

/// The mathematical content of a [`Json`].
pub enum JsonView {
    Null,
    Bool(bool),
    UInt(u64),
    Int(i64),
    Float(u64),
    Str(Seq<char>),
    Array(Seq<JsonView>),
    Object(Seq<(Seq<char>, JsonView)>),
}

/// The views of a sequence of JSON values.
pub open spec fn json_items_view(items: Seq<Json>) -> Seq<JsonView>
    decreases items,
{
    if items.len() == 0 {
        Seq::empty()
    } else {
        json_items_view(items.drop_last()).push(items.last().view())
    }
}

/// The views of a sequence of object members.
pub open spec fn json_entries_view(entries: Seq<(String, Json)>) -> Seq<(Seq<char>, JsonView)>
    decreases entries,
{
    if entries.len() == 0 {
        Seq::empty()
    } else {
        json_entries_view(entries.drop_last()).push((entries.last().0@, entries.last().1.view()))
    }
}

impl View for Json {
    type V = JsonView;

    open spec fn view(&self) -> JsonView
        decreases self,
    {
        match self {
            Json::Null => JsonView::Null,
            Json::Bool(b) => JsonView::Bool(*b),
            Json::UInt(x) => JsonView::UInt(*x),
            Json::Int(x) => JsonView::Int(*x),
            Json::Float(x) => JsonView::Float(*x),
            Json::Str(s) => JsonView::Str(s@),
            Json::Array(items) => JsonView::Array(json_items_view(items@)),
            Json::Object(entries) => JsonView::Object(json_entries_view(entries@)),
        }
    }
}

/// The views of JSON values, one by one.
pub proof fn lemma_json_items_view(items: Seq<Json>)
    ensures
        json_items_view(items).len() == items.len(),
        forall|i: int| 0 <= i < items.len() ==> #[trigger] json_items_view(items)[i] == items[i]@,
    decreases items.len(),
{
    if items.len() > 0 {
        lemma_json_items_view(items.drop_last());
        assert(json_items_view(items) == json_items_view(items.drop_last()).push(items.last().view()));
    } else {
        assert(json_items_view(items) == Seq::<JsonView>::empty());
    }
}

/// The views of object members, one by one.
pub proof fn lemma_json_entries_view(entries: Seq<(String, Json)>)
    ensures
        json_entries_view(entries).len() == entries.len(),
        forall|i: int|
            0 <= i < entries.len() ==> #[trigger] json_entries_view(entries)[i] == (entries[i].0@, entries[i].1@),
    decreases entries.len(),
{
    if entries.len() > 0 {
        lemma_json_entries_view(entries.drop_last());
        assert(json_entries_view(entries) == json_entries_view(entries.drop_last()).push(
            (entries.last().0@, entries.last().1.view()),
        ));
    } else {
        assert(json_entries_view(entries) == Seq::<(Seq<char>, JsonView)>::empty());
    }
}

/// A conversion's outcome, by views.
pub open spec fn json_result_view(r: Result<Json, JsonError>) -> Result<JsonView, Seq<char>> {
    match r {
        Ok(j) => Ok(j@),
        Err(JsonError::DuplicateKey(k)) => Err(k@),
    }
}

/// The binary64 value with these bits is finite: its exponent field is
/// not all ones.
pub open spec fn finite_bits(b: u64) -> bool {
    (b / 0x10_0000_0000_0000) % 0x800 != 0x7ff
}

/// The JSON value of a CBOR integer.
pub open spec fn integer_json(i: int) -> JsonView {
    if 0 <= i <= u64::MAX {
        JsonView::UInt(i as u64)
    } else if i64::MIN <= i <= i64::MAX {
        JsonView::Int(i as i64)
    } else {
        JsonView::Str(int_text(i))
    }
}

/// The JSON value of a simple value: null for "undefined" (23), else
/// `simple(N)`.
pub open spec fn simple_json(x: u8) -> JsonView {
    if x == 23 {
        JsonView::Null
    } else {
        JsonView::Str("simple("@ + dec_digits(x as nat) + ")"@)
    }
}

/// The closest JSON value to a CBOR item, or the first key (in the order
/// the item is read) that repeats an earlier key of its map once
/// converted. `ft` gives the JSON text of floats.
pub open spec fn to_json_spec(v: ValueView, ft: Seq<(u64, String)>) -> Result<JsonView, Seq<char>>
    decreases v, 0nat,
{
    match v {
        ValueView::Null => Ok(JsonView::Null),
        ValueView::Bool(b) => Ok(JsonView::Bool(b)),
        ValueView::Integer(i) => Ok(integer_json(i)),
        ValueView::Float(b) => Ok(
            if finite_bits(b) {
                JsonView::Float(b)
            } else {
                JsonView::Null
            },
        ),
        ValueView::Bytes(b) => Ok(JsonView::Str(hex_text(b))),
        ValueView::Text(t) => Ok(JsonView::Str(t)),
        ValueView::Simple(x) => Ok(simple_json(x)),
        ValueView::Tag(_, inner) => to_json_spec(*inner, ft),
        ValueView::Array(items) => match json_items(items, ft) {
            Ok(js) => Ok(JsonView::Array(js)),
            Err(k) => Err(k),
        },
        ValueView::Mapping(pairs) => match json_members(pairs, ft) {
            Ok(es) => Ok(JsonView::Object(es)),
            Err(k) => Err(k),
        },
    }
}

/// The JSON values of items, in order, or the first refusal.
pub open spec fn json_items(items: Seq<ValueView>, ft: Seq<(u64, String)>) -> Result<Seq<JsonView>, Seq<char>>
    decreases items, 0nat,
{
    if items.len() == 0 {
        Ok(Seq::empty())
    } else {
        match json_items(items.drop_last(), ft) {
            Err(k) => Err(k),
            Ok(js) => match to_json_spec(items.last(), ft) {
                Err(k) => Err(k),
                Ok(j) => Ok(js.push(j)),
            },
        }
    }
}

/// The JSON key of a CBOR map key: a text as it is, any other key as the
/// compact JSON text of its JSON value.
pub open spec fn key_text(k: ValueView, ft: Seq<(u64, String)>) -> Result<Seq<char>, Seq<char>>
    decreases k, 1nat,
{
    match k {
        ValueView::Text(t) => Ok(t),
        _ => match to_json_spec(k, ft) {
            Ok(j) => Ok(json_text(j, ft)),
            Err(e) => Err(e),
        },
    }
}

/// Some member has key `k`.
pub open spec fn has_key(es: Seq<(Seq<char>, JsonView)>, k: Seq<char>) -> bool {
    exists|i: int| 0 <= i < es.len() && es[i].0 == k
}

/// The members of a CBOR map, in order: each key, checked against the
/// keys before it, then its value; or the first refusal.
pub open spec fn json_members(pairs: Seq<(ValueView, ValueView)>, ft: Seq<(u64, String)>) -> Result<
    Seq<(Seq<char>, JsonView)>,
    Seq<char>,
>
    decreases pairs, 0nat,
{
    if pairs.len() == 0 {
        Ok(Seq::empty())
    } else {
        match json_members(pairs.drop_last(), ft) {
            Err(e) => Err(e),
            Ok(es) => match key_text(pairs.last().0, ft) {
                Err(e) => Err(e),
                Ok(k) => if has_key(es, k) {
                    Err(k)
                } else {
                    match to_json_spec(pairs.last().1, ft) {
                        Err(e) => Err(e),
                        Ok(j) => Ok(es.push((k, j))),
                    }
                },
            },
        }
    }
}

/// The finite floats inside a CBOR item, in order.
pub open spec fn floats_of(v: ValueView) -> Seq<u64>
    decreases v, 0nat,
{
    match v {
        ValueView::Float(b) => if finite_bits(b) {
            seq![b]
        } else {
            Seq::empty()
        },
        ValueView::Tag(_, inner) => floats_of(*inner),
        ValueView::Array(items) => floats_of_items(items),
        ValueView::Mapping(pairs) => floats_of_pairs(pairs),
        _ => Seq::empty(),
    }
}

/// The finite floats inside items, in order.
pub open spec fn floats_of_items(items: Seq<ValueView>) -> Seq<u64>
    decreases items, 0nat,
{
    if items.len() == 0 {
        Seq::empty()
    } else {
        floats_of_items(items.drop_last()) + floats_of(items.last())
    }
}

/// The finite floats inside pairs, in order.
pub open spec fn floats_of_pairs(pairs: Seq<(ValueView, ValueView)>) -> Seq<u64>
    decreases pairs, 0nat,
{
    if pairs.len() == 0 {
        Seq::empty()
    } else {
        floats_of_pairs(pairs.drop_last()) + floats_of(pairs.last().0) + floats_of(pairs.last().1)
    }
}

/// The JSON value of a CBOR integer.
fn integer_to_json(i: i128) -> (j: Json)
    requires
        integer_min() <= i <= u64::MAX,
    ensures
        j@ == integer_json(i as int),
{
    if 0 <= i && i <= 0xffff_ffff_ffff_ffffi128 {
        Json::UInt(i as u64)
    } else if -0x8000_0000_0000_0000i128 <= i && i <= 0x7fff_ffff_ffff_ffffi128 {
        Json::Int(i as i64)
    } else {
        let mut out: Vec<char> = Vec::new();
        push_int(&mut out, i);
        assert(out@ =~= int_text(i as int));
        Json::Str(collect_text(&out))
    }
}

/// The JSON value of a simple value.
fn simple_to_json(x: u8) -> (j: Json)
    ensures
        j@ == simple_json(x),
{
    if x == 23 {
        Json::Null
    } else {
        let mut out: Vec<char> = Vec::new();
        out.push('s');
        out.push('i');
        out.push('m');
        out.push('p');
        out.push('l');
        out.push('e');
        out.push('(');
        push_decimal(&mut out, x as u128);
        out.push(')');
        proof {
            reveal_strlit("simple(");
            reveal_strlit(")");
            assert(out@ =~= "simple("@ + dec_digits(x as nat) + ")"@);
        }
        Json::Str(collect_text(&out))
    }
}

/// Whether some member has key `k`.
fn has_key_exec(es: &Vec<(String, Json)>, k: &String) -> (r: bool)
    ensures
        r == has_key(json_entries_view(es@), k@),
{
    proof {
        lemma_json_entries_view(es@);
    }
    let mut i: usize = 0;
    while i < es.len()
        invariant
            i <= es@.len(),
            json_entries_view(es@).len() == es@.len(),
            forall|j: int| 0 <= j < es@.len() ==> #[trigger] json_entries_view(es@)[j] == (es@[j].0@, es@[j].1@),
            forall|j: int| 0 <= j < i ==> es@[j].0@ != k@,
        decreases es@.len() - i,
    {
        if es[i].0 == *k {
            assert(json_entries_view(es@)[i as int].0 == k@);
            return true;
        }
        i = i + 1;
    }
    false
}

/// Converts a CBOR item to the closest JSON value, refusing a map with two
/// keys that read alike once converted. `floats` gives the JSON text of
/// each float that a key may hold (see [`float_bits`]).
pub fn to_json(value: &Value, floats: &Vec<(u64, String)>) -> (r: Result<Json, JsonError>)
    requires
        value.wf(),
    ensures
        json_result_view(r) == to_json_spec(value@, floats@),
    decreases value@, 0nat,
{
    match value {
        Value::Null => Ok(Json::Null),
        Value::Bool(b) => Ok(Json::Bool(*b)),
        Value::Integer(i) => Ok(integer_to_json(i.value())),
        Value::Float(b) => {
            if (*b / 0x10_0000_0000_0000) % 0x800 != 0x7ff {
                Ok(Json::Float(*b))
            } else {
                Ok(Json::Null)
            }
        },
        Value::Bytes(b) => Ok(Json::Str(hex(b.as_slice()))),
        Value::Text(t) => Ok(Json::Str(t.clone())),
        Value::Simple(s) => Ok(simple_to_json(s.value())),
        Value::Tag(t, inner) => {
            proof {
                assert(value@ == ValueView::Tag(*t, Box::new((**inner)@)));
                assert(decreases_to!(value@ => value@->Tag_1));
            }
            to_json(&**inner, floats)
        },
        Value::Array(items) => {
            let ghost vs = view_items(items@);
            proof {
                lemma_view_items(items@);
            }
            let mut out: Vec<Json> = Vec::new();
            let mut i: usize = 0;
            assert(vs.take(0) =~= Seq::<ValueView>::empty());
            while i < items.len()
                invariant
                    value@ == ValueView::Array(vs),
                    *value == Value::Array(*items),
                    vs == view_items(items@),
                    vs.len() == items@.len(),
                    forall|k: int| 0 <= k < items@.len() ==> #[trigger] vs[k] == items@[k]@,
                    forall|k: int| 0 <= k < items@.len() ==> (#[trigger] items@[k]).wf(),
                    i <= items@.len(),
                    json_items(vs.take(i as int), floats@) == Ok::<Seq<JsonView>, Seq<char>>(json_items_view(out@)),
                decreases items@.len() - i,
            {
                assert(vs.take(i + 1).drop_last() =~= vs.take(i as int));
                assert(vs.take(i + 1).last() == vs[i as int]);
                proof {
                    assert(decreases_to!(value@ => value@->Array_0));
                    assert(decreases_to!(vs => vs[i as int]));
                }
                match to_json(&items[i], floats) {
                    Ok(j) => {
                        let ghost prev = out@;
                        out.push(j);
                        assert(out@.drop_last() =~= prev);
                    },
                    Err(e) => {
                        proof {
                            lemma_json_items_err(vs, i + 1, floats@);
                        }
                        return Err(e);
                    },
                }
                i = i + 1;
            }
            assert(vs.take(items@.len() as int) =~= vs);
            Ok(Json::Array(out))
        },
        Value::Mapping(pairs) => {
            let ghost ps = view_pairs(pairs@);
            proof {
                lemma_view_pairs(pairs@);
            }
            let mut out: Vec<(String, Json)> = Vec::new();
            let mut i: usize = 0;
            assert(ps.take(0) =~= Seq::<(ValueView, ValueView)>::empty());
            while i < pairs.len()
                invariant
                    value@ == ValueView::Mapping(ps),
                    *value == Value::Mapping(*pairs),
                    ps == view_pairs(pairs@),
                    ps.len() == pairs@.len(),
                    forall|k: int| 0 <= k < pairs@.len() ==> #[trigger] ps[k] == (pairs@[k].0@, pairs@[k].1@),
                    forall|k: int| 0 <= k < pairs@.len() ==> (#[trigger] pairs@[k]).0.wf() && pairs@[k].1.wf(),
                    i <= pairs@.len(),
                    json_members(ps.take(i as int), floats@) == Ok::<Seq<(Seq<char>, JsonView)>, Seq<char>>(
                        json_entries_view(out@),
                    ),
                decreases pairs@.len() - i,
            {
                assert(ps.take(i + 1).drop_last() =~= ps.take(i as int));
                assert(ps.take(i + 1).last() == ps[i as int]);
                proof {
                    assert(decreases_to!(value@ => value@->Mapping_0));
                    assert(decreases_to!(ps => ps[i as int]));
                    assert(decreases_to!(ps[i as int] => ps[i as int].0));
                    assert(decreases_to!(ps[i as int] => ps[i as int].1));
                }
                let (k, v) = &pairs[i];
                let key = match key_text_exec(k, floats) {
                    Ok(t) => t,
                    Err(e) => {
                        proof {
                            lemma_json_members_err(ps, i + 1, floats@);
                        }
                        return Err(e);
                    },
                };
                if has_key_exec(&out, &key) {
                    proof {
                        lemma_json_members_err(ps, i + 1, floats@);
                    }
                    return Err(JsonError::DuplicateKey(key));
                }
                match to_json(v, floats) {
                    Ok(j) => {
                        let ghost prev = out@;
                        out.push((key, j));
                        assert(out@.drop_last() =~= prev);
                    },
                    Err(e) => {
                        proof {
                            lemma_json_members_err(ps, i + 1, floats@);
                        }
                        return Err(e);
                    },
                }
                i = i + 1;
            }
            assert(ps.take(pairs@.len() as int) =~= ps);
            Ok(Json::Object(out))
        },
    }
}

/// The JSON key of a CBOR map key.
fn key_text_exec(k: &Value, floats: &Vec<(u64, String)>) -> (r: Result<String, JsonError>)
    requires
        k.wf(),
    ensures
        match r {
            Ok(t) => key_text(k@, floats@) == Ok::<Seq<char>, Seq<char>>(t@),
            Err(JsonError::DuplicateKey(e)) => key_text(k@, floats@) == Err::<Seq<char>, Seq<char>>(e@),
        },
    decreases k@, 1nat,
{
    match k {
        Value::Text(t) => Ok(t.clone()),
        _ => match to_json(k, floats) {
            Ok(j) => {
                let mut out: Vec<char> = Vec::new();
                write_json(&mut out, &j, floats);
                assert(out@ =~= json_text(j@, floats@));
                Ok(collect_text(&out))
            },
            Err(e) => Err(e),
        },
    }
}

/// A refusal among the first `n` items is the refusal of them all.
proof fn lemma_json_items_err(items: Seq<ValueView>, n: int, ft: Seq<(u64, String)>)
    requires
        0 < n <= items.len(),
        json_items(items.take(n), ft) is Err,
    ensures
        json_items(items, ft) == json_items(items.take(n), ft),
    decreases items.len() - n,
{
    if n < items.len() {
        assert(items.take(n + 1).drop_last() =~= items.take(n));
        lemma_json_items_err(items, n + 1, ft);
    } else {
        assert(items.take(n) =~= items);
    }
}

/// A refusal among the first `n` pairs is the refusal of them all.
proof fn lemma_json_members_err(pairs: Seq<(ValueView, ValueView)>, n: int, ft: Seq<(u64, String)>)
    requires
        0 < n <= pairs.len(),
        json_members(pairs.take(n), ft) is Err,
    ensures
        json_members(pairs, ft) == json_members(pairs.take(n), ft),
    decreases pairs.len() - n,
{
    if n < pairs.len() {
        assert(pairs.take(n + 1).drop_last() =~= pairs.take(n));
        lemma_json_members_err(pairs, n + 1, ft);
    } else {
        assert(pairs.take(n) =~= pairs);
    }
}

/// The finite floats inside a CBOR item, in order: the floats whose JSON
/// text [`to_json`] needs, since a key may hold any of them.
pub fn float_bits(value: &Value, out: &mut Vec<u64>)
    ensures
        final(out)@ == old(out)@ + floats_of(value@),
    decreases value@,
{
    match value {
        Value::Float(b) => {
            if (*b / 0x10_0000_0000_0000) % 0x800 != 0x7ff {
                out.push(*b);
            } else {
                assert(old(out)@ + Seq::<u64>::empty() =~= old(out)@);
            }
        },
        Value::Tag(t, inner) => {
            proof {
                assert(value@ == ValueView::Tag(*t, Box::new((**inner)@)));
                assert(decreases_to!(value@ => value@->Tag_1));
            }
            float_bits(&**inner, out);
        },
        Value::Array(items) => {
            let ghost vs = view_items(items@);
            let ghost o = out@;
            proof {
                lemma_view_items(items@);
            }
            let mut i: usize = 0;
            assert(vs.take(0) =~= Seq::<ValueView>::empty());
            assert(o + Seq::<u64>::empty() =~= o);
            while i < items.len()
                invariant
                    value@ == ValueView::Array(vs),
                    *value == Value::Array(*items),
                    vs == view_items(items@),
                    vs.len() == items@.len(),
                    forall|k: int| 0 <= k < items@.len() ==> #[trigger] vs[k] == items@[k]@,
                    i <= items@.len(),
                    out@ == o + floats_of_items(vs.take(i as int)),
                decreases items@.len() - i,
            {
                assert(vs.take(i + 1).drop_last() =~= vs.take(i as int));
                assert(vs.take(i + 1).last() == vs[i as int]);
                proof {
                    assert(decreases_to!(value@ => value@->Array_0));
                    assert(decreases_to!(vs => vs[i as int]));
                }
                float_bits(&items[i], out);
                i = i + 1;
                assert(out@ =~= o + floats_of_items(vs.take(i as int)));
            }
            assert(vs.take(items@.len() as int) =~= vs);
        },
        Value::Mapping(pairs) => {
            let ghost ps = view_pairs(pairs@);
            let ghost o = out@;
            proof {
                lemma_view_pairs(pairs@);
            }
            let mut i: usize = 0;
            assert(ps.take(0) =~= Seq::<(ValueView, ValueView)>::empty());
            assert(o + Seq::<u64>::empty() =~= o);
            while i < pairs.len()
                invariant
                    value@ == ValueView::Mapping(ps),
                    *value == Value::Mapping(*pairs),
                    ps == view_pairs(pairs@),
                    ps.len() == pairs@.len(),
                    forall|k: int| 0 <= k < pairs@.len() ==> #[trigger] ps[k] == (pairs@[k].0@, pairs@[k].1@),
                    i <= pairs@.len(),
                    out@ == o + floats_of_pairs(ps.take(i as int)),
                decreases pairs@.len() - i,
            {
                assert(ps.take(i + 1).drop_last() =~= ps.take(i as int));
                assert(ps.take(i + 1).last() == ps[i as int]);
                proof {
                    assert(decreases_to!(value@ => value@->Mapping_0));
                    assert(decreases_to!(ps => ps[i as int]));
                    assert(decreases_to!(ps[i as int] => ps[i as int].0));
                    assert(decreases_to!(ps[i as int] => ps[i as int].1));
                }
                float_bits(&pairs[i].0, out);
                float_bits(&pairs[i].1, out);
                i = i + 1;
                assert(out@ =~= o + floats_of_pairs(ps.take(i as int)));
            }
            assert(ps.take(pairs@.len() as int) =~= ps);
        },
        _ => {
            assert(old(out)@ + Seq::<u64>::empty() =~= old(out)@);
        },
    }
}

/// No object inside a JSON value has two members with one key.
pub open spec fn unique_keys(j: JsonView) -> bool
    decreases j, 1nat,
{
    match j {
        JsonView::Array(items) => items_unique(items),
        JsonView::Object(es) => distinct_keys(es) && members_unique(es),
        _ => true,
    }
}

/// No object inside any of the values has two members with one key.
pub open spec fn items_unique(items: Seq<JsonView>) -> bool
    decreases items, 0nat,
{
    items.len() == 0 || (items_unique(items.drop_last()) && unique_keys(items.last()))
}

/// No object inside any member's value has two members with one key.
pub open spec fn members_unique(es: Seq<(Seq<char>, JsonView)>) -> bool
    decreases es, 0nat,
{
    es.len() == 0 || (members_unique(es.drop_last()) && unique_keys(es.last().1))
}

/// The members have pairwise different keys.
pub open spec fn distinct_keys(es: Seq<(Seq<char>, JsonView)>) -> bool {
    forall|i: int, k: int| 0 <= i < k < es.len() ==> es[i].0 != es[k].0
}

/// The converted items have no object with a repeated key.
proof fn lemma_items_unique(items: Seq<ValueView>, ft: Seq<(u64, String)>)
    requires
        json_items(items, ft) is Ok,
    ensures
        items_unique(json_items(items, ft)->Ok_0),
    decreases items,
{
    if items.len() > 0 {
        lemma_items_unique(items.drop_last(), ft);
        lemma_unique_keys(items.last(), ft);
        let prev = json_items(items.drop_last(), ft)->Ok_0;
        let j = to_json_spec(items.last(), ft)->Ok_0;
        assert(prev.push(j).drop_last() =~= prev);
    }
}

/// The converted members have pairwise different keys, and no object with
/// a repeated key in their values.
proof fn lemma_members_unique(pairs: Seq<(ValueView, ValueView)>, ft: Seq<(u64, String)>)
    requires
        json_members(pairs, ft) is Ok,
    ensures
        distinct_keys(json_members(pairs, ft)->Ok_0),
        members_unique(json_members(pairs, ft)->Ok_0),
    decreases pairs,
{
    if pairs.len() > 0 {
        lemma_members_unique(pairs.drop_last(), ft);
        lemma_unique_keys(pairs.last().1, ft);
        let es = json_members(pairs.drop_last(), ft)->Ok_0;
        let k = key_text(pairs.last().0, ft)->Ok_0;
        let j = to_json_spec(pairs.last().1, ft)->Ok_0;
        let r = es.push((k, j));
        assert(r.drop_last() =~= es);
        assert(!has_key(es, k));
        assert forall|a: int, b: int| 0 <= a < b < r.len() implies r[a].0 != r[b].0 by {
            if b == es.len() {
                assert(r[a] == es[a]);
            } else {
                assert(r[a] == es[a] && r[b] == es[b]);
            }
        }
    }
}

/// The converted value has no object with a repeated key.
proof fn lemma_unique_keys(v: ValueView, ft: Seq<(u64, String)>)
    requires
        to_json_spec(v, ft) is Ok,
    ensures
        unique_keys(to_json_spec(v, ft)->Ok_0),
    decreases v,
{
    match v {
        ValueView::Tag(_, inner) => lemma_unique_keys(*inner, ft),
        ValueView::Array(items) => lemma_items_unique(items, ft),
        ValueView::Mapping(pairs) => lemma_members_unique(pairs, ft),
        _ => {},
    }
}

/// Whenever the conversion to JSON succeeds, no object of the result, at
/// any depth, has two members with one key: colliding keys are refused,
/// never merged or dropped.
pub proof fn lemma_json_keys_unique(v: ValueView, ft: Seq<(u64, String)>)
    requires
        to_json_spec(v, ft) is Ok,
    ensures
        unique_keys(to_json_spec(v, ft)->Ok_0),
{
    lemma_unique_keys(v, ft);
}

/// The integer that a decimal text stands for: digits, with an optional
/// leading `-`.
pub open spec fn read_decimal(t: Seq<char>) -> Option<int> {
    if t.len() > 0 && t[0] == '-' {
        match read_digits(t.skip(1)) {
            Some(n) => Some(-n),
            None => None,
        }
    } else {
        match read_digits(t) {
            Some(n) => Some(n as int),
            None => None,
        }
    }
}

/// The value of a nonempty string of decimal digits.
pub open spec fn read_digits(t: Seq<char>) -> Option<nat>
    decreases t.len(),
{
    if t.len() == 0 || !('0' <= t.last() <= '9') {
        None
    } else if t.len() == 1 {
        Some((t[0] as u32 - 0x30) as nat)
    } else {
        match read_digits(t.drop_last()) {
            Some(n) => Some(n * 10 + (t.last() as u32 - 0x30) as nat),
            None => None,
        }
    }
}

/// The decimal digits of a number read back as it.
proof fn lemma_read_dec_digits(n: nat)
    ensures
        read_digits(dec_digits(n)) == Some(n),
        dec_digits(n).len() > 0,
        dec_digits(n)[0] != '-',
    decreases n,
{
    if n >= 10 {
        lemma_read_dec_digits(n / 10);
        assert(dec_digits(n).drop_last() == dec_digits(n / 10));
        assert(dec_digits(n)[0] == dec_digits(n / 10)[0]);
    }
}

/// The number a JSON value holds: an integer of either kind, or a string
/// holding one in decimal.
pub open spec fn json_integer(j: JsonView) -> Option<int> {
    match j {
        JsonView::UInt(x) => Some(x as int),
        JsonView::Int(x) => Some(x as int),
        JsonView::Str(s) => read_decimal(s),
        _ => None,
    }
}

/// A CBOR integer keeps its value in JSON: every integer of the CBOR range
/// becomes a JSON number of that value, unsigned when it is not negative
/// and signed when it is, or, beyond the 64-bit ranges, a string of its
/// decimal digits.
pub proof fn lemma_integer_json_value(i: int)
    requires
        integer_min() <= i <= u64::MAX,
    ensures
        json_integer(integer_json(i)) == Some(i),
        integer_json(i) is UInt <==> 0 <= i,
        integer_json(i) is Int <==> i64::MIN <= i < 0,
        integer_json(i) is Str <==> i < i64::MIN,
{
    if i < i64::MIN {
        lemma_read_dec_digits((-i) as nat);
        let t = int_text(i);
        assert(t.skip(1) =~= dec_digits((-i) as nat));
    }
}

} // verus!
