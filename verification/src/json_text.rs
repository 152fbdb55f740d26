//! The compact JSON text of a JSON value, as serde_json writes it: no
//! spaces, strings escaped with `\"`, `\\`, `\b`, `\f`, `\n`, `\r`, `\t`
//! and `\u00XX` for the other control characters, and object members in
//! ascending order of their keys (its default map is ordered). The text of
//! a float is serde_json's own, which the caller hands in.

use vstd::prelude::*;

use crate::cli::hex_digit;
use crate::derive_rules::{dec_digits, int_text, push_decimal, push_int, push_text};
use crate::json::{json_entries_view, json_items_view, Json, JsonView};

verus! {

/// The text given for a float's bit pattern: the first entry with those
/// bits, or nothing.
pub open spec fn float_text(ft: Seq<(u64, String)>, b: u64) -> Seq<char>
    decreases ft.len(),
{
    if ft.len() == 0 {
        Seq::empty()
    } else if ft[0].0 == b {
        ft[0].1@
    } else {
        float_text(ft.drop_first(), b)
    }
}

/// How a character is written inside a JSON string.
pub open spec fn escape_char(c: char) -> Seq<char> {
    if c == '"' {
        seq!['\\', '"']
    } else if c == '\\' {
        seq!['\\', '\\']
    } else if c == '\x08' {
        seq!['\\', 'b']
    } else if c == '\x0c' {
        seq!['\\', 'f']
    } else if c == '\n' {
        seq!['\\', 'n']
    } else if c == '\r' {
        seq!['\\', 'r']
    } else if c == '\t' {
        seq!['\\', 't']
    } else if (c as u32) < 0x20 {
        seq![
            '\\',
            'u',
            '0',
            '0',
            hex_digit((c as u32 / 16) as nat) as char,
            hex_digit((c as u32 % 16) as nat) as char,
        ]
    } else {
        seq![c]
    }
}

/// The escaped characters of a string.
pub open spec fn escaped(s: Seq<char>) -> Seq<char>
    decreases s.len(),
{
    if s.len() == 0 {
        Seq::empty()
    } else {
        escaped(s.drop_last()) + escape_char(s.last())
    }
}

/// A JSON string literal.
pub open spec fn quoted(s: Seq<char>) -> Seq<char> {
    seq!['"'] + escaped(s) + seq!['"']
}

/// One string sorts before another: by the first differing character, a
/// prefix first.
pub open spec fn lt_chars(a: Seq<char>, b: Seq<char>) -> bool
    decreases a.len(),
{
    if a.len() == 0 {
        b.len() > 0
    } else if b.len() == 0 {
        false
    } else if a[0] != b[0] {
        (a[0] as u32) < (b[0] as u32)
    } else {
        lt_chars(a.drop_first(), b.drop_first())
    }
}

/// Where a member with key `k` goes among sorted members: before the
/// first whose key sorts after `k`.
pub open spec fn ins_pos(s: Seq<(Seq<char>, Seq<char>)>, k: Seq<char>) -> int
    decreases s.len(),
{
    if s.len() == 0 {
        0
    } else if lt_chars(k, s[0].0) {
        0
    } else {
        1 + ins_pos(s.drop_first(), k)
    }
}

/// Sorted members with one more.
pub open spec fn insert_member(s: Seq<(Seq<char>, Seq<char>)>, e: (Seq<char>, Seq<char>)) -> Seq<(Seq<char>, Seq<char>)> {
    s.take(ins_pos(s, e.0)) + seq![e] + s.skip(ins_pos(s, e.0))
}

/// Members in ascending order of their keys.
pub open spec fn sort_members(ps: Seq<(Seq<char>, Seq<char>)>) -> Seq<(Seq<char>, Seq<char>)>
    decreases ps.len(),
{
    if ps.len() == 0 {
        Seq::empty()
    } else {
        insert_member(sort_members(ps.drop_last()), ps.last())
    }
}

/// Members written `"key":value`, separated by commas.
pub open spec fn members_text(ps: Seq<(Seq<char>, Seq<char>)>) -> Seq<char>
    decreases ps.len(),
{
    if ps.len() == 0 {
        Seq::empty()
    } else {
        let p = members_text(ps.drop_last());
        (if ps.len() == 1 {
            p
        } else {
            p + seq![',']
        }) + quoted(ps.last().0) + seq![':'] + ps.last().1
    }
}

/// The compact JSON text of a value.
pub open spec fn json_text(j: JsonView, ft: Seq<(u64, String)>) -> Seq<char>
    decreases j,
{
    match j {
        JsonView::Null => "null"@,
        JsonView::Bool(b) => if b {
            "true"@
        } else {
            "false"@
        },
        JsonView::UInt(x) => dec_digits(x as nat),
        JsonView::Int(x) => int_text(x as int),
        JsonView::Float(b) => float_text(ft, b),
        JsonView::Str(s) => quoted(s),
        JsonView::Array(items) => seq!['['] + items_text(items, ft) + seq![']'],
        JsonView::Object(es) => seq!['{'] + members_text(sort_members(member_texts(es, ft))) + seq!['}'],
    }
}

/// The texts of values, separated by commas.
pub open spec fn items_text(items: Seq<JsonView>, ft: Seq<(u64, String)>) -> Seq<char>
    decreases items,
{
    if items.len() == 0 {
        Seq::empty()
    } else {
        let p = items_text(items.drop_last(), ft);
        (if items.len() == 1 {
            p
        } else {
            p + seq![',']
        }) + json_text(items.last(), ft)
    }
}

/// Each member's key and the text of its value, in order.
pub open spec fn member_texts(es: Seq<(Seq<char>, JsonView)>, ft: Seq<(u64, String)>) -> Seq<(Seq<char>, Seq<char>)>
    decreases es,
{
    if es.len() == 0 {
        Seq::empty()
    } else {
        member_texts(es.drop_last(), ft).push((es.last().0, json_text(es.last().1, ft)))
    }
}

/// The keys and texts of members as character sequences.
pub open spec fn members_view(m: Seq<(Vec<char>, Vec<char>)>) -> Seq<(Seq<char>, Seq<char>)> {
    Seq::new(m.len(), |i: int| (m[i].0@, m[i].1@))
}

/// Looks up the text given for a float.
fn float_text_exec(out: &mut Vec<char>, ft: &Vec<(u64, String)>, b: u64)
    ensures
        final(out)@ == old(out)@ + float_text(ft@, b),
{
    let ghost o = out@;
    let mut i: usize = 0;
    assert(ft@.skip(0) =~= ft@);
    while i < ft.len()
        invariant
            i <= ft@.len(),
            out@ == o,
            o == old(out)@,
            float_text(ft@, b) == float_text(ft@.skip(i as int), b),
        decreases ft@.len() - i,
    {
        assert(ft@.skip(i as int)[0] == ft@[i as int]);
        if ft[i].0 == b {
            push_text(out, ft[i].1.as_str());
            assert(float_text(ft@.skip(i as int), b) == ft@[i as int].1@);
            return;
        }
        assert(ft@.skip(i as int).drop_first() =~= ft@.skip(i + 1));
        i = i + 1;
    }
    assert(float_text(ft@.skip(i as int), b) == Seq::<char>::empty());
    assert(out@ =~= out@ + Seq::<char>::empty());
}

/// Appends how a character is written inside a JSON string.
fn push_escape(out: &mut Vec<char>, c: char)
    ensures
        final(out)@ == old(out)@ + escape_char(c),
{
    let ghost o = out@;
    if c == '"' {
        out.push('\\');
        out.push('"');
    } else if c == '\\' {
        out.push('\\');
        out.push('\\');
    } else if c == '\x08' {
        out.push('\\');
        out.push('b');
    } else if c == '\x0c' {
        out.push('\\');
        out.push('f');
    } else if c == '\n' {
        out.push('\\');
        out.push('n');
    } else if c == '\r' {
        out.push('\\');
        out.push('r');
    } else if c == '\t' {
        out.push('\\');
        out.push('t');
    } else if (c as u32) < 0x20 {
        let v = c as u32;
        let hi = (v / 16) as u8;
        let lo = (v % 16) as u8;
        out.push('\\');
        out.push('u');
        out.push('0');
        out.push('0');
        out.push(hex_char(hi));
        out.push(hex_char(lo));
    } else {
        out.push(c);
    }
    assert(out@ =~= o + escape_char(c));
}

/// The lowercase hex digit of a nibble.
fn hex_char(d: u8) -> (c: char)
    requires
        d < 16,
    ensures
        c == hex_digit(d as nat) as char,
{
    if d < 10 {
        (0x30u8 + d) as char
    } else {
        (0x61u8 + d - 10) as char
    }
}

/// Appends a JSON string literal.
fn push_quoted(out: &mut Vec<char>, s: &Vec<char>)
    ensures
        final(out)@ == old(out)@ + quoted(s@),
{
    let ghost o = out@;
    out.push('"');
    let mut i: usize = 0;
    while i < s.len()
        invariant
            i <= s@.len(),
            out@ == o + seq!['"'] + escaped(s@.take(i as int)),
        decreases s@.len() - i,
    {
        assert(s@.take(i + 1).drop_last() =~= s@.take(i as int));
        push_escape(out, s[i]);
        i = i + 1;
        assert(out@ =~= o + seq!['"'] + escaped(s@.take(i as int)));
    }
    assert(s@.take(s@.len() as int) =~= s@);
    out.push('"');
    assert(out@ =~= o + quoted(s@));
}

/// Whether one string sorts before another.
fn lt_chars_exec(a: &Vec<char>, b: &Vec<char>) -> (r: bool)
    ensures
        r == lt_chars(a@, b@),
{
    let mut i: usize = 0;
    assert(a@.skip(0) =~= a@);
    assert(b@.skip(0) =~= b@);
    loop
        invariant
            i <= a@.len(),
            i <= b@.len(),
            lt_chars(a@, b@) == lt_chars(a@.skip(i as int), b@.skip(i as int)),
        decreases a@.len() - i,
    {
        if i == a.len() {
            return i < b.len();
        }
        if i == b.len() {
            return false;
        }
        let x = a[i];
        let y = b[i];
        assert(a@.skip(i as int)[0] == x && b@.skip(i as int)[0] == y);
        if x != y {
            return (x as u32) < (y as u32);
        }
        assert(a@.skip(i as int).drop_first() =~= a@.skip(i + 1));
        assert(b@.skip(i as int).drop_first() =~= b@.skip(i + 1));
        i = i + 1;
    }
}

/// Puts a member among sorted members.
fn insert_member_exec(members: &mut Vec<(Vec<char>, Vec<char>)>, e: (Vec<char>, Vec<char>))
    ensures
        members_view(final(members)@) == insert_member(members_view(old(members)@), (e.0@, e.1@)),
{
    let ghost s = members_view(members@);
    let ghost k = e.0@;
    let mut i: usize = 0;
    assert(s.skip(0) =~= s);
    while i < members.len() && !lt_chars_exec(&e.0, &members[i].0)
        invariant
            i <= members@.len(),
            s == members_view(members@),
            k == e.0@,
            ins_pos(s, k) == i + ins_pos(s.skip(i as int), k),
        decreases members@.len() - i,
    {
        assert(s.skip(i as int)[0] == s[i as int]);
        assert(s.skip(i as int).drop_first() =~= s.skip(i + 1));
        i = i + 1;
    }
    if i < members.len() {
        assert(s.skip(i as int)[0] == s[i as int]);
    }
    assert(ins_pos(s, k) == i);
    let ghost ev = (e.0@, e.1@);
    members.insert(i, e);
    assert(members_view(members@) =~= s.take(i as int) + seq![ev] + s.skip(i as int));
}

/// Appends members written `"key":value`, separated by commas.
fn push_members(out: &mut Vec<char>, members: &Vec<(Vec<char>, Vec<char>)>)
    ensures
        final(out)@ == old(out)@ + members_text(members_view(members@)),
{
    let ghost o = out@;
    let ghost m = members_view(members@);
    let mut i: usize = 0;
    assert(m.take(0) =~= Seq::<(Seq<char>, Seq<char>)>::empty());
    while i < members.len()
        invariant
            i <= members@.len(),
            m == members_view(members@),
            out@ == o + members_text(m.take(i as int)),
        decreases members@.len() - i,
    {
        assert(m.take(i + 1).drop_last() =~= m.take(i as int));
        assert(m.take(i + 1).last() == (members[i as int].0@, members[i as int].1@));
        let ghost before = out@;
        if i > 0 {
            out.push(',');
        }
        push_quoted(out, &members[i].0);
        out.push(':');
        let mut j: usize = 0;
        let ghost mid = out@;
        let v = &members[i].1;
        while j < v.len()
            invariant
                j <= v@.len(),
                out@ == mid + v@.take(j as int),
            decreases v@.len() - j,
        {
            out.push(v[j]);
            j = j + 1;
            assert(out@ =~= mid + v@.take(j as int));
        }
        assert(v@.take(v@.len() as int) =~= v@);
        i = i + 1;
        assert(out@ =~= o + members_text(m.take(i as int)));
    }
    assert(m.take(members@.len() as int) =~= m);
}

/// Appends the compact JSON text of a value.
pub fn write_json(out: &mut Vec<char>, j: &Json, ft: &Vec<(u64, String)>)
    ensures
        final(out)@ == old(out)@ + json_text(j@, ft@),
    decreases j@,
{
    let ghost o = out@;
    match j {
        Json::Null => {
            push_text(out, "null");
            proof {
                reveal_strlit("null");
            }
        },
        Json::Bool(b) => {
            if *b {
                push_text(out, "true");
                proof {
                    reveal_strlit("true");
                }
            } else {
                push_text(out, "false");
                proof {
                    reveal_strlit("false");
                }
            }
        },
        Json::UInt(x) => push_decimal(out, *x as u128),
        Json::Int(x) => push_int(out, *x as i128),
        Json::Float(b) => float_text_exec(out, ft, *b),
        Json::Str(s) => {
            let mut cs: Vec<char> = Vec::new();
            push_text(&mut cs, s.as_str());
            assert(cs@ =~= s@);
            push_quoted(out, &cs);
        },
        Json::Array(items) => {
            let ghost vs = json_items_view(items@);
            proof {
                crate::json::lemma_json_items_view(items@);
                assert(j@ == JsonView::Array(vs));
            }
            out.push('[');
            let ghost start = out@;
            let mut i: usize = 0;
            assert(vs.take(0) =~= Seq::<JsonView>::empty());
            while i < items.len()
                invariant
                    j@ == JsonView::Array(vs),
                    *j == Json::Array(*items),
                    vs == json_items_view(items@),
                    vs.len() == items@.len(),
                    forall|k: int| 0 <= k < items@.len() ==> #[trigger] vs[k] == items@[k]@,
                    i <= items@.len(),
                    out@ == start + items_text(vs.take(i as int), ft@),
                decreases items@.len() - i,
            {
                assert(vs.take(i + 1).drop_last() =~= vs.take(i as int));
                assert(vs.take(i + 1).last() == vs[i as int]);
                proof {
                    assert(decreases_to!(j@ => j@->Array_0));
                    assert(decreases_to!(vs => vs[i as int]));
                }
                if i > 0 {
                    out.push(',');
                }
                write_json(out, &items[i], ft);
                i = i + 1;
                assert(out@ =~= start + items_text(vs.take(i as int), ft@));
            }
            assert(vs.take(items@.len() as int) =~= vs);
            out.push(']');
            assert(out@ =~= o + json_text(j@, ft@));
        },
        Json::Object(es) => {
            let ghost vs = json_entries_view(es@);
            proof {
                crate::json::lemma_json_entries_view(es@);
                assert(j@ == JsonView::Object(vs));
            }
            let mut members: Vec<(Vec<char>, Vec<char>)> = Vec::new();
            let mut i: usize = 0;
            assert(vs.take(0) =~= Seq::<(Seq<char>, JsonView)>::empty());
            assert(members_view(members@) =~= Seq::<(Seq<char>, Seq<char>)>::empty());
            while i < es.len()
                invariant
                    j@ == JsonView::Object(vs),
                    *j == Json::Object(*es),
                    vs == json_entries_view(es@),
                    vs.len() == es@.len(),
                    forall|k: int| 0 <= k < es@.len() ==> #[trigger] vs[k] == (es@[k].0@, es@[k].1@),
                    i <= es@.len(),
                    members_view(members@) == sort_members(member_texts(vs.take(i as int), ft@)),
                decreases es@.len() - i,
            {
                assert(vs.take(i + 1).drop_last() =~= vs.take(i as int));
                assert(vs.take(i + 1).last() == vs[i as int]);
                proof {
                    assert(decreases_to!(j@ => j@->Object_0));
                    assert(decreases_to!(vs => vs[i as int]));
                    assert(decreases_to!(vs[i as int] => vs[i as int].1));
                }
                let mut kt: Vec<char> = Vec::new();
                push_text(&mut kt, es[i].0.as_str());
                let mut vt: Vec<char> = Vec::new();
                write_json(&mut vt, &es[i].1, ft);
                assert(kt@ =~= es@[i as int].0@);
                assert(vt@ =~= json_text(es@[i as int].1@, ft@));
                let ghost before = members_view(members@);
                let ghost e = (kt@, vt@);
                insert_member_exec(&mut members, (kt, vt));
                proof {
                    let x = member_texts(vs.take(i as int), ft@);
                    assert(member_texts(vs.take(i + 1), ft@) == x.push((vs[i as int].0, json_text(vs[i as int].1, ft@))));
                    assert(e == (vs[i as int].0, json_text(vs[i as int].1, ft@)));
                    assert(x.push(e).drop_last() =~= x);
                    assert(sort_members(x.push(e)) == insert_member(sort_members(x), e));
                }
                i = i + 1;
            }
            assert(vs.take(es@.len() as int) =~= vs);
            out.push('{');
            push_members(out, &members);
            out.push('}');
            assert(out@ =~= o + json_text(j@, ft@));
        },
    }
}

/// The character that a one-letter escape `\x` of a JSON string stands
/// for (RFC 8259 §7), if `x` makes one.
pub open spec fn short_escape(x: char) -> Option<char> {
    if x == '"' {
        Some('"')
    } else if x == '\\' {
        Some('\\')
    } else if x == '/' {
        Some('/')
    } else if x == 'b' {
        Some('\x08')
    } else if x == 'f' {
        Some('\x0c')
    } else if x == 'n' {
        Some('\n')
    } else if x == 'r' {
        Some('\r')
    } else if x == 't' {
        Some('\t')
    } else {
        None
    }
}

/// The value of a hex digit of either case.
pub open spec fn hex_char_value(c: char) -> Option<nat> {
    if '0' <= c <= '9' {
        Some((c as u32 - 0x30) as nat)
    } else if 'a' <= c <= 'f' {
        Some((c as u32 - 0x61 + 10) as nat)
    } else if 'A' <= c <= 'F' {
        Some((c as u32 - 0x41 + 10) as nat)
    } else {
        None
    }
}

/// The value of four hex digits.
pub open spec fn hex4(t: Seq<char>) -> Option<nat> {
    match (hex_char_value(t[0]), hex_char_value(t[1]), hex_char_value(t[2]), hex_char_value(t[3])) {
        (Some(a), Some(b), Some(c), Some(d)) => Some(((a * 16 + b) * 16 + c) * 16 + d),
        _ => None,
    }
}

/// A character before what the rest reads as.
pub open spec fn prepend(c: char, r: Option<Seq<char>>) -> Option<Seq<char>> {
    match r {
        Some(t) => Some(seq![c] + t),
        None => None,
    }
}

/// The characters that the body of a JSON string literal stands for, or
/// `None` where it is not one: a `\` starts an escape (a one-letter one,
/// or `\u` and four hex digits below the surrogates), and a bare `"` or
/// control character is not allowed.
pub open spec fn unescape(t: Seq<char>) -> Option<Seq<char>>
    decreases t.len(),
{
    if t.len() == 0 {
        Some(Seq::empty())
    } else if t[0] == '\\' {
        if t.len() >= 2 && short_escape(t[1]) is Some {
            prepend(short_escape(t[1])->Some_0, unescape(t.skip(2)))
        } else if t.len() >= 6 && t[1] == 'u' && hex4(t.subrange(2, 6)) is Some && hex4(t.subrange(2, 6))->Some_0
            < 0xd800 {
            prepend((hex4(t.subrange(2, 6))->Some_0) as char, unescape(t.skip(6)))
        } else {
            None
        }
    } else if t[0] == '"' || (t[0] as u32) < 0x20 {
        None
    } else {
        prepend(t[0], unescape(t.skip(1)))
    }
}

/// What a JSON string literal stands for, or `None` where the text is not
/// one.
pub open spec fn read_string(t: Seq<char>) -> Option<Seq<char>> {
    if t.len() >= 2 && t[0] == '"' && t.last() == '"' {
        unescape(t.subrange(1, t.len() - 1))
    } else {
        None
    }
}

/// Reading the escape of a character gives the character back.
proof fn lemma_unescape_one(c: char, t: Seq<char>)
    ensures
        unescape(escape_char(c) + t) == prepend(c, unescape(t)),
{
    let e = escape_char(c);
    let w = e + t;
    if (c as u32) < 0x20 && c != '\x08' && c != '\x0c' && c != '\n' && c != '\r' && c != '\t' {
        let v = c as u32;
        let hi = (v / 16) as nat;
        let lo = (v % 16) as nat;
        assert(hi < 2 && lo < 16);
        assert(hex_char_value(hex_digit(hi) as char) == Some(hi));
        assert(hex_char_value(hex_digit(lo) as char) == Some(lo));
        assert(w.subrange(2, 6) =~= seq!['0', '0', hex_digit(hi) as char, hex_digit(lo) as char]);
        assert(hex4(w.subrange(2, 6)) == Some(hi * 16 + lo));
        assert(hi * 16 + lo == v);
        assert((v as nat) as char == c);
        assert(w.skip(6) =~= t);
    } else if e.len() == 2 {
        assert(w.skip(2) =~= t);
    } else {
        assert(w.skip(1) =~= t);
    }
}

/// Reading the escapes of a string, then anything, gives the string back
/// before what the rest reads as.
proof fn lemma_unescape_escaped(s: Seq<char>, t: Seq<char>)
    ensures
        unescape(escaped(s) + t) == (match unescape(t) {
            Some(r) => Some(s + r),
            None => None,
        }),
    decreases s.len(),
{
    if s.len() == 0 {
        assert(escaped(s) + t =~= t);
        if let Some(r) = unescape(t) {
            assert(s + r =~= r);
        }
    } else {
        let p = s.drop_last();
        let c = s.last();
        assert(escaped(s) + t =~= escaped(p) + (escape_char(c) + t));
        lemma_unescape_escaped(p, escape_char(c) + t);
        lemma_unescape_one(c, t);
        if let Some(r) = unescape(t) {
            assert(p + (seq![c] + r) =~= s + r);
        }
    }
}

/// Escaping loses nothing: the JSON string literal written for any string
/// reads back as that very string, whatever it holds (quotes, backslashes,
/// line breaks, carriage returns, tabs and other control characters).
pub proof fn lemma_string_literal_round_trip(s: Seq<char>)
    ensures
        read_string(quoted(s)) == Some(s),
        unescape(escaped(s)) == Some(s),
{
    lemma_unescape_escaped(s, Seq::empty());
    assert(escaped(s) + Seq::<char>::empty() =~= escaped(s));
    assert(s + Seq::<char>::empty() =~= s);
    let q = quoted(s);
    assert(q.subrange(1, q.len() - 1) =~= escaped(s));
}

/// The text written for a JSON string reads back as the string.
pub proof fn lemma_json_string_text(s: Seq<char>, ft: Seq<(u64, String)>)
    ensures
        read_string(json_text(JsonView::Str(s), ft)) == Some(s),
{
    lemma_string_literal_round_trip(s);
}

/// No string sorts before itself.
proof fn lemma_lt_irreflexive(a: Seq<char>)
    ensures
        !lt_chars(a, a),
    decreases a.len(),
{
    if a.len() > 0 {
        lemma_lt_irreflexive(a.drop_first());
    }
}

/// The order of strings is transitive.
proof fn lemma_lt_transitive(a: Seq<char>, b: Seq<char>, c: Seq<char>)
    requires
        lt_chars(a, b),
        lt_chars(b, c),
    ensures
        lt_chars(a, c),
    decreases a.len(),
{
    if a.len() > 0 && b.len() > 0 && c.len() > 0 && a[0] == b[0] && b[0] == c[0] {
        lemma_lt_transitive(a.drop_first(), b.drop_first(), c.drop_first());
    }
}

/// Two different strings are ordered one way or the other.
proof fn lemma_lt_total(a: Seq<char>, b: Seq<char>)
    requires
        a != b,
    ensures
        lt_chars(a, b) || lt_chars(b, a),
    decreases a.len(),
{
    if a.len() > 0 && b.len() > 0 && a[0] == b[0] {
        if a.drop_first() == b.drop_first() {
            assert(a =~= seq![a[0]] + a.drop_first());
            assert(b =~= seq![b[0]] + b.drop_first());
        }
        lemma_lt_total(a.drop_first(), b.drop_first());
    } else if a.len() == 0 && b.len() == 0 {
        assert(a =~= b);
    } else if a.len() > 0 && b.len() > 0 {
        let x = a[0];
        let y = b[0];
        vstd::utf8::char_u32_cast(x, x as u32);
        vstd::utf8::char_u32_cast(y, y as u32);
        assert((x as u32) != (y as u32));
    }
}

/// The order that JSON object members are written in is a strict total
/// order on their keys: no key before itself, transitive, and any two
/// different keys ordered one way.
pub proof fn lemma_key_order(a: Seq<char>, b: Seq<char>, c: Seq<char>)
    ensures
        !lt_chars(a, a),
        lt_chars(a, b) && lt_chars(b, c) ==> lt_chars(a, c),
        a != b ==> lt_chars(a, b) || lt_chars(b, a),
        lt_chars(a, b) ==> !lt_chars(b, a),
{
    lemma_lt_irreflexive(a);
    if lt_chars(a, b) && lt_chars(b, c) {
        lemma_lt_transitive(a, b, c);
    }
    if a != b {
        lemma_lt_total(a, b);
    }
    if lt_chars(a, b) && lt_chars(b, a) {
        lemma_lt_transitive(a, b, a);
    }
}

/// Member keys in strictly ascending order.
pub open spec fn ascending(s: Seq<(Seq<char>, Seq<char>)>) -> bool {
    forall|i: int, j: int| 0 <= i < j < s.len() ==> lt_chars(s[i].0, s[j].0)
}

/// Where a key goes: after every key that does not sort after it, before
/// the first that does.
proof fn lemma_ins_pos(s: Seq<(Seq<char>, Seq<char>)>, k: Seq<char>)
    ensures
        0 <= ins_pos(s, k) <= s.len(),
        forall|j: int| 0 <= j < ins_pos(s, k) ==> !lt_chars(k, #[trigger] s[j].0),
        ins_pos(s, k) < s.len() ==> lt_chars(k, s[ins_pos(s, k)].0),
    decreases s.len(),
{
    if s.len() > 0 && !lt_chars(k, s[0].0) {
        lemma_ins_pos(s.drop_first(), k);
        assert forall|j: int| 0 <= j < ins_pos(s, k) implies !lt_chars(k, #[trigger] s[j].0) by {
            if j > 0 {
                assert(s[j] == s.drop_first()[j - 1]);
            }
        }
    }
}

/// Inserting a new key into ascending members keeps them ascending and
/// adds exactly that member.
proof fn lemma_insert_ascending(s: Seq<(Seq<char>, Seq<char>)>, e: (Seq<char>, Seq<char>))
    requires
        ascending(s),
        forall|j: int| 0 <= j < s.len() ==> s[j].0 != e.0,
    ensures
        ascending(insert_member(s, e)),
        insert_member(s, e).len() == s.len() + 1,
        forall|x| #[trigger] insert_member(s, e).contains(x) <==> (s.contains(x) || x == e),
{
    lemma_ins_pos(s, e.0);
    let p = ins_pos(s, e.0);
    let r = insert_member(s, e);
    assert(r.len() == s.len() + 1);
    assert forall|i: int| 0 <= i < r.len() implies #[trigger] r[i] == (if i < p {
        s[i]
    } else if i == p {
        e
    } else {
        s[i - 1]
    }) by {}
    assert forall|i: int, j: int| 0 <= i < j < r.len() implies lt_chars(r[i].0, r[j].0) by {
        if i < p && j == p {
            lemma_key_order(s[i].0, e.0, e.0);
            assert(!lt_chars(e.0, s[i].0));
            assert(s[i].0 != e.0);
        } else if i == p && j > p {
            if j - 1 > p {
                lemma_key_order(e.0, s[p].0, s[j - 1].0);
            }
        } else if i < p && j > p {
            lemma_key_order(s[i].0, e.0, e.0);
            assert(lt_chars(s[i].0, e.0));
            if j - 1 > p {
                lemma_key_order(e.0, s[p].0, s[j - 1].0);
            }
            lemma_key_order(s[i].0, e.0, s[j - 1].0);
        }
    }
    assert forall|x| #[trigger] r.contains(x) <==> (s.contains(x) || x == e) by {
        if r.contains(x) {
            let i = choose|i: int| 0 <= i < r.len() && r[i] == x;
            if i < p {
                assert(s[i] == x);
            } else if i > p {
                assert(s[i - 1] == x);
            }
        }
        if s.contains(x) {
            let i = choose|i: int| 0 <= i < s.len() && s[i] == x;
            if i < p {
                assert(r[i] == x);
            } else {
                assert(r[i + 1] == x);
            }
        }
        if x == e {
            assert(r[p] == x);
        }
    }
}

/// Members with pairwise different keys.
pub open spec fn distinct_member_keys(ps: Seq<(Seq<char>, Seq<char>)>) -> bool {
    forall|i: int, j: int| 0 <= i < j < ps.len() ==> ps[i].0 != ps[j].0
}

/// Members with pairwise different keys are written in strictly ascending
/// order of their keys, each exactly once: sorting keeps every member,
/// adds none, and orders them.
pub proof fn lemma_members_sorted(ps: Seq<(Seq<char>, Seq<char>)>)
    requires
        distinct_member_keys(ps),
    ensures
        ascending(sort_members(ps)),
        sort_members(ps).len() == ps.len(),
        forall|x| #[trigger] sort_members(ps).contains(x) <==> ps.contains(x),
    decreases ps.len(),
{
    if ps.len() > 0 {
        let p = ps.drop_last();
        assert forall|i: int, j: int| 0 <= i < j < p.len() implies p[i].0 != p[j].0 by {
            assert(p[i] == ps[i] && p[j] == ps[j]);
        }
        lemma_members_sorted(p);
        let s = sort_members(p);
        let e = ps.last();
        assert forall|j: int| 0 <= j < s.len() implies s[j].0 != e.0 by {
            assert(s.contains(s[j]));
            assert(p.contains(s[j]));
            let k = choose|k: int| 0 <= k < p.len() && p[k] == s[j];
            assert(ps[k] == p[k] && ps[ps.len() - 1] == e);
        }
        lemma_insert_ascending(s, e);
        assert forall|x| #[trigger] sort_members(ps).contains(x) <==> ps.contains(x) by {
            if ps.contains(x) {
                let k = choose|k: int| 0 <= k < ps.len() && ps[k] == x;
                if k < p.len() {
                    assert(p[k] == x);
                    assert(p.contains(x));
                }
            }
            if p.contains(x) {
                let k = choose|k: int| 0 <= k < p.len() && p[k] == x;
                assert(ps[k] == x);
            }
            if x == e {
                assert(ps[ps.len() - 1] == x);
            }
        }
    }
}

/// Each member's key with the text of its value, one by one.
proof fn lemma_member_texts(es: Seq<(Seq<char>, JsonView)>, ft: Seq<(u64, String)>)
    ensures
        member_texts(es, ft).len() == es.len(),
        forall|i: int| 0 <= i < es.len() ==> #[trigger] member_texts(es, ft)[i] == (es[i].0, json_text(es[i].1, ft)),
    decreases es.len(),
{
    if es.len() > 0 {
        lemma_member_texts(es.drop_last(), ft);
        assert(member_texts(es, ft) == member_texts(es.drop_last(), ft).push((es.last().0, json_text(es.last().1, ft))));
    }
}

/// An object whose members have pairwise different keys is written with
/// its members in strictly ascending order of their keys, each member
/// once, as `"key":value`.
pub proof fn lemma_object_members_sorted(es: Seq<(Seq<char>, JsonView)>, ft: Seq<(u64, String)>)
    requires
        forall|i: int, j: int| 0 <= i < j < es.len() ==> es[i].0 != es[j].0,
    ensures
        ({
            let written = sort_members(member_texts(es, ft));
            &&& json_text(JsonView::Object(es), ft) == seq!['{'] + members_text(written) + seq!['}']
            &&& ascending(written)
            &&& written.len() == es.len()
            &&& forall|i: int| 0 <= i < es.len() ==> written.contains((es[i].0, json_text(es[i].1, ft)))
        }),
{
    lemma_member_texts(es, ft);
    let m = member_texts(es, ft);
    assert forall|i: int, j: int| 0 <= i < j < m.len() implies m[i].0 != m[j].0 by {}
    lemma_members_sorted(m);
    assert forall|i: int| 0 <= i < es.len() implies sort_members(m).contains((es[i].0, json_text(es[i].1, ft))) by {
        assert(m[i] == (es[i].0, json_text(es[i].1, ft)));
        assert(m.contains(m[i]));
    }
}

} // verus!
