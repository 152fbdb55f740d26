//! Key lookup for flattened structs: map keys spelled as text or integers
//! are matched against a table of field names and their integer keys.

use vstd::prelude::*;
use vstd::string::StringSliceAdditionalSpecFns;
use vstd::utf8::{decode_utf8, valid_utf8};

use crate::codec::{
    after_body, decode_all, pull_slice_spec, pull_spec, segments_spec, utf8_text, Decoder, DecoderView,
    Error, Header, IoError,
};
use crate::value::{Value, ValueView};

verus! {

/// The position of the first entry whose integer key is `n`.
pub open spec fn first_with_key(keys: Seq<(&'static str, i128)>, n: int) -> Option<int>
    decreases keys.len(),
{
    if keys.len() == 0 {
        None
    } else if keys[0].1 == n {
        Some(0)
    } else {
        match first_with_key(keys.drop_first(), n) {
            Some(k) => Some(k + 1),
            None => None,
        }
    }
}

/// The position of the first entry whose name is `name`.
pub open spec fn first_with_name(keys: Seq<(&'static str, i128)>, name: Seq<char>) -> Option<int>
    decreases keys.len(),
{
    if keys.len() == 0 {
        None
    } else if keys[0].0@ == name {
        Some(0)
    } else {
        match first_with_name(keys.drop_first(), name) {
            Some(k) => Some(k + 1),
            None => None,
        }
    }
}

/// The position of the first entry whose name is spelled by `bytes`.
pub open spec fn first_with_spelling(keys: Seq<(&'static str, i128)>, bytes: Seq<u8>) -> Option<int>
    decreases keys.len(),
{
    if keys.len() == 0 {
        None
    } else if keys[0].0.spec_bytes() == bytes {
        Some(0)
    } else {
        match first_with_spelling(keys.drop_first(), bytes) {
            Some(k) => Some(k + 1),
            None => None,
        }
    }
}

/// A value without the tags around it.
pub open spec fn untagged(v: ValueView) -> ValueView
    decreases v,
{
    match v {
        ValueView::Tag(_, inner) => untagged(*inner),
        _ => v,
    }
}

/// The value inside any tags.
fn untag(v: &Value) -> (r: &Value)
    ensures
        r@ == untagged(v@),
        v.wf() ==> r.wf(),
    decreases v@,
{
    match v {
        Value::Tag(_, inner) => {
            assert(decreases_to!(v@ => v@->Tag_1));
            untag(inner)
        },
        _ => v,
    }
}

/// The field name of a map key that is an integer, possibly tagged, in
/// the table `keys`: the name of the first entry with that integer.
pub fn tagged_field(key: &Value, keys: &[(&'static str, i128)]) -> (r: Option<&'static str>)
    ensures
        match untagged(key@) {
            ValueView::Integer(n) => match first_with_key(keys@, n) {
                Some(k) => r == Some(keys@[k].0),
                None => r is None,
            },
            _ => r is None,
        },
{
    let inner = untag(key);
    let n = match inner {
        Value::Integer(integer) => integer.value(),
        _ => return None,
    };
    let mut i: usize = 0;
    assert(keys@.skip(0) =~= keys@);
    while i < keys.len()
        invariant
            i <= keys@.len(),
            untagged(key@) == ValueView::Integer(n as int),
            first_with_key(keys@, n as int) == (match first_with_key(keys@.skip(i as int), n as int) {
                Some(k) => Some(k + i),
                None => None::<int>,
            }),
        decreases keys@.len() - i,
    {
        assert(keys@.skip(i as int).drop_first() =~= keys@.skip(i + 1));
        if keys[i].1 == n {
            return Some(keys[i].0);
        }
        i = i + 1;
    }
    None
}

/// Pulling a header from a byte slice makes progress as [`pull_spec`]
/// does.
pub proof fn lemma_pull_slice_progress(d: DecoderView)
    requires
        0 <= d.pos <= d.input.len(),
    ensures
        pull_slice_spec(d).1.input == d.input,
        d.pos <= pull_slice_spec(d).1.pos <= d.input.len(),
        pull_slice_spec(d).1.pushback is None,
        d.pushback is None && pull_slice_spec(d).0 is Ok ==> pull_slice_spec(d).1.pos > d.pos,
{
    crate::codec::lemma_pull_progress(d);
}

/// The text of a map key read from its encoding, past any tags: `None`
/// when the key is not a text string, an error when the encoding is
/// malformed or the text is not UTF-8 (the error of a definite-length
/// text is then at offset zero).
pub open spec fn key_text_spec(d: DecoderView) -> Result<Option<Seq<char>>, Error>
    decreases (d.input.len() - d.pos) * 2 + (if d.pushback is Some { 1int } else { 0int }),
    when 0 <= d.pos <= d.input.len()
{
    let (h, d1) = pull_slice_spec(d);
    proof {
        lemma_pull_slice_progress(d);
    }
    match h {
        Err(e) => Err(e),
        Ok(Header::Tag(_)) => key_text_spec(d1),
        Ok(Header::Text(Some(len))) => if len > d1.rest().len() {
            Err(Error::Io(IoError::UnexpectedEof))
        } else {
            let body = d1.rest().take(len as int);
            if valid_utf8(body) {
                Ok(Some(decode_utf8(body)))
            } else {
                Err(Error::Syntax(0))
            }
        },
        Ok(Header::Text(None)) => match segments_spec(d1, true) {
            (Ok(()), _, segs) => Ok(Some(decode_all(segs))),
            (Err(e), _, _) => Err(e),
        },
        Ok(_) => Ok(None),
    }
}

/// A decoder at the start of `input`.
pub open spec fn fresh(input: Seq<u8>) -> DecoderView {
    DecoderView { input, pos: 0, offset: 0, pushback: None, mark: 0, last_header: Seq::empty(), record: None }
}

/// The integer that the table `keys` maps a text map key to, given the
/// key's encoding: the integer of the first entry with that name, or
/// `None` when the key is not text or has no entry. An immediate text
/// header is matched by its bytes.
pub fn mapped_text_key(bytes: &[u8], keys: &[(&'static str, i128)]) -> (r: Result<Option<i128>, Error>)
    ensures
        bytes@.len() > 0 && 0x60 <= bytes@[0] <= 0x77 ==> r == Ok::<Option<i128>, Error>(
            match first_with_spelling(keys@, bytes@.skip(1)) {
                Some(k) => Some(keys@[k].1),
                None => None,
            },
        ),
        !(bytes@.len() > 0 && 0x60 <= bytes@[0] <= 0x77) ==> match key_text_spec(fresh(bytes@)) {
            Ok(Some(t)) => r == Ok::<Option<i128>, Error>(
                match first_with_name(keys@, t) {
                    Some(k) => Some(keys@[k].1),
                    None => None,
                },
            ),
            Ok(None) => r == Ok::<Option<i128>, Error>(None),
            Err(e) => r == Err::<Option<i128>, Error>(e),
        },
{
    if bytes.len() > 0 && 0x60 <= bytes[0] && bytes[0] <= 0x77 {
        let tail = &bytes[1..bytes.len()];
        assert(tail@ =~= bytes@.skip(1));
        let mut i: usize = 0;
        assert(keys@.skip(0) =~= keys@);
        while i < keys.len()
            invariant
                i <= keys@.len(),
                tail@ == bytes@.skip(1),
                bytes@.len() > 0 && 0x60 <= bytes@[0] <= 0x77,
                first_with_spelling(keys@, tail@) == (match first_with_spelling(keys@.skip(i as int), tail@) {
                    Some(k) => Some(k + i),
                    None => None::<int>,
                }),
            decreases keys@.len() - i,
        {
            assert(keys@.skip(i as int).drop_first() =~= keys@.skip(i + 1));
            if crate::canonical::bytes_eq(keys[i].0.as_bytes(), tail) {
                return Ok(Some(keys[i].1));
            }
            i = i + 1;
        }
        return Ok(None);
    }
    let mut decoder = Decoder::from(bytes);
    let mut owned = String::new();
    let ghost start = decoder@;
    assert(start == fresh(bytes@));
    proof {
        decoder.lemma_within();
    }
    let mut found: Option<String> = None;
    loop
        invariant_except_break
            decoder.wf(),
            decoder@.pushback is None,
            owned@ == Seq::<char>::empty(),
            key_text_spec(start) == key_text_spec(decoder@),
            found is None,
        invariant
            start == fresh(bytes@),
            !(bytes@.len() > 0 && 0x60 <= bytes@[0] <= 0x77),
        ensures
            found matches Some(t) && key_text_spec(start) == Ok::<Option<Seq<char>>, Error>(Some(t@)),
        decreases decoder@.input.len() - decoder@.pos,
    {
        let ghost cur = decoder@;
        proof {
            decoder.lemma_within();
            lemma_pull_slice_progress(cur);
        }
        match decoder.pull_slice() {
            Ok(Header::Tag(_)) => {},
            Ok(Header::Text(Some(len))) => {
                let ghost d1 = decoder@;
                let body = match decoder.borrow_body(len) {
                    Ok(b) => b,
                    Err(e) => return Err(Error::Io(e)),
                };
                match utf8_text(body) {
                    Some(t) => {
                        let mut s = String::new();
                        vstd::string::StringExecFns::append(&mut s, t);
                        assert(s@ =~= decode_utf8(d1.rest().take(len as int)));
                        found = Some(s);
                        break;
                    },
                    None => return Err(Error::Syntax(0)),
                }
            },
            Ok(Header::Text(None)) => {
                match decoder.text_body(None, &mut owned) {
                    Ok(()) => {
                        let t = owned.clone();
                        assert(t@ =~= Seq::<char>::empty() + decode_all(segments_spec(cur_after(cur), true).2));
                        found = Some(t);
                        break;
                    },
                    Err(e) => return Err(e),
                }
            },
            Ok(_) => return Ok(None),
            Err(e) => return Err(e),
        }
    }
    let text = match found {
        Some(t) => t,
        None => String::new(),
    };
    let mut i: usize = 0;
    assert(keys@.skip(0) =~= keys@);
    while i < keys.len()
        invariant
            i <= keys@.len(),
            start == fresh(bytes@),
            !(bytes@.len() > 0 && 0x60 <= bytes@[0] <= 0x77),
            key_text_spec(start) == Ok::<Option<Seq<char>>, Error>(Some(text@)),
            first_with_name(keys@, text@) == (match first_with_name(keys@.skip(i as int), text@) {
                Some(k) => Some(k + i),
                None => None::<int>,
            }),
        decreases keys@.len() - i,
    {
        assert(keys@.skip(i as int).drop_first() =~= keys@.skip(i + 1));
        if crate::cli::same_text(keys[i].0, text.as_str()) {
            return Ok(Some(keys[i].1));
        }
        i = i + 1;
    }
    Ok(None)
}

/// The state after pulling one header from a byte slice.
pub open spec fn cur_after(d: DecoderView) -> DecoderView {
    pull_slice_spec(d).1
}

} // verus!
