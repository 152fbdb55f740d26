//! Building blocks of the diagnostic notation (CDN) parser: integer
//! literals of any size, prefixes and IP address literals.

use vstd::prelude::*;
use vstd::string::StringSliceAdditionalSpecFns;

use crate::codec::{uint_bytes, utf8_text, Encoder};
use crate::derive_analysis::{dec_value, is_dec};
use vstd::utf8::{decode_utf8, valid_utf8};
use crate::float::{widen16, widen32, f16_to_f64_bits, f32_to_f64_bits};
use crate::canonical::{
    be_value, bytes_eq, copy_bytes, leading_zeros_end, lemma_be_value_bound, lemma_pow256_8,
    lemma_pow256_mono, pow256, strip_zeros,
};

verus! {

/// Why a piece of diagnostic notation was refused.
#[derive(Copy, Clone, Debug, PartialEq, Eq, Structural)]
pub enum CdnError {
    /// The text is malformed at this byte offset.
    Syntax(usize),
    /// The text is well formed but means nothing valid; the offset is
    /// where the literal starts.
    Semantic(usize, Problem),
}

/// What is wrong with a well-formed literal.
#[derive(Copy, Clone, Debug, PartialEq, Eq, Structural)]
pub enum Problem {
    /// A float extension holds other than 2, 4 or 8 bytes.
    FloatWidth,
    /// A hexadecimal float lies beyond the binary64 range.
    HexFloatOverflow,
    /// An IP prefix length is longer than the address.
    PrefixRange,
    /// An IP prefix has nonzero bits beyond its length.
    HostBits,
}

/// An integer of any size: a sign and the big-endian bytes of its
/// magnitude, without leading zero bytes.
#[derive(Clone, Debug)]
pub struct BigInt {
    pub negative: bool,
    pub magnitude: Vec<u8>,
}

/// A byte string has no leading zero byte.
pub open spec fn minimal(bytes: Seq<u8>) -> bool {
    bytes.len() == 0 || bytes[0] != 0
}

/// The big-endian value of a single byte is the byte.
pub proof fn lemma_be_value_single(x: u8)
    ensures
        be_value(seq![x]) == x,
{
    assert(seq![x].drop_last() =~= Seq::<u8>::empty());
    assert(be_value(Seq::<u8>::empty()) == 0);
}

/// The big-endian value of a concatenation.
pub proof fn lemma_be_value_concat(a: Seq<u8>, b: Seq<u8>)
    ensures
        be_value(a + b) == be_value(a) * pow256(b.len()) + be_value(b),
    decreases b.len(),
{
    if b.len() == 0 {
        assert(a + b =~= a);
        assert(pow256(0) == 1);
        assert(be_value(b) == 0);
    } else {
        let b1 = b.drop_last();
        lemma_be_value_concat(a, b1);
        assert((a + b).drop_last() =~= a + b1);
        assert((a + b).last() == b.last());
        let x = be_value(a);
        let p = pow256(b1.len());
        let y = be_value(b1);
        let l = b.last() as int;
        assert(pow256(b.len()) == 256 * p);
        assert(be_value(b) == y * 256 + l);
        assert(be_value(a + b) == be_value(a + b1) * 256 + l);
        assert((x * p + y) * 256 + l == x * (256 * p) + (y * 256 + l)) by (nonlinear_arith);
    }
}

/// Leading zero bytes do not change the value.
pub proof fn lemma_strip_zeros_value(bytes: Seq<u8>)
    ensures
        be_value(strip_zeros(bytes)) == be_value(bytes),
        minimal(strip_zeros(bytes)),
    decreases bytes.len(),
{
    if bytes.len() > 0 && bytes[0] == 0 {
        let t = bytes.drop_first();
        lemma_strip_zeros_value(t);
        assert(seq![bytes[0]] + t =~= bytes);
        lemma_be_value_concat(seq![bytes[0]], t);
        lemma_be_value_single(bytes[0]);
    }
}

/// Removes the leading zero bytes of `bytes`.
pub fn strip_leading_zeroes(bytes: &mut Vec<u8>)
    ensures
        final(bytes)@ == strip_zeros(old(bytes)@),
{
    let keep = leading_zeros_end(bytes.as_slice());
    if keep > 0 {
        let tail = copy_bytes(&bytes.as_slice()[keep..bytes.len()]);
        assert(bytes@.subrange(keep as int, bytes@.len() as int) =~= bytes@.skip(keep as int));
        *bytes = tail;
    } else {
        assert(bytes@.skip(0) =~= bytes@);
    }
}

/// The value of a big-endian byte string of at most eight bytes.
pub fn bytes_to_u64(bytes: &[u8]) -> (r: Option<u64>)
    ensures
        bytes@.len() > 8 ==> r is None,
        bytes@.len() <= 8 ==> r == Some(be_value(bytes@) as u64) && be_value(bytes@) < pow256(bytes@.len()),
{
    if bytes.len() > 8 {
        return None;
    }
    let mut value: u64 = 0;
    let mut i: usize = 0;
    proof {
        lemma_pow256_8();
    }
    while i < bytes.len()
        invariant
            bytes@.len() <= 8,
            i <= bytes@.len(),
            value == be_value(bytes@.take(i as int)),
            pow256(8) == 0x1_0000_0000_0000_0000,
        decreases bytes@.len() - i,
    {
        proof {
            assert(bytes@.take(i + 1).drop_last() =~= bytes@.take(i as int));
            lemma_be_value_bound(bytes@.take(i + 1));
            lemma_pow256_mono((i + 1) as nat, 8);
        }
        value = value * 256 + bytes[i] as u64;
        i = i + 1;
    }
    assert(bytes@.take(bytes@.len() as int) =~= bytes@);
    proof {
        lemma_be_value_bound(bytes@);
    }
    Some(value)
}

/// A big-endian byte string decremented by one with borrow, bytes wrapping
/// from zero to 0xff.
pub open spec fn decrement(bytes: Seq<u8>) -> Seq<u8>
    decreases bytes.len(),
{
    if bytes.len() == 0 {
        bytes
    } else if bytes.last() > 0 {
        bytes.drop_last().push((bytes.last() - 1) as u8)
    } else {
        decrement(bytes.drop_last()).push(0xffu8)
    }
}

/// Decrementing a positive byte string lowers its value by one and keeps
/// its length.
pub proof fn lemma_decrement(bytes: Seq<u8>)
    ensures
        decrement(bytes).len() == bytes.len(),
        be_value(bytes) > 0 ==> be_value(decrement(bytes)) + 1 == be_value(bytes),
    decreases bytes.len(),
{
    if bytes.len() > 0 {
        let d = bytes.drop_last();
        lemma_decrement(d);
        if bytes.last() > 0 {
            assert(decrement(bytes).drop_last() =~= d);
        } else {
            assert(decrement(bytes).drop_last() =~= decrement(d));
        }
    }
}

/// The magnitude one less than `bytes` (a big-endian magnitude), without
/// leading zero bytes.
pub fn subtract_one(bytes: &[u8]) -> (r: Vec<u8>)
    ensures
        r@ == strip_zeros(decrement(bytes@)),
        be_value(bytes@) > 0 ==> be_value(r@) + 1 == be_value(bytes@),
        minimal(r@),
{
    let mut out = copy_bytes(bytes);
    let n = out.len();
    let mut i = n;
    let mut done = false;
    assert(bytes@.take(n as int) =~= bytes@);
    assert(decrement(bytes@) =~= decrement(bytes@.take(n as int)) + Seq::new(0nat, |k: int| 0xffu8));
    while i > 0 && !done
        invariant
            n == bytes@.len(),
            out@.len() == n,
            i <= n,
            !done ==> out@ == bytes@.take(i as int) + Seq::new((n - i) as nat, |k: int| 0xffu8),
            !done ==> decrement(bytes@) == decrement(bytes@.take(i as int)) + Seq::new(
                (n - i) as nat,
                |k: int| 0xffu8,
            ),
            done ==> out@ == decrement(bytes@),
        decreases 2 * i + (if done { 0int } else { 1int }),
    {
        let b = out[i - 1];
        let ghost t = bytes@.take(i as int);
        assert(t.last() == b);
        assert(t.drop_last() =~= bytes@.take(i - 1));
        if b > 0 {
            out.set(i - 1, b - 1);
            done = true;
            assert(out@ =~= decrement(bytes@));
        } else {
            out.set(i - 1, 0xff);
            i = i - 1;
            assert(out@ =~= bytes@.take(i as int) + Seq::new((n - i) as nat, |k: int| 0xffu8));
            assert(decrement(bytes@) =~= decrement(bytes@.take(i as int)) + Seq::new(
                (n - i) as nat,
                |k: int| 0xffu8,
            ));
        }
    }
    if !done {
        assert(bytes@.take(0) =~= Seq::<u8>::empty());
        assert(out@ =~= decrement(bytes@));
    }
    strip_leading_zeroes(&mut out);
    proof {
        lemma_decrement(bytes@);
        lemma_strip_zeros_value(decrement(bytes@));
    }
    out
}

/// The magnitude of `value`, as minimal big-endian bytes.
fn magnitude_bytes(value: u128) -> (r: Vec<u8>)
    ensures
        be_value(r@) == value,
        minimal(r@),
{
    let mut rest = value;
    let mut bytes: Vec<u8> = Vec::new();
    assert(pow256(0) == 1);
    assert(be_value(bytes@) == 0);
    while rest > 0
        invariant
            be_value(bytes@) + rest * pow256(bytes@.len()) == value,
            rest > 0 || minimal(bytes@),
        decreases rest,
    {
        let low = (rest % 256) as u8;
        let high = rest / 256;
        let ghost old_bytes = bytes@;
        bytes.insert(0, low);
        proof {
            assert(bytes@ =~= seq![low] + old_bytes);
            lemma_be_value_concat(seq![low], old_bytes);
            lemma_be_value_single(low);
            let p = pow256(old_bytes.len());
            assert(pow256(bytes@.len()) == 256 * p);
            assert(rest == high * 256 + low);
            assert(rest * p == low * p + high * (256 * p)) by (nonlinear_arith)
                requires
                    rest == high * 256 + low,
            ;
            assert(be_value(bytes@) + high * pow256(bytes@.len()) == value);
        }
        rest = high;
    }
    bytes
}

impl BigInt {
    /// The sign and magnitude of a 128-bit integer.
    pub fn from_i128(value: i128) -> (r: Self)
        ensures
            r.negative == (value < 0),
            be_value(r.magnitude@) == (if value < 0 { -value } else { value as int }),
            minimal(r.magnitude@),
    {
        let negative = value < 0;
        let magnitude: u128 = if negative {
            ((-(value + 1)) as u128) + 1
        } else {
            value as u128
        };
        let bytes = magnitude_bytes(magnitude);
        BigInt { negative: negative && bytes.len() > 0, magnitude: bytes }
    }
}

/// The value of an ASCII digit or letter as a digit (36 or more for any
/// other byte).
pub open spec fn digit_of(b: u8) -> nat {
    if 0x30 <= b <= 0x39 {
        (b - 0x30) as nat
    } else if 0x61 <= b <= 0x7a {
        (b - 0x61 + 10) as nat
    } else if 0x41 <= b <= 0x5a {
        (b - 0x41 + 10) as nat
    } else {
        99
    }
}

/// Every byte is a digit in `base`.
pub open spec fn digits_valid(digits: Seq<u8>, base: nat) -> bool {
    forall|i: int| 0 <= i < digits.len() ==> digit_of(#[trigger] digits[i]) < base
}

/// The value of a string of digits in `base`, most significant first.
pub open spec fn digits_value(digits: Seq<u8>, base: nat) -> nat
    decreases digits.len(),
{
    if digits.len() == 0 {
        0
    } else {
        digits_value(digits.drop_last(), base) * base + digit_of(digits.last())
    }
}

/// A digit string without its leading `0` characters.
pub open spec fn skip_zero_digits(digits: Seq<u8>) -> Seq<u8>
    decreases digits.len(),
{
    if digits.len() > 0 && digits[0] == 0x30 {
        skip_zero_digits(digits.drop_first())
    } else {
        digits
    }
}

/// The digit value of one byte, when it is an ASCII digit or letter.
pub(crate) fn digit_value(b: u8) -> (d: u32)
    ensures
        d == digit_of(b),
{
    if 0x30 <= b && b <= 0x39 {
        (b - 0x30) as u32
    } else if 0x61 <= b && b <= 0x7a {
        (b - 0x61 + 10) as u32
    } else if 0x41 <= b && b <= 0x5a {
        (b - 0x41 + 10) as u32
    } else {
        99
    }
}

/// Multiplies a big-endian magnitude by `base` and adds `digit`.
#[verifier::spinoff_prover]
fn mul_add(mag: &mut Vec<u8>, base: u32, digit: u32)
    requires
        2 <= base <= 16,
        digit < base,
    ensures
        be_value(final(mag)@) == be_value(old(mag)@) * base + digit,
{
    let ghost orig = mag@;
    let n = mag.len();
    let mut carry: u32 = digit;
    let mut i = n;
    assert(mag@.skip(n as int) =~= Seq::<u8>::empty());
    assert(orig.skip(n as int) =~= Seq::<u8>::empty());
    assert(pow256(0) == 1);
    assert(be_value(Seq::<u8>::empty()) == 0);
    assert(be_value(mag@.skip(i as int)) == 0);
    assert(be_value(orig.skip(i as int)) == 0);
    proof {
        let z = be_value(orig.skip(i as int));
        let p = pow256((n - i) as nat);
        assert(p == 1);
        assert(z * base == 0 && carry * p == carry) by (nonlinear_arith)
            requires
                z == 0,
                p == 1,
        ;
    }
    assert(be_value(mag@.skip(i as int)) + carry * pow256((n - i) as nat) == be_value(orig.skip(i as int))
        * base + digit);
    while i > 0
        invariant
            2 <= base <= 16,
            n == orig.len(),
            mag@.len() == n,
            i <= n,
            carry < 16,
            mag@.take(i as int) == orig.take(i as int),
            be_value(mag@.skip(i as int)) + carry * pow256((n - i) as nat) == be_value(orig.skip(i as int))
                * base + digit,
        decreases i,
    {
        let ghost prev = mag@;
        let x = mag[i - 1];
        assert(x == orig[i - 1]) by {
            assert(mag@.take(i as int)[i - 1] == orig.take(i as int)[i - 1]);
        }
        assert((x as u32) * base <= 255 * 16) by (nonlinear_arith)
            requires
                base <= 16,
        ;
        let t = (x as u32) * base + carry;
        let low = (t % 256) as u8;
        let high = t / 256;
        mag.set(i - 1, low);
        proof {
            let p = pow256((n - i) as nat);
            assert(mag@.take(i - 1) =~= orig.take(i - 1)) by {
                assert(orig.take(i - 1) =~= orig.take(i as int).take(i - 1));
                assert(prev.take(i - 1) =~= prev.take(i as int).take(i - 1));
            }
            assert(mag@.skip(i - 1) =~= seq![low] + prev.skip(i as int));
            assert(orig.skip(i - 1) =~= seq![x] + orig.skip(i as int));
            lemma_be_value_concat(seq![low], prev.skip(i as int));
            lemma_be_value_concat(seq![x], orig.skip(i as int));
            lemma_be_value_single(low);
            lemma_be_value_single(x);
            assert(pow256((n - (i - 1)) as nat) == 256 * p);
            let sp = be_value(prev.skip(i as int));
            let so = be_value(orig.skip(i as int));
            assert(t == high * 256 + low);
            assert(low * p + sp + high * (256 * p) == base * (x * p + so) + digit) by (nonlinear_arith)
                requires
                    t == high * 256 + low,
                    t == x * base + carry,
                    sp + carry * p == so * base + digit,
            ;
            assert(high < 16) by (nonlinear_arith)
                requires
                    t == high * 256 + low,
                    t <= 255 * 16 + 15,
                    low >= 0,
            ;
        }
        carry = high;
        i = i - 1;
    }
    assert(mag@.skip(0) =~= mag@);
    assert(orig.skip(0) =~= orig);
    if carry > 0 {
        let ghost before = mag@;
        mag.insert(0, carry as u8);
        proof {
            assert(mag@ =~= seq![carry as u8] + before);
            lemma_be_value_concat(seq![carry as u8], before);
            lemma_be_value_single(carry as u8);
        }
    }
}

/// A minimal magnitude of more than sixteen bytes is at least `2^128`.
proof fn lemma_minimal_wide(m: Seq<u8>)
    requires
        minimal(m),
        m.len() > 16,
    ensures
        be_value(m) >= pow256(16),
{
    assert(m =~= seq![m[0]] + m.drop_first());
    lemma_be_value_concat(seq![m[0]], m.drop_first());
    lemma_be_value_single(m[0]);
    lemma_pow256_mono(16, m.drop_first().len());
    assert(be_value(m) >= pow256(m.drop_first().len())) by (nonlinear_arith)
        requires
            be_value(m) == m[0] * pow256(m.drop_first().len()) + be_value(m.drop_first()),
            m[0] >= 1,
    ;
}

/// Whether digits that start with `+` are still read: a `+` is accepted
/// before at least one valid digit when the value fits in 128 bits, and
/// for any value in base ten unless the leading group of nine-digit
/// chunks is the `+` alone.
pub open spec fn plus_accepted(d: Seq<u8>, base: nat) -> bool {
    &&& d.len() > 1
    &&& d[0] == 0x2b
    &&& digits_valid(d.drop_first(), base)
    &&& (digits_value(d.drop_first(), base) < pow256(16) || (base == 10 && d.len() % 9 != 1))
}

/// Parses the digits of an integer literal in `base` (2, 8, 10 or 16)
/// into a sign and magnitude. Leading zeros are ignored; a literal with
/// no other digit is zero, which is never negative. A `+` after the
/// leading zeros is read as the native integer parsers read it.
pub fn parse_bigint_digits(negative: bool, digits: &str, base: u32, offset: usize) -> (r: Result<
    BigInt,
    CdnError,
>)
    requires
        base == 2 || base == 8 || base == 10 || base == 16,
    ensures
        ({
            let d = skip_zero_digits(digits.spec_bytes());
            if d.len() == 0 {
                r matches Ok(b) && !b.negative && b.magnitude@.len() == 0
            } else if digits_valid(d, base as nat) {
                r matches Ok(b) && b.negative == negative && be_value(b.magnitude@) == digits_value(
                    d,
                    base as nat,
                ) && minimal(b.magnitude@)
            } else if plus_accepted(d, base as nat) {
                r matches Ok(b) && b.negative == negative && be_value(b.magnitude@) == digits_value(
                    d.drop_first(),
                    base as nat,
                ) && minimal(b.magnitude@)
            } else {
                r == Err::<BigInt, CdnError>(CdnError::Syntax(offset))
            }
        }),
{
    let bytes = digits.as_bytes();
    let n = bytes.len();
    let mut start: usize = 0;
    assert(bytes@.skip(0) =~= bytes@);
    while start < n && bytes[start] == 0x30
        invariant
            n == bytes@.len(),
            start <= n,
            skip_zero_digits(bytes@) == skip_zero_digits(bytes@.skip(start as int)),
        decreases n - start,
    {
        assert(bytes@.skip(start as int).drop_first() =~= bytes@.skip(start + 1));
        start = start + 1;
    }
    let ghost d = bytes@.skip(start as int);
    assert(skip_zero_digits(bytes@) == d);
    if start == n {
        return Ok(BigInt { negative: false, magnitude: Vec::new() });
    }
    let plus = bytes[start] == 0x2b;
    assert(d[0] == bytes@[start as int]);
    if plus {
        assert(digit_of(d[0]) >= base);
        assert(!digits_valid(d, base as nat));
        if start + 1 == n {
            return Err(CdnError::Syntax(offset));
        }
    }
    let from: usize = if plus {
        start + 1
    } else {
        start
    };
    let ghost e = bytes@.skip(from as int);
    assert(plus ==> e =~= d.drop_first());
    assert(!plus ==> e =~= d);
    let mut magnitude: Vec<u8> = Vec::new();
    let mut i = from;
    assert(e.take(0) =~= Seq::<u8>::empty());
    while i < n
        invariant
            n == bytes@.len(),
            from <= i <= n,
            e == bytes@.skip(from as int),
            d == bytes@.skip(start as int),
            d.len() > 0,
            bytes@ == digits.spec_bytes(),
            skip_zero_digits(bytes@) == d,
            plus == (d[0] == 0x2b),
            plus ==> e == d.drop_first() && !digits_valid(d, base as nat),
            !plus ==> e == d,
            base == 2 || base == 8 || base == 10 || base == 16,
            digits_valid(e.take(i - from), base as nat),
            be_value(magnitude@) == digits_value(e.take(i - from), base as nat),
        decreases n - i,
    {
        let v = digit_value(bytes[i]);
        assert(e[i - from] == bytes@[i as int]);
        if v >= base {
            assert(digit_of(e[i - from]) >= base);
            assert(!digits_valid(e, base as nat));
            return Err(CdnError::Syntax(offset));
        }
        mul_add(&mut magnitude, base, v);
        proof {
            let k = i - from;
            assert(e.take(k + 1).drop_last() =~= e.take(k));
            assert(e.take(k + 1).last() == bytes@[i as int]);
            assert forall|j: int| 0 <= j < k + 1 implies digit_of(#[trigger] e.take(k + 1)[j]) < base by {
                if j < k {
                    assert(e.take(k + 1)[j] == e.take(k)[j]);
                }
            }
        }
        i = i + 1;
    }
    assert(e.take(n - from) =~= e);
    let ghost raw = magnitude@;
    strip_leading_zeroes(&mut magnitude);
    proof {
        lemma_strip_zeros_value(raw);
    }
    if plus && magnitude.len() > 16 && !(base == 10 && (n - start) % 9 != 1) {
        proof {
            lemma_minimal_wide(magnitude@);
        }
        return Err(CdnError::Syntax(offset));
    }
    proof {
        if plus && magnitude@.len() <= 16 {
            lemma_be_value_bound(magnitude@);
            lemma_pow256_mono(magnitude@.len(), 16);
        }
    }
    Ok(BigInt { negative, magnitude })
}

/// A parsed literal of diagnostic notation. Floating-point values are held
/// as their binary64 bit patterns.
#[derive(Clone, Debug)]
pub enum Atom {
    Integer(BigInt),
    Float(u64),
    /// A float with its exact encoding.
    FloatRaw { bytes: Vec<u8>, value: u64 },
    Bytes(Vec<u8>),
    Text(String),
    Simple(u8),
    /// An item already encoded.
    Raw(Vec<u8>),
}

/// An application-extension argument: an encoded item, or text not yet
/// encoded.
pub enum Arg {
    Encoded(Vec<u8>),
    Text(String),
}

impl Arg {
    /// The encoded item the argument stands for.
    pub fn into_encoded(self) -> (r: Result<Vec<u8>, CdnError>)
        ensures
            match self {
                Arg::Encoded(bytes) => r matches Ok(v) && v@ == bytes@,
                Arg::Text(text) => r matches Ok(v) && v@ == text_item(text@),
            },
    {
        match self {
            Arg::Encoded(bytes) => Ok(bytes),
            Arg::Text(text) => {
                let mut enc = Encoder::from(Vec::new());
                let _ = enc.text(text.as_str());
                Ok(enc.into_inner())
            },
        }
    }
}

/// The encoding of a text string item.
pub open spec fn text_item(text: Seq<char>) -> Seq<u8> {
    uint_bytes(0x60, vstd::utf8::encode_utf8(text).len() as u64) + vstd::utf8::encode_utf8(text)
}

/// Whether `ch` may appear in an application-extension prefix.
pub fn is_app_char_any(ch: char) -> (r: bool)
    ensures
        r == ({
            let c = ch as u32;
            (0x30 <= c <= 0x39) || (0x41 <= c <= 0x5a) || (0x61 <= c <= 0x7a) || c == 0x2d
        }),
{
    ('0' <= ch && ch <= '9') || ('A' <= ch && ch <= 'Z') || ('a' <= ch && ch <= 'z') || ch == '-'
}

/// A byte is an ASCII digit.
pub open spec fn is_digit(b: u8) -> bool {
    0x30 <= b <= 0x39
}

/// The text of a tag number: `0`, or a nonzero digit followed by digits.
pub open spec fn tag_uint_text(bytes: Seq<u8>) -> bool {
    bytes == seq![0x30u8] || (bytes.len() > 0 && 0x31 <= bytes[0] <= 0x39 && forall|i: int|
        1 <= i < bytes.len() ==> is_digit(#[trigger] bytes[i]))
}

/// Whether `s` spells a tag number without a sign or leading zeros.
pub fn is_tag_uint(s: &str) -> (r: bool)
    ensures
        r == tag_uint_text(s.spec_bytes()),
{
    let b = s.as_bytes();
    if b.len() == 1 && b[0] == 0x30 {
        assert(b@ =~= seq![0x30u8]);
        return true;
    }
    if b.len() == 0 || !(0x31 <= b[0] && b[0] <= 0x39) {
        return false;
    }
    let mut i: usize = 1;
    while i < b.len()
        invariant
            1 <= i <= b@.len(),
            b@ == s.spec_bytes(),
            0x31 <= b@[0] <= 0x39,
            forall|k: int| 1 <= k < i ==> is_digit(#[trigger] b@[k]),
        decreases b@.len() - i,
    {
        if !(0x30 <= b[i] && b[i] <= 0x39) {
            assert(!is_digit(b@[i as int]));
            assert(b@ != seq![0x30u8]);
            return false;
        }
        i = i + 1;
    }
    true
}

/// Splits a leading `-` or `+` off a literal: whether it was `-`, and the
/// rest.
pub fn strip_sign(s: &str) -> (r: (bool, &str))
    ensures
        s.spec_bytes().len() > 0 && s.spec_bytes()[0] == 0x2d ==> r.0 && r.1.spec_bytes()
            == s.spec_bytes().skip(1),
        s.spec_bytes().len() > 0 && s.spec_bytes()[0] == 0x2b ==> !r.0 && r.1.spec_bytes()
            == s.spec_bytes().skip(1),
        !(s.spec_bytes().len() > 0 && (s.spec_bytes()[0] == 0x2d || s.spec_bytes()[0] == 0x2b))
            ==> !r.0 && r.1@ == s@,
{
    let b = s.as_bytes();
    if b.len() > 0 && (b[0] == 0x2d || b[0] == 0x2b) {
        proof {
            vstd::utf8::encode_utf8_valid_utf8(s@);
            reveal_with_fuel(vstd::utf8::is_char_boundary, 2);
        }
        let (_, rest) = s.split_at(1);
        assert(rest.spec_bytes() =~= s.spec_bytes().skip(1));
        (b[0] == 0x2d, rest)
    } else {
        (false, s)
    }
}

/// The value of the float extension `float'…'` with its exact encoding:
/// the bytes are a big-endian half, single or double.
pub fn float_atom(bytes: Vec<u8>, offset: usize) -> (r: Result<Atom, CdnError>)
    ensures
        bytes@.len() == 2 ==> (r matches Ok(Atom::FloatRaw { bytes: raw, value }) && value == widen16(
            be_value(bytes@) as u16,
        ) && raw@ == seq![0xf9u8] + bytes@),
        bytes@.len() == 4 ==> (r matches Ok(Atom::FloatRaw { bytes: raw, value }) && value == widen32(
            be_value(bytes@) as u32,
        ) && raw@ == seq![0xfau8] + bytes@),
        bytes@.len() == 8 ==> (r matches Ok(Atom::FloatRaw { bytes: raw, value }) && value == be_value(
            bytes@,
        ) && raw@ == seq![0xfbu8] + bytes@),
        bytes@.len() != 2 && bytes@.len() != 4 && bytes@.len() != 8 ==> r == Err::<Atom, CdnError>(
            CdnError::Semantic(offset, Problem::FloatWidth),
        ),
{
    let n = bytes.len();
    if n != 2 && n != 4 && n != 8 {
        return Err(CdnError::Semantic(offset, Problem::FloatWidth));
    }
    let bits = match bytes_to_u64(bytes.as_slice()) {
        Some(x) => x,
        None => 0,
    };
    proof {
        reveal_with_fuel(pow256, 9);
    }
    let (prefix, value) = if n == 2 {
        (0xf9u8, f16_to_f64_bits(bits as u16))
    } else if n == 4 {
        (0xfau8, f32_to_f64_bits(bits as u32))
    } else {
        (0xfbu8, bits)
    };
    let mut raw: Vec<u8> = Vec::new();
    raw.push(prefix);
    let mut tail = bytes;
    raw.append(&mut tail);
    Ok(Atom::FloatRaw { bytes: raw, value })
}

/// The mask that keeps the first `rem` bits of a byte.
pub open spec fn high_mask(rem: nat) -> u8 {
    (0xffu8 << (8 - rem) as u8) as u8
}

/// The bytes of an address that a prefix of `prefix` bits covers, with
/// the bits beyond it cleared.
pub open spec fn masked(bytes: Seq<u8>, prefix: nat) -> Seq<u8> {
    let full = prefix / 8;
    let rem = prefix % 8;
    if rem == 0 {
        if full <= bytes.len() { bytes.take(full as int) } else { bytes }
    } else {
        let t = if full + 1 <= bytes.len() { bytes.take((full + 1) as int) } else { bytes };
        if t.len() == 0 {
            t
        } else {
            t.update(t.len() - 1, t.last() & high_mask(rem))
        }
    }
}

/// Keeps the bytes that a prefix of `prefix` bits covers, clearing the
/// bits beyond it.
pub fn mask_prefix(bytes: Vec<u8>, prefix: u8) -> (r: Vec<u8>)
    ensures
        r@ == masked(bytes@, prefix as nat),
{
    let mut bytes = bytes;
    let full = (prefix / 8) as usize;
    let rem = prefix % 8;
    if rem == 0 {
        bytes.truncate(full);
    } else {
        bytes.truncate(full + 1);
        let n = bytes.len();
        if n > 0 {
            let mask: u8 = 0xffu8 << (8 - rem);
            let last = bytes[n - 1];
            bytes.set(n - 1, last & mask);
        }
    }
    bytes
}

/// A byte string without its trailing zero bytes.
pub open spec fn drop_trailing_zeros(bytes: Seq<u8>) -> Seq<u8>
    decreases bytes.len(),
{
    if bytes.len() > 0 && bytes.last() == 0 {
        drop_trailing_zeros(bytes.drop_last())
    } else {
        bytes
    }
}

/// The position of the first `/` in a byte string, if any.
pub open spec fn first_slash(bytes: Seq<u8>) -> Option<int> {
    if exists|i: int| 0 <= i < bytes.len() && bytes[i] == 0x2f {
        Some(choose|i: int| 0 <= i < bytes.len() && bytes[i] == 0x2f && forall|j: int| 0 <= j < i ==> bytes[j] != 0x2f)
    } else {
        None
    }
}

/// An IP address, as its octets in network order.
#[derive(Copy, Clone, Debug, PartialEq, Eq)]
pub enum IpAddress {
    V4([u8; 4]),
    V6([u8; 16]),
}

/// The octets of an address.
pub open spec fn octets(a: IpAddress) -> Seq<u8> {
    match a {
        IpAddress::V4(b) => b@,
        IpAddress::V6(b) => b@,
    }
}

/// The tag of an address (RFC 9164).
pub open spec fn ip_tag(a: IpAddress) -> u64 {
    match a {
        IpAddress::V4(_) => 52,
        IpAddress::V6(_) => 54,
    }
}

/// The longest prefix of an address, in bits.
pub open spec fn max_prefix(a: IpAddress) -> nat {
    match a {
        IpAddress::V4(_) => 32,
        IpAddress::V6(_) => 128,
    }
}

/// A `:` stands among the first `k` bytes.
pub open spec fn has_colon(b: Seq<u8>, k: int) -> bool {
    exists|j: int| 0 <= j < k && #[trigger] b[j] == 0x3a
}

/// Where an IP literal's prefix is malformed: it is empty, has a leading
/// zero or holds a byte other than a digit.
pub open spec fn bad_prefix_text(p: Seq<u8>) -> bool {
    p.len() == 0 || (p.len() > 1 && p[0] == 0x30) || exists|i: int| 0 <= i < p.len() && !is_digit(#[trigger] p[i])
}

/// How the content of an IP literal splits at its first `/`: the
/// length of the address part, whether it holds a `:` (IPv6), and the
/// prefix length, or the error.
pub open spec fn ip_parts(b: Seq<u8>, offset: usize) -> Result<(usize, bool, Option<u8>), CdnError> {
    match first_slash(b) {
        None => Ok((b.len() as usize, has_colon(b, b.len() as int), None)),
        Some(k) => {
            let p = b.skip(k + 1);
            if bad_prefix_text(p) {
                Err(CdnError::Syntax(offset))
            } else if digits_value(p, 10) > 255 {
                Err(CdnError::Syntax((offset + k + 1) as usize))
            } else {
                Ok((k as usize, has_colon(b, k), Some(digits_value(p, 10) as u8)))
            }
        },
    }
}

/// Splits the content of an IP literal (`ip'…'`) at its first `/`: the
/// length of the address part, whether the address holds a `:` (IPv6),
/// and the prefix length after the `/`, if any.
#[verifier::spinoff_prover]
pub fn ip_literal_parts(content: &str, offset: usize) -> (r: Result<(usize, bool, Option<u8>), CdnError>)
    requires
        offset + content.spec_bytes().len() < usize::MAX,
    ensures
        r == ip_parts(content.spec_bytes(), offset),
        r matches Ok((k, _, _)) ==> k <= content.spec_bytes().len(),
{
    let b = content.as_bytes();
    let n = b.len();
    let mut k: usize = 0;
    let mut colon = false;
    while k < n && b[k] != 0x2f
        invariant
            n == b@.len(),
            k <= n,
            forall|j: int| 0 <= j < k ==> b@[j] != 0x2f,
            colon == has_colon(b@, k as int),
        decreases n - k,
    {
        if b[k] == 0x3a {
            colon = true;
        }
        k = k + 1;
    }
    if k == n {
        assert(first_slash(b@) is None);
        return Ok((n, colon, None));
    }
    proof {
        assert(b@[k as int] == 0x2f);
        let w = choose|i: int| 0 <= i < b@.len() && b@[i] == 0x2f && forall|j: int| 0 <= j < i ==> b@[j] != 0x2f;
        assert(first_slash(b@) == Some(w));
        if w < k {
        } else if w > k {
            assert(b@[k as int] != 0x2f);
        }
        assert(w == k);
    }
    let ghost p = b@.skip(k + 1);
    let start = k + 1;
    if start == n || (n - start > 1 && b[start] == 0x30) {
        assert(bad_prefix_text(p));
        return Err(CdnError::Syntax(offset));
    }
    let mut i = start;
    while i < n
        invariant
            n == b@.len(),
            start <= i <= n,
            p == b@.skip(start as int),
            b@ == content.spec_bytes(),
            first_slash(b@) == Some(k as int),
            start == k + 1,
            forall|j: int| start <= j < i ==> is_digit(#[trigger] b@[j]),
        decreases n - i,
    {
        if !(0x30 <= b[i] && b[i] <= 0x39) {
            assert(!is_digit(p[i - start]));
            assert(bad_prefix_text(p));
            return Err(CdnError::Syntax(offset));
        }
        i = i + 1;
    }
    assert(!bad_prefix_text(p)) by {
        assert forall|j: int| 0 <= j < p.len() implies is_digit(#[trigger] p[j]) by {
            assert(p[j] == b@[start + j]);
        }
    }
    let mut value: u32 = 0;
    let mut i = start;
    assert(p.take(0) =~= Seq::<u8>::empty());
    while i < n
        invariant
            n == b@.len(),
            start <= i <= n,
            p == b@.skip(start as int),
            b@ == content.spec_bytes(),
            first_slash(b@) == Some(k as int),
            start == k + 1,
            offset + n < usize::MAX,
            !bad_prefix_text(p),
            forall|j: int| 0 <= j < p.len() ==> is_digit(#[trigger] p[j]),
            value <= 255,
            value == digits_value(p.take(i - start), 10),
        decreases n - i,
    {
        assert(p[i - start] == b@[i as int]);
        let d = (b[i] - 0x30) as u32;
        let next = value * 10 + d;
        proof {
            assert(p.take(i - start + 1).drop_last() =~= p.take(i - start));
            assert(p.take(i - start + 1).last() == b@[i as int]);
        }
        if next > 255 {
            proof {
                lemma_digits_value_prefix_le(p, i - start + 1);
            }
            return Err(CdnError::Syntax(offset + k + 1));
        }
        value = next;
        i = i + 1;
    }
    assert(p.take(n - start) =~= p);
    Ok((k, colon, Some(value as u8)))
}

/// A longer digit string is worth at least as much as its prefix.
proof fn lemma_digits_value_prefix_le(p: Seq<u8>, i: int)
    requires
        0 <= i <= p.len(),
        forall|j: int| 0 <= j < p.len() ==> is_digit(#[trigger] p[j]),
    ensures
        digits_value(p.take(i), 10) <= digits_value(p, 10),
    decreases p.len() - i,
{
    if i < p.len() {
        lemma_digits_value_prefix_le(p.drop_last(), if i < p.len() { i } else { i - 1 });
        assert(p.drop_last().take(i) =~= p.take(i));
    } else {
        assert(p.take(i) =~= p);
    }
}

/// The item of an IP literal for an address (RFC 9164): with `tagged`,
/// tag 52 (IPv4) or 54 (IPv6) around it. An address alone is a byte
/// string. With a prefix, it is the array of the prefix length and the
/// covered bytes without trailing zeros; the bits beyond the prefix must
/// be zero.
pub open spec fn ip_item(address: IpAddress, prefix: Option<u8>, tagged: bool, offset: usize, r: Result<Atom, CdnError>) -> bool {
    let bytes = octets(address);
    let head = if tagged { uint_bytes(0xc0, ip_tag(address)) } else { Seq::empty() };
    match prefix {
        None => if !tagged {
            r matches Ok(Atom::Bytes(v)) && v@ == bytes
        } else {
            r matches Ok(Atom::Raw(v)) && v@ == head + uint_bytes(0x40, bytes.len() as u64) + bytes
        },
        Some(p) => {
            let m = masked(bytes, p as nat);
            if p > max_prefix(address) {
                r == Err::<Atom, CdnError>(CdnError::Semantic(offset, Problem::PrefixRange))
            } else if bytes.take(m.len() as int) != m || exists|i: int|
                m.len() <= i < bytes.len() && #[trigger] bytes[i] != 0 {
                r == Err::<Atom, CdnError>(CdnError::Semantic(offset, Problem::HostBits))
            } else {
                let t = drop_trailing_zeros(m);
                r matches Ok(Atom::Raw(v)) && v@ == head + uint_bytes(0x80, 2) + uint_bytes(
                    0x00,
                    p as u64,
                ) + uint_bytes(0x40, t.len() as u64) + t
            }
        },
    }
}

/// Builds the item of an IP literal for a parsed address.
pub fn ip_atom_from(address: IpAddress, prefix: Option<u8>, tagged: bool, offset: usize) -> (r: Result<
    Atom,
    CdnError,
>)
    ensures
        ip_item(address, prefix, tagged, offset, r),
{
    let (tag_number, max, bytes): (u64, u8, Vec<u8>) = match address {
        IpAddress::V4(o) => (52, 32, array_bytes4(&o)),
        IpAddress::V6(o) => (54, 128, array_bytes16(&o)),
    };
    let mut out = Encoder::from(Vec::new());
    if tagged {
        let _ = out.tag(tag_number);
    }
    let p = match prefix {
        None => {
            if !tagged {
                return Ok(Atom::Bytes(bytes));
            }
            let _ = out.bytes(bytes.as_slice());
            return Ok(Atom::Raw(out.into_inner()));
        },
        Some(p) => p,
    };
    if p > max {
        return Err(CdnError::Semantic(offset, Problem::PrefixRange));
    }
    let mut prefix_bytes = mask_prefix(copy_bytes(bytes.as_slice()), p);
    let m = prefix_bytes.len();
    let covered = bytes_eq(&bytes.as_slice()[0..m], prefix_bytes.as_slice());
    assert(bytes@.subrange(0, m as int) =~= bytes@.take(m as int));
    let mut host_zero = true;
    let mut i = m;
    while i < bytes.len()
        invariant
            m <= i <= bytes@.len(),
            host_zero == forall|j: int| m <= j < i ==> #[trigger] bytes@[j] == 0,
        decreases bytes@.len() - i,
    {
        if bytes[i] != 0 {
            host_zero = false;
        }
        i = i + 1;
    }
    if !covered || !host_zero {
        return Err(CdnError::Semantic(offset, Problem::HostBits));
    }
    let ghost full = prefix_bytes@;
    while prefix_bytes.len() > 0 && prefix_bytes[prefix_bytes.len() - 1] == 0
        invariant
            drop_trailing_zeros(prefix_bytes@) == drop_trailing_zeros(full),
        decreases prefix_bytes@.len(),
    {
        let _ = prefix_bytes.pop();
    }
    let _ = out.array(Some(2));
    let _ = out.positive(p as u64);
    let _ = out.bytes(prefix_bytes.as_slice());
    Ok(Atom::Raw(out.into_inner()))
}

/// The octets of an IPv4 address as a vector.
fn array_bytes4(a: &[u8; 4]) -> (v: Vec<u8>)
    ensures
        v@ == a@,
{
    copy_bytes(a.as_slice())
}

/// The octets of an IPv6 address as a vector.
fn array_bytes16(a: &[u8; 16]) -> (v: Vec<u8>)
    ensures
        v@ == a@,
{
    copy_bytes(a.as_slice())
}

/// The parts of a text between its dots.
pub open spec fn dot_parts(t: Seq<char>) -> Seq<Seq<char>>
    decreases t.len(),
{
    if t.len() == 0 {
        seq![Seq::empty()]
    } else {
        let prev = dot_parts(t.drop_last());
        if t.last() == '.' {
            prev.push(Seq::empty())
        } else {
            prev.update(prev.len() - 1, prev.last().push(t.last()))
        }
    }
}

/// A decimal octet of dotted-decimal notation: one to three digits, no
/// leading zero (which would read as octal), at most 255.
pub open spec fn octet_text(p: Seq<char>) -> bool {
    &&& p.len() >= 1
    &&& forall|i: int| 0 <= i < p.len() ==> is_dec(#[trigger] p[i])
    &&& (p.len() == 1 || p[0] != '0')
    &&& dec_value(p) <= 255
}

/// The octets of an IPv4 address in dotted-decimal notation: exactly four
/// decimal octets separated by dots, and nothing else.
pub open spec fn ipv4_text_octets(t: Seq<char>) -> Option<Seq<u8>> {
    let ps = dot_parts(t);
    if ps.len() == 4 && forall|i: int| 0 <= i < 4 ==> octet_text(#[trigger] ps[i]) {
        Some(seq![dec_value(ps[0]) as u8, dec_value(ps[1]) as u8, dec_value(ps[2]) as u8, dec_value(ps[3]) as u8])
    } else {
        None
    }
}

/// What `core::net::Ipv6Addr` reads from a text (RFC 4291 §2.2 notation,
/// with `::` and an embedded IPv4 tail): its sixteen octets, or nothing.
pub uninterp spec fn ipv6_text_octets(text: Seq<char>) -> Option<Seq<u8>>;

/// `str::parse::<core::net::Ipv4Addr>`: the address's four octets when
/// the text is in dotted-decimal notation, four decimal octets without
/// leading zeros, as its documentation describes; nothing otherwise.
#[verifier::external_body]
fn parse_ipv4_text(text: &str) -> (r: Option<[u8; 4]>)
    ensures
        r is None <==> ipv4_text_octets(text@) is None,
        r matches Some(o) ==> ipv4_text_octets(text@) == Some(o@),
{
    text.parse::<core::net::Ipv4Addr>().ok().map(|a| a.octets())
}

/// `str::parse::<core::net::Ipv6Addr>`: the address's sixteen octets when
/// the text is an IPv6 address, nothing otherwise. What it accepts is
/// named by `ipv6_text_octets`, not written out.
#[verifier::external_body]
fn parse_ipv6_text(text: &str) -> (r: Option<[u8; 16]>)
    ensures
        r is None <==> ipv6_text_octets(text@) is None,
        r matches Some(o) ==> ipv6_text_octets(text@) == Some(o@),
{
    text.parse::<core::net::Ipv6Addr>().ok().map(|a| a.octets())
}

/// The octets that the address part of an IP literal reads as.
pub open spec fn address_octets(b: Seq<u8>, v6: bool) -> Option<Seq<u8>> {
    if !valid_utf8(b) {
        None
    } else if v6 {
        ipv6_text_octets(decode_utf8(b))
    } else {
        ipv4_text_octets(decode_utf8(b))
    }
}

/// Parses the content of an IP literal (`ip'…'` or `IP'…'`): the address,
/// IPv6 where it holds a `:`, and an optional `/prefix`; then builds its
/// item. An address that does not parse is a syntax error at the
/// literal's start.
pub fn ip_atom(content: &str, tagged: bool, offset: usize) -> (r: Result<Atom, CdnError>)
    requires
        offset + content.spec_bytes().len() < usize::MAX,
    ensures
        match ip_parts(content.spec_bytes(), offset) {
            Err(e) => r == Err::<Atom, CdnError>(e),
            Ok((k, v6, prefix)) => match address_octets(content.spec_bytes().take(k as int), v6) {
                None => r == Err::<Atom, CdnError>(CdnError::Syntax(offset)),
                Some(o) => exists|a: IpAddress| (a is V6) == v6 && #[trigger] octets(a) == o && ip_item(a, prefix, tagged, offset, r),
            },
        },
{
    let (k, v6, prefix) = match ip_literal_parts(content, offset) {
        Ok(parts) => parts,
        Err(e) => return Err(e),
    };
    let bytes = content.as_bytes();
    let part = &bytes[0..k];
    assert(part@ =~= content.spec_bytes().take(k as int));
    let text = match utf8_text(part) {
        Some(t) => t,
        None => return Err(CdnError::Syntax(offset)),
    };
    let address = if v6 {
        match parse_ipv6_text(text) {
            Some(o) => IpAddress::V6(o),
            None => return Err(CdnError::Syntax(offset)),
        }
    } else {
        match parse_ipv4_text(text) {
            Some(o) => IpAddress::V4(o),
            None => return Err(CdnError::Syntax(offset)),
        }
    };
    let r = ip_atom_from(address, prefix, tagged, offset);
    assert(octets(address) == address_octets(content.spec_bytes().take(k as int), v6)->Some_0);
    r
}

/// A byte with an ASCII capital letter made small.
pub open spec fn ascii_lower(b: u8) -> u8 {
    if 0x41 <= b <= 0x5a {
        (b + 0x20) as u8
    } else {
        b
    }
}

/// Digits read as `char::to_digit` reads them: `0`-`9` are 0 to 9, and a
/// letter is 10 plus its place in the alphabet whichever its case; every
/// other byte is a digit in no base up to 36.
pub proof fn lemma_digit_values()
    ensures
        forall|b: u8| 0x30 <= b <= 0x39 ==> #[trigger] digit_of(b) == b - 0x30,
        forall|b: u8| 0x41 <= b <= 0x5a ==> #[trigger] digit_of(b) == b - 0x41 + 10 && digit_of((b + 0x20) as u8) == digit_of(b),
        forall|b: u8|
            !(0x30 <= b <= 0x39 || 0x41 <= b <= 0x5a || 0x61 <= b <= 0x7a) ==> #[trigger] digit_of(b) >= 36,
{
}

/// The case of letters does not matter: digits that differ only in the
/// case of their letters are valid in the same bases and have the same
/// value.
pub proof fn lemma_digits_case_blind(d: Seq<u8>, e: Seq<u8>, base: nat)
    requires
        d.len() == e.len(),
        forall|i: int| 0 <= i < d.len() ==> ascii_lower(#[trigger] d[i]) == ascii_lower(e[i]),
    ensures
        digits_valid(d, base) == digits_valid(e, base),
        digits_value(d, base) == digits_value(e, base),
    decreases d.len(),
{
    assert forall|i: int| 0 <= i < d.len() implies digit_of(#[trigger] d[i]) == digit_of(e[i]) by {
        assert(ascii_lower(d[i]) == ascii_lower(e[i]));
    }
    if d.len() > 0 {
        lemma_digits_case_blind(d.drop_last(), e.drop_last(), base);
        assert(d.last() == d[d.len() - 1] && e.last() == e[e.len() - 1]);
    }
    if digits_valid(d, base) {
        assert forall|i: int| 0 <= i < e.len() implies digit_of(#[trigger] e[i]) < base by {
            assert(digit_of(d[i]) < base);
        }
    }
    if digits_valid(e, base) {
        assert forall|i: int| 0 <= i < d.len() implies digit_of(#[trigger] d[i]) < base by {
            assert(digit_of(e[i]) < base);
        }
    }
}

} // verus!
