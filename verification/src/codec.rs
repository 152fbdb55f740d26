//! Low-level CBOR encoding and decoding of item headers (RFC 8949 §3).
//!
//! A CBOR item on the wire consists of a one-byte prefix (major type and
//! additional information), an optional multi-byte argument and an optional
//! body. [`Encoder::push`] writes a header and [`Decoder::pull`] reads one;
//! item bodies are written and read directly.
//!
//! Floating-point values travel as their IEEE 754 binary64 bit patterns.

use vstd::prelude::*;
use vstd::string::{StringExecFns, StringSliceAdditionalSpecFns};
use vstd::utf8::{decode_utf8, encode_utf8, valid_utf8};

use crate::float::{
    narrow16, narrow32, widen16, widen32, frac_mask, f64_to_f16_bits, f64_to_f32_bits,
    f16_to_f64_bits, f32_to_f64_bits, lemma_narrow16_complete, lemma_narrow32_complete,
};

verus! {

/// Facts about the prefix bytes of headers: the major type sits in the
/// top three bits and the additional information in the low five.
pub proof fn lemma_prefix_bytes()
    by (bit_vector)
    ensures
        (0u8 << 5u8) == 0x00u8 && (1u8 << 5u8) == 0x20u8 && (2u8 << 5u8) == 0x40u8 && (3u8 << 5u8) == 0x60u8,
        (4u8 << 5u8) == 0x80u8 && (5u8 << 5u8) == 0xa0u8 && (6u8 << 5u8) == 0xc0u8,
        0x00u8 & 31u8 == 0 && 0x20u8 & 31u8 == 0 && 0x40u8 & 31u8 == 0 && 0x60u8 & 31u8 == 0,
        0x80u8 & 31u8 == 0 && 0xa0u8 & 31u8 == 0 && 0xc0u8 & 31u8 == 0,
        0x00u8 >> 5u8 == 0 && 0x20u8 >> 5u8 == 1 && 0x40u8 >> 5u8 == 2 && 0x60u8 >> 5u8 == 3,
        0x80u8 >> 5u8 == 4 && 0xa0u8 >> 5u8 == 5 && 0xc0u8 >> 5u8 == 6,
        0xffu8 >> 5u8 == 7 && 0xffu8 & 31u8 == 31,
        0xf8u8 >> 5u8 == 7 && 0xf8u8 & 31u8 == 24,
        0xf9u8 >> 5u8 == 7 && 0xf9u8 & 31u8 == 25,
        0xfau8 >> 5u8 == 7 && 0xfau8 & 31u8 == 26,
        0xfbu8 >> 5u8 == 7 && 0xfbu8 & 31u8 == 27,
        0xe0u8 | 20u8 == 0xf4u8 && 0xe0u8 | 21u8 == 0xf5u8 && 0xe0u8 | 22u8 == 0xf6u8,
{
}

/// Simple value 20: `false`.
pub const SIMPLE_FALSE: u8 = 20;

/// Simple value 21: `true`.
pub const SIMPLE_TRUE: u8 = 21;

/// Simple value 22: `null`.
pub const SIMPLE_NULL: u8 = 22;

/// Simple value 23: `undefined`.
pub const SIMPLE_UNDEFINED: u8 = 23;

/// Tag 2: an unsigned bignum encoded as a byte string.
pub const TAG_BIGPOS: u64 = 2;

/// Tag 3: a negative bignum encoded as a byte string.
pub const TAG_BIGNEG: u64 = 3;

/// The kinds of failure of the byte sink or source under an encoder or a
/// decoder.
#[derive(Copy, Clone, Debug, PartialEq, Eq, Structural)]
pub enum IoError {
    /// The input ended in the middle of an item.
    UnexpectedEof,
    /// The request cannot be written as well-formed CBOR.
    Other,
}

/// An error that occurred while reading or writing CBOR items.
#[derive(Copy, Clone, Debug, PartialEq, Eq, Structural)]
pub enum Error {
    /// An error from the underlying byte source or sink.
    Io(IoError),
    /// The input is not well-formed CBOR; holds the byte offset of the
    /// offending item.
    Syntax(usize),
}

/// A semantic representation of a CBOR item header.
///
/// A header carries the major type and the argument of an item, not its
/// body.
#[derive(Copy, Clone, Debug, PartialEq, Eq, Structural)]
pub enum Header {
    /// An unsigned integer (major type 0).
    Positive(u64),
    /// A negative integer (major type 1), holding the encoded argument `n`
    /// of the number `-1 - n`.
    Negative(u64),
    /// A floating-point value (major type 7, additional information
    /// 25-27), held as its binary64 bit pattern.
    Float(u64),
    /// A simple value (major type 7). Values 24 to 31 are reserved and have
    /// no well-formed encoding.
    Simple(u8),
    /// A tag (major type 6).
    Tag(u64),
    /// The "break" stop code terminating an indefinite-length item.
    Break,
    /// A byte string (major type 2); `None` is indefinite-length.
    Bytes(Option<usize>),
    /// A text string (major type 3); the length is in bytes.
    Text(Option<usize>),
    /// An array (major type 4); the length is in items.
    Array(Option<usize>),
    /// A map (major type 5); the length is in key/value pairs.
    Mapping(Option<usize>),
}

/// Big-endian bytes of the low 16 bits.
pub open spec fn be2(x: u64) -> Seq<u8> {
    seq![(x >> 8u64) as u8, x as u8]
}

/// Big-endian bytes of the low 32 bits.
pub open spec fn be4(x: u64) -> Seq<u8> {
    seq![(x >> 24u64) as u8, (x >> 16u64) as u8, (x >> 8u64) as u8, x as u8]
}

/// Big-endian bytes of a 64-bit value.
pub open spec fn be8(x: u64) -> Seq<u8> {
    seq![
        (x >> 56u64) as u8,
        (x >> 48u64) as u8,
        (x >> 40u64) as u8,
        (x >> 32u64) as u8,
        (x >> 24u64) as u8,
        (x >> 16u64) as u8,
        (x >> 8u64) as u8,
        x as u8,
    ]
}

/// The preferred (shortest) encoding of an argument under a prefix byte
/// holding the major type.
pub open spec fn uint_bytes(prefix: u8, x: u64) -> Seq<u8> {
    if x <= 23 {
        seq![prefix | (x as u8)]
    } else if x <= 0xff {
        seq![prefix | 24u8, x as u8]
    } else if x <= 0xffff {
        seq![prefix | 25u8] + be2(x)
    } else if x <= 0xffff_ffff {
        seq![prefix | 26u8] + be4(x)
    } else {
        seq![prefix | 27u8] + be8(x)
    }
}

/// The encoding of a length, or of the indefinite-length marker.
pub open spec fn len_bytes(prefix: u8, len: Option<usize>) -> Seq<u8> {
    match len {
        Some(n) => uint_bytes(prefix, n as u64),
        None => seq![prefix | 31u8],
    }
}

/// The preferred encoding of a floating-point value: the narrowest of the
/// half, single and double widths that holds it exactly.
pub open spec fn float_bytes(b: u64) -> Seq<u8> {
    match narrow16(b) {
        Some(h) => seq![0xf9u8] + be2(h as u64),
        None => match narrow32(b) {
            Some(s) => seq![0xfau8] + be4(s as u64),
            None => seq![0xfbu8] + be8(b),
        },
    }
}

/// The encoding of a simple value; reserved values have none.
pub open spec fn simple_bytes(x: u8) -> Option<Seq<u8>> {
    if x <= 23 {
        Some(seq![0xe0u8 | x])
    } else if x <= 31 {
        None
    } else {
        Some(seq![0xf8u8, x])
    }
}

/// The wire encoding of a header, or `None` when it has none.
pub open spec fn header_bytes(h: Header) -> Option<Seq<u8>> {
    match h {
        Header::Positive(x) => Some(uint_bytes(0x00, x)),
        Header::Negative(x) => Some(uint_bytes(0x20, x)),
        Header::Bytes(x) => Some(len_bytes(0x40, x)),
        Header::Text(x) => Some(len_bytes(0x60, x)),
        Header::Array(x) => Some(len_bytes(0x80, x)),
        Header::Mapping(x) => Some(len_bytes(0xa0, x)),
        Header::Tag(x) => Some(uint_bytes(0xc0, x)),
        Header::Break => Some(seq![0xffu8]),
        Header::Simple(x) => simple_bytes(x),
        Header::Float(b) => Some(float_bytes(b)),
    }
}

/// An encoder for CBOR items, writing into an owned byte buffer.
///
/// [`Encoder`] only writes headers and raw bodies; it does not track
/// container balance, so callers write the right number of array and map
/// elements and the final [`Header::Break`] of indefinite-length items.
pub struct Encoder(Vec<u8>);

impl View for Encoder {
    type V = Seq<u8>;

    /// Everything written so far.
    closed spec fn view(&self) -> Seq<u8> {
        self.0@
    }
}

impl Encoder {
    /// Creates an encoder that appends to `buffer`.
    pub fn from(buffer: Vec<u8>) -> (enc: Self)
        ensures
            enc@ == buffer@,
    {
        Encoder(buffer)
    }

    /// Returns the buffer with everything written.
    pub fn into_inner(self) -> (buffer: Vec<u8>)
        ensures
            buffer@ == self@,
    {
        self.0
    }

    /// Returns the bytes written so far.
    pub fn as_slice(&self) -> (bytes: &[u8])
        ensures
            bytes@ == self@,
    {
        self.0.as_slice()
    }

    /// A capacity hint; the contents are unchanged.
    pub(crate) fn reserve(&mut self, additional: usize)
        ensures
            final(self)@ == old(self)@,
    {
        self.0.reserve(additional);
    }

    fn put1(&mut self, a: u8)
        ensures
            final(self)@ == old(self)@ + seq![a],
    {
        self.0.push(a);
    }

    fn put2(&mut self, a: u8, b: u8)
        ensures
            final(self)@ == old(self)@ + seq![a, b],
    {
        self.0.push(a);
        self.0.push(b);
    }

    fn put_be2(&mut self, x: u64)
        ensures
            final(self)@ == old(self)@ + be2(x),
    {
        self.0.push((x >> 8u64) as u8);
        self.0.push(x as u8);
    }

    fn put_be4(&mut self, x: u64)
        ensures
            final(self)@ == old(self)@ + be4(x),
    {
        self.0.push((x >> 24u64) as u8);
        self.0.push((x >> 16u64) as u8);
        self.0.push((x >> 8u64) as u8);
        self.0.push(x as u8);
    }

    fn put_be8(&mut self, x: u64)
        ensures
            final(self)@ == old(self)@ + be8(x),
    {
        self.0.push((x >> 56u64) as u8);
        self.0.push((x >> 48u64) as u8);
        self.0.push((x >> 40u64) as u8);
        self.0.push((x >> 32u64) as u8);
        self.0.push((x >> 24u64) as u8);
        self.0.push((x >> 16u64) as u8);
        self.0.push((x >> 8u64) as u8);
        self.0.push(x as u8);
    }

    /// Writes an argument in its shortest well-formed width.
    pub(crate) fn push_uint(&mut self, major: u8, value: u64) -> (r: Result<(), IoError>)
        requires
            major < 8,
        ensures
            r is Ok,
            final(self)@ == old(self)@ + uint_bytes((major << 5u8) as u8, value),
    {
        let prefix = major << 5u8;
        if value <= 23 {
            self.put1(prefix | value as u8);
        } else if value <= 0xff {
            self.put2(prefix | 24, value as u8);
        } else if value <= 0xffff {
            self.put1(prefix | 25);
            self.put_be2(value);
        } else if value <= 0xffff_ffff {
            self.put1(prefix | 26);
            self.put_be4(value);
        } else {
            self.put1(prefix | 27);
            self.put_be8(value);
        }
        Ok(())
    }

    /// Writes a length argument, or the indefinite-length marker.
    pub(crate) fn push_len(&mut self, major: u8, len: Option<usize>) -> (r: Result<(), IoError>)
        requires
            major < 8,
        ensures
            r is Ok,
            final(self)@ == old(self)@ + len_bytes((major << 5u8) as u8, len),
    {
        match len {
            Some(len) => self.push_uint(major, len as u64),
            None => {
                self.put1((major << 5u8) | 31);
                Ok(())
            },
        }
    }

    /// Writes the header of an unsigned integer.
    pub(crate) fn positive(&mut self, value: u64) -> (r: Result<(), IoError>)
        ensures
            r is Ok,
            final(self)@ == old(self)@ + uint_bytes(0x00, value),
    {
        proof { lemma_prefix_bytes(); }
        self.push_uint(0, value)
    }

    /// Writes the header of a negative integer `-1 - value`.
    pub(crate) fn negative(&mut self, value: u64) -> (r: Result<(), IoError>)
        ensures
            r is Ok,
            final(self)@ == old(self)@ + uint_bytes(0x20, value),
    {
        proof { lemma_prefix_bytes(); }
        self.push_uint(1, value)
    }

    /// Writes a tag.
    pub(crate) fn tag(&mut self, value: u64) -> (r: Result<(), IoError>)
        ensures
            r is Ok,
            final(self)@ == old(self)@ + uint_bytes(0xc0, value),
    {
        proof { lemma_prefix_bytes(); }
        self.push_uint(6, value)
    }

    /// Writes an array header.
    pub(crate) fn array(&mut self, len: Option<usize>) -> (r: Result<(), IoError>)
        ensures
            r is Ok,
            final(self)@ == old(self)@ + len_bytes(0x80, len),
    {
        proof { lemma_prefix_bytes(); }
        self.push_len(4, len)
    }

    /// Writes a map header.
    pub(crate) fn map(&mut self, len: Option<usize>) -> (r: Result<(), IoError>)
        ensures
            r is Ok,
            final(self)@ == old(self)@ + len_bytes(0xa0, len),
    {
        proof { lemma_prefix_bytes(); }
        self.push_len(5, len)
    }

    /// Writes a simple value; the reserved values 24 to 31 are refused and
    /// nothing is written.
    pub(crate) fn simple(&mut self, value: u8) -> (r: Result<(), IoError>)
        ensures
            match simple_bytes(value) {
                Some(bytes) => r is Ok && final(self)@ == old(self)@ + bytes,
                None => r == Err::<(), IoError>(IoError::Other) && final(self)@ == old(self)@,
            },
    {
        if value <= 23 {
            self.put1(0xe0 | value);
            Ok(())
        } else if value <= 31 {
            Err(IoError::Other)
        } else {
            self.put2(0xf8, value);
            Ok(())
        }
    }

    /// Writes a floating-point value in its preferred serialization
    /// (RFC 8949 §4.1): the shortest width that preserves the value exactly,
    /// NaN sign and payload included.
    pub(crate) fn float(&mut self, bits: u64) -> (r: Result<(), IoError>)
        ensures
            r is Ok,
            final(self)@ == old(self)@ + float_bytes(bits),
    {
        // A finite value can only narrow when the fraction bits beyond the
        // target's precision are zero, so one mask test skips the full
        // conversion for the typical value that cannot narrow. NaN and
        // infinity take the slow path unconditionally.
        let special = bits & 0x7ff0_0000_0000_0000u64 == 0x7ff0_0000_0000_0000u64;
        let mut half: Option<u16> = None;
        if special || bits & 0x3ff_ffff_ffffu64 == 0 {
            half = f64_to_f16_bits(bits);
        } else {
            proof {
                lemma_no_half_with_low_bits(bits);
            }
        }
        if let Some(n16) = half {
            self.put1(0xf9);
            self.put_be2(n16 as u64);
            return Ok(());
        }
        let mut single: Option<u32> = None;
        if special || bits & 0x1fff_ffffu64 == 0 {
            single = f64_to_f32_bits(bits);
        } else {
            proof {
                lemma_no_single_with_low_bits(bits);
            }
        }
        if let Some(n32) = single {
            self.put1(0xfa);
            self.put_be4(n32 as u64);
            return Ok(());
        }
        self.put1(0xfb);
        self.put_be8(bits);
        Ok(())
    }

    /// Writes a single header in its shortest well-formed form.
    ///
    /// Floating-point values use the shortest lossless width, NaN payloads
    /// included. A reserved simple value (24 to 31) is refused and nothing
    /// is written.
    pub fn push(&mut self, header: Header) -> (r: Result<(), IoError>)
        ensures
            match header_bytes(header) {
                Some(bytes) => r is Ok && final(self)@ == old(self)@ + bytes,
                None => r == Err::<(), IoError>(IoError::Other) && final(self)@ == old(self)@,
            },
    {
        match header {
            Header::Positive(x) => self.positive(x),
            Header::Negative(x) => self.negative(x),
            Header::Bytes(x) => {
                proof { lemma_prefix_bytes(); }
                self.push_len(2, x)
            },
            Header::Text(x) => {
                proof { lemma_prefix_bytes(); }
                self.push_len(3, x)
            },
            Header::Array(x) => self.array(x),
            Header::Mapping(x) => self.map(x),
            Header::Tag(x) => self.tag(x),
            Header::Break => {
                self.put1(0xff);
                Ok(())
            },
            Header::Simple(x) => self.simple(x),
            Header::Float(x) => self.float(x),
        }
    }

    /// Writes a definite-length byte string (header and body).
    ///
    /// Inside an indefinite-length byte string this writes one segment.
    pub fn bytes(&mut self, value: &[u8]) -> (r: Result<(), IoError>)
        ensures
            r is Ok,
            final(self)@ == old(self)@ + uint_bytes(0x40, value@.len() as u64) + value@,
    {
        // Only large bodies are worth a capacity hint.
        if value.len() >= 1024 {
            self.reserve(value.len().saturating_add(9));
        }
        proof { lemma_prefix_bytes(); }
        self.push_len(2, Some(value.len()))?;
        self.write_all(value)
    }

    /// Writes a definite-length text string (header and UTF-8 body).
    pub fn text(&mut self, value: &str) -> (r: Result<(), IoError>)
        ensures
            r is Ok,
            final(self)@ == old(self)@ + uint_bytes(0x60, value.spec_bytes().len() as u64)
                + value.spec_bytes(),
    {
        let bytes = value.as_bytes();
        if bytes.len() >= 1024 {
            self.reserve(bytes.len().saturating_add(9));
        }
        proof { lemma_prefix_bytes(); }
        self.push_len(3, Some(bytes.len()))?;
        self.write_all(bytes)
    }

    /// Writes raw bytes, such as an item body after its header.
    pub fn write_all(&mut self, data: &[u8]) -> (r: Result<(), IoError>)
        ensures
            r is Ok,
            final(self)@ == old(self)@ + data@,
    {
        let ghost start = self@;
        let mut i: usize = 0;
        while i < data.len()
            invariant
                i <= data@.len(),
                self@ == start + data@.subrange(0, i as int),
            decreases data@.len() - i,
        {
            self.0.push(data[i]);
            i = i + 1;
            assert(data@.subrange(0, i as int) == data@.subrange(0, i - 1) + seq![data@[i - 1]]);
        }
        assert(data@.subrange(0, data@.len() as int) == data@);
        Ok(())
    }

    /// Flushes the sink; an in-memory buffer has nothing pending.
    pub fn flush(&mut self) -> (r: Result<(), IoError>)
        ensures
            r is Ok,
            final(self)@ == old(self)@,
    {
        Ok(())
    }
}

/// A finite binary64 value whose low 42 fraction bits are not all zero has
/// no binary16 form.
proof fn lemma_no_half_with_low_bits(b: u64)
    requires
        b & 0x7ff0_0000_0000_0000u64 != 0x7ff0_0000_0000_0000u64,
        b & 0x3ff_ffff_ffffu64 != 0,
    ensures
        narrow16(b) is None,
{
    let exp = (b >> 52u64) & 0x7ffu64;
    let frac = b & frac_mask();
    assert({
        &&& exp != 0x7ff
        &&& !(exp == 0 && frac == 0)
        &&& frac & 0x3ff_ffff_ffffu64 != 0
        &&& (999 <= exp && exp <= 1008 ==> (0x0010_0000_0000_0000u64 | frac) & (((1u64 << ((1051 - exp) as u64)) - 1) as u64) != 0)
    }) by (bit_vector)
        requires
            b & 0x7ff0_0000_0000_0000u64 != 0x7ff0_0000_0000_0000u64,
            b & 0x3ff_ffff_ffffu64 != 0,
            exp == (b >> 52u64) & 0x7ffu64,
            frac == b & 0x000f_ffff_ffff_ffffu64,
    ;
}

/// A finite binary64 value whose low 29 fraction bits are not all zero has
/// no binary32 form.
proof fn lemma_no_single_with_low_bits(b: u64)
    requires
        b & 0x7ff0_0000_0000_0000u64 != 0x7ff0_0000_0000_0000u64,
        b & 0x1fff_ffffu64 != 0,
    ensures
        narrow32(b) is None,
{
    let exp = (b >> 52u64) & 0x7ffu64;
    let frac = b & frac_mask();
    assert({
        &&& exp != 0x7ff
        &&& !(exp == 0 && frac == 0)
        &&& frac & 0x1fff_ffffu64 != 0
        &&& (874 <= exp && exp <= 896 ==> (0x0010_0000_0000_0000u64 | frac) & (((1u64 << ((926 - exp) as u64)) - 1) as u64) != 0)
    }) by (bit_vector)
        requires
            b & 0x7ff0_0000_0000_0000u64 != 0x7ff0_0000_0000_0000u64,
            b & 0x1fff_ffffu64 != 0,
            exp == (b >> 52u64) & 0x7ffu64,
            frac == b & 0x000f_ffff_ffff_ffffu64,
    ;
}


/// The number of bytes of a header (prefix and argument) with the given
/// prefix byte, or `None` for a reserved additional-information value.
pub open spec fn head_width(first: u8) -> Option<nat> {
    let minor = first & 31u8;
    if minor <= 23 {
        Some(1)
    } else if minor == 24 {
        Some(2)
    } else if minor == 25 {
        Some(3)
    } else if minor == 26 {
        Some(5)
    } else if minor == 27 {
        Some(9)
    } else if minor == 31 {
        Some(1)
    } else {
        None
    }
}

/// Big-endian value of two bytes.
pub open spec fn from_be2(a: u8, b: u8) -> u64 {
    ((a as u64) << 8u64) | (b as u64)
}

/// Big-endian value of four bytes.
pub open spec fn from_be4(a: u8, b: u8, c: u8, d: u8) -> u64 {
    ((a as u64) << 24u64) | ((b as u64) << 16u64) | ((c as u64) << 8u64) | (d as u64)
}

/// Big-endian value of eight bytes.
pub open spec fn from_be8(raw: Seq<u8>) -> u64 {
    ((raw[1] as u64) << 56u64) | ((raw[2] as u64) << 48u64) | ((raw[3] as u64) << 40u64)
        | ((raw[4] as u64) << 32u64) | ((raw[5] as u64) << 24u64) | ((raw[6] as u64) << 16u64)
        | ((raw[7] as u64) << 8u64) | (raw[8] as u64)
}

/// The argument of a header given its raw bytes (`None` for the
/// indefinite-length marker).
pub open spec fn raw_arg(raw: Seq<u8>) -> Option<u64> {
    let minor = raw[0] & 31u8;
    if minor <= 23 {
        Some(minor as u64)
    } else if minor == 24 {
        Some(raw[1] as u64)
    } else if minor == 25 {
        Some(from_be2(raw[1], raw[2]))
    } else if minor == 26 {
        Some(from_be4(raw[1], raw[2], raw[3], raw[4]))
    } else if minor == 27 {
        Some(from_be8(raw))
    } else {
        None
    }
}

/// A length argument as a `usize`; one that does not fit is a syntax error.
pub open spec fn spec_len(arg: Option<u64>, start: usize) -> Result<Option<usize>, Error> {
    match arg {
        Some(x) => if x <= usize::MAX {
            Ok(Some(x as usize))
        } else {
            Err(Error::Syntax(start))
        },
        None => Ok(None),
    }
}

/// The header that the raw bytes `raw` (with argument `arg`) denote, or
/// the syntax error at `start` when they are not well-formed.
pub open spec fn decode_header_spec(raw: Seq<u8>, arg: Option<u64>, start: usize) -> Result<Header, Error> {
    let major = raw[0] >> 5u8;
    let minor = raw[0] & 31u8;
    if major == 0 || major == 1 || major == 6 {
        match arg {
            Some(x) => Ok(
                if major == 0 {
                    Header::Positive(x)
                } else if major == 1 {
                    Header::Negative(x)
                } else {
                    Header::Tag(x)
                },
            ),
            None => Err(Error::Syntax(start)),
        }
    } else if 2 <= major && major <= 5 {
        match spec_len(arg, start) {
            Ok(len) => Ok(
                if major == 2 {
                    Header::Bytes(len)
                } else if major == 3 {
                    Header::Text(len)
                } else if major == 4 {
                    Header::Array(len)
                } else {
                    Header::Mapping(len)
                },
            ),
            Err(e) => Err(e),
        }
    } else if minor <= 23 {
        Ok(Header::Simple(minor))
    } else if minor == 24 {
        if raw[1] >= 32 {
            Ok(Header::Simple(raw[1]))
        } else {
            Err(Error::Syntax(start))
        }
    } else if minor == 25 {
        Ok(Header::Float(widen16(from_be2(raw[1], raw[2]) as u16)))
    } else if minor == 26 {
        Ok(Header::Float(widen32(from_be4(raw[1], raw[2], raw[3], raw[4]) as u32)))
    } else if minor == 27 {
        Ok(Header::Float(from_be8(raw)))
    } else if minor == 31 {
        Ok(Header::Break)
    } else {
        Err(Error::Syntax(start))
    }
}

/// Interprets the raw bytes of a header (prefix and argument bytes; unused
/// positions are ignored) with its argument, reporting a syntax error at
/// `start` for an ill-formed header.
pub(crate) fn decode_header(raw: &[u8; 9], arg: Option<u64>, start: usize) -> (r: Result<Header, Error>)
    ensures
        r == decode_header_spec(raw@, arg, start),
{
    let major = raw[0] >> 5u8;
    let minor = raw[0] & 0b00011111u8;
    if major == 0 || major == 1 || major == 6 {
        match arg {
            Some(x) => Ok(
                if major == 0 {
                    Header::Positive(x)
                } else if major == 1 {
                    Header::Negative(x)
                } else {
                    Header::Tag(x)
                },
            ),
            None => Err(Error::Syntax(start)),
        }
    } else if 2 <= major && major <= 5 {
        // A length that does not fit in usize is reported as a syntax
        // error (nothing that large could be read anyway).
        let len = match arg {
            Some(x) => if x <= usize::MAX as u64 {
                Some(x as usize)
            } else {
                return Err(Error::Syntax(start));
            },
            None => None,
        };
        Ok(
            if major == 2 {
                Header::Bytes(len)
            } else if major == 3 {
                Header::Text(len)
            } else if major == 4 {
                Header::Array(len)
            } else {
                Header::Mapping(len)
            },
        )
    } else if minor <= 23 {
        Ok(Header::Simple(minor))
    } else if minor == 24 {
        // RFC 8949 §3.3: a 0xf8 prefix followed by a byte less than 0x20 is
        // not well-formed.
        if raw[1] >= 32 {
            Ok(Header::Simple(raw[1]))
        } else {
            Err(Error::Syntax(start))
        }
    } else if minor == 25 {
        let b1 = raw[1];
        let b2 = raw[2];
        let half = ((b1 as u64) << 8u64) | (b2 as u64);
        assert(((b1 as u64) << 8u64) | (b2 as u64) <= 0xffff) by (bit_vector);
        Ok(Header::Float(f16_to_f64_bits(half as u16)))
    } else if minor == 26 {
        let single = ((raw[1] as u64) << 24u64) | ((raw[2] as u64) << 16u64) | ((raw[3] as u64) << 8u64)
            | (raw[4] as u64);
        Ok(Header::Float(f32_to_f64_bits(single as u32)))
    } else if minor == 27 {
        Ok(
            Header::Float(
                ((raw[1] as u64) << 56u64) | ((raw[2] as u64) << 48u64) | ((raw[3] as u64) << 40u64)
                    | ((raw[4] as u64) << 32u64) | ((raw[5] as u64) << 24u64) | ((raw[6] as u64)
                    << 16u64) | ((raw[7] as u64) << 8u64) | (raw[8] as u64),
            ),
        )
    } else if minor == 31 {
        Ok(Header::Break)
    } else {
        Err(Error::Syntax(start))
    }
}


/// Pads the raw bytes of a header to the nine bytes of the longest one.
pub open spec fn pad9(raw: Seq<u8>) -> Seq<u8> {
    raw + Seq::new((9 - raw.len()) as nat, |i: int| 0u8)
}

/// Appends `bytes` to an active recording.
pub open spec fn record_add(record: Option<Seq<u8>>, bytes: Seq<u8>) -> Option<Seq<u8>> {
    match record {
        Some(r) => Some(r + bytes),
        None => None,
    }
}

/// The abstract state of a [`Decoder`].
pub struct DecoderView {
    /// The whole input.
    pub input: Seq<u8>,
    /// How many input bytes have been consumed.
    pub pos: int,
    /// The offset reported for the next item.
    pub offset: int,
    /// A header pushed back, with the offset just after it.
    pub pushback: Option<(Header, usize)>,
    /// The offset of the most recently pulled header.
    pub mark: int,
    /// The wire bytes of the most recently parsed header.
    pub last_header: Seq<u8>,
    /// The bytes read since a recording started, if one is active.
    pub record: Option<Seq<u8>>,
}

impl DecoderView {
    /// The input not consumed yet.
    pub open spec fn rest(self) -> Seq<u8> {
        self.input.subrange(self.pos, self.input.len() as int)
    }
}

/// What pulling a header does: the result and the next state.
pub open spec fn pull_spec(d: DecoderView) -> (Result<Header, Error>, DecoderView) {
    match d.pushback {
        Some((h, end)) => (Ok(h), DecoderView { pushback: None, mark: d.offset, offset: end as int, ..d }),
        None => {
            let rest = d.rest();
            let start = d.offset;
            if rest.len() == 0 {
                (Err(Error::Io(IoError::UnexpectedEof)), DecoderView { mark: start, ..d })
            } else {
                match head_width(rest[0]) {
                    None => (
                        Err(Error::Syntax(start as usize)),
                        DecoderView {
                            mark: start,
                            pos: d.pos + 1,
                            offset: start + 1,
                            record: record_add(d.record, seq![rest[0]]),
                            ..d
                        },
                    ),
                    Some(w) => if rest.len() < w {
                        (
                            Err(Error::Io(IoError::UnexpectedEof)),
                            DecoderView {
                                mark: start,
                                pos: d.input.len() as int,
                                offset: start + 1,
                                record: record_add(d.record, seq![rest[0]]),
                                ..d
                            },
                        )
                    } else {
                        let raw = rest.take(w as int);
                        (
                            decode_header_spec(pad9(raw), raw_arg(pad9(raw)), start as usize),
                            DecoderView {
                                mark: start,
                                pos: d.pos + w,
                                offset: start + w,
                                last_header: raw,
                                record: record_add(d.record, raw),
                                ..d
                            },
                        )
                    },
                }
            }
        },
    }
}

/// A decoder for CBOR items held in a byte slice.
///
/// Items are read one header at a time. After a string header, callers
/// read the corresponding body before pulling the next header.
pub struct Decoder<'a> {
    reader: &'a [u8],
    pos: usize,
    offset: usize,
    pushback: Option<(Header, usize)>,
    mark: usize,
    // The wire bytes of the most recently parsed header, so a recording
    // can be seeded when it starts behind a pushed-back header.
    last_header: ([u8; 9], u8),
    // When active, a byte-exact copy of everything read from the wire.
    record: Option<Vec<u8>>,
}

impl<'a> View for Decoder<'a> {
    type V = DecoderView;

    closed spec fn view(&self) -> DecoderView {
        DecoderView {
            input: self.reader@,
            pos: self.pos as int,
            offset: self.offset as int,
            pushback: self.pushback,
            mark: self.mark as int,
            last_header: self.last_header.0@.take(self.last_header.1 as int),
            record: match self.record {
                Some(v) => Some(v@),
                None => None,
            },
        }
    }
}

impl<'a> Decoder<'a> {
    /// The decoder's internal invariant, which every method keeps.
    pub closed spec fn wf(&self) -> bool {
        &&& self.pos <= self.reader@.len()
        &&& self.offset <= self.pos
        &&& self.mark <= self.pos
        &&& self.last_header.1 <= 9
        &&& (self.pushback matches Some((_, end)) ==> end <= self.pos)
    }

    /// A well-formed decoder stands within its input.
    pub proof fn lemma_within(&self)
        requires
            self.wf(),
        ensures
            0 <= self@.pos <= self@.input.len(),
            0 <= self@.offset,
    {
    }

    /// Creates a decoder reading `reader` from its first byte.
    pub fn from(reader: &'a [u8]) -> (d: Self)
        ensures
            d.wf(),
            d@ == (DecoderView {
                input: reader@,
                pos: 0,
                offset: 0,
                pushback: None,
                mark: 0,
                last_header: Seq::empty(),
                record: None,
            }),
    {
        let d = Decoder {
            reader,
            pos: 0,
            offset: 0,
            pushback: None,
            mark: 0,
            last_header: ([0u8; 9], 0),
            record: None,
        };
        assert(d.last_header.0@.take(0) =~= Seq::<u8>::empty());
        d
    }

    // Appends input bytes `from..to` to an active recording.
    fn record_range(&mut self, from: usize, to: usize)
        requires
            old(self).wf(),
            from <= to <= old(self)@.input.len(),
        ensures
            final(self).wf(),
            final(self)@ == (DecoderView {
                record: record_add(old(self)@.record, old(self)@.input.subrange(from as int, to as int)),
                ..old(self)@
            }),
    {
        let mut record = self.record.take();
        if let Some(v) = &mut record {
            let ghost start = v@;
            let mut i = from;
            while i < to
                invariant
                    from <= i <= to <= self.reader@.len(),
                    v@ == start + self.reader@.subrange(from as int, i as int),
                decreases to - i,
            {
                v.push(self.reader[i]);
                i = i + 1;
                assert(self.reader@.subrange(from as int, i as int) =~= self.reader@.subrange(
                    from as int,
                    i - 1,
                ) + seq![self.reader@[i - 1]]);
            }
        }
        self.record = record;
    }

    /// Pulls the next header from the input.
    ///
    /// A header pushed back with [`push`](Self::push) is returned first.
    /// For byte and text strings this returns the string header only; read
    /// the body before continuing.
    pub fn pull(&mut self) -> (r: Result<Header, Error>)
        requires
            old(self).wf(),
        ensures
            final(self).wf(),
            (r, final(self)@) == pull_spec(old(self)@),
    {
        if let Some((header, end)) = self.pushback.take() {
            self.mark = self.offset;
            self.offset = end;
            assert(self@ == pull_spec(old(self)@).1);
            return Ok(header);
        }
        let start = self.offset;
        self.mark = start;
        if self.pos >= self.reader.len() {
            assert(self@ == pull_spec(old(self)@).1);
            return Err(Error::Io(IoError::UnexpectedEof));
        }
        let first = self.reader[self.pos];
        let p0 = self.pos;
        self.pos = self.pos + 1;
        self.offset = self.offset + 1;
        self.record_range(p0, p0 + 1);
        assert(self.reader@.subrange(p0 as int, p0 + 1) =~= seq![first]);
        let minor = first & 0b00011111u8;
        let width: usize = if minor <= 23 {
            0
        } else if minor == 24 {
            1
        } else if minor == 25 {
            2
        } else if minor == 26 {
            4
        } else if minor == 27 {
            8
        } else if minor == 31 {
            0
        } else {
            assert(self@ == pull_spec(old(self)@).1);
            return Err(Error::Syntax(start));
        };
        if self.reader.len() - self.pos < width {
            // Reading past the end drains the input.
            self.pos = self.reader.len();
            assert(self@ == pull_spec(old(self)@).1);
            return Err(Error::Io(IoError::UnexpectedEof));
        }
        let p = self.pos;
        let b1 = if width >= 1 { self.reader[p] } else { 0 };
        let b2 = if width >= 2 { self.reader[p + 1] } else { 0 };
        let b3 = if width >= 4 { self.reader[p + 2] } else { 0 };
        let b4 = if width >= 4 { self.reader[p + 3] } else { 0 };
        let b5 = if width >= 8 { self.reader[p + 4] } else { 0 };
        let b6 = if width >= 8 { self.reader[p + 5] } else { 0 };
        let b7 = if width >= 8 { self.reader[p + 6] } else { 0 };
        let b8 = if width >= 8 { self.reader[p + 7] } else { 0 };
        let raw: [u8; 9] = [first, b1, b2, b3, b4, b5, b6, b7, b8];
        self.pos = p + width;
        self.offset = self.offset + width;
        self.record_range(p, p + width);
        let arg = if minor <= 23 {
            Some(minor as u64)
        } else if minor == 24 {
            Some(b1 as u64)
        } else if minor == 25 {
            Some(((b1 as u64) << 8u64) | (b2 as u64))
        } else if minor == 26 {
            Some(((b1 as u64) << 24u64) | ((b2 as u64) << 16u64) | ((b3 as u64) << 8u64) | (b4 as u64))
        } else if minor == 27 {
            Some(
                ((b1 as u64) << 56u64) | ((b2 as u64) << 48u64) | ((b3 as u64) << 40u64) | ((b4 as u64)
                    << 32u64) | ((b5 as u64) << 24u64) | ((b6 as u64) << 16u64) | ((b7 as u64) << 8u64)
                    | (b8 as u64),
            )
        } else {
            None
        };
        // Remember the exact wire spelling of this header.
        self.last_header = (raw, (width + 1) as u8);
        proof {
            let ghost rest = old(self)@.rest();
            let ghost w = (width + 1) as int;
            assert(head_width(first) == Some(w as nat));
            assert(rest.take(w) =~= old(self)@.input.subrange(p0 as int, p0 + w));
            assert(raw@ =~= pad9(rest.take(w)));
            assert(raw@.take(w) =~= rest.take(w));
            assert(seq![first] + old(self)@.input.subrange(p as int, (p + width) as int) =~= rest.take(w));
            assert(self@.pos == pull_spec(old(self)@).1.pos);
            assert(self@.offset == pull_spec(old(self)@).1.offset);
            assert(self@.last_header == pull_spec(old(self)@).1.last_header);
            assert(self@.record == pull_spec(old(self)@).1.record);
            assert(self@.mark == pull_spec(old(self)@).1.mark);
            assert(self@ == pull_spec(old(self)@).1);
        }
        decode_header(&raw, arg, start)
    }

    /// Pushes a header back, to be returned by the next [`pull`](Self::pull).
    ///
    /// Only push back the header returned by the immediately preceding
    /// `pull`; at most one header can be buffered.
    pub fn push(&mut self, header: Header)
        requires
            old(self).wf(),
            old(self)@.pushback is None,
        ensures
            final(self).wf(),
            final(self)@ == (DecoderView {
                pushback: Some((header, old(self)@.offset as usize)),
                offset: old(self)@.mark,
                ..old(self)@
            }),
    {
        let end = self.offset;
        self.offset = self.mark;
        self.pushback = Some((header, end));
    }

    /// Returns the byte offset of the next item in the stream.
    pub fn offset(&self) -> (o: usize)
        ensures
            o == self@.offset,
    {
        self.offset
    }

    /// Fills `data` with the next body bytes.
    ///
    /// Use this after pulling a definite-length byte or text string header.
    /// When fewer bytes remain than `data` holds, the input is drained,
    /// `data` is left as it was and an end-of-input error is returned.
    pub fn read_exact(&mut self, data: &mut [u8]) -> (r: Result<(), IoError>)
        requires
            old(self).wf(),
            old(self)@.pushback is None,
        ensures
            final(self).wf(),
            old(data)@.len() <= old(self)@.rest().len() ==> {
                &&& r is Ok
                &&& final(data)@ == old(self)@.rest().take(old(data)@.len() as int)
                &&& final(self)@ == (DecoderView {
                    pos: old(self)@.pos + old(data)@.len(),
                    offset: old(self)@.offset + old(data)@.len(),
                    record: record_add(old(self)@.record, old(self)@.rest().take(old(data)@.len() as int)),
                    ..old(self)@
                })
            },
            old(data)@.len() > old(self)@.rest().len() ==> {
                &&& r == Err::<(), IoError>(IoError::UnexpectedEof)
                &&& final(data)@ == old(data)@
                &&& final(self)@ == (DecoderView { pos: old(self)@.input.len() as int, ..old(self)@ })
            },
    {
        let len = data.len();
        let mut body: Vec<u8> = Vec::new();
        let r = self.read_into(len, &mut body);
        if r.is_ok() {
            let mut i: usize = 0;
            while i < len
                invariant
                    len == data@.len(),
                    body@.len() == len,
                    i <= len,
                    forall|k: int| 0 <= k < i ==> data@[k] == body@[k],
                decreases len - i,
            {
                data[i] = body[i];
                i = i + 1;
            }
            assert(data@ =~= body@);
        }
        r
    }

    /// Reads exactly `len` body bytes, appending them to `out`.
    ///
    /// When fewer than `len` bytes remain, the input is drained and an
    /// end-of-input error is returned.
    fn read_into(&mut self, len: usize, out: &mut Vec<u8>) -> (r: Result<(), IoError>)
        requires
            old(self).wf(),
            old(self)@.pushback is None,
        ensures
            final(self).wf(),
            len <= old(self)@.rest().len() ==> {
                &&& r is Ok
                &&& final(out)@ == old(out)@ + old(self)@.rest().take(len as int)
                &&& final(self)@ == (DecoderView {
                    pos: old(self)@.pos + len,
                    offset: old(self)@.offset + len,
                    record: record_add(old(self)@.record, old(self)@.rest().take(len as int)),
                    ..old(self)@
                })
            },
            len > old(self)@.rest().len() ==> {
                &&& r == Err::<(), IoError>(IoError::UnexpectedEof)
                &&& final(out)@ == old(out)@
                &&& final(self)@ == (DecoderView { pos: old(self)@.input.len() as int, ..old(self)@ })
            },
    {
        if self.reader.len() - self.pos < len {
            self.pos = self.reader.len();
            return Err(IoError::UnexpectedEof);
        }
        let start = self.pos;
        let end = start + len;
        let ghost out0 = out@;
        let mut i = start;
        while i < end
            invariant
                start <= i <= end <= self.reader@.len(),
                end == start + len,
                out@ == out0 + self.reader@.subrange(start as int, i as int),
            decreases end - i,
        {
            out.push(self.reader[i]);
            i = i + 1;
            assert(self.reader@.subrange(start as int, i as int) =~= self.reader@.subrange(
                start as int,
                i - 1,
            ) + seq![self.reader@[i - 1]]);
        }
        self.pos = start + len;
        self.offset = self.offset + len;
        self.record_range(start, start + len);
        assert(old(self)@.rest().take(len as int) =~= self.reader@.subrange(
            start as int,
            (start + len) as int,
        ));
        Ok(())
    }

    /// Starts a byte-exact recording of everything read from the input.
    ///
    /// A pushed-back header was consumed before the recording began, so its
    /// wire bytes seed the recording.
    pub fn start_recording(&mut self)
        requires
            old(self).wf(),
        ensures
            final(self).wf(),
            final(self)@ == (DecoderView {
                record: Some(
                    if old(self)@.pushback is Some {
                        old(self)@.last_header
                    } else {
                        Seq::empty()
                    },
                ),
                ..old(self)@
            }),
    {
        let mut record = Vec::new();
        if self.pushback.is_some() {
            let n = self.last_header.1 as usize;
            let mut i: usize = 0;
            while i < n
                invariant
                    n <= 9,
                    n == self.last_header.1,
                    i <= n,
                    record@ == self.last_header.0@.take(i as int),
                decreases n - i,
            {
                record.push(self.last_header.0[i]);
                i = i + 1;
                assert(self.last_header.0@.take(i as int) =~= self.last_header.0@.take(i - 1)
                    + seq![self.last_header.0@[i - 1]]);
            }
        }
        self.record = Some(record);
    }

    /// Stops recording and returns the bytes read since it started.
    pub fn take_recording(&mut self) -> (bytes: Vec<u8>)
        requires
            old(self).wf(),
        ensures
            final(self).wf(),
            bytes@ == (match old(self)@.record {
                Some(r) => r,
                None => Seq::empty(),
            }),
            final(self)@ == (DecoderView { record: None, ..old(self)@ }),
    {
        match self.record.take() {
            Some(v) => v,
            None => Vec::new(),
        }
    }

    /// Returns true when no input and no pushed-back header remain.
    pub fn is_exhausted(&self) -> (b: bool)
        requires
            self.wf(),
        ensures
            b == (self@.pushback is None && self@.rest().len() == 0),
    {
        self.pushback.is_none() && self.pos == self.reader.len()
    }
}


proof fn lemma_uint_parse(prefix: u8, x: u64)
    requires
        prefix & 31u8 == 0,
    ensures
        ({
            let b = uint_bytes(prefix, x);
            &&& b.len() >= 1
            &&& head_width(b[0]) == Some(b.len())
            &&& b[0] >> 5u8 == prefix >> 5u8
            &&& raw_arg(pad9(b)) == Some(x)
        }),
{
    let b = uint_bytes(prefix, x);
    let r = pad9(b);
    if x <= 23 {
        assert(r[0] == prefix | (x as u8));
        assert(x <= 23 && prefix & 31u8 == 0 ==> ({
            let c = prefix | (x as u8);
            &&& c & 31u8 == x as u8
            &&& c >> 5u8 == prefix >> 5u8
        })) by (bit_vector);
    } else if x <= 0xff {
        assert(r[0] == prefix | 24u8 && r[1] == x as u8);
        assert(x <= 0xff && prefix & 31u8 == 0 ==> ({
            let c = prefix | 24u8;
            &&& c & 31u8 == 24u8
            &&& c >> 5u8 == prefix >> 5u8
            &&& ((x as u8) as u64) == x
        })) by (bit_vector);
    } else if x <= 0xffff {
        assert(r[0] == prefix | 25u8 && r[1] == (x >> 8u64) as u8 && r[2] == x as u8);
        assert(x <= 0xffff && prefix & 31u8 == 0 ==> ({
            let c = prefix | 25u8;
            &&& c & 31u8 == 25u8
            &&& c >> 5u8 == prefix >> 5u8
            &&& from_be2((x >> 8u64) as u8, x as u8) == x
        })) by (bit_vector);
    } else if x <= 0xffff_ffff {
        assert(r[0] == prefix | 26u8 && r[1] == (x >> 24u64) as u8 && r[2] == (x >> 16u64) as u8
            && r[3] == (x >> 8u64) as u8 && r[4] == x as u8);
        assert(x <= 0xffff_ffff && prefix & 31u8 == 0 ==> ({
            let c = prefix | 26u8;
            &&& c & 31u8 == 26u8
            &&& c >> 5u8 == prefix >> 5u8
            &&& from_be4((x >> 24u64) as u8, (x >> 16u64) as u8, (x >> 8u64) as u8, x as u8) == x
        })) by (bit_vector);
    } else {
        assert(r[1] == (x >> 56u64) as u8 && r[2] == (x >> 48u64) as u8 && r[3] == (x >> 40u64) as u8
            && r[4] == (x >> 32u64) as u8 && r[5] == (x >> 24u64) as u8 && r[6] == (x >> 16u64) as u8
            && r[7] == (x >> 8u64) as u8 && r[8] == x as u8);
        assert(prefix & 31u8 == 0 ==> ({
            let c = prefix | 27u8;
            &&& c & 31u8 == 27u8
            &&& c >> 5u8 == prefix >> 5u8
        })) by (bit_vector);
        assert(((((x >> 56u64) as u8) as u64) << 56u64) | ((((x >> 48u64) as u8) as u64) << 48u64)
            | ((((x >> 40u64) as u8) as u64) << 40u64) | ((((x >> 32u64) as u8) as u64) << 32u64)
            | ((((x >> 24u64) as u8) as u64) << 24u64) | ((((x >> 16u64) as u8) as u64) << 16u64)
            | ((((x >> 8u64) as u8) as u64) << 8u64) | ((x as u8) as u64) == x) by (bit_vector);
    }
}

/// Every header with an encoding reads back as itself from that encoding,
/// whatever follows it, and consumes exactly the encoding.
pub proof fn lemma_header_roundtrip(h: Header, d: DecoderView, suffix: Seq<u8>)
    requires
        header_bytes(h) is Some,
        d.pushback is None,
        0 <= d.pos <= d.input.len(),
        d.rest() == header_bytes(h).unwrap() + suffix,
    ensures
        pull_spec(d).0 == Ok::<Header, Error>(h),
        pull_spec(d).1.pos == d.pos + header_bytes(h).unwrap().len(),
        pull_spec(d).1.offset == d.offset + header_bytes(h).unwrap().len(),
        pull_spec(d).1.last_header == header_bytes(h).unwrap(),
{
    let bytes = header_bytes(h).unwrap();
    let rest = d.rest();
    lemma_prefix_bytes();
    assert(bytes.len() >= 1) by {
        match h {
            Header::Positive(x) => lemma_uint_parse(0x00, x),
            Header::Negative(x) => lemma_uint_parse(0x20, x),
            Header::Tag(x) => lemma_uint_parse(0xc0, x),
            Header::Bytes(Some(n)) => lemma_uint_parse(0x40, n as u64),
            Header::Text(Some(n)) => lemma_uint_parse(0x60, n as u64),
            Header::Array(Some(n)) => lemma_uint_parse(0x80, n as u64),
            Header::Mapping(Some(n)) => lemma_uint_parse(0xa0, n as u64),
            _ => {},
        }
    }
    assert(rest.take(bytes.len() as int) =~= bytes);
    assert(rest[0] == bytes[0]);
    match h {
        Header::Positive(x) => {
            lemma_uint_parse(0x00, x);
            lemma_prefix_bytes();
        },
        Header::Negative(x) => {
            lemma_uint_parse(0x20, x);
            lemma_prefix_bytes();
        },
        Header::Tag(x) => {
            lemma_uint_parse(0xc0, x);
            lemma_prefix_bytes();
        },
        Header::Bytes(len) => {
            lemma_len_parse(0x40, len);
            lemma_prefix_bytes();
        },
        Header::Text(len) => {
            lemma_len_parse(0x60, len);
            lemma_prefix_bytes();
        },
        Header::Array(len) => {
            lemma_len_parse(0x80, len);
            lemma_prefix_bytes();
        },
        Header::Mapping(len) => {
            lemma_len_parse(0xa0, len);
            lemma_prefix_bytes();
        },
        Header::Break => {
            lemma_prefix_bytes();
        },
        Header::Simple(x) => {
            if x <= 23 {
                assert(x <= 23 ==> (0xe0u8 | x) >> 5u8 == 7 && (0xe0u8 | x) & 31u8 == x) by (bit_vector);
            } else {
                lemma_prefix_bytes();
            }
        },
        Header::Float(b) => {
            lemma_narrow16_complete(b);
            lemma_narrow32_complete(b);
            match narrow16(b) {
                Some(half) => {
                    lemma_prefix_bytes();
                    let x = half as u64;
                    assert(x <= 0xffff ==> from_be2((x >> 8u64) as u8, x as u8) == x) by (bit_vector);
                },
                None => match narrow32(b) {
                    Some(single) => {
                        lemma_prefix_bytes();
                        let x = single as u64;
                        assert(x <= 0xffff_ffff ==> from_be4((x >> 24u64) as u8, (x >> 16u64) as u8, (x >> 8u64) as u8, x as u8) == x) by (bit_vector);
                    },
                    None => {
                        lemma_prefix_bytes();
                        let r = pad9(bytes);
                        assert(r[1] == (b >> 56u64) as u8 && r[2] == (b >> 48u64) as u8 && r[3] == (b >> 40u64) as u8
                            && r[4] == (b >> 32u64) as u8 && r[5] == (b >> 24u64) as u8 && r[6] == (b >> 16u64) as u8
                            && r[7] == (b >> 8u64) as u8 && r[8] == b as u8);
                        assert(((((b >> 56u64) as u8) as u64) << 56u64) | ((((b >> 48u64) as u8) as u64) << 48u64)
                            | ((((b >> 40u64) as u8) as u64) << 40u64) | ((((b >> 32u64) as u8) as u64) << 32u64)
                            | ((((b >> 24u64) as u8) as u64) << 24u64) | ((((b >> 16u64) as u8) as u64) << 16u64)
                            | ((((b >> 8u64) as u8) as u64) << 8u64) | ((b as u8) as u64) == b) by (bit_vector);
                    },
                },
            }
        },
    }
}

proof fn lemma_len_parse(prefix: u8, len: Option<usize>)
    requires
        prefix & 31u8 == 0,
    ensures
        ({
            let b = len_bytes(prefix, len);
            &&& b.len() >= 1
            &&& head_width(b[0]) == Some(b.len())
            &&& b[0] >> 5u8 == prefix >> 5u8
            &&& spec_len(raw_arg(pad9(b)), 0) == Ok::<Option<usize>, Error>(len)
            &&& forall|start: usize| spec_len(raw_arg(pad9(b)), start) == Ok::<Option<usize>, Error>(len)
        }),
{
    match len {
        Some(n) => lemma_uint_parse(prefix, n as u64),
        None => {
            let b = len_bytes(prefix, len);
            assert(pad9(b)[0] == prefix | 31u8);
            assert(prefix & 31u8 == 0 ==> (prefix | 31u8) & 31u8 == 31u8 && (prefix | 31u8) >> 5u8 == prefix >> 5u8) by (bit_vector);
        },
    }
}

/// Pulling a header never moves backwards, keeps the input, and leaves no
/// header pushed back; without a pushed-back header, a successful pull
/// consumes at least one byte.
pub proof fn lemma_pull_progress(d: DecoderView)
    requires
        0 <= d.pos <= d.input.len(),
    ensures
        pull_spec(d).1.input == d.input,
        d.pos <= pull_spec(d).1.pos <= d.input.len(),
        pull_spec(d).1.pushback is None,
        d.pushback is None && pull_spec(d).0 is Ok ==> pull_spec(d).1.pos > d.pos,
{
}

/// The decoder state after reading `len` body bytes that are there.
pub open spec fn after_body(d: DecoderView, len: nat) -> DecoderView {
    DecoderView {
        pos: d.pos + len,
        offset: d.offset + len,
        record: record_add(d.record, d.rest().take(len as int)),
        ..d
    }
}

/// Reading the segments of an indefinite-length byte string (`text`
/// false) or text string (`text` true) up to its break: the result, the
/// state after it, and the segment bodies read, in order. A segment of
/// the other kind, or of indefinite length, is refused at its offset; a
/// text segment must be valid UTF-8 on its own.
pub open spec fn segments_spec(d: DecoderView, text: bool) -> (Result<(), Error>, DecoderView, Seq<Seq<u8>>)
    decreases (d.input.len() - d.pos) * 2 + (if d.pushback is Some { 1int } else { 0int }),
    when 0 <= d.pos <= d.input.len()
{
    let offset = d.offset;
    let (h, d1) = pull_spec(d);
    proof {
        lemma_pull_progress(d);
    }
    match h {
        Err(e) => (Err(e), d1, Seq::empty()),
        Ok(Header::Break) => (Ok(()), d1, Seq::empty()),
        Ok(hd) => {
            let seg: Option<usize> = match hd {
                Header::Bytes(Some(n)) => if !text { Some(n) } else { None },
                Header::Text(Some(n)) => if text { Some(n) } else { None },
                _ => None,
            };
            match seg {
                None => (Err(Error::Syntax(offset as usize)), d1, Seq::empty()),
                Some(len) => if len > d1.rest().len() {
                    (
                        Err(Error::Io(IoError::UnexpectedEof)),
                        DecoderView { pos: d1.input.len() as int, ..d1 },
                        Seq::empty(),
                    )
                } else {
                    let body = d1.rest().take(len as int);
                    let d2 = after_body(d1, len as nat);
                    if text && !valid_utf8(body) {
                        (Err(Error::Syntax(d1.offset as usize)), d2, Seq::empty())
                    } else {
                        let (r, d3, more) = segments_spec(d2, text);
                        (r, d3, seq![body] + more)
                    }
                },
            }
        },
    }
}

/// The segment bodies one after the other.
pub open spec fn concat_all(segs: Seq<Seq<u8>>) -> Seq<u8>
    decreases segs.len(),
{
    if segs.len() == 0 {
        Seq::empty()
    } else {
        segs[0] + concat_all(segs.drop_first())
    }
}

/// The text of the segment bodies one after the other.
pub open spec fn decode_all(segs: Seq<Seq<u8>>) -> Seq<char>
    decreases segs.len(),
{
    if segs.len() == 0 {
        Seq::empty()
    } else {
        decode_utf8(segs[0]) + decode_all(segs.drop_first())
    }
}

/// `core::str::from_utf8`: accepts exactly the byte strings that are valid
/// UTF-8, and then gives the text they encode.
#[verifier::external_body]
pub(crate) fn utf8_text(bytes: &[u8]) -> (r: Option<&str>)
    ensures
        r is Some <==> valid_utf8(bytes@),
        r matches Some(s) ==> s@ == decode_utf8(bytes@),
{
    match core::str::from_utf8(bytes) {
        Ok(s) => Some(s),
        Err(_) => None,
    }
}

impl<'a> Decoder<'a> {
    // Appends `len` body bytes to `out`.
    fn read_body(&mut self, len: usize, out: &mut Vec<u8>) -> (r: Result<(), Error>)
        requires
            old(self).wf(),
            old(self)@.pushback is None,
        ensures
            final(self).wf(),
            len <= old(self)@.rest().len() ==> r is Ok && final(out)@ == old(out)@ + old(self)@.rest().take(
                len as int,
            ) && final(self)@ == after_body(old(self)@, len as nat),
            len > old(self)@.rest().len() ==> r == Err::<(), Error>(Error::Io(IoError::UnexpectedEof))
                && final(out)@ == old(out)@ && final(self)@ == (DecoderView {
                pos: old(self)@.input.len() as int,
                ..old(self)@
            }),
    {
        match self.read_into(len, out) {
            Ok(()) => Ok(()),
            Err(e) => Err(Error::Io(e)),
        }
    }

    /// Reads the body of a byte string, appending it to `out`.
    ///
    /// Call this right after pulling `Header::Bytes(len)`, passing that
    /// `len`. The segments of an indefinite-length byte string are read up
    /// to its break.
    pub fn bytes_body(&mut self, len: Option<usize>, out: &mut Vec<u8>) -> (r: Result<(), Error>)
        requires
            old(self).wf(),
            old(self)@.pushback is None,
        ensures
            final(self).wf(),
            match len {
                Some(n) => if n <= old(self)@.rest().len() {
                    r is Ok && final(out)@ == old(out)@ + old(self)@.rest().take(n as int) && final(self)@
                        == after_body(old(self)@, n as nat)
                } else {
                    r == Err::<(), Error>(Error::Io(IoError::UnexpectedEof)) && final(out)@ == old(out)@
                        && final(self)@ == (DecoderView { pos: old(self)@.input.len() as int, ..old(self)@ })
                },
                None => {
                    let (res, d, segs) = segments_spec(old(self)@, false);
                    r == res && final(self)@ == d && final(out)@ == old(out)@ + concat_all(segs)
                },
            },
    {
        match len {
            Some(n) => self.read_body(n, out),
            None => {
                let ghost start = self@;
                let ghost out0 = out@;
                let ghost mut acc: Seq<Seq<u8>> = Seq::empty();
                loop
                    invariant
                        self.wf(),
                        len is None,
                        start == old(self)@,
                        out0 == old(out)@,
                        segments_spec(start, false).0 == segments_spec(self@, false).0,
                        segments_spec(start, false).1 == segments_spec(self@, false).1,
                        segments_spec(start, false).2 == acc + segments_spec(self@, false).2,
                        out@ == out0 + concat_all(acc),
                    decreases (self@.input.len() - self@.pos) * 2 + (if self@.pushback is Some { 1int } else { 0int }),
                {
                    let ghost cur = self@;
                    proof {
                        lemma_pull_progress(cur);
                    }
                    let offset = self.offset;
                    match self.pull() {
                        Ok(Header::Break) => {
                            assert(acc + Seq::<Seq<u8>>::empty() =~= acc);
                            return Ok(());
                        },
                        Ok(Header::Bytes(Some(n))) => {
                            let ghost d1 = self@;
                            match self.read_body(n, out) {
                                Ok(()) => {
                                    proof {
                                        let body = d1.rest().take(n as int);
                                        lemma_concat_all_push(acc, body);
                                        assert(acc.push(body) + segments_spec(self@, false).2 =~= acc + (seq![body]
                                            + segments_spec(self@, false).2));
                                        acc = acc.push(body);
                                    }
                                },
                                Err(e) => {
                                    assert(acc + Seq::<Seq<u8>>::empty() =~= acc);
                                    return Err(e);
                                },
                            }
                        },
                        Ok(_) => {
                            assert(acc + Seq::<Seq<u8>>::empty() =~= acc);
                            return Err(Error::Syntax(offset));
                        },
                        Err(e) => {
                            assert(acc + Seq::<Seq<u8>>::empty() =~= acc);
                            return Err(e);
                        },
                    }
                }
            },
        }
    }
}

/// Appending a segment appends its body.
pub proof fn lemma_concat_all_push(segs: Seq<Seq<u8>>, s: Seq<u8>)
    ensures
        concat_all(segs.push(s)) == concat_all(segs) + s,
    decreases segs.len(),
{
    let p = segs.push(s);
    if segs.len() == 0 {
        assert(p.drop_first() =~= Seq::<Seq<u8>>::empty());
        assert(concat_all(p.drop_first()) =~= Seq::<u8>::empty());
        assert(concat_all(p) == p[0] + concat_all(p.drop_first()));
        assert(concat_all(segs) =~= Seq::<u8>::empty());
        assert(concat_all(p) =~= concat_all(segs) + s);
    } else {
        lemma_concat_all_push(segs.drop_first(), s);
        assert(p.drop_first() =~= segs.drop_first().push(s));
        assert(concat_all(p) == p[0] + concat_all(p.drop_first()));
        assert(concat_all(p) =~= concat_all(segs) + s);
    }
}

/// Appending a segment appends its text.
pub proof fn lemma_decode_all_push(segs: Seq<Seq<u8>>, s: Seq<u8>)
    ensures
        decode_all(segs.push(s)) == decode_all(segs) + decode_utf8(s),
    decreases segs.len(),
{
    let p = segs.push(s);
    if segs.len() == 0 {
        assert(p.drop_first() =~= Seq::<Seq<u8>>::empty());
        assert(decode_all(p.drop_first()) =~= Seq::<char>::empty());
        assert(decode_all(p) == decode_utf8(p[0]) + decode_all(p.drop_first()));
        assert(decode_all(segs) =~= Seq::<char>::empty());
        assert(decode_all(p) =~= decode_all(segs) + decode_utf8(s));
    } else {
        lemma_decode_all_push(segs.drop_first(), s);
        assert(p.drop_first() =~= segs.drop_first().push(s));
        assert(decode_all(p) == decode_utf8(p[0]) + decode_all(p.drop_first()));
        assert(decode_all(p) =~= decode_all(segs) + decode_utf8(s));
    }
}

impl<'a> Decoder<'a> {
    /// Reads the body of a text string, appending its text to `out`.
    ///
    /// Call this right after pulling `Header::Text(len)`, passing that
    /// `len`. The segments of an indefinite-length text string are read up
    /// to its break; every segment must be valid UTF-8 on its own.
    pub fn text_body(&mut self, len: Option<usize>, out: &mut String) -> (r: Result<(), Error>)
        requires
            old(self).wf(),
            old(self)@.pushback is None,
        ensures
            final(self).wf(),
            match len {
                Some(n) => if n <= old(self)@.rest().len() {
                    let body = old(self)@.rest().take(n as int);
                    &&& final(self)@ == after_body(old(self)@, n as nat)
                    &&& if valid_utf8(body) {
                        r is Ok && final(out)@ == old(out)@ + decode_utf8(body)
                    } else {
                        r == Err::<(), Error>(Error::Syntax(old(self)@.offset as usize)) && final(out)@ == old(out)@
                    }
                } else {
                    r == Err::<(), Error>(Error::Io(IoError::UnexpectedEof)) && final(out)@ == old(out)@
                        && final(self)@ == (DecoderView { pos: old(self)@.input.len() as int, ..old(self)@ })
                },
                None => {
                    let (res, d, segs) = segments_spec(old(self)@, true);
                    r == res && final(self)@ == d && final(out)@ == old(out)@ + decode_all(segs)
                },
            },
    {
        let mut buffer: Vec<u8> = Vec::new();
        if let Some(n) = len {
            let offset = self.offset;
            match self.read_body(n, &mut buffer) {
                Ok(()) => {},
                Err(e) => return Err(e),
            }
            assert(buffer@ =~= old(self)@.rest().take(n as int));
            match utf8_text(buffer.as_slice()) {
                Some(text) => {
                    out.append(text);
                    return Ok(());
                },
                None => return Err(Error::Syntax(offset)),
            }
        }
        let ghost start = self@;
        let ghost out0 = out@;
        let ghost mut acc: Seq<Seq<u8>> = Seq::empty();
        loop
            invariant
                self.wf(),
                len is None,
                start == old(self)@,
                out0 == old(out)@,
                segments_spec(start, true).0 == segments_spec(self@, true).0,
                segments_spec(start, true).1 == segments_spec(self@, true).1,
                segments_spec(start, true).2 == acc + segments_spec(self@, true).2,
                out@ == out0 + decode_all(acc),
            decreases (self@.input.len() - self@.pos) * 2 + (if self@.pushback is Some { 1int } else { 0int }),
        {
            let ghost cur = self@;
            proof {
                lemma_pull_progress(cur);
            }
            let offset = self.offset;
            match self.pull() {
                Ok(Header::Break) => {
                    assert(acc + Seq::<Seq<u8>>::empty() =~= acc);
                    return Ok(());
                },
                Ok(Header::Text(Some(n))) => {
                    let ghost d1 = self@;
                    let body_offset = self.offset;
                    let mut segment: Vec<u8> = Vec::new();
                    match self.read_body(n, &mut segment) {
                        Ok(()) => {},
                        Err(e) => {
                            assert(acc + Seq::<Seq<u8>>::empty() =~= acc);
                            return Err(e);
                        },
                    }
                    let ghost body = d1.rest().take(n as int);
                    assert(segment@ =~= body);
                    match utf8_text(segment.as_slice()) {
                        Some(text) => {
                            out.append(text);
                            proof {
                                lemma_decode_all_push(acc, body);
                                assert(acc.push(body) + segments_spec(self@, true).2 =~= acc + (seq![body]
                                    + segments_spec(self@, true).2));
                                assert(out@ =~= out0 + decode_all(acc.push(body)));
                                acc = acc.push(body);
                            }
                        },
                        None => {
                            assert(acc + Seq::<Seq<u8>>::empty() =~= acc);
                            return Err(Error::Syntax(body_offset));
                        },
                    }
                },
                Ok(_) => {
                    assert(acc + Seq::<Seq<u8>>::empty() =~= acc);
                    return Err(Error::Syntax(offset));
                },
                Err(e) => {
                    assert(acc + Seq::<Seq<u8>>::empty() =~= acc);
                    return Err(e);
                },
            }
        }
    }
}

/// The state after a short header on a byte slice: its first byte is
/// consumed and recorded.
pub open spec fn after_prefix(d: DecoderView) -> DecoderView {
    DecoderView {
        pos: d.pos + 1,
        offset: d.offset + 1,
        record: record_add(d.record, seq![d.rest()[0]]),
        ..d
    }
}

/// What pulling a header from a byte slice does: as [`pull_spec`], except
/// that a reserved additional information (28 to 30) consumes nothing and
/// a header cut short by the end of the input consumes just its first
/// byte.
pub open spec fn pull_slice_spec(d: DecoderView) -> (Result<Header, Error>, DecoderView) {
    if d.pushback is None && d.rest().len() > 0 {
        let first = d.rest()[0];
        match head_width(first) {
            None => (Err(Error::Syntax(d.offset as usize)), DecoderView { mark: d.offset, ..d }),
            Some(w) => if d.rest().len() < w {
                (Err(Error::Io(IoError::UnexpectedEof)), DecoderView { mark: d.offset, ..after_prefix(d) })
            } else {
                pull_spec(d)
            },
        }
    } else {
        pull_spec(d)
    }
}

impl<'a> Decoder<'a> {
    // Consumes and records the first byte of a header that the input cuts
    // short.
    fn slice_eof_after_prefix(&mut self) -> (e: Error)
        requires
            old(self).wf(),
            old(self)@.rest().len() > 0,
        ensures
            final(self).wf(),
            final(self)@ == after_prefix(old(self)@),
            e == Error::Io(IoError::UnexpectedEof),
    {
        let p = self.pos;
        let n = self.reader.len();
        assert(p < n);
        self.record_range(p, p + 1);
        assert(self.reader@.subrange(p as int, p + 1) =~= seq![old(self)@.rest()[0]]);
        self.pos = p + 1;
        self.offset = self.offset + 1;
        Error::Io(IoError::UnexpectedEof)
    }

    // The width of the header starting the input, when its additional
    // information is not reserved.
    fn slice_width(&self) -> (w: Option<usize>)
        requires
            self.wf(),
            self@.rest().len() > 0,
        ensures
            w == (match head_width(self@.rest()[0]) {
                Some(n) => Some(n as usize),
                None => None::<usize>,
            }),
    {
        let minor = self.reader[self.pos] & 0b00011111u8;
        if minor <= 23 {
            Some(1)
        } else if minor == 24 {
            Some(2)
        } else if minor == 25 {
            Some(3)
        } else if minor == 26 {
            Some(5)
        } else if minor == 27 {
            Some(9)
        } else if minor == 31 {
            Some(1)
        } else {
            None
        }
    }

    /// Pulls a header from the byte slice.
    pub fn pull_slice(&mut self) -> (r: Result<Header, Error>)
        requires
            old(self).wf(),
        ensures
            final(self).wf(),
            (r, final(self)@) == pull_slice_spec(old(self)@),
    {
        if self.pushback.is_none() && self.pos < self.reader.len() {
            match self.slice_width() {
                None => {
                    self.mark = self.offset;
                    return Err(Error::Syntax(self.offset));
                },
                Some(w) => {
                    if self.reader.len() - self.pos < w {
                        self.mark = self.offset;
                        return Err(self.slice_eof_after_prefix());
                    }
                },
            }
        }
        self.pull()
    }

    /// Borrows exactly `len` body bytes of the input.
    ///
    /// Use this right after pulling a definite-length byte or text string
    /// header. When fewer than `len` bytes remain nothing is consumed.
    pub fn borrow_body(&mut self, len: usize) -> (r: Result<&'a [u8], IoError>)
        requires
            old(self).wf(),
            old(self)@.pushback is None,
        ensures
            final(self).wf(),
            len <= old(self)@.rest().len() ==> (r matches Ok(b) && b@ == old(self)@.rest().take(len as int)
                && final(self)@ == after_body(old(self)@, len as nat)),
            len > old(self)@.rest().len() ==> r == Err::<&[u8], IoError>(IoError::UnexpectedEof) && final(self)@
                == old(self)@,
    {
        if self.reader.len() - self.pos < len {
            return Err(IoError::UnexpectedEof);
        }
        let start = self.pos;
        let head = &self.reader[start..start + len];
        self.pos = start + len;
        self.offset = self.offset + len;
        self.record_range(start, start + len);
        assert(head@ =~= old(self)@.rest().take(len as int));
        Ok(head)
    }

    /// Pulls a plain positive or negative integer from the byte slice:
    /// `None` when the next item is something else, or a header is pushed
    /// back. The header read is not recorded.
    pub fn integer_slice(&mut self) -> (r: Option<Result<(bool, u64), Error>>)
        requires
            old(self).wf(),
        ensures
            final(self).wf(),
            ({
                let d = old(self)@;
                let rest = d.rest();
                if d.pushback is Some || rest.len() == 0 || rest[0] >> 5u8 > 1 {
                    r is None && final(self)@ == d
                } else {
                    match head_width(rest[0]) {
                        Some(w) => if w == 1 && rest[0] & 31u8 == 31 {
                            r == Some(Err::<(bool, u64), Error>(Error::Syntax(d.offset as usize)))
                                && final(self)@ == (DecoderView { mark: d.offset, ..d })
                        } else if rest.len() < w {
                            r == Some(Err::<(bool, u64), Error>(Error::Io(IoError::UnexpectedEof)))
                                && final(self)@ == (DecoderView { mark: d.offset, ..after_prefix(d) })
                        } else {
                            r == Some(Ok::<(bool, u64), Error>(
                                (rest[0] >> 5u8 == 1, raw_arg(pad9(rest.take(w as int))).unwrap()),
                            )) && final(self)@ == (DecoderView {
                                mark: d.offset,
                                pos: d.pos + w,
                                offset: d.offset + w,
                                ..d
                            })
                        },
                        None => r == Some(Err::<(bool, u64), Error>(Error::Syntax(d.offset as usize)))
                            && final(self)@ == (DecoderView { mark: d.offset, ..d }),
                    }
                }
            }),
    {
        if self.pushback.is_some() || self.pos >= self.reader.len() {
            return None;
        }
        let first = self.reader[self.pos];
        if first >> 5u8 > 1 {
            return None;
        }
        let start = self.offset;
        self.mark = start;
        let w = match self.slice_width() {
            Some(w) => w,
            None => return Some(Err(Error::Syntax(start))),
        };
        if first & 0b00011111u8 == 31 {
            return Some(Err(Error::Syntax(start)));
        }
        if self.reader.len() - self.pos < w {
            return Some(Err(self.slice_eof_after_prefix()));
        }
        let ghost d = self@;
        let saved_record = self.record.take();
        let saved_header = self.last_header;
        let pulled = self.pull();
        self.record = saved_record;
        self.last_header = saved_header;
        proof {
            let rest = d.rest();
            assert(rest[0] == first);
            assert(first >> 5u8 <= 1);
            let raw = pad9(rest.take(w as int));
            assert(raw[0] == first);
            assert(first & 31u8 != 31);
        }
        match pulled {
            Ok(Header::Positive(v)) => Some(Ok((false, v))),
            Ok(Header::Negative(v)) => Some(Ok((true, v))),
            _ => None,
        }
    }

    /// Pulls a plain boolean from the byte slice: `None` when the next
    /// item is something else, or a header is pushed back. The byte read is
    /// not recorded.
    pub fn bool_slice(&mut self) -> (r: Option<bool>)
        requires
            old(self).wf(),
        ensures
            final(self).wf(),
            ({
                let d = old(self)@;
                if d.pushback is None && d.rest().len() > 0 && (d.rest()[0] == 0xf4 || d.rest()[0] == 0xf5) {
                    r == Some(d.rest()[0] == 0xf5) && final(self)@ == (DecoderView {
                        mark: d.offset,
                        pos: d.pos + 1,
                        offset: d.offset + 1,
                        ..d
                    })
                } else {
                    r is None && final(self)@ == d
                }
            }),
    {
        if self.pushback.is_some() || self.pos >= self.reader.len() {
            return None;
        }
        let value = match self.reader[self.pos] {
            0xf4 => false,
            0xf5 => true,
            _ => return None,
        };
        self.mark = self.offset;
        self.pos = self.pos + 1;
        self.offset = self.offset + 1;
        Some(value)
    }

    /// Pulls a plain floating-point number (its binary64 bit pattern) from
    /// the byte slice: `None` when the next item is something else, or a
    /// header is pushed back. The header read is not recorded.
    pub fn float_slice(&mut self) -> (r: Option<Result<u64, Error>>)
        requires
            old(self).wf(),
        ensures
            final(self).wf(),
            ({
                let d = old(self)@;
                let rest = d.rest();
                if d.pushback is Some || rest.len() == 0 || !(rest[0] == 0xf9 || rest[0] == 0xfa || rest[0] == 0xfb) {
                    r is None && final(self)@ == d
                } else {
                    let w = head_width(rest[0]).unwrap();
                    if rest.len() < w {
                        r == Some(Err::<u64, Error>(Error::Io(IoError::UnexpectedEof))) && final(self)@ == after_prefix(d)
                    } else {
                        pull_spec(d).0 matches Ok(Header::Float(bits)) && r == Some(Ok::<u64, Error>(bits))
                            && final(self)@ == (DecoderView {
                            mark: d.offset,
                            pos: d.pos + w,
                            offset: d.offset + w,
                            ..d
                        })
                    }
                }
            }),
    {
        if self.pushback.is_some() || self.pos >= self.reader.len() {
            return None;
        }
        let first = self.reader[self.pos];
        if !(first == 0xf9 || first == 0xfa || first == 0xfb) {
            return None;
        }
        let w: usize = if first == 0xf9 {
            3
        } else if first == 0xfa {
            5
        } else {
            9
        };
        proof {
            lemma_prefix_bytes();
        }
        if self.reader.len() - self.pos < w {
            return Some(Err(self.slice_eof_after_prefix()));
        }
        let ghost d = self@;
        let saved_record = self.record.take();
        let saved_header = self.last_header;
        let pulled = self.pull();
        self.record = saved_record;
        self.last_header = saved_header;
        proof {
            let raw = pad9(d.rest().take(w as int));
            assert(raw[0] == first);
            lemma_prefix_bytes();
        }
        match pulled {
            Ok(Header::Float(bits)) => Some(Ok(bits)),
            _ => None,
        }
    }
}

/// Pushing a pulled header back and pulling again gives the same header
/// and the same state as the first pull.
pub proof fn lemma_push_replays(d: DecoderView)
    requires
        d.pushback is None,
        pull_spec(d).0 is Ok,
    ensures
        ({
            let (r, d1) = pull_spec(d);
            let pushed = DecoderView { pushback: Some((r->Ok_0, d1.offset as usize)), offset: d1.mark, ..d1 };
            0 <= d1.offset <= usize::MAX ==> pull_spec(pushed) == (r, d1)
        }),
{
}

/// A byte string written by [`Encoder::bytes`] reads back, header then
/// body, whatever follows it.
pub proof fn lemma_bytes_roundtrip(b: Seq<u8>, d: DecoderView, suffix: Seq<u8>)
    requires
        b.len() <= usize::MAX,
        d.pushback is None,
        0 <= d.pos <= d.input.len(),
        d.rest() == uint_bytes(0x40, b.len() as u64) + b + suffix,
    ensures
        pull_spec(d).0 == Ok::<Header, Error>(Header::Bytes(Some(b.len() as usize))),
        b.len() <= pull_spec(d).1.rest().len(),
        pull_spec(d).1.rest().take(b.len() as int) == b,
        after_body(pull_spec(d).1, b.len()).offset == d.offset + uint_bytes(0x40, b.len() as u64).len() + b.len(),
{
    let h = Header::Bytes(Some(b.len() as usize));
    let head = uint_bytes(0x40, b.len() as u64);
    assert(header_bytes(h) == Some(head));
    assert(d.rest() == head + (b + suffix));
    lemma_header_roundtrip(h, d, b + suffix);
    let d1 = pull_spec(d).1;
    assert(d1.rest() =~= d.rest().skip(head.len() as int));
    assert(d.rest().skip(head.len() as int) =~= b + suffix);
    assert((b + suffix).take(b.len() as int) =~= b);
}

/// A text string written by [`Encoder::text`] reads back as the same text,
/// whatever follows it.
pub proof fn lemma_text_roundtrip(t: Seq<char>, d: DecoderView, suffix: Seq<u8>)
    requires
        encode_utf8(t).len() <= usize::MAX,
        d.pushback is None,
        0 <= d.pos <= d.input.len(),
        d.rest() == uint_bytes(0x60, encode_utf8(t).len() as u64) + encode_utf8(t) + suffix,
    ensures
        pull_spec(d).0 == Ok::<Header, Error>(Header::Text(Some(encode_utf8(t).len() as usize))),
        encode_utf8(t).len() <= pull_spec(d).1.rest().len(),
        valid_utf8(pull_spec(d).1.rest().take(encode_utf8(t).len() as int)),
        decode_utf8(pull_spec(d).1.rest().take(encode_utf8(t).len() as int)) == t,
{
    let b = encode_utf8(t);
    let h = Header::Text(Some(b.len() as usize));
    let head = uint_bytes(0x60, b.len() as u64);
    assert(header_bytes(h) == Some(head));
    assert(d.rest() == head + (b + suffix));
    lemma_header_roundtrip(h, d, b + suffix);
    let d1 = pull_spec(d).1;
    assert(d1.rest() =~= d.rest().skip(head.len() as int));
    assert(d.rest().skip(head.len() as int) =~= b + suffix);
    assert((b + suffix).take(b.len() as int) =~= b);
    vstd::utf8::encode_utf8_valid_utf8(t);
    vstd::utf8::encode_utf8_decode_utf8(t);
}

} // verus!
